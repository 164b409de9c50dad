use cho_lib::env::{is_flag, Environment};
use cho_lib::filetype::{ConnectionProto, FunctionProto, ScriptProto};
use cho_lib::graph::{BasicNode, Connection, Function, Node, Script};
use cho_lib::names::{GlobalName, StringName};
use cho_lib::registry::{NamespacedType, TypeRegistry};
use cho_lib::stdlib::{get_var, get_var_bool, get_var_number, get_var_string, node_std_if_else};
use cho_lib::value::{NodeError, Var, VarRegisters};

fn name(s: &str) -> StringName {
    StringName::from_text(s)
}

fn bank(entries: Vec<(&str, Var)>) -> VarRegisters {
    let mut r = VarRegisters::new();
    for (k, v) in entries {
        r.insert(name(k), v);
    }
    r
}

#[test]
fn test_if_else() {
    let res = node_std_if_else(&bank(vec![("flag", Var::Bool(true))]));
    assert!(res.is_ok());
    let reg = res.unwrap();
    assert_eq!(reg.get(&name("if")).cloned(), Some(Var::Execution(true)));
    assert_eq!(reg.get(&name("else")).cloned(), Some(Var::Execution(false)));

    let res = node_std_if_else(&bank(vec![("flag", Var::Bool(false))]));
    assert!(res.is_ok());
    let reg = res.unwrap();
    assert_eq!(reg.get(&name("if")).cloned(), Some(Var::Execution(false)));
    assert_eq!(reg.get(&name("else")).cloned(), Some(Var::Execution(true)));
}

#[test]
fn if_else_rejects_missing_or_wrong_flag() {
    assert!(matches!(
        node_std_if_else(&VarRegisters::new()),
        Err(NodeError::NullException { .. })
    ));
    assert!(matches!(
        node_std_if_else(&bank(vec![("flag", Var::Num(0))])),
        Err(NodeError::MismatchedData { .. })
    ));
}

#[test]
fn getters_read_each_kind() {
    let n = GlobalName::from_path("std.test");
    let b = bank(vec![
        ("t", Var::String("hi".to_string())),
        ("n", Var::Num(2.5f64.to_bits())),
        ("f", Var::Bool(true)),
        ("z", Var::Null),
    ]);
    assert_eq!(get_var_string(&n, &b, &name("t")).unwrap(), "hi");
    assert_eq!(f64::from_bits(get_var_number(&n, &b, &name("n")).unwrap()), 2.5);
    assert!(get_var_bool(&n, &b, &name("f")).unwrap());
    assert!(matches!(get_var(&n, &b, &name("z")), Err(NodeError::NullException { .. })));
    assert!(matches!(get_var(&n, &b, &name("q")), Err(NodeError::NullException { .. })));
    assert!(matches!(
        get_var_number(&n, &b, &name("t")),
        Err(NodeError::MismatchedData { .. })
    ));
    assert!(matches!(
        get_var_string(&n, &b, &name("f")),
        Err(NodeError::MismatchedData { .. })
    ));
}

#[test]
fn from_path_splits_at_last_dot() {
    let g = GlobalName::from_path("std.math.add");
    assert_eq!(g.0 .0, name("std.math"));
    assert_eq!(g.1 .0, name("add"));
    let plain = GlobalName::from_path("main");
    assert!(plain.0 .0.is_empty());
    assert_eq!(plain.1 .0, name("main"));
    let trailing = GlobalName::from_path("a.");
    assert_eq!(trailing.0 .0, name("a"));
    assert!(trailing.1 .0.is_empty());
    assert!(GlobalName::from_path("").is_empty());
    assert!(!GlobalName::from_path("x").is_empty());
}

#[test]
fn to_path_joins_with_a_dot() {
    assert_eq!(GlobalName::from_path("std.math.add").to_path(), "std.math.add");
    assert_eq!(GlobalName::from_path("main").to_path(), ".main");
    assert_eq!(name("héllo").to_text(), "héllo");
}

#[test]
fn registry_registers_and_looks_up() {
    let mut reg: TypeRegistry<Node> = TypeRegistry::new();
    let node = Node::Basic(BasicNode {
        name: GlobalName::from_path("ns.one"),
        inputs: VarRegisters::new(),
        outputs: VarRegisters::new(),
    });
    reg.register(node);
    assert!(reg.contains(&GlobalName::from_path("ns.one")));
    assert!(!reg.contains(&GlobalName::from_path("ns.two")));
    assert!(!reg.contains(&GlobalName::from_path("other.one")));
    assert!(reg.get(&GlobalName::from_path("ns.two")).is_none());
    let got = reg.get(&GlobalName::from_path("ns.one")).unwrap();
    match &*got {
        Node::Basic(b) => assert_eq!(b.name, GlobalName::from_path("ns.one")),
        _ => panic!("wrong node"),
    }
}

#[test]
fn registering_a_taken_name_is_a_conflict() {
    let mut reg: TypeRegistry<Node> = TypeRegistry::new();
    let first = Node::Basic(BasicNode {
        name: GlobalName::from_path("ns.same"),
        inputs: bank(vec![("a", Var::Null)]),
        outputs: VarRegisters::new(),
    });
    let second = Node::Basic(BasicNode {
        name: GlobalName::from_path("ns.same"),
        inputs: VarRegisters::new(),
        outputs: bank(vec![("b", Var::Null)]),
    });
    assert!(reg.try_register(first).is_ok());
    let err = reg.try_register(second).unwrap_err();
    assert_eq!(err.name, GlobalName::from_path("ns.same"));
    match &*reg.get(&GlobalName::from_path("ns.same")).unwrap() {
        Node::Basic(b) => assert_eq!(b.inputs.len(), 1),
        _ => panic!("wrong node"),
    }
}

#[test]
fn bank_insert_replaces() {
    let mut b = VarRegisters::new();
    b.insert(name("x"), Var::Bool(true));
    b.insert(name("x"), Var::Bool(false));
    assert_eq!(b.len(), 1);
    assert_eq!(b.get(&name("x")).cloned(), Some(Var::Bool(false)));
    assert!(!b.contains_key(&name("y")));
}

#[test]
fn flags_follow_the_prefix_rule() {
    assert!(is_flag("CHO_DUMP_ENV", "1"));
    assert!(is_flag("cho_x", "yes"));
    assert!(!is_flag("CHO_X", "False"));
    assert!(!is_flag("CHO_X", "isFALSEy"));
    assert!(!is_flag("XCHO_X", "1"));
    let env = Environment::new(&vec![
        ("CHO_A".to_string(), "on".to_string()),
        ("PATH".to_string(), "/bin".to_string()),
        ("cho_b".to_string(), "false".to_string()),
    ]);
    assert_eq!(env.flags, vec![name("CHO_A")]);
    assert!(env.nodes.contains(&GlobalName::from_path("std.control.if")));
}

fn proto() -> ScriptProto {
    ScriptProto {
        global_name: "test.script".to_string(),
        funcs: vec![(
            "func".to_string(),
            FunctionProto {
                entry: 2,
                nodes: vec![
                    "std.math.add".to_string(),
                    "std.math.subtract".to_string(),
                    "std.math.add".to_string(),
                ],
                connections: vec![
                    ConnectionProto { from: 0, to: 1, to_param: "c".to_string(), from_param: "b".to_string() },
                    ConnectionProto { from: 0, to: 2, to_param: "c".to_string(), from_param: "b".to_string() },
                    ConnectionProto { from: 1, to: 2, to_param: "c".to_string(), from_param: "a".to_string() },
                ],
            },
        )],
    }
}

#[test]
fn test_deser() {
    let env = Environment::new(&Vec::new());
    let script = proto().to_script(&env.nodes);
    assert_eq!(script.name, GlobalName::from_path("test.script"));
    assert_eq!(script.funcs.len(), 1);
    let pos = script.find_func(&name("func"));
    assert!(pos.is_some());
    let func = &script.funcs[pos.unwrap()].1;
    assert_eq!(func.entry, 2);
    assert_eq!(func.nodes.len(), 3);
    assert_eq!(func.routing.len(), 3);
}

#[test]
fn unregistered_names_are_dropped_on_load() {
    let env = Environment::new(&Vec::new());
    let f = Function::new(
        &env.nodes,
        vec![GlobalName::from_path("std.math.add"), GlobalName::from_path("no.such"), GlobalName::from_path("std.print")],
        0,
        vec![],
    );
    assert_eq!(f.nodes.len(), 2);
    assert_eq!(f.nodes[1].index, 1);
    assert_eq!(f.nodes[1].node.get_name().to_path(), "std.print");
}

#[test]
fn store_and_load_round_trip() {
    let env = Environment::new(&Vec::new());
    let first = proto().to_script(&env.nodes);
    let stored = ScriptProto::from_script(&first);
    assert_eq!(stored.global_name, "test.script");
    assert_eq!(stored.funcs[0].1.nodes, proto().funcs[0].1.nodes);
    let loaded = stored.to_script(&env.nodes);
    let a = &first.funcs[0].1;
    let b = &loaded.funcs[0].1;
    assert_eq!(a.entry, b.entry);
    assert_eq!(a.nodes.len(), b.nodes.len());
    for (x, y) in a.nodes.iter().zip(b.nodes.iter()) {
        assert_eq!(x.node.get_name().to_path(), y.node.get_name().to_path());
    }
    for (x, y) in a.routing.iter().zip(b.routing.iter()) {
        assert_eq!((x.from, x.to), (y.from, y.to));
        assert_eq!(x.from_param, y.from_param);
        assert_eq!(x.to_param, y.to_param);
        assert_eq!(y.value, Var::Null);
    }
}

#[test]
fn stabilize_orders_functions_nodes_and_edges() {
    let p = ScriptProto {
        global_name: "s.t".to_string(),
        funcs: vec![
            (
                "zeta".to_string(),
                FunctionProto {
                    entry: 0,
                    nodes: vec!["b.x".to_string(), "a.y".to_string(), "a.x".to_string()],
                    connections: vec![
                        ConnectionProto { from: 1, to: 0, to_param: "p".to_string(), from_param: "b".to_string() },
                        ConnectionProto { from: 0, to: 2, to_param: "p".to_string(), from_param: "z".to_string() },
                        ConnectionProto { from: 0, to: 2, to_param: "q".to_string(), from_param: "a".to_string() },
                        ConnectionProto { from: 0, to: 1, to_param: "p".to_string(), from_param: "z".to_string() },
                    ],
                },
            ),
            ("alpha".to_string(), FunctionProto { entry: 3, nodes: vec![], connections: vec![] }),
        ],
    };
    let s = p.stabilize();
    assert_eq!(s.global_name, "s.t");
    assert_eq!(s.funcs[0].0, "alpha");
    assert_eq!(s.funcs[0].1.entry, 3);
    assert_eq!(s.funcs[1].0, "zeta");
    let f = &s.funcs[1].1;
    assert_eq!(f.nodes, vec!["a.x".to_string(), "a.y".to_string(), "b.x".to_string()]);
    let keys: Vec<(usize, usize, String)> =
        f.connections.iter().map(|c| (c.from, c.to, c.from_param.clone())).collect();
    assert_eq!(
        keys,
        vec![
            (1, 2, "b".to_string()),
            (2, 0, "a".to_string()),
            (2, 0, "z".to_string()),
            (2, 1, "z".to_string()),
        ]
    );
    assert_eq!(f.entry, 2);
}

#[test]
fn if_else_routes_only_the_fired_branch() {
    let env = Environment::new(&Vec::new());
    let mut script = Script::new(GlobalName::from_path("test.branch"));
    script.funcs.push((
        name("main"),
        Function::new(
            &env.nodes,
            vec![
                GlobalName::from_path("std.control.if"),
                GlobalName::from_path("std.math.add"),
                GlobalName::from_path("std.math.subtract"),
            ],
            0,
            vec![
                Connection::new(0, 1, name("if"), name("exec")),
                Connection::new(0, 2, name("else"), name("exec")),
            ],
        ),
    ));
    let run = |node: &BasicNode, inputs: VarRegisters| -> Result<VarRegisters, NodeError> {
        let path = node.name.to_path();
        if path == "std.control.if" {
            return node_std_if_else(&inputs);
        }
        let a = f64::from_bits(get_var_number(&node.name, &inputs, &name("a"))?);
        let b = f64::from_bits(get_var_number(&node.name, &inputs, &name("b"))?);
        let c = if path == "std.math.add" { a + b } else { a - b };
        let mut out = VarRegisters::new();
        out.insert(name("c"), Var::Num(c.to_bits()));
        Ok(out)
    };
    let inputs = bank(vec![
        ("flag", Var::Bool(true)),
        ("a", Var::Num(1.0f64.to_bits())),
        ("b", Var::Num(2.0f64.to_bits())),
    ]);
    let out = script.call_func(&name("main"), &run, inputs, &mut Vec::new()).unwrap();
    assert_eq!(out.get(&name("c")).cloned(), Some(Var::Num(3.0f64.to_bits())));
    let inputs = bank(vec![
        ("flag", Var::Bool(false)),
        ("a", Var::Num(1.0f64.to_bits())),
        ("b", Var::Num(2.0f64.to_bits())),
    ]);
    let out = script.call_func(&name("main"), &run, inputs, &mut Vec::new()).unwrap();
    assert_eq!(out.get(&name("c")).cloned(), Some(Var::Num((-1.0f64).to_bits())));
}

#[test]
fn stabilize_keeps_order_of_equal_keys() {
    let edge = |from: usize, to: usize, fp: &str, tp: &str| ConnectionProto {
        from,
        to,
        to_param: tp.to_string(),
        from_param: fp.to_string(),
    };
    let p = ScriptProto {
        global_name: "s.u".to_string(),
        funcs: vec![(
            "f".to_string(),
            FunctionProto {
                entry: 0,
                nodes: vec![],
                connections: vec![edge(1, 1, "a", "x"), edge(0, 2, "z", "q"), edge(0, 2, "z", "p")],
            },
        )],
    };
    let s = p.stabilize();
    let tos: Vec<String> = s.funcs[0].1.connections.iter().map(|c| c.to_param.clone()).collect();
    assert_eq!(tos, vec!["q".to_string(), "p".to_string(), "x".to_string()]);
}

#[test]
fn stabilize_moves_entry_with_its_node() {
    let p = ScriptProto {
        global_name: "s.v".to_string(),
        funcs: vec![(
            "f".to_string(),
            FunctionProto {
                entry: 0,
                nodes: vec!["b".to_string(), "a".to_string()],
                connections: vec![ConnectionProto {
                    from: 0,
                    to: 1,
                    to_param: "y".to_string(),
                    from_param: "x".to_string(),
                }],
            },
        )],
    };
    let s = p.stabilize();
    let f = &s.funcs[0].1;
    assert_eq!(f.nodes, vec!["a".to_string(), "b".to_string()]);
    assert_eq!(f.entry, 1);
    assert_eq!((f.connections[0].from, f.connections[0].to), (1, 0));
}
