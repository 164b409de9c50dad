use cho_lib::env::Environment;
use cho_lib::graph::{BasicNode, Connection, Function, Script};
use cho_lib::interp::{purge_duplicate_calls, Activation, Step};
use cho_lib::names::{GlobalName, StringName};
use cho_lib::value::{NodeError, Var, VarRegisters};

fn name(s: &str) -> StringName {
    StringName::from_text(s)
}

fn num(x: f64) -> Var {
    Var::Num(x.to_bits())
}

fn read_num(v: &Var) -> f64 {
    match v {
        Var::Num(bits) => f64::from_bits(*bits),
        other => panic!("not a number: {:?}", other),
    }
}

/// Native logic for the arithmetic nodes, as a host would supply it.
fn math(node: &BasicNode, inputs: VarRegisters) -> Result<VarRegisters, NodeError> {
    let path = node.name.to_path();
    let a = read_num(inputs.get(&name("a")).expect("input a"));
    let b = read_num(inputs.get(&name("b")).expect("input b"));
    let c = match path.as_str() {
        "std.math.add" => a + b,
        "std.math.subtract" => a - b,
        "std.math.multiply" => a * b,
        _ => return Err(NodeError::Unhandled(format!("no logic for {}", path))),
    };
    let mut out = VarRegisters::new();
    out.insert(name("c"), num(c));
    Ok(out)
}

struct TestScript {
    script: Script,
    env: Environment,
}

fn get_test_script() -> TestScript {
    let env = Environment::new(&Vec::new());
    let mut script = Script::new(GlobalName::from_path("test.script"));
    script.funcs.push((
        name("func"),
        Function::new(
            &env.nodes,
            vec![
                GlobalName::from_path("std.math.add"),
                GlobalName::from_path("std.math.subtract"),
                GlobalName::from_path("std.math.add"),
            ],
            2,
            vec![
                Connection::new(0, 1, name("c"), name("b")),
                Connection::new(0, 2, name("c"), name("b")),
                Connection::new(1, 2, name("c"), name("a")),
            ],
        ),
    ));
    TestScript { script, env }
}

fn inputs_ab() -> VarRegisters {
    let mut r = VarRegisters::new();
    r.insert(name("a"), num(3.0));
    r.insert(name("b"), num(4.0));
    r
}

#[test]
fn test_script_simple_math() {
    let test_script = get_test_script();
    assert_eq!(test_script.env.flags.len(), 0);
    let result = test_script
        .script
        .call_func(&name("func"), &math, inputs_ab(), &mut Vec::new());
    assert!(result.is_ok());
    let output = result.unwrap();
    assert_eq!(output.get(&name("c")).cloned(), Some(num(3.0)));
}

#[test]
fn test_script_immutable() {
    let test_script = get_test_script();
    for _ in 0..5 {
        let result = test_script
            .script
            .call_func(&name("func"), &math, inputs_ab(), &mut Vec::new());
        assert!(result.is_ok());
        let output = result.unwrap();
        assert_eq!(output.get(&name("c")).cloned(), Some(num(3.0)));
    }
}

#[test]
fn unknown_function_is_type_not_found() {
    let t = get_test_script();
    let mut stack = vec![9usize, 8];
    let r = t.script.call_func(&name("nope"), &math, inputs_ab(), &mut stack);
    assert!(matches!(r, Err(NodeError::TypeNotFound { .. })));
    assert_eq!(stack, vec![9, 8]);
    match t.script.call_func(&name("a.b"), &math, inputs_ab(), &mut Vec::new()) {
        Err(NodeError::TypeNotFound { name: n, .. }) => assert_eq!(n, GlobalName::from_path("a.b")),
        other => panic!("expected a missing function, got {:?}", other),
    }
    let mut stack = vec![5usize];
    assert!(t.script.call_func(&name("func"), &math, inputs_ab(), &mut stack).is_ok());
    assert!(stack.is_empty());
}

#[test]
fn entry_out_of_range_is_unhandled() {
    let t = get_test_script();
    let mut script = t.script.clone();
    script.funcs[0].1.entry = 7;
    let r = script.call_func(&name("func"), &math, inputs_ab(), &mut Vec::new());
    assert!(matches!(r, Err(NodeError::Unhandled(_))));
}

#[test]
fn missing_required_input_names_the_port() {
    let env = Environment::new(&Vec::new());
    let mut script = Script::new(GlobalName::from_path("test.missing"));
    script.funcs.push((
        name("f"),
        Function::new(&env.nodes, vec![GlobalName::from_path("std.math.add")], 0, vec![]),
    ));
    let mut inputs = VarRegisters::new();
    inputs.insert(name("a"), num(1.0));
    let mut stack = Vec::new();
    let r = script.call_func(&name("f"), &math, inputs, &mut stack);
    match r {
        Err(NodeError::NullException { name: n, arg, .. }) => {
            assert_eq!(arg, name("b"));
            assert_eq!(n, GlobalName::from_path("std.math.add"));
        }
        other => panic!("expected a missing input, got {:?}", other),
    }
}

#[test]
fn shared_producer_runs_once_and_fills_both_edges() {
    let t = get_test_script();
    let mut act = Activation::start(&t.script, &name("func"), inputs_ab()).unwrap();
    let mut runs = vec![0usize; 3];
    loop {
        match act.advance().unwrap() {
            Step::Done => break,
            Step::Backfill => {}
            Step::Run { node, inputs } => {
                runs[node] += 1;
                let n = match &*act.func.nodes[node].node {
                    cho_lib::graph::Node::Basic(b) => b.clone(),
                    _ => panic!("native node expected"),
                };
                let out = math(&n, inputs).unwrap();
                act.deliver(node, &out).unwrap();
                if node == 0 {
                    assert_eq!(act.func.routing[0].value, num(7.0));
                    assert_eq!(act.func.routing[1].value, num(7.0));
                }
            }
        }
    }
    assert_eq!(runs, vec![1, 1, 1]);
    assert_eq!(act.blackboard.get(&name("c")).cloned(), Some(num(3.0)));
}

#[test]
fn purge_keeps_topmost_occurrences() {
    let mut s = vec![2usize, 0, 1, 0];
    purge_duplicate_calls(&mut s);
    assert_eq!(s, vec![2, 1, 0]);
    let mut e: Vec<usize> = Vec::new();
    purge_duplicate_calls(&mut e);
    assert!(e.is_empty());
    let mut same = vec![4usize, 4, 4];
    purge_duplicate_calls(&mut same);
    assert_eq!(same, vec![4]);
}
