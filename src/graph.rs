//! Nodes, connections, functions and scripts: the graph that the
//! interpreter walks.

use std::sync::Arc;
use vstd::prelude::*;
use crate::names::{GlobalName, StringName};
use crate::registry::{NamespacedType, TypeRegistry};
use crate::value::{Var, VarRegisters, VarView};

verus! {

/// A native node: its declared input and output shapes. Its behaviour is
/// supplied by whoever runs a function, keyed by the node's name.
#[derive(Clone, Debug)]
pub struct BasicNode {
    pub name: GlobalName,
    pub inputs: VarRegisters,
    pub outputs: VarRegisters,
}

/// A node that calls a function of a script.
#[derive(Clone, Debug)]
pub struct ScriptNode {
    pub name: GlobalName,
    pub func: StringName,
    pub script: Arc<Script>,
}

/// An executable node: native, or a call into a script.
#[derive(Clone, Debug)]
pub enum Node {
    Basic(BasicNode),
    Script(ScriptNode),
}

impl NamespacedType for BasicNode {
    open spec fn spec_name(&self) -> (Seq<u8>, Seq<u8>) {
        self.name@
    }

    fn get_name(&self) -> (r: GlobalName) {
        self.name.duplicate()
    }
}

impl NamespacedType for ScriptNode {
    open spec fn spec_name(&self) -> (Seq<u8>, Seq<u8>) {
        self.name@
    }

    fn get_name(&self) -> (r: GlobalName) {
        self.name.duplicate()
    }
}

impl NamespacedType for Node {
    open spec fn spec_name(&self) -> (Seq<u8>, Seq<u8>) {
        match self {
            Node::Basic(b) => b.name@,
            Node::Script(s) => s.name@,
        }
    }

    fn get_name(&self) -> (r: GlobalName) {
        match self {
            Node::Basic(b) => b.get_name(),
            Node::Script(s) => s.get_name(),
        }
    }
}

impl Node {
    /// The inputs the node declares as required, in order. A script call
    /// declares none: its free variables are not known from its shape.
    pub open spec fn required(&self) -> Seq<Seq<u8>> {
        match self {
            Node::Basic(b) => b.inputs.names(),
            Node::Script(_) => Seq::empty(),
        }
    }

    /// The outputs the node declares, in order; a script call declares none.
    pub open spec fn produced(&self) -> Seq<Seq<u8>> {
        match self {
            Node::Basic(b) => b.outputs.names(),
            Node::Script(_) => Seq::empty(),
        }
    }

    /// The names of the inputs the node declares as required.
    pub fn get_inputs(&self) -> (r: Vec<StringName>)
        ensures
            r@.len() == self.required().len(),
            forall|i: int| 0 <= i < r@.len() ==> #[trigger] r@[i]@ == self.required()[i],
    {
        match self {
            Node::Basic(b) => bank_names(&b.inputs),
            Node::Script(_) => Vec::new(),
        }
    }

    /// The names of the outputs the node declares.
    pub fn get_outputs(&self) -> (r: Vec<StringName>)
        ensures
            r@.len() == self.produced().len(),
            forall|i: int| 0 <= i < r@.len() ==> #[trigger] r@[i]@ == self.produced()[i],
    {
        match self {
            Node::Basic(b) => bank_names(&b.outputs),
            Node::Script(_) => Vec::new(),
        }
    }
}

/// The names of a bank, in order.
pub fn bank_names(bank: &VarRegisters) -> (r: Vec<StringName>)
    ensures
        r@.len() == bank.names().len(),
        forall|i: int| 0 <= i < r@.len() ==> #[trigger] r@[i]@ == bank.names()[i],
{
    let mut r: Vec<StringName> = Vec::new();
    let mut i: usize = 0;
    while i < bank.0.len()
        invariant
            i <= bank.0@.len(),
            r@.len() == i,
            forall|j: int| 0 <= j < i ==> #[trigger] r@[j]@ == bank.names()[j],
        decreases bank.0@.len() - i,
    {
        r.push(bank.0[i].0.duplicate());
        i = i + 1;
    }
    r
}

/// An edge from an output port of one node to an input port of another,
/// with the value last sent along it during the current call.
#[derive(Clone, Debug)]
pub struct Connection {
    pub value: Var,
    pub from: usize,
    pub to: usize,
    pub from_param: StringName,
    pub to_param: StringName,
}

/// The plain view of a connection.
pub struct ConnView {
    pub value: VarView,
    pub from: usize,
    pub to: usize,
    pub from_param: Seq<u8>,
    pub to_param: Seq<u8>,
}

impl View for Connection {
    type V = ConnView;

    open spec fn view(&self) -> ConnView {
        ConnView {
            value: self.value@,
            from: self.from,
            to: self.to,
            from_param: self.from_param@,
            to_param: self.to_param@,
        }
    }
}

impl Connection {
    /// A connection from `from`'s port `from_param` to `to`'s port
    /// `to_param`, with nothing sent along it yet.
    pub fn new(from: usize, to: usize, from_param: StringName, to_param: StringName) -> (r:
        Connection)
        ensures
            r@ == (ConnView {
                value: VarView::Null,
                from,
                to,
                from_param: from_param@,
                to_param: to_param@,
            }),
    {
        Connection { value: Var::Null, from, to, from_param, to_param }
    }

    /// A copy of this connection.
    pub fn duplicate(&self) -> (r: Connection)
        ensures
            r@ == self@,
    {
        Connection {
            value: self.value.duplicate(),
            from: self.from,
            to: self.to,
            from_param: self.from_param.duplicate(),
            to_param: self.to_param.duplicate(),
        }
    }
}

/// A node placed in a function, with its position there.
#[derive(Clone, Debug)]
pub struct FunctionNode {
    pub index: usize,
    pub node: Arc<Node>,
}

/// A graph function: nodes by position, an entry position, and the
/// connections among those positions.
#[derive(Clone, Debug)]
pub struct Function {
    pub nodes: Vec<FunctionNode>,
    pub entry: usize,
    pub routing: Vec<Connection>,
}

/// The nodes that a list of names resolves to in a registry, in order;
/// names that are not registered are left out.
pub open spec fn resolve_names(reg: Map<(Seq<u8>, Seq<u8>), Node>, names: Seq<(Seq<u8>, Seq<u8>)>) -> Seq<Node>
    decreases names.len(),
{
    if names.len() == 0 {
        Seq::empty()
    } else {
        let rest = resolve_names(reg, names.drop_last());
        if reg.contains_key(names.last()) {
            rest.push(reg[names.last()])
        } else {
            rest
        }
    }
}

impl Function {
    /// A copy of this function, sharing its nodes.
    pub fn duplicate(&self) -> (r: Function)
        ensures
            r.node_seq() == self.node_seq(),
            r.nodes@.len() == self.nodes@.len(),
            forall|i: int| 0 <= i < r.nodes@.len() ==> #[trigger] r.nodes@[i].index == self.nodes@[i].index,
            r.routing_view() == self.routing_view(),
            r.entry == self.entry,
    {
        let mut nodes: Vec<FunctionNode> = Vec::new();
        let mut i: usize = 0;
        while i < self.nodes.len()
            invariant
                i <= self.nodes@.len(),
                nodes@.len() == i,
                forall|j: int| 0 <= j < i ==> #[trigger] nodes@[j].index == self.nodes@[j].index && *nodes@[j].node == *self.nodes@[j].node,
            decreases self.nodes@.len() - i,
        {
            let n = &self.nodes[i];
            nodes.push(FunctionNode { index: n.index, node: n.node.clone() });
            i = i + 1;
        }
        let mut routing: Vec<Connection> = Vec::new();
        let mut k: usize = 0;
        while k < self.routing.len()
            invariant
                k <= self.routing@.len(),
                routing@.len() == k,
                nodes@.len() == self.nodes@.len(),
                forall|j: int| 0 <= j < nodes@.len() ==> #[trigger] nodes@[j].index == self.nodes@[j].index && *nodes@[j].node == *self.nodes@[j].node,
                forall|j: int| 0 <= j < k ==> #[trigger] routing@[j]@ == self.routing@[j]@,
            decreases self.routing@.len() - k,
        {
            routing.push(self.routing[k].duplicate());
            k = k + 1;
        }
        let r = Function { nodes, entry: self.entry, routing };
        assert forall|j: int| 0 <= j < r.nodes@.len() implies *r.nodes@[j].node == *self.nodes@[j].node by {
            assert(nodes@[j].index == self.nodes@[j].index);
        }
        assert(r.node_seq() =~= self.node_seq());
        assert(r.routing_view() =~= self.routing_view());
        r
    }

    /// The connections, as plain values.
    pub open spec fn routing_view(&self) -> Seq<ConnView> {
        Seq::new(self.routing@.len(), |i: int| self.routing@[i]@)
    }

    /// The nodes, by position.
    pub open spec fn node_seq(&self) -> Seq<Node> {
        Seq::new(self.nodes@.len(), |i: int| *self.nodes@[i].node)
    }

    /// Each node records its own position.
    pub open spec fn indexed(&self) -> bool {
        forall|i: int| 0 <= i < self.nodes@.len() ==> #[trigger] self.nodes@[i].index == i
    }

    /// Builds a function from node names, resolving each against the
    /// registry in order and leaving out those that are not registered.
    pub fn new(
        registry: &TypeRegistry<Node>,
        nodes: Vec<GlobalName>,
        entry: usize,
        routing: Vec<Connection>,
    ) -> (r: Function)
        requires
            registry.wf(),
        ensures
            r.node_seq() == resolve_names(registry@, nodes@.map_values(|n: GlobalName| n@)),
            r.indexed(),
            r.entry == entry,
            r.routing@ == routing@,
    {
        let ghost names = nodes@.map_values(|n: GlobalName| n@);
        let mut list: Vec<FunctionNode> = Vec::new();
        let mut i: usize = 0;
        while i < nodes.len()
            invariant
                registry.wf(),
                names == nodes@.map_values(|n: GlobalName| n@),
                i <= nodes@.len(),
                Seq::new(list@.len(), |j: int| *list@[j].node) == resolve_names(
                    registry@,
                    names.subrange(0, i as int),
                ),
                forall|j: int| 0 <= j < list@.len() ==> #[trigger] list@[j].index == j,
            decreases nodes@.len() - i,
        {
            let ghost before = Seq::new(list@.len(), |j: int| *list@[j].node);
            assert(names.subrange(0, i + 1).drop_last() == names.subrange(0, i as int));
            match registry.get(&nodes[i]) {
                Some(node) => {
                    let index = list.len();
                    list.push(FunctionNode { index, node });
                    assert(Seq::new(list@.len(), |j: int| *list@[j].node) =~= before.push(
                        registry@[names[i as int]],
                    ));
                },
                None => {
                    assert(Seq::new(list@.len(), |j: int| *list@[j].node) =~= before);
                },
            }
            i = i + 1;
        }
        assert(names.subrange(0, nodes@.len() as int) == names);
        Function { nodes: list, entry, routing }
    }
}

/// A script: a qualified name and its functions by name.
#[derive(Clone, Debug)]
pub struct Script {
    pub name: GlobalName,
    pub funcs: Vec<(StringName, Function)>,
}

impl NamespacedType for Script {
    open spec fn spec_name(&self) -> (Seq<u8>, Seq<u8>) {
        self.name@
    }

    fn get_name(&self) -> (r: GlobalName) {
        self.name.duplicate()
    }
}

impl Script {
    /// A script with no functions yet.
    pub fn new(name: GlobalName) -> (r: Script)
        ensures
            r.name@ == name@,
            r.funcs@.len() == 0,
    {
        Script { name, funcs: Vec::new() }
    }

    /// Position of the function named `name`: the last one, when several
    /// share it, as a later definition replaces an earlier one.
    pub fn find_func(&self, name: &StringName) -> (r: Option<usize>)
        ensures
            match r {
                Some(i) => i < self.funcs@.len() && self.funcs@[i as int].0@ == name@ && forall|
                    j: int,
                | i < j < self.funcs@.len() ==> self.funcs@[j].0@ != name@,
                None => forall|j: int| 0 <= j < self.funcs@.len() ==> self.funcs@[j].0@ != name@,
            },
    {
        let mut i: usize = self.funcs.len();
        while i > 0
            invariant
                i <= self.funcs@.len(),
                forall|j: int| i <= j < self.funcs@.len() ==> self.funcs@[j].0@ != name@,
            decreases i,
        {
            if self.funcs[i - 1].0 == *name {
                return Some(i - 1);
            }
            i = i - 1;
        }
        None
    }
}

} // verus!
