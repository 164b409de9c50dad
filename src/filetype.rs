//! The persisted form of scripts: functions stored as an entry index, an
//! ordered list of dotted node names and edges by index.

use vstd::prelude::*;
use vstd::string::StringSliceAdditionalSpecFns;
use vstd::utf8::*;
use crate::graph::{ConnView, Connection, Function, Node, Script};
use crate::names::{last_delim, lemma_last_delim_of, path_text, split_path, str_bytes, text_of, GlobalName, StringName, PATH_DELIM};
use crate::order::{bytes_le, bytes_le_exec, insertion_sort, lemma_bytes_le_total, lemma_bytes_le_transitive, sorted_by, stable_arrangement, total_preorder};
use crate::registry::{NamespacedType, TypeRegistry};
use crate::value::VarView;

verus! {

/// A stored script: its dotted name and its functions by name.
#[derive(Debug, Clone)]
pub struct ScriptProto {
    pub global_name: String,
    pub funcs: Vec<(String, FunctionProto)>,
}

/// A stored function.
#[derive(Debug, Clone)]
pub struct FunctionProto {
    pub entry: usize,
    pub nodes: Vec<String>,
    pub connections: Vec<ConnectionProto>,
}

/// A stored edge, by node index and port name.
#[derive(Debug, Clone)]
pub struct ConnectionProto {
    pub from: usize,
    pub to: usize,
    pub to_param: String,
    pub from_param: String,
}

/// The qualified name that a stored dotted name denotes.
pub open spec fn stored_name(s: Seq<char>) -> (Seq<u8>, Seq<u8>) {
    split_path(encode_utf8(s))
}

/// The connection that a stored edge denotes, holding no value.
pub open spec fn stored_edge(c: ConnectionProto) -> ConnView {
    ConnView {
        value: VarView::Null,
        from: c.from,
        to: c.to,
        from_param: encode_utf8(c.from_param@),
        to_param: encode_utf8(c.to_param@),
    }
}

/// `p` is the stored form of `f`: the same entry, the dotted name of each
/// node in order, and each edge with its ports read as text.
pub open spec fn describes(p: FunctionProto, f: Function) -> bool {
    &&& p.entry == f.entry
    &&& p.nodes@.len() == f.nodes@.len()
    &&& forall|i: int| 0 <= i < p.nodes@.len() ==> #[trigger] p.nodes@[i]@ == path_text(
        f.node_seq()[i].spec_name(),
    )
    &&& p.connections@.len() == f.routing@.len()
    &&& forall|i: int| 0 <= i < p.connections@.len() ==> {
        let c = #[trigger] p.connections@[i];
        let e = f.routing_view()[i];
        &&& c.from == e.from
        &&& c.to == e.to
        &&& c.from_param@ == crate::names::text_of(e.from_param)
        &&& c.to_param@ == crate::names::text_of(e.to_param)
    }
}

impl FunctionProto {
    /// The qualified names of the stored nodes, in order.
    pub open spec fn node_names(&self) -> Seq<(Seq<u8>, Seq<u8>)> {
        Seq::new(self.nodes@.len(), |i: int| stored_name(self.nodes@[i]@))
    }

    /// Builds the function, resolving each stored node name against the
    /// registry in order; names that are not registered are left out.
    pub fn to_function(self, registry: &TypeRegistry<Node>) -> (r: Function)
        requires
            registry.wf(),
        ensures
            r.node_seq() == crate::graph::resolve_names(registry@, self.node_names()),
            r.indexed(),
            r.entry == self.entry,
            r.routing_view() == Seq::new(
                self.connections@.len(),
                |i: int| stored_edge(self.connections@[i]),
            ),
    {
        self.build_function(registry)
    }

    /// Builds the function without consuming the stored form.
    pub fn build_function(&self, registry: &TypeRegistry<Node>) -> (r: Function)
        requires
            registry.wf(),
        ensures
            r.node_seq() == crate::graph::resolve_names(registry@, self.node_names()),
            r.indexed(),
            r.entry == self.entry,
            r.routing_view() == Seq::new(
                self.connections@.len(),
                |i: int| stored_edge(self.connections@[i]),
            ),
    {
        let ghost names = self.node_names();
        let ghost edges = Seq::new(self.connections@.len(), |i: int| stored_edge(self.connections@[i]));
        let mut globals: Vec<GlobalName> = Vec::new();
        let mut i: usize = 0;
        while i < self.nodes.len()
            invariant
                i <= self.nodes@.len(),
                names == self.node_names(),
                globals@.len() == i,
                forall|j: int| 0 <= j < i ==> #[trigger] globals@[j]@ == names[j],
            decreases self.nodes@.len() - i,
        {
            globals.push(GlobalName::from_path(self.nodes[i].as_str()));
            i = i + 1;
        }
        assert(globals@.map_values(|n: GlobalName| n@) =~= names);
        let mut routing: Vec<Connection> = Vec::new();
        let mut k: usize = 0;
        while k < self.connections.len()
            invariant
                k <= self.connections@.len(),
                edges == Seq::new(self.connections@.len(), |i: int| stored_edge(self.connections@[i])),
                routing@.len() == k,
                forall|j: int| 0 <= j < k ==> #[trigger] routing@[j]@ == edges[j],
            decreases self.connections@.len() - k,
        {
            let c = &self.connections[k];
            routing.push(
                Connection::new(
                    c.from,
                    c.to,
                    StringName::from_text(c.from_param.as_str()),
                    StringName::from_text(c.to_param.as_str()),
                ),
            );
            k = k + 1;
        }
        let f = Function::new(registry, globals, self.entry, routing);
        assert(f.routing_view() =~= edges);
        f
    }

    /// The stored form of a function: its entry, the dotted name of each
    /// node in order, and its edges.
    pub fn from_function(func: &Function) -> (r: FunctionProto)
        ensures
            describes(r, *func),
    {
        let mut nodes: Vec<String> = Vec::new();
        let mut i: usize = 0;
        while i < func.nodes.len()
            invariant
                i <= func.nodes@.len(),
                nodes@.len() == i,
                forall|j: int| 0 <= j < i ==> #[trigger] nodes@[j]@ == path_text(
                    func.node_seq()[j].spec_name(),
                ),
            decreases func.nodes@.len() - i,
        {
            nodes.push(func.nodes[i].node.get_name().to_path());
            i = i + 1;
        }
        let mut connections: Vec<ConnectionProto> = Vec::new();
        let mut k: usize = 0;
        while k < func.routing.len()
            invariant
                k <= func.routing@.len(),
                connections@.len() == k,
                forall|j: int| 0 <= j < k ==> {
                    let c = #[trigger] connections@[j];
                    let e = func.routing_view()[j];
                    &&& c.from == e.from
                    &&& c.to == e.to
                    &&& c.from_param@ == crate::names::text_of(e.from_param)
                    &&& c.to_param@ == crate::names::text_of(e.to_param)
                },
            decreases func.routing@.len() - k,
        {
            let c = &func.routing[k];
            connections.push(
                ConnectionProto {
                    from: c.from,
                    to: c.to,
                    to_param: c.to_param.to_text(),
                    from_param: c.from_param.to_text(),
                },
            );
            k = k + 1;
        }
        let r = FunctionProto { entry: func.entry, nodes, connections };
        assert(r.nodes@.len() == func.nodes@.len());
        r
    }
}

impl ScriptProto {
    /// The stored form of a script: its dotted name, and the stored form of
    /// each function with its name read as text.
    pub fn from_script(script: &Script) -> (r: ScriptProto)
        ensures
            r.global_name@ == path_text(script.name@),
            r.funcs@.len() == script.funcs@.len(),
            forall|i: int| 0 <= i < r.funcs@.len() ==> #[trigger] r.funcs@[i].0@ == crate::names::text_of(
                script.funcs@[i].0@,
            ) && describes(r.funcs@[i].1, script.funcs@[i].1),
    {
        let mut funcs: Vec<(String, FunctionProto)> = Vec::new();
        let mut i: usize = 0;
        while i < script.funcs.len()
            invariant
                i <= script.funcs@.len(),
                funcs@.len() == i,
                forall|j: int| 0 <= j < i ==> #[trigger] funcs@[j].0@ == crate::names::text_of(
                    script.funcs@[j].0@,
                ) && describes(funcs@[j].1, script.funcs@[j].1),
            decreases script.funcs@.len() - i,
        {
            let entry = &script.funcs[i];
            funcs.push((entry.0.to_text(), FunctionProto::from_function(&entry.1)));
            i = i + 1;
        }
        ScriptProto { global_name: script.name.to_path(), funcs }
    }

    /// Builds the script: its name parsed from the dotted name, and each
    /// stored function built against the registry.
    pub fn to_script(self, registry: &TypeRegistry<Node>) -> (r: Script)
        requires
            registry.wf(),
        ensures
            r.name@ == stored_name(self.global_name@),
            r.funcs@.len() == self.funcs@.len(),
            forall|i: int| 0 <= i < r.funcs@.len() ==> {
                let f = #[trigger] r.funcs@[i];
                let p = self.funcs@[i];
                &&& f.0@ == encode_utf8(p.0@)
                &&& f.1.node_seq() == crate::graph::resolve_names(registry@, p.1.node_names())
                &&& f.1.indexed()
                &&& f.1.entry == p.1.entry
                &&& f.1.routing_view() == Seq::new(
                    p.1.connections@.len(),
                    |j: int| stored_edge(p.1.connections@[j]),
                )
            },
    {
        let ghost src = self.funcs@;
        let name = GlobalName::from_path(self.global_name.as_str());
        let mut funcs: Vec<(StringName, Function)> = Vec::new();
        let protos = self.funcs;
        let mut i: usize = 0;
        while i < protos.len()
            invariant
                protos@ == src,
                registry.wf(),
                i <= src.len(),
                funcs@.len() == i,
                forall|j: int| 0 <= j < i ==> {
                    let f = #[trigger] funcs@[j];
                    let p = src[j];
                    &&& f.0@ == encode_utf8(p.0@)
                    &&& f.1.node_seq() == crate::graph::resolve_names(registry@, p.1.node_names())
                    &&& f.1.indexed()
                    &&& f.1.entry == p.1.entry
                    &&& f.1.routing_view() == Seq::new(
                        p.1.connections@.len(),
                        |j: int| stored_edge(p.1.connections@[j]),
                    )
                },
            decreases src.len() - i,
        {
            let f = protos[i].1.build_function(registry);
            funcs.push((StringName::from_text(protos[i].0.as_str()), f));
            i = i + 1;
        }
        Script { name, funcs }
    }
}

/// Stored names in byte-wise order.
pub open spec fn text_le(a: String, b: String) -> bool {
    bytes_le(encode_utf8(a@), encode_utf8(b@))
}

/// Stored functions in byte-wise order of their names.
pub open spec fn named_le(a: (String, FunctionProto), b: (String, FunctionProto)) -> bool {
    text_le(a.0, b.0)
}

/// Stored edges ordered by source index, then destination index, then
/// source port.
pub open spec fn edge_le(a: ConnectionProto, b: ConnectionProto) -> bool {
    if a.from != b.from {
        a.from < b.from
    } else if a.to != b.to {
        a.to < b.to
    } else {
        text_le(a.from_param, b.from_param)
    }
}

/// The order of stored names, as a value.
pub open spec fn text_order() -> spec_fn(String, String) -> bool {
    |x: String, y: String| text_le(x, y)
}

/// The order of stored functions, as a value.
pub open spec fn named_order() -> spec_fn((String, FunctionProto), (String, FunctionProto)) -> bool {
    |x: (String, FunctionProto), y: (String, FunctionProto)| named_le(x, y)
}

/// The order of stored edges, as a value.
pub open spec fn edge_order() -> spec_fn(ConnectionProto, ConnectionProto) -> bool {
    |x: ConnectionProto, y: ConnectionProto| edge_le(x, y)
}

proof fn lemma_text_le_order()
    ensures
        total_preorder(text_order()),
{
    assert forall|a: String, b: String| text_le(a, b) || text_le(b, a) by {
        lemma_bytes_le_total(encode_utf8(a@), encode_utf8(b@));
    }
    assert forall|a: String, b: String, c: String| text_le(a, b) && text_le(b, c) implies text_le(a, c) by {
        lemma_bytes_le_transitive(encode_utf8(a@), encode_utf8(b@), encode_utf8(c@));
    }
}

proof fn lemma_named_le_order()
    ensures
        total_preorder(named_order()),
{
    lemma_text_le_order();
    assert forall|a: (String, FunctionProto), b: (String, FunctionProto)| named_le(a, b) || named_le(b, a) by {
        lemma_bytes_le_total(encode_utf8(a.0@), encode_utf8(b.0@));
    }
    assert forall|a: (String, FunctionProto), b: (String, FunctionProto), c: (String, FunctionProto)|
        named_le(a, b) && named_le(b, c) implies named_le(a, c) by {
        lemma_bytes_le_transitive(encode_utf8(a.0@), encode_utf8(b.0@), encode_utf8(c.0@));
    }
}

proof fn lemma_edge_le_order()
    ensures
        total_preorder(edge_order()),
{
    lemma_text_le_order();
    assert forall|a: ConnectionProto, b: ConnectionProto| edge_le(a, b) || edge_le(b, a) by {
        lemma_bytes_le_total(encode_utf8(a.from_param@), encode_utf8(b.from_param@));
    }
    assert forall|a: ConnectionProto, b: ConnectionProto, c: ConnectionProto|
        edge_le(a, b) && edge_le(b, c) implies edge_le(a, c) by {
        if a.from == b.from && b.from == c.from && a.to == b.to && b.to == c.to {
            lemma_bytes_le_transitive(
                encode_utf8(a.from_param@),
                encode_utf8(b.from_param@),
                encode_utf8(c.from_param@),
            );
        }
    }
}

/// Compares two stored names byte-wise.
fn text_le_exec(a: &String, b: &String) -> (r: bool)
    ensures
        r == text_le(*a, *b),
{
    bytes_le_exec(&str_bytes(a.as_str()), &str_bytes(b.as_str()))
}

/// Where a node moves to when the nodes are rearranged by `p` (new
/// position `i` holds old position `p[i]`); a position that no node holds
/// stays as it is.
pub open spec fn remap_index(p: Seq<int>, k: usize) -> usize {
    if exists|i: int| 0 <= i < p.len() && p[i] == k {
        (choose|i: int| 0 <= i < p.len() && p[i] == k) as usize
    } else {
        k
    }
}

/// A stored edge with both of its node positions moved as `p` moves nodes.
pub open spec fn remap_edge(p: Seq<int>, c: ConnectionProto) -> ConnectionProto {
    ConnectionProto {
        from: remap_index(p, c.from),
        to: remap_index(p, c.to),
        to_param: c.to_param,
        from_param: c.from_param,
    }
}

/// The edges of `a` with their node positions moved as `p` moves nodes.
pub open spec fn remapped_edges(a: Seq<ConnectionProto>, p: Seq<int>) -> Seq<ConnectionProto> {
    Seq::new(a.len(), |i: int| remap_edge(p, a[i]))
}

/// `b` is `a` with its nodes rearranged by `p`, in name order (equal names
/// keep their order), its entry and edges following the nodes, and its
/// edges in order (equal keys keep their order).
pub open spec fn stabilized_by(a: FunctionProto, b: FunctionProto, p: Seq<int>) -> bool {
    &&& stable_arrangement(a.nodes@, b.nodes@, p, text_order())
    &&& sorted_by(b.nodes@, text_order())
    &&& b.entry == remap_index(p, a.entry)
    &&& sorted_by(b.connections@, edge_order())
    &&& exists|q: Seq<int>|
        #[trigger] stable_arrangement(
            remapped_edges(a.connections@, p),
            b.connections@,
            q,
            edge_order(),
        )
}

/// `b` is the stable stored form of `a`.
pub open spec fn is_stabilized(a: FunctionProto, b: FunctionProto) -> bool {
    exists|p: Seq<int>| #[trigger] stabilized_by(a, b, p)
}

impl FunctionProto {
    /// Puts the node names in order and moves the entry and every edge with
    /// the nodes they point at, then puts the edges in order, for a stable
    /// stored form. Entries with equal keys keep their order.
    pub fn stabilized(self) -> (r: FunctionProto)
        ensures
            is_stabilized(self, r),
    {
        proof {
            lemma_text_le_order();
            lemma_edge_le_order();
        }
        let n = self.nodes.len();
        let ghost ns = self.nodes@;
        let mut idx: Vec<usize> = Vec::new();
        let mut i: usize = 0;
        while i < n
            invariant
                n == self.nodes@.len(),
                i <= n,
                idx@.len() == i,
                forall|k: int| 0 <= k < i ==> #[trigger] idx@[k] == k,
            decreases n - i,
        {
            idx.push(i);
            i = i + 1;
        }
        let ghost idx0 = idx@;
        let nodes_in = &self.nodes;
        let le_pos = |a: &usize, b: &usize| -> (r: bool)
            requires
                *a < nodes_in@.len(),
                *b < nodes_in@.len(),
            ensures
                r == text_le(nodes_in@[*a as int], nodes_in@[*b as int]),
            { text_le_exec(&nodes_in[*a], &nodes_in[*b]) };
        let ghost leq_pos = |x: usize, y: usize| text_le(ns[x as int], ns[y as int]);
        proof {
            assert forall|x: usize, y: usize| #[trigger] leq_pos(x, y) || leq_pos(y, x) by {
                lemma_bytes_le_total(encode_utf8(ns[x as int]@), encode_utf8(ns[y as int]@));
            }
            assert forall|x: usize, y: usize, z: usize| #[trigger] leq_pos(x, y) && #[trigger] leq_pos(y, z)
                implies leq_pos(x, z) by {
                lemma_bytes_le_transitive(
                    encode_utf8(ns[x as int]@),
                    encode_utf8(ns[y as int]@),
                    encode_utf8(ns[z as int]@),
                );
            }
        }
        let order = insertion_sort(idx, &le_pos, Ghost(leq_pos));
        let ghost p0 = choose|p: Seq<int>| stable_arrangement(idx0, order@, p, leq_pos);
        let ghost p = Seq::new(order@.len(), |k: int| order@[k] as int);
        assert forall|k: int| 0 <= k < p.len() implies #[trigger] p[k] == p0[k] && 0 <= p[k] < n by {
            assert(order@[k] == idx0[p0[k]]);
        }
        // the nodes in their new order
        let mut nodes: Vec<String> = Vec::new();
        let mut k: usize = 0;
        while k < order.len()
            invariant
                order@.len() == n,
                n == self.nodes@.len(),
                ns == self.nodes@,
                k <= n,
                nodes@.len() == k,
                forall|m: int| 0 <= m < p.len() ==> #[trigger] p[m] == order@[m] as int && 0 <= p[m] < n,
                p.len() == n,
                forall|m: int| 0 <= m < k ==> #[trigger] nodes@[m] == ns[p[m]],
            decreases n - k,
        {
            assert(p[k as int] == order@[k as int] as int && p[k as int] < n);
            nodes.push(self.nodes[order[k]].clone());
            k = k + 1;
        }
        // where each old position moves to
        let mut inv: Vec<usize> = Vec::new();
        let mut m: usize = 0;
        while m < n
            invariant
                m <= n,
                inv@.len() == m,
                forall|t: int| 0 <= t < m ==> #[trigger] inv@[t] == t,
            decreases n - m,
        {
            inv.push(m);
            m = m + 1;
        }
        let mut k: usize = 0;
        while k < n
            invariant
                order@.len() == n,
                p.len() == n,
                p.no_duplicates(),
                forall|m: int| 0 <= m < p.len() ==> #[trigger] p[m] == order@[m] as int && 0 <= p[m] < n,
                k <= n,
                inv@.len() == n,
                forall|t: int| 0 <= t < n ==> {
                    if exists|i: int| 0 <= i < k && p[i] == t {
                        p[#[trigger] inv@[t] as int] == t && inv@[t] < k
                    } else {
                        inv@[t] == t
                    }
                },
            decreases n - k,
        {
            let ghost before = inv@;
            assert(p[k as int] == order@[k as int] as int && p[k as int] < n);
            inv.set(order[k], k);
            assert forall|t: int| 0 <= t < n implies {
                if exists|i: int| 0 <= i < k + 1 && p[i] == t {
                    p[#[trigger] inv@[t] as int] == t && inv@[t] < k + 1
                } else {
                    inv@[t] == t
                }
            } by {
                if t == p[k as int] {
                } else {
                    assert(inv@[t] == before[t]);
                    if exists|i: int| 0 <= i < k && p[i] == t {
                    } else if exists|i: int| 0 <= i < k + 1 && p[i] == t {
                        let i = choose|i: int| 0 <= i < k + 1 && p[i] == t;
                        assert(i == k);
                    }
                }
            }
            k = k + 1;
        }
        assert forall|t: usize| #[trigger] remap_index(p, t) == if t < n { inv@[t as int] } else { t } by {
            if exists|i: int| 0 <= i < p.len() && p[i] == t {
                let c = choose|i: int| 0 <= i < p.len() && p[i] == t;
                assert(t < n);
                assert(p[inv@[t as int] as int] == t);
            } else if t < n {
                assert(inv@[t as int] == t);
            }
        }
        let entry = if self.entry < n { inv[self.entry] } else { self.entry };
        // the edges, following their nodes
        let ghost src = self.connections@;
        let mut moved: Vec<ConnectionProto> = Vec::new();
        let mut e: usize = 0;
        while e < self.connections.len()
            invariant
                src == self.connections@,
                e <= src.len(),
                inv@.len() == n,
                forall|t: usize| #[trigger] remap_index(p, t) == if t < n { inv@[t as int] } else { t },
                moved@.len() == e,
                forall|m: int| 0 <= m < e ==> #[trigger] moved@[m] == remap_edge(p, src[m]),
            decreases src.len() - e,
        {
            let c = &self.connections[e];
            let from = if c.from < n { inv[c.from] } else { c.from };
            let to = if c.to < n { inv[c.to] } else { c.to };
            assert(from == remap_index(p, c.from) && to == remap_index(p, c.to));
            moved.push(ConnectionProto {
                from,
                to,
                to_param: c.to_param.clone(),
                from_param: c.from_param.clone(),
            });
            e = e + 1;
        }
        assert(moved@ =~= remapped_edges(src, p));
        let le_edge = |a: &ConnectionProto, b: &ConnectionProto| -> (r: bool)
            ensures
                r == edge_le(*a, *b),
            {
                if a.from != b.from {
                    a.from < b.from
                } else if a.to != b.to {
                    a.to < b.to
                } else {
                    text_le_exec(&a.from_param, &b.from_param)
                }
            };
        let connections = insertion_sort(moved, &le_edge, Ghost(edge_order()));
        let r = FunctionProto { entry, nodes, connections };
        proof {
            assert(stable_arrangement(self.nodes@, r.nodes@, p, text_order())) by {
                assert forall|a: int, b: int| 0 <= a < b < r.nodes@.len() && text_order()(#[trigger] r.nodes@[b], #[trigger] r.nodes@[a]) implies p[a] < p[b] by {
                    assert(order@[a] == idx0[p0[a]] && order@[b] == idx0[p0[b]]);
                    assert(leq_pos(order@[b], order@[a]));
                    assert(leq_pos(order@[b], order@[a]) ==> p0[a] < p0[b]);
                }
                assert(p.no_duplicates()) by {
                    assert forall|a: int, b: int| 0 <= a < p.len() && 0 <= b < p.len() && a != b implies p[a] != p[b] by {
                        assert(p0[a] != p0[b]);
                    }
                }
            }
            assert(sorted_by(r.nodes@, text_order())) by {
                assert forall|a: int, b: int| 0 <= a < b < r.nodes@.len() implies text_order()(#[trigger] r.nodes@[a], #[trigger] r.nodes@[b]) by {
                    assert(leq_pos(order@[a], order@[b]));
                }
            }
            assert(stabilized_by(self, r, p));
        }
        r
    }
}

impl ScriptProto {
    /// Puts the functions in order of their names, and stabilizes each
    /// function: nodes in name order with the entry and edges moved along
    /// with them, then edges in order.
    pub fn stabilize(self) -> (r: ScriptProto)
        ensures
            r.global_name@ == self.global_name@,
            sorted_by(r.funcs@, named_order()),
            exists|mid: Seq<(String, FunctionProto)>|
                {
                    &&& mid.len() == self.funcs@.len()
                    &&& forall|i: int| 0 <= i < mid.len() ==> #[trigger] mid[i].0 == self.funcs@[i].0
                        && is_stabilized(self.funcs@[i].1, mid[i].1)
                    &&& r.funcs@.to_multiset() == #[trigger] mid.to_multiset()
                    &&& exists|p: Seq<int>|
                        #[trigger] stable_arrangement(
                            mid,
                            r.funcs@,
                            p,
                            named_order(),
                        )
                },
    {
        proof {
            lemma_named_le_order();
        }
        let ghost src = self.funcs@;
        let mut funcs = self.funcs;
        let mut mid: Vec<(String, FunctionProto)> = Vec::new();
        while funcs.len() > 0
            invariant
                mid@.len() + funcs@.len() == src.len(),
                funcs@ == src.subrange(mid@.len() as int, src.len() as int),
                forall|i: int| 0 <= i < mid@.len() ==> #[trigger] mid@[i].0 == src[i].0
                    && is_stabilized(src[i].1, mid@[i].1),
            decreases funcs@.len(),
        {
            let ghost k = mid@.len();
            let (name, f) = funcs.remove(0);
            assert(src[k as int] == (name, f));
            mid.push((name, f.stabilized()));
            assert(funcs@ =~= src.subrange(mid@.len() as int, src.len() as int));
        }
        let ghost m = mid@;
        let le_named = |a: &(String, FunctionProto), b: &(String, FunctionProto)| -> (r: bool)
            ensures
                r == named_le(*a, *b),
            { text_le_exec(&a.0, &b.0) };
        let sorted = insertion_sort(
            mid,
            &le_named,
            Ghost(named_order()),
        );
        assert(sorted@.to_multiset() == m.to_multiset());
        ScriptProto { global_name: self.global_name, funcs: sorted }
    }
}

/// The UTF-8 encoding of two texts one after the other is the two
/// encodings one after the other.
pub proof fn lemma_encode_concat(a: Seq<char>, b: Seq<char>)
    ensures
        encode_utf8(a + b) == encode_utf8(a) + encode_utf8(b),
    decreases a.len(),
{
    if a.len() > 0 {
        lemma_encode_concat(a.drop_first(), b);
        assert((a + b).drop_first() =~= a.drop_first() + b);
        assert((a + b)[0] == a[0]);
        assert(encode_utf8(a + b) =~= encode_utf8(a) + encode_utf8(b));
    } else {
        assert(a + b =~= b);
    }
}

/// Valid UTF-8 read as text and encoded again is unchanged.
pub proof fn lemma_text_round_trip(b: Seq<u8>)
    requires
        valid_utf8(b),
    ensures
        encode_utf8(text_of(b)) == b,
{
    decode_utf8_encode_utf8(b);
}

/// A qualified name that survives its dotted text: both parts are valid
/// UTF-8 and the local part holds no `.`.
pub open spec fn path_stable(n: (Seq<u8>, Seq<u8>)) -> bool {
    &&& valid_utf8(n.0)
    &&& valid_utf8(n.1)
    &&& forall|i: int| 0 <= i < n.1.len() ==> n.1[i] != PATH_DELIM
}

/// Parsing the dotted text of a path-stable name gives the name back.
pub proof fn lemma_path_round_trip(n: (Seq<u8>, Seq<u8>))
    requires
        path_stable(n),
    ensures
        stored_name(path_text(n)) == n,
{
    let dot = seq!['.'];
    lemma_encode_concat(text_of(n.0) + dot, text_of(n.1));
    lemma_encode_concat(text_of(n.0), dot);
    lemma_text_round_trip(n.0);
    lemma_text_round_trip(n.1);
    assert(encode_utf8(dot) =~= seq![PATH_DELIM]) by {
        assert(dot.drop_first() =~= Seq::<char>::empty());
        assert(('.' as u32) == 46);
        assert(46u32 & 0x7F == 46u32) by (bit_vector);
        assert(encode_scalar(dot[0] as u32) =~= seq![PATH_DELIM]);
        assert(encode_utf8(dot.drop_first()) =~= Seq::<u8>::empty());
        assert(encode_utf8(dot) == encode_scalar(dot[0] as u32) + encode_utf8(dot.drop_first()));
    }
    let b = n.0 + seq![PATH_DELIM] + n.1;
    assert(encode_utf8(path_text(n)) == b);
    let k = n.0.len() as int;
    assert forall|j: int| k < j < b.len() implies b[j] != PATH_DELIM by {
        assert(b[j] == n.1[j - k - 1]);
    }
    lemma_last_delim_of(b, k);
    assert(b.subrange(0, k) =~= n.0);
    assert(b.subrange(k + 1, b.len() as int) =~= n.1);
}

/// Resolving names that are all registered looks each of them up.
proof fn lemma_resolve_all(reg: Map<(Seq<u8>, Seq<u8>), Node>, names: Seq<(Seq<u8>, Seq<u8>)>)
    requires
        forall|i: int| 0 <= i < names.len() ==> reg.contains_key(#[trigger] names[i]),
    ensures
        crate::graph::resolve_names(reg, names) == Seq::new(names.len(), |i: int| reg[names[i]]),
    decreases names.len(),
{
    if names.len() > 0 {
        let t = names.drop_last();
        assert forall|i: int| 0 <= i < t.len() implies reg.contains_key(#[trigger] t[i]) by {
            assert(t[i] == names[i]);
        }
        lemma_resolve_all(reg, t);
        assert(reg.contains_key(names[names.len() - 1]));
        assert(crate::graph::resolve_names(reg, names) =~= Seq::new(names.len(), |i: int| reg[names[i]]));
    }
}

/// Storing a function and loading it again gives back the same entry, the
/// same node sequence and the same edges, each holding no value yet; this
/// holds when every node is registered under its own name, every node name
/// survives its dotted text, and every port name is valid UTF-8.
pub proof fn law_round_trip(f: Function, p: FunctionProto, reg: Map<(Seq<u8>, Seq<u8>), Node>)
    requires
        describes(p, f),
        forall|i: int| 0 <= i < f.node_seq().len() ==> {
            let n = #[trigger] f.node_seq()[i];
            &&& reg.contains_key(n.spec_name())
            &&& reg[n.spec_name()] == n
            &&& path_stable(n.spec_name())
        },
        forall|i: int| 0 <= i < f.routing_view().len() ==> {
            let e = #[trigger] f.routing_view()[i];
            valid_utf8(e.from_param) && valid_utf8(e.to_param)
        },
    ensures
        crate::graph::resolve_names(reg, p.node_names()) == f.node_seq(),
        p.entry == f.entry,
        Seq::new(p.connections@.len(), |i: int| stored_edge(p.connections@[i])) == Seq::new(
            f.routing_view().len(),
            |i: int| crate::interp::with_value(f.routing_view()[i], VarView::Null),
        ),
{
    let names = p.node_names();
    assert forall|i: int| 0 <= i < names.len() implies names[i] == f.node_seq()[i].spec_name() by {
        let n = f.node_seq()[i];
        lemma_path_round_trip(n.spec_name());
        assert(p.nodes@[i]@ == path_text(n.spec_name()));
    }
    assert forall|i: int| 0 <= i < names.len() implies reg.contains_key(#[trigger] names[i]) by {
        assert(names[i] == f.node_seq()[i].spec_name());
    }
    lemma_resolve_all(reg, names);
    assert(Seq::new(names.len(), |i: int| reg[names[i]]) =~= f.node_seq());
    assert forall|i: int| 0 <= i < p.connections@.len() implies stored_edge(#[trigger] p.connections@[i])
        == crate::interp::with_value(f.routing_view()[i], VarView::Null) by {
        let e = f.routing_view()[i];
        lemma_text_round_trip(e.from_param);
        lemma_text_round_trip(e.to_param);
    }
    assert(Seq::new(p.connections@.len(), |i: int| stored_edge(p.connections@[i])) =~= Seq::new(
        f.routing_view().len(),
        |i: int| crate::interp::with_value(f.routing_view()[i], VarView::Null),
    ));
}

} // verus!
