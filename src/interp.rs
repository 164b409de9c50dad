//! The demand-driven interpreter: a per-call activation whose stack,
//! connection caches and blackboard evolve one step at a time.

use vstd::prelude::*;
use crate::graph::{BasicNode, ConnView, Connection, Function, Node, Script};
use crate::names::{split_path, text_of, GlobalName, StringName};
use vstd::utf8::encode_utf8;
use crate::registry::NamespacedType;
use crate::value::{is_live_pulse, Var, VarRegisters, VarView, NodeError};

verus! {

/// The stack with every entry kept only at its topmost occurrence; the
/// order of the kept entries is unchanged.
pub open spec fn dedup_top(s: Seq<usize>) -> Seq<usize>
    decreases s.len(),
{
    if s.len() == 0 {
        s
    } else if s.drop_first().contains(s[0]) {
        dedup_top(s.drop_first())
    } else {
        seq![s[0]] + dedup_top(s.drop_first())
    }
}

/// Deduplication keeps exactly the entries of the stack, each once.
pub proof fn lemma_dedup_top(s: Seq<usize>)
    ensures
        dedup_top(s).no_duplicates(),
        forall|x: usize| #[trigger] dedup_top(s).contains(x) <==> s.contains(x),
    decreases s.len(),
{
    if s.len() > 0 {
        let t = s.drop_first();
        lemma_dedup_top(t);
        assert forall|x: usize| #[trigger] s.contains(x) <==> (x == s[0] || t.contains(x)) by {
            if s.contains(x) && x != s[0] {
                let i = choose|i: int| 0 <= i < s.len() && s[i] == x;
                assert(t[i - 1] == x);
            }
            if t.contains(x) {
                let i = choose|i: int| 0 <= i < t.len() && t[i] == x;
                assert(s[i + 1] == x);
            }
            if x == s[0] {
                assert(s[0] == x);
            }
        }
        if !t.contains(s[0]) {
            let d = dedup_top(t);
            let r = seq![s[0]] + d;
            assert forall|x: usize| #[trigger] r.contains(x) <==> (x == s[0] || d.contains(x)) by {
                if r.contains(x) && x != s[0] {
                    let i = choose|i: int| 0 <= i < r.len() && r[i] == x;
                    assert(d[i - 1] == x);
                }
                if d.contains(x) {
                    let i = choose|i: int| 0 <= i < d.len() && d[i] == x;
                    assert(r[i + 1] == x);
                }
                if x == s[0] {
                    assert(r[0] == x);
                }
            }
            assert forall|i: int, j: int| 0 <= i < r.len() && 0 <= j < r.len() && i != j implies r[i]
                != r[j] by {
                if i == 0 {
                    assert(d.contains(r[j]));
                } else if j == 0 {
                    assert(d.contains(r[i]));
                } else {
                    assert(r[i] == d[i - 1] && r[j] == d[j - 1]);
                }
            }
        }
    }
}

/// Whether `s[i]` occurs again above position `i`.
fn occurs_above(s: &Vec<usize>, i: usize) -> (r: bool)
    requires
        i < s@.len(),
    ensures
        r == s@.subrange(i + 1, s@.len() as int).contains(s@[i as int]),
{
    let ghost t = s@.subrange(i + 1, s@.len() as int);
    let n: usize = s.len();
    let mut j: usize = i + 1;
    while j < n
        invariant
            i < j <= s@.len(),
            n == s@.len(),
            t == s@.subrange(i + 1, s@.len() as int),
            forall|m: int| i < m < j ==> s@[m] != s@[i as int],
        decreases s@.len() - j,
    {
        if s[j] == s[i] {
            assert(t[j - i - 1] == s@[i as int]);
            return true;
        }
        j = j + 1;
    }
    assert forall|m: int| 0 <= m < t.len() implies t[m] != s@[i as int] by {
        assert(t[m] == s@[m + i + 1]);
    }
    false
}

/// Drops every entry of the stack that occurs again nearer the top,
/// keeping the order of the entries that remain.
pub fn purge_duplicate_calls(stack: &mut Vec<usize>)
    ensures
        final(stack)@ == dedup_top(old(stack)@),
{
    let ghost s = stack@;
    let mut r: Vec<usize> = Vec::new();
    let mut i: usize = 0;
    assert(s.subrange(0, s.len() as int) == s);
    while i < stack.len()
        invariant
            s == stack@,
            i <= s.len(),
            r@ + dedup_top(s.subrange(i as int, s.len() as int)) == dedup_top(s),
        decreases s.len() - i,
    {
        let ghost t = s.subrange(i as int, s.len() as int);
        assert(t.drop_first() == s.subrange(i + 1, s.len() as int));
        assert(t[0] == s[i as int]);
        let dup = occurs_above(stack, i);
        if !dup {
            let ghost before = r@;
            r.push(stack[i]);
            assert(r@ + dedup_top(t.drop_first()) =~= before + (seq![t[0]] + dedup_top(
                t.drop_first(),
            )));
        }
        i = i + 1;
    }
    assert(dedup_top(s.subrange(s.len() as int, s.len() as int)) =~= Seq::<usize>::empty());
    assert(r@ =~= r@ + Seq::<usize>::empty());
    *stack = r;
}

/// The producers of the connections into node `n` that still hold no
/// value, in the order of the connections.
pub open spec fn pending_sources(r: Seq<ConnView>, n: usize) -> Seq<usize>
    decreases r.len(),
{
    if r.len() == 0 {
        Seq::empty()
    } else {
        let p = pending_sources(r.drop_last(), n);
        let c = r.last();
        if c.to == n && c.value == VarView::Null {
            p.push(c.from)
        } else {
            p
        }
    }
}

/// No producer is pending exactly when every connection into `n` holds a
/// value.
pub proof fn lemma_pending_sources(r: Seq<ConnView>, n: usize)
    ensures
        pending_sources(r, n).len() == 0 <==> forall|i: int|
            0 <= i < r.len() && #[trigger] r[i].to == n ==> r[i].value != VarView::Null,
    decreases r.len(),
{
    if r.len() > 0 {
        lemma_pending_sources(r.drop_last(), n);
        if pending_sources(r, n).len() == 0 {
            assert forall|i: int| 0 <= i < r.len() && #[trigger] r[i].to == n implies r[i].value
                != VarView::Null by {
                if i < r.len() - 1 {
                    assert(r.drop_last()[i] == r[i]);
                }
            }
        }
        if pending_sources(r, n).len() != 0 && pending_sources(r.drop_last(), n).len() == 0 {
            assert(r[r.len() - 1].to == n);
        }
        if pending_sources(r.drop_last(), n).len() != 0 {
            let i = choose|i: int|
                0 <= i < r.drop_last().len() && #[trigger] r.drop_last()[i].to == n
                    && r.drop_last()[i].value == VarView::Null;
            assert(r[i] == r.drop_last()[i]);
        }
    }
}

/// The producers that must run before node `n` can: those of its incoming
/// connections that hold no value yet.
pub fn get_backfill_nodes(func: &Function, n: usize) -> (r: Vec<usize>)
    ensures
        r@ == pending_sources(func.routing_view(), n),
{
    let ghost rv = func.routing_view();
    let mut r: Vec<usize> = Vec::new();
    let mut i: usize = 0;
    while i < func.routing.len()
        invariant
            rv == func.routing_view(),
            i <= rv.len(),
            r@ == pending_sources(rv.subrange(0, i as int), n),
        decreases rv.len() - i,
    {
        assert(rv.subrange(0, i + 1).drop_last() == rv.subrange(0, i as int));
        let c = &func.routing[i];
        if c.to == n && c.value.is_null() {
            r.push(c.from);
        }
        i = i + 1;
    }
    assert(rv.subrange(0, rv.len() as int) == rv);
    r
}

/// The values that the connections into node `n` hold, by destination
/// port; a later connection to the same port overrides an earlier one.
pub open spec fn conn_inputs(r: Seq<ConnView>, n: usize) -> Map<Seq<u8>, VarView>
    decreases r.len(),
{
    if r.len() == 0 {
        Map::empty()
    } else {
        let m = conn_inputs(r.drop_last(), n);
        let c = r.last();
        if c.to == n && c.value != VarView::Null {
            m.insert(c.to_param, c.value)
        } else {
            m
        }
    }
}

/// A required input that neither a connection nor the blackboard supplies.
pub open spec fn is_missing(
    from_conns: Map<Seq<u8>, VarView>,
    board: Map<Seq<u8>, VarView>,
    q: Seq<u8>,
) -> bool {
    !from_conns.contains_key(q) && !board.contains_key(q)
}

/// The inputs of a node: what its connections supply, completed from the
/// blackboard with each required input they do not supply.
pub open spec fn fill_inputs(
    from_conns: Map<Seq<u8>, VarView>,
    board: Map<Seq<u8>, VarView>,
    reqs: Seq<Seq<u8>>,
) -> Map<Seq<u8>, VarView>
    decreases reqs.len(),
{
    if reqs.len() == 0 {
        from_conns
    } else {
        let m = fill_inputs(from_conns, board, reqs.drop_last());
        let q = reqs.last();
        if !m.contains_key(q) && board.contains_key(q) {
            m.insert(q, board[q])
        } else {
            m
        }
    }
}

/// Position of the first required input that is missing, if any.
pub open spec fn first_missing(
    from_conns: Map<Seq<u8>, VarView>,
    board: Map<Seq<u8>, VarView>,
    reqs: Seq<Seq<u8>>,
) -> Option<int> {
    if exists|i: int| 0 <= i < reqs.len() && is_missing(from_conns, board, reqs[i]) {
        Some(
            choose|i: int|
                0 <= i < reqs.len() && is_missing(from_conns, board, reqs[i]) && forall|j: int|
                    0 <= j < i ==> !is_missing(from_conns, board, #[trigger] reqs[j]),
        )
    } else {
        None
    }
}

/// The bank of the values that the connections into node `n` hold, by
/// destination port.
pub fn connection_inputs(func: &Function, n: usize) -> (regs: VarRegisters)
    ensures
        regs.wf(),
        regs@ == conn_inputs(func.routing_view(), n),
{
    let ghost rv = func.routing_view();
    let mut regs = VarRegisters::new();
    let mut i: usize = 0;
    while i < func.routing.len()
        invariant
            rv == func.routing_view(),
            i <= rv.len(),
            regs.wf(),
            regs@ == conn_inputs(rv.subrange(0, i as int), n),
        decreases rv.len() - i,
    {
        assert(rv.subrange(0, i + 1).drop_last() == rv.subrange(0, i as int));
        let c = &func.routing[i];
        if c.to == n && !c.value.is_null() {
            regs.insert(c.to_param.duplicate(), c.value.duplicate());
        }
        i = i + 1;
    }
    assert(rv.subrange(0, rv.len() as int) == rv);
    regs
}

/// The views of a sequence of names.
pub open spec fn name_views(v: Seq<StringName>) -> Seq<Seq<u8>> {
    Seq::new(v.len(), |j: int| v[j]@)
}

/// Completes `regs` from the blackboard with each name of `reqs` it lacks;
/// fails with the position of the first name found in neither.
pub fn complete_inputs(found: VarRegisters, reqs: &Vec<StringName>, blackboard: &VarRegisters) -> (r:
    Result<VarRegisters, usize>)
    requires
        found.wf(),
        blackboard.wf(),
    ensures
        r matches Ok(out) ==> first_missing(found@, blackboard@, name_views(reqs@)) is None
            && out.wf() && out@ == fill_inputs(found@, blackboard@, name_views(reqs@)),
        r matches Err(k) ==> k < reqs@.len(),
        r matches Err(k) ==> first_missing(found@, blackboard@, name_views(reqs@)) == Some(k as int),
{
    let ghost rq = name_views(reqs@);
    let ghost ci = found@;
    let ghost bb = blackboard@;
    let mut regs = found;
    let mut k: usize = 0;
    while k < reqs.len()
        invariant
            bb == blackboard@,
            ci == found@,
            blackboard.wf(),
            rq == name_views(reqs@),
            k <= rq.len(),
            regs.wf(),
            regs@ == fill_inputs(ci, bb, rq.subrange(0, k as int)),
            forall|q: Seq<u8>| ci.contains_key(q) ==> #[trigger] regs@.contains_key(q),
            forall|q: Seq<u8>| #[trigger]
                regs@.contains_key(q) ==> ci.contains_key(q) || bb.contains_key(q),
            forall|j: int| 0 <= j < k ==> !is_missing(ci, bb, #[trigger] rq[j]),
        decreases rq.len() - k,
    {
        assert(rq.subrange(0, k + 1).drop_last() == rq.subrange(0, k as int));
        assert(rq.subrange(0, k + 1).last() == rq[k as int]);
        let q = &reqs[k];
        assert(q@ == rq[k as int]);
        if !regs.contains_key(q) {
            match blackboard.get(q) {
                Some(v) => {
                    regs.insert(q.duplicate(), v.duplicate());
                },
                None => {
                    assert(is_missing(ci, bb, rq[k as int]));
                    assert(forall|j: int| 0 <= j < k ==> !is_missing(ci, bb, #[trigger] rq[j]));
                    assert(exists|i: int|
                        0 <= i < rq.len() && is_missing(ci, bb, rq[i]) && forall|j: int|
                            0 <= j < i ==> !is_missing(ci, bb, #[trigger] rq[j]));
                    let ghost fm = first_missing(ci, bb, rq);
                    assert(fm is Some);
                    let ghost w = fm->0;
                    assert(w == k) by {
                        if w < k {
                            assert(!is_missing(ci, bb, rq[w]));
                        }
                        if w > k {
                            assert(!is_missing(ci, bb, rq[k as int]));
                        }
                    }
                    return Err(k);
                },
            }
        }
        k = k + 1;
    }
    assert(rq.subrange(0, rq.len() as int) == rq);
    Ok(regs)
}

/// The input bank for node `n`: the values its connections hold, and each
/// required input they lack taken from the blackboard. Fails on the first
/// required input found in neither, naming the node and that input.
pub fn get_input_register(func: &Function, n: usize, blackboard: &VarRegisters) -> (r: Result<
    VarRegisters,
    NodeError,
>)
    requires
        n < func.nodes@.len(),
        blackboard.wf(),
    ensures
        ({
            let ci = conn_inputs(func.routing_view(), n);
            let reqs = func.node_seq()[n as int].required();
            match r {
                Ok(regs) => {
                    &&& first_missing(ci, blackboard@, reqs) is None
                    &&& regs.wf()
                    &&& regs@ == fill_inputs(ci, blackboard@, reqs)
                },
                Err(e) => {
                    &&& first_missing(ci, blackboard@, reqs) is Some
                    &&& e matches NodeError::NullException { name, arg, .. } && name@
                        == func.node_seq()[n as int].spec_name() && arg@ == reqs[first_missing(
                        ci,
                        blackboard@,
                        reqs,
                    )->0]
                },
            }
        }),
{
    let regs = connection_inputs(func, n);
    let node = &func.nodes[n].node;
    assert(**node == func.node_seq()[n as int]);
    let reqs = node.get_inputs();
    assert(name_views(reqs@) =~= node.required());
    match complete_inputs(regs, &reqs, blackboard) {
        Ok(out) => Ok(out),
        Err(k) => Err(
            NodeError::NullException {
                name: node.get_name(),
                arg: reqs[k].duplicate(),
                msg: String::new(),
            },
        ),
    }
}

/// Connection `c` leaves node `n` at port `k`.
pub open spec fn matches_port(c: ConnView, n: usize, k: Seq<u8>) -> bool {
    c.from == n && c.from_param == k
}

/// Some connection leaves node `n` at port `k`.
pub open spec fn has_port(r: Seq<ConnView>, n: usize, k: Seq<u8>) -> bool {
    exists|i: int| 0 <= i < r.len() && matches_port(r[i], n, k)
}

/// A connection holding value `v`.
pub open spec fn with_value(c: ConnView, v: VarView) -> ConnView {
    ConnView { value: v, from: c.from, to: c.to, from_param: c.from_param, to_param: c.to_param }
}

/// The connections after node `n` sends `v` out of port `k`: each that
/// leaves that port holds `v`.
pub open spec fn cache_output(r: Seq<ConnView>, n: usize, k: Seq<u8>, v: VarView) -> Seq<ConnView> {
    Seq::new(
        r.len(),
        |i: int|
            if matches_port(r[i], n, k) {
                with_value(r[i], v)
            } else {
                r[i]
            },
    )
}

/// The nodes scheduled when node `n` sends `v` out of port `k`: the
/// destination of each connection leaving that port, in order, when `v`
/// is a pulse that fired; none otherwise.
pub open spec fn triggered(r: Seq<ConnView>, n: usize, k: Seq<u8>, v: VarView) -> Seq<usize>
    decreases r.len(),
{
    if r.len() == 0 {
        Seq::empty()
    } else {
        let t = triggered(r.drop_last(), n, k, v);
        if matches_port(r.last(), n, k) && is_live_pulse(v) {
            t.push(r.last().to)
        } else {
            t
        }
    }
}

/// What one frame changes: the connections, the blackboard, and the nodes
/// to schedule next.
pub struct FrameView {
    pub routing: Seq<ConnView>,
    pub blackboard: Map<Seq<u8>, VarView>,
    pub next: Seq<usize>,
}

/// Routes one output of node `n`: onto the connections that leave its
/// port, or into the blackboard when none does.
pub open spec fn route_one(f: FrameView, n: usize, k: Seq<u8>, v: VarView) -> FrameView {
    FrameView {
        routing: cache_output(f.routing, n, k, v),
        blackboard: if has_port(f.routing, n, k) {
            f.blackboard
        } else {
            f.blackboard.insert(k, v)
        },
        next: f.next + triggered(f.routing, n, k, v),
    }
}

/// Routes the outputs of node `n`, in order.
pub open spec fn route_all(f: FrameView, n: usize, outs: Seq<(Seq<u8>, VarView)>) -> FrameView
    decreases outs.len(),
{
    if outs.len() == 0 {
        f
    } else {
        let g = route_all(f, n, outs.drop_last());
        route_one(g, n, outs.last().0, outs.last().1)
    }
}

/// Routes one output value `v` of node `n` at port `key`.
pub fn route_output(
    func: &mut Function,
    n: usize,
    key: &StringName,
    v: &Var,
    blackboard: &mut VarRegisters,
    next: &mut Vec<usize>,
)
    requires
        old(blackboard).wf(),
    ensures
        final(blackboard).wf(),
        final(func).node_seq() == old(func).node_seq(),
        final(func).nodes@ == old(func).nodes@,
        final(func).entry == old(func).entry,
        (FrameView {
            routing: final(func).routing_view(),
            blackboard: final(blackboard)@,
            next: final(next)@,
        }) == route_one(
            FrameView {
                routing: old(func).routing_view(),
                blackboard: old(blackboard)@,
                next: old(next)@,
            },
            n,
            key@,
            v@,
        ),
{
    let ghost r0 = func.routing_view();
    let ghost next0 = next@;
    let ghost target = cache_output(r0, n, key@, v@);
    let mut matched = false;
    let mut j: usize = 0;
    while j < func.routing.len()
        invariant
            j <= r0.len(),
            func.routing@.len() == r0.len(),
            target == cache_output(r0, n, key@, v@),
            forall|m: int| 0 <= m < j ==> #[trigger] func.routing_view()[m] == target[m],
            forall|m: int| j <= m < r0.len() ==> #[trigger] func.routing_view()[m] == r0[m],
            next@ == next0 + triggered(r0.subrange(0, j as int), n, key@, v@),
            matched == exists|m: int| 0 <= m < j && matches_port(r0[m], n, key@),
            func.nodes@ == old(func).nodes@,
            func.entry == old(func).entry,
        decreases r0.len() - j,
    {
        assert(r0.subrange(0, j + 1).drop_last() == r0.subrange(0, j as int));
        assert(func.routing_view()[j as int] == r0[j as int]);
        let ghost rv_before = func.routing_view();
        let c = &func.routing[j];
        if c.from == n && c.from_param == *key {
            let nc = Connection {
                value: v.duplicate(),
                from: c.from,
                to: c.to,
                from_param: c.from_param.duplicate(),
                to_param: c.to_param.duplicate(),
            };
            let to = c.to;
            if v.is_live_pulse() {
                next.push(to);
            }
            let ghost ncv = nc@;
            assert(ncv == with_value(r0[j as int], v@));
            func.routing.set(j, nc);
            assert(func.routing_view() =~= rv_before.update(j as int, ncv));
            matched = true;
        }
        proof {
            assert forall|m: int| 0 <= m <= j implies #[trigger] func.routing_view()[m] == target[m] by {
                if m < j {
                    assert(rv_before[m] == target[m]);
                }
            }
            assert forall|m: int| j + 1 <= m < r0.len() implies #[trigger] func.routing_view()[m] == r0[m] by {
                assert(rv_before[m] == r0[m]);
            }
            assert(next@ =~= next0 + triggered(r0.subrange(0, j + 1), n, key@, v@));
        }
        j = j + 1;
    }
    assert(r0.subrange(0, r0.len() as int) == r0);
    assert(func.routing_view() =~= target);
    if !matched {
        blackboard.insert(key.duplicate(), v.duplicate());
    }
}

/// Routes every output of node `n`, in order: each onto the connections
/// that leave its port (scheduling their destinations when it is a pulse
/// that fired), or into the blackboard when no connection leaves it.
pub fn execute_frame(
    func: &mut Function,
    n: usize,
    outputs: &VarRegisters,
    blackboard: &mut VarRegisters,
    next: &mut Vec<usize>,
)
    requires
        old(blackboard).wf(),
    ensures
        final(blackboard).wf(),
        final(func).node_seq() == old(func).node_seq(),
        final(func).nodes@ == old(func).nodes@,
        final(func).entry == old(func).entry,
        (FrameView {
            routing: final(func).routing_view(),
            blackboard: final(blackboard)@,
            next: final(next)@,
        }) == route_all(
            FrameView {
                routing: old(func).routing_view(),
                blackboard: old(blackboard)@,
                next: old(next)@,
            },
            n,
            outputs.pairs(),
        ),
{
    let ghost f0 = FrameView { routing: func.routing_view(), blackboard: blackboard@, next: next@ };
    let ghost outs = outputs.pairs();
    let mut i: usize = 0;
    while i < outputs.0.len()
        invariant
            i <= outs.len(),
            outs == outputs.pairs(),
            blackboard.wf(),
            func.nodes@ == old(func).nodes@,
            func.entry == old(func).entry,
            (FrameView { routing: func.routing_view(), blackboard: blackboard@, next: next@ })
                == route_all(f0, n, outs.subrange(0, i as int)),
        decreases outs.len() - i,
    {
        assert(outs.subrange(0, i + 1).drop_last() == outs.subrange(0, i as int));
        let entry = &outputs.0[i];
        route_output(func, n, &entry.0, &entry.1, blackboard, next);
        i = i + 1;
    }
    assert(outs.subrange(0, outs.len() as int) == outs);
}

/// The frame that routing the outputs of node `n` makes from the given
/// connections and blackboard.
pub open spec fn frame_of(
    routing: Seq<ConnView>,
    board: Map<Seq<u8>, VarView>,
    n: usize,
    outs: Seq<(Seq<u8>, VarView)>,
) -> FrameView {
    route_all(FrameView { routing, blackboard: board, next: Seq::empty() }, n, outs)
}

/// Every entry is below `n`.
pub open spec fn all_below(s: Seq<usize>, n: nat) -> bool {
    forall|i: int| 0 <= i < s.len() ==> #[trigger] s[i] < n
}

/// The per-call state of a running function: its own copy of the
/// function (whose connections cache values), the stack of node positions
/// still to run, and the blackboard.
pub struct Activation {
    pub func: Function,
    pub stack: Vec<usize>,
    pub blackboard: VarRegisters,
}

/// What one step of an activation asks for.
pub enum Step {
    /// Producers were pushed ahead of a node whose inputs are not all there.
    Backfill,
    /// The node at this position is ready to run on these inputs.
    Run { node: usize, inputs: VarRegisters },
    /// The stack is empty: the blackboard is the call's result.
    Done,
}

/// The qualified name that reports a missing function: the function's
/// name read as text (empty when it is not valid UTF-8) and split at its
/// last `.`.
pub open spec fn missing_name(func_name: Seq<u8>) -> (Seq<u8>, Seq<u8>) {
    split_path(encode_utf8(text_of(func_name)))
}

/// Position `i` holds the last function of that name, the one that a
/// later definition under the same name leaves in force.
pub open spec fn is_last_named(funcs: Seq<(StringName, Function)>, name: Seq<u8>, i: int) -> bool {
    &&& 0 <= i < funcs.len()
    &&& funcs[i].0@ == name
    &&& forall|j: int| i < j < funcs.len() ==> funcs[j].0@ != name
}

/// `a` is a fresh activation of `f` on inputs `given`: the stored nodes,
/// entry and connections, the entry node alone on the stack, and the
/// inputs as blackboard.
pub open spec fn fresh_from(f: Function, given: Map<Seq<u8>, VarView>, a: Activation) -> bool {
    &&& a.func.node_seq() == f.node_seq()
    &&& a.func.nodes@.len() == f.nodes@.len()
    &&& a.func.routing_view() == f.routing_view()
    &&& a.func.entry == f.entry
    &&& a.stack@ == seq![f.entry]
    &&& a.blackboard@ == given
}

/// At most one position holds the last function of a name.
pub proof fn lemma_first_named_unique(funcs: Seq<(StringName, Function)>, name: Seq<u8>, i: int, j: int)
    requires
        is_last_named(funcs, name, i),
        is_last_named(funcs, name, j),
    ensures
        i == j,
{
}

impl Activation {
    /// The blackboard is a bank, and every stacked position names a node.
    pub open spec fn wf(&self) -> bool {
        &&& self.blackboard.wf()
        &&& forall|i: int| 0 <= i < self.stack@.len() ==> #[trigger] self.stack@[i] < self.func.nodes@.len()
    }

    /// A fresh activation of the function named `func_name`: a copy of the
    /// function, its entry node on the stack, and the inputs as blackboard.
    pub fn start(script: &Script, func_name: &StringName, inputs: VarRegisters) -> (r: Result<
        Activation,
        NodeError,
    >)
        requires
            inputs.wf(),
        ensures
            (forall|j: int| 0 <= j < script.funcs@.len() ==> script.funcs@[j].0@ != func_name@)
                ==> (r matches Err(NodeError::TypeNotFound { name, .. }) && name@ == missing_name(func_name@)),
            forall|i: int| #[trigger]
                is_last_named(script.funcs@, func_name@, i) ==> {
                    let f = script.funcs@[i].1;
                    if f.entry < f.nodes@.len() {
                        r matches Ok(a) && a.wf() && fresh_from(f, inputs@, a)
                    } else {
                        r matches Err(NodeError::Unhandled(_))
                    }
                },
            r matches Err(e) ==> ((forall|j: int|
                0 <= j < script.funcs@.len() ==> script.funcs@[j].0@ != func_name@) && (e matches NodeError::TypeNotFound {
                name,
                ..
            } && name@ == missing_name(func_name@))) || exists|i: int|
                is_last_named(script.funcs@, func_name@, i) && script.funcs@[i].1.entry
                    >= script.funcs@[i].1.nodes@.len() && e is Unhandled,
            r matches Ok(a) ==> a.wf() && exists|i: int|
                is_last_named(script.funcs@, func_name@, i) && script.funcs@[i].1.entry
                    < script.funcs@[i].1.nodes@.len(),
    {
        match script.find_func(func_name) {
            None => Err(
                NodeError::TypeNotFound {
                    name: GlobalName::from_path(func_name.to_text().as_str()),
                    msg: "function not found on script".to_owned(),
                },
            ),
            Some(i) => {
                let f = &script.funcs[i].1;
                if f.entry < f.nodes.len() {
                    let func = f.duplicate();
                    let mut stack: Vec<usize> = Vec::new();
                    stack.push(f.entry);
                    let a = Activation { func, stack, blackboard: inputs };
                    assert(a.stack@ =~= seq![f.entry]);
                    assert(is_last_named(script.funcs@, func_name@, i as int));
                    Ok(a)
                } else {
                    Err(NodeError::Unhandled("entry index is out of range".to_owned()))
                }
            },
        }
    }

    /// One step: deduplicate the stack and pop its top. When some
    /// connection into that node holds no value yet, push the node back and
    /// its missing producers over it; otherwise hand out the node with its
    /// resolved inputs.
    pub fn advance(&mut self) -> (r: Result<Step, NodeError>)
        requires
            old(self).wf(),
        ensures
            final(self).wf(),
            final(self).func.nodes@ == old(self).func.nodes@,
            final(self).func.routing_view() == old(self).func.routing_view(),
            final(self).func.entry == old(self).func.entry,
            final(self).blackboard@ == old(self).blackboard@,
            r matches Err(e) ==> (e is Unhandled || e is NullException),
            old(self).stack@.len() == 0 ==> (r matches Ok(Step::Done)),
            old(self).stack@.len() == 0 ==> final(self).stack@ == old(self).stack@,
            old(self).stack@.len() > 0 ==> {
                let rv = old(self).func.routing_view();
                let d = dedup_top(old(self).stack@);
                let t = d.last();
                let p = pending_sources(rv, t);
                if p.len() > 0 {
                    if forall|i: int| 0 <= i < p.len() ==> #[trigger] p[i] < old(self).func.nodes@.len() {
                        r matches Ok(Step::Backfill) && final(self).stack@ == d + p
                    } else {
                        r matches Err(NodeError::Unhandled(_))
                    }
                } else {
                    let ci = conn_inputs(rv, t);
                    let reqs = old(self).func.node_seq()[t as int].required();
                    let bb = old(self).blackboard@;
                    &&& final(self).stack@ == d.drop_last()
                    &&& match first_missing(ci, bb, reqs) {
                        None => r matches Ok(Step::Run { node, inputs }) && node == t
                            && inputs.wf() && inputs@ == fill_inputs(ci, bb, reqs),
                        Some(w) => r matches Err(NodeError::NullException { name, arg, .. })
                            && arg@ == reqs[w] && name@ == old(self).func.node_seq()[t as int].spec_name(),
                    }
                }
            },
            r matches Ok(Step::Run { node, .. }) ==> node < old(self).func.nodes@.len() && forall|
                i: int,
            |
                0 <= i < old(self).func.routing_view().len() && #[trigger] old(
                    self,
                ).func.routing_view()[i].to == node ==> old(self).func.routing_view()[i].value
                    != VarView::Null,
    {
        if self.stack.len() == 0 {
            return Ok(Step::Done);
        }
        let ghost s0 = self.stack@;
        proof {
            lemma_dedup_top(s0);
        }
        purge_duplicate_calls(&mut self.stack);
        let ghost d = self.stack@;
        assert(d.len() > 0) by {
            assert(s0.contains(s0[0]));
            assert(dedup_top(s0).contains(s0[0]));
        }
        assert forall|i: int| 0 <= i < d.len() implies #[trigger] d[i] < self.func.nodes@.len() by {
            assert(d.contains(d[i]));
        }
        let t = self.stack.pop().unwrap();
        assert(self.stack@ == d.drop_last());
        let pending = get_backfill_nodes(&self.func, t);
        proof {
            lemma_pending_sources(self.func.routing_view(), t);
        }
        let ghost f0 = self.func;
        let ghost b0 = self.blackboard;
        if pending.len() > 0 {
            self.stack.push(t);
            assert(self.stack@ =~= d);
            let mut k: usize = 0;
            while k < pending.len()
                invariant
                    k <= pending@.len(),
                    self.stack@ == d + pending@.subrange(0, k as int),
                    self.func == f0,
                    self.blackboard == b0,
                    f0.nodes@ == old(self).func.nodes@,
                    f0.routing_view() == old(self).func.routing_view(),
                    f0.entry == old(self).func.entry,
                    b0@ == old(self).blackboard@,
                    old(self).stack@.len() > 0,
                    d == dedup_top(old(self).stack@),
                    d.len() > 0,
                    t == d.last(),
                    pending@ == pending_sources(old(self).func.routing_view(), t),
                    self.blackboard.wf(),
                    forall|i: int| 0 <= i < k ==> #[trigger] pending@[i] < self.func.nodes@.len(),
                    forall|i: int| 0 <= i < self.stack@.len() ==> #[trigger] self.stack@[i] < self.func.nodes@.len(),
                decreases pending@.len() - k,
            {
                if pending[k] >= self.func.nodes.len() {
                    return Err(NodeError::Unhandled("backfilled node index is out of range".to_owned()));
                }
                self.stack.push(pending[k]);
                assert(self.stack@ =~= d + pending@.subrange(0, k + 1));
                k = k + 1;
            }
            assert(pending@.subrange(0, pending@.len() as int) == pending@);
            return Ok(Step::Backfill);
        }
        match get_input_register(&self.func, t, &self.blackboard) {
            Ok(inputs) => Ok(Step::Run { node: t, inputs }),
            Err(e) => Err(e),
        }
    }

    /// Routes the outputs that node `node` produced, then pushes each node
    /// that a fired pulse scheduled.
    pub fn deliver(&mut self, node: usize, outputs: &VarRegisters) -> (r: Result<(), NodeError>)
        requires
            old(self).wf(),
            node < old(self).func.nodes@.len(),
        ensures
            final(self).wf(),
            final(self).func.nodes@ == old(self).func.nodes@,
            final(self).func.entry == old(self).func.entry,
            final(self).func.routing_view() == frame_of(old(self).func.routing_view(), old(self).blackboard@, node, outputs.pairs()).routing,
            final(self).blackboard@ == frame_of(old(self).func.routing_view(), old(self).blackboard@, node, outputs.pairs()).blackboard,
            all_below(frame_of(old(self).func.routing_view(), old(self).blackboard@, node, outputs.pairs()).next, old(self).func.nodes@.len())
                ==> r is Ok && final(self).stack@ == old(self).stack@ + frame_of(old(self).func.routing_view(), old(self).blackboard@, node, outputs.pairs()).next,
            !all_below(frame_of(old(self).func.routing_view(), old(self).blackboard@, node, outputs.pairs()).next, old(self).func.nodes@.len())
                ==> (r matches Err(NodeError::Unhandled(_))),
    {
        let mut next: Vec<usize> = Vec::new();
        execute_frame(&mut self.func, node, outputs, &mut self.blackboard, &mut next);
        assert(next@ =~= Seq::<usize>::empty() + next@);
        let ghost s0 = self.stack@;
        let ghost fv = frame_of(old(self).func.routing_view(), old(self).blackboard@, node, outputs.pairs());
        assert(self.func.routing_view() == fv.routing && self.blackboard@ == fv.blackboard && next@ == fv.next);
        let ghost f0 = self.func;
        let ghost b0 = self.blackboard;
        let mut k: usize = 0;
        let mut bad = false;
        while k < next.len()
            invariant
                k <= next@.len(),
                self.func == f0,
                self.blackboard == b0,
                f0.nodes@ == old(self).func.nodes@,
                f0.entry == old(self).func.entry,
                s0 == old(self).stack@,
                f0.routing_view() == fv.routing,
                b0@ == fv.blackboard,
                next@ == fv.next,
                !bad ==> self.stack@ == s0 + next@.subrange(0, k as int),
                !bad ==> forall|i: int| 0 <= i < k ==> #[trigger] next@[i] < self.func.nodes@.len(),
                bad ==> !all_below(fv.next, old(self).func.nodes@.len()),
                self.blackboard.wf(),
                forall|i: int| 0 <= i < self.stack@.len() ==> #[trigger] self.stack@[i] < self.func.nodes@.len(),
            decreases next@.len() - k,
        {
            if next[k] >= self.func.nodes.len() {
                assert(fv.next[k as int] >= old(self).func.nodes@.len());
                bad = true;
                k = next.len();
            } else {
                if !bad {
                    self.stack.push(next[k]);
                    assert(self.stack@ =~= s0 + next@.subrange(0, k + 1));
                }
                k = k + 1;
            }
        }
        if bad {
            return Err(NodeError::Unhandled("scheduled node index is out of range".to_owned()));
        }
        assert(next@.subrange(0, next@.len() as int) == next@);
        Ok(())
    }
}

/// Routing never removes a name from the blackboard.
pub proof fn lemma_route_all_keeps_names(f: FrameView, n: usize, outs: Seq<(Seq<u8>, VarView)>)
    ensures
        forall|k: Seq<u8>| #[trigger] f.blackboard.contains_key(k) ==> route_all(f, n, outs).blackboard.contains_key(k),
    decreases outs.len(),
{
    if outs.len() > 0 {
        lemma_route_all_keeps_names(f, n, outs.drop_last());
    }
}


/// The plain state of a call between two steps: the connections, the
/// nodes, the stack, the blackboard, and each node run so far with the
/// inputs it was given.
pub struct RunState {
    pub routing: Seq<ConnView>,
    pub nodes: Seq<Node>,
    pub stack: Seq<usize>,
    pub board: Map<Seq<u8>, VarView>,
    pub runs: Seq<(usize, Map<Seq<u8>, VarView>)>,
}

/// Where a call stands after some steps.
pub enum Phase {
    Going(RunState),
    Finished(RunState),
    Failed,
}

/// The state a call of `f` on inputs `given` starts from.
pub open spec fn start_state(f: Function, given: Map<Seq<u8>, VarView>) -> RunState {
    RunState {
        routing: f.routing_view(),
        nodes: f.node_seq(),
        stack: seq![f.entry],
        board: given,
        runs: Seq::empty(),
    }
}

/// The plain state of an activation, with the runs made so far.
pub open spec fn state_of(a: Activation, runs: Seq<(usize, Map<Seq<u8>, VarView>)>) -> RunState {
    RunState {
        routing: a.func.routing_view(),
        nodes: a.func.node_seq(),
        stack: a.stack@,
        board: a.blackboard@,
        runs,
    }
}

/// One step of a call, where the `k`-th node run produces `outs[k]`:
/// deduplicate and pop; push the missing producers back over the node, or
/// run the node on its resolved inputs, route what it produced and push
/// the nodes its fired pulses schedule. An empty stack finishes the call.
pub open spec fn step(s: RunState, outs: Seq<Seq<(Seq<u8>, VarView)>>) -> Phase {
    if s.stack.len() == 0 {
        Phase::Finished(s)
    } else if !all_below(s.stack, s.nodes.len()) {
        Phase::Failed
    } else {
        let d = dedup_top(s.stack);
        let t = d.last();
        let p = pending_sources(s.routing, t);
        if p.len() > 0 {
            if all_below(p, s.nodes.len()) {
                Phase::Going(RunState { stack: d + p, ..s })
            } else {
                Phase::Failed
            }
        } else {
            let ci = conn_inputs(s.routing, t);
            let reqs = s.nodes[t as int].required();
            let k = s.runs.len();
            if first_missing(ci, s.board, reqs) is Some || k >= outs.len() {
                Phase::Failed
            } else {
                let f = frame_of(s.routing, s.board, t, outs[k as int]);
                if all_below(f.next, s.nodes.len()) {
                    Phase::Going(
                        RunState {
                            routing: f.routing,
                            nodes: s.nodes,
                            stack: d.drop_last() + f.next,
                            board: f.blackboard,
                            runs: s.runs.push((t, fill_inputs(ci, s.board, reqs))),
                        },
                    )
                } else {
                    Phase::Failed
                }
            }
        }
    }
}

/// Where a call from `s` stands after `n` steps, the node runs producing
/// `outs` in turn.
pub open spec fn replay(s: RunState, outs: Seq<Seq<(Seq<u8>, VarView)>>, n: nat) -> Phase
    decreases n,
{
    if n == 0 {
        Phase::Going(s)
    } else {
        match replay(s, outs, (n - 1) as nat) {
            Phase::Going(x) => step(x, outs),
            other => other,
        }
    }
}

/// The entry node of `f` is in range, no connection leads into it, and
/// `given` lacks one of its required inputs.
pub open spec fn entry_blocked(f: Function, given: Map<Seq<u8>, VarView>) -> bool {
    &&& f.entry < f.nodes@.len()
    &&& forall|c: int| 0 <= c < f.routing_view().len() ==> #[trigger] f.routing_view()[c].to != f.entry
    &&& first_missing(Map::empty(), given, f.node_seq()[f.entry as int].required()) is Some
}

/// The node that a step from `x` runs and the inputs it is given, when
/// that step runs a node.
pub open spec fn node_to_run(x: RunState) -> Option<(usize, Map<Seq<u8>, VarView>)> {
    if x.stack.len() == 0 || !all_below(x.stack, x.nodes.len()) {
        None
    } else {
        let t = dedup_top(x.stack).last();
        let ci = conn_inputs(x.routing, t);
        let reqs = x.nodes[t as int].required();
        if pending_sources(x.routing, t).len() > 0 || first_missing(ci, x.board, reqs) is Some {
            None
        } else {
            Some((t, fill_inputs(ci, x.board, reqs)))
        }
    }
}

/// Node `node`, run on inputs `ins`, may produce the outputs `out`: what
/// `native` may return for a native node; for a script node, when calls
/// may still nest (`depth > 0`), what `nested` says a call of its
/// function may finish with.
pub open spec fn output_fits<F: Fn(&BasicNode, VarRegisters) -> Result<VarRegisters, NodeError>>(
    native: F,
    nested: spec_fn(Script, Seq<u8>, Map<Seq<u8>, VarView>, Map<Seq<u8>, VarView>) -> bool,
    node: Node,
    ins: Map<Seq<u8>, VarView>,
    out: Seq<(Seq<u8>, VarView)>,
    depth: nat,
) -> bool {
    match node {
        Node::Basic(b) => exists|i: VarRegisters, o: VarRegisters|
            i@ == ins && native.ensures((&b, i), Ok(o)) && o.pairs() == out,
        Node::Script(sn) => depth > 0 && exists|o: VarRegisters|
            o.pairs() == out && #[trigger] nested(*sn.script, sn.func@, ins, o@),
    }
}

/// Each recorded run produced outputs that fit its node and inputs.
pub open spec fn outputs_fit<F: Fn(&BasicNode, VarRegisters) -> Result<VarRegisters, NodeError>>(
    native: F,
    nested: spec_fn(Script, Seq<u8>, Map<Seq<u8>, VarView>, Map<Seq<u8>, VarView>) -> bool,
    nodes: Seq<Node>,
    runs: Seq<(usize, Map<Seq<u8>, VarView>)>,
    outs: Seq<Seq<(Seq<u8>, VarView)>>,
    depth: nat,
) -> bool {
    &&& runs.len() == outs.len()
    &&& forall|j: int|
        0 <= j < runs.len() ==> #[trigger] output_fits(native, nested, nodes[runs[j].0 as int], runs[j].1, outs[j], depth)
}

/// The call has finished with an empty stack and blackboard `bb`, each
/// node run having produced outputs that fit it.
pub open spec fn finished_with<F: Fn(&BasicNode, VarRegisters) -> Result<VarRegisters, NodeError>>(
    ph: Phase,
    native: F,
    nested: spec_fn(Script, Seq<u8>, Map<Seq<u8>, VarView>, Map<Seq<u8>, VarView>) -> bool,
    outs: Seq<Seq<(Seq<u8>, VarView)>>,
    bb: Map<Seq<u8>, VarView>,
    depth: nat,
) -> bool {
    ph matches Phase::Finished(fin) && fin.board == bb && fin.stack.len() == 0 && outputs_fit(
        native,
        nested,
        fin.nodes,
        fin.runs,
        outs,
        depth,
    )
}

/// A call of `f` on `given` can finish with blackboard `bb`: some number
/// of steps, with node runs whose outputs fit them, ends with an empty
/// stack and that blackboard.
pub open spec fn runs_to<F: Fn(&BasicNode, VarRegisters) -> Result<VarRegisters, NodeError>>(
    f: Function,
    given: Map<Seq<u8>, VarView>,
    native: F,
    nested: spec_fn(Script, Seq<u8>, Map<Seq<u8>, VarView>, Map<Seq<u8>, VarView>) -> bool,
    bb: Map<Seq<u8>, VarView>,
    depth: nat,
) -> bool {
    exists|outs: Seq<Seq<(Seq<u8>, VarView)>>, n: nat|
        #[trigger] finished_with(replay(start_state(f, given), outs, n), native, nested, outs, bb, depth)
}

/// A call of the function named `name` in `script` on `given` can finish
/// with blackboard `bb`.
pub open spec fn call_gives<F: Fn(&BasicNode, VarRegisters) -> Result<VarRegisters, NodeError>>(
    script: Script,
    name: Seq<u8>,
    given: Map<Seq<u8>, VarView>,
    native: F,
    nested: spec_fn(Script, Seq<u8>, Map<Seq<u8>, VarView>, Map<Seq<u8>, VarView>) -> bool,
    bb: Map<Seq<u8>, VarView>,
    depth: nat,
) -> bool {
    exists|k: int|
        is_last_named(script.funcs@, name, k) && #[trigger] runs_to(script.funcs@[k].1, given, native, nested, bb, depth)
}

/// What a call with calls nested at most `depth` deep may finish with.
pub open spec fn gives_upto<F: Fn(&BasicNode, VarRegisters) -> Result<VarRegisters, NodeError>>(native: F, depth: nat) -> spec_fn(Script, Seq<u8>, Map<Seq<u8>, VarView>, Map<Seq<u8>, VarView>) -> bool
    decreases depth,
{
    if depth == 0 {
        |s: Script, n: Seq<u8>, g: Map<Seq<u8>, VarView>, b: Map<Seq<u8>, VarView>| false
    } else {
        let inner = gives_upto(native, (depth - 1) as nat);
        |s: Script, n: Seq<u8>, g: Map<Seq<u8>, VarView>, b: Map<Seq<u8>, VarView>|
            call_gives(s, n, g, native, inner, b, (depth - 1) as nat)
    }
}

/// The step from `x` fails with error `e`, leaving `stack`: an
/// out-of-range producer (`Unhandled`), a missing input (`NullException`
/// naming the node and the input), the run node's own error (for a script
/// node: `Unhandled` when calls may not nest further, else what `failing`
/// says its call may fail with), or a scheduled node out of range
/// (`Unhandled`).
pub open spec fn fails_at<F: Fn(&BasicNode, VarRegisters) -> Result<VarRegisters, NodeError>>(
    x: RunState,
    native: F,
    nested: spec_fn(Script, Seq<u8>, Map<Seq<u8>, VarView>, Map<Seq<u8>, VarView>) -> bool,
    failing: spec_fn(Script, Seq<u8>, Map<Seq<u8>, VarView>, NodeError) -> bool,
    e: NodeError,
    stack: Seq<usize>,
    depth: nat,
) -> bool {
    &&& x.stack.len() > 0
    &&& all_below(x.stack, x.nodes.len())
    &&& {
        let d = dedup_top(x.stack);
        let t = d.last();
        let p = pending_sources(x.routing, t);
        let ci = conn_inputs(x.routing, t);
        let reqs = x.nodes[t as int].required();
        if p.len() > 0 {
            !all_below(p, x.nodes.len()) && e is Unhandled
        } else if first_missing(ci, x.board, reqs) is Some {
            &&& e matches NodeError::NullException { name, arg, .. }
            &&& name@ == x.nodes[t as int].spec_name()
            &&& arg@ == reqs[first_missing(ci, x.board, reqs)->0]
            &&& stack == d.drop_last()
        } else {
            let ins = fill_inputs(ci, x.board, reqs);
            ||| stack == d.drop_last() && match x.nodes[t as int] {
                Node::Basic(b) => exists|i: VarRegisters| i@ == ins && native.ensures((&b, i), Err(e)),
                Node::Script(sn) => (depth == 0 && e is Unhandled) || (depth > 0 && failing(
                    *sn.script,
                    sn.func@,
                    ins,
                    e,
                )),
            }
            ||| e is Unhandled && exists|o: Seq<(Seq<u8>, VarView)>|
                #[trigger] output_fits(native, nested, x.nodes[t as int], ins, o, depth) && !all_below(
                    frame_of(x.routing, x.board, t, o).next,
                    x.nodes.len(),
                )
        }
    }
}

/// A call of the function named `name` in `script` on `given` can fail
/// with error `e`, leaving `stack`: no such function (`TypeNotFound`), an
/// entry out of range (`Unhandled`), a step that fails after node runs
/// whose outputs fit them, or the step limit reached (`Unhandled`).
pub open spec fn fails_with<F: Fn(&BasicNode, VarRegisters) -> Result<VarRegisters, NodeError>>(
    script: Script,
    name: Seq<u8>,
    given: Map<Seq<u8>, VarView>,
    native: F,
    nested: spec_fn(Script, Seq<u8>, Map<Seq<u8>, VarView>, Map<Seq<u8>, VarView>) -> bool,
    failing: spec_fn(Script, Seq<u8>, Map<Seq<u8>, VarView>, NodeError) -> bool,
    e: NodeError,
    stack: Seq<usize>,
    depth: nat,
) -> bool {
    ||| (forall|j: int| 0 <= j < script.funcs@.len() ==> script.funcs@[j].0@ != name) && (e matches NodeError::TypeNotFound { name: n, .. } && n@ == missing_name(name))
    ||| exists|k: int|
        #[trigger] is_last_named(script.funcs@, name, k) && {
            let f = script.funcs@[k].1;
            ||| f.entry >= f.nodes@.len() && e is Unhandled
            ||| f.entry < f.nodes@.len() && exists|outs: Seq<Seq<(Seq<u8>, VarView)>>, n: nat|
                #[trigger] replay(start_state(f, given), outs, n) matches Phase::Going(x) && outputs_fit(
                    native,
                    nested,
                    x.nodes,
                    x.runs,
                    outs,
                    depth,
                ) && (fails_at(x, native, nested, failing, e, stack, depth) || (n == STEP_LIMIT && e is Unhandled
                    && stack == x.stack))
        }
}

/// What a call with calls nested at most `depth` deep may fail with.
pub open spec fn fails_upto<F: Fn(&BasicNode, VarRegisters) -> Result<VarRegisters, NodeError>>(native: F, depth: nat) -> spec_fn(Script, Seq<u8>, Map<Seq<u8>, VarView>, NodeError) -> bool
    decreases depth,
{
    if depth == 0 {
        |s: Script, n: Seq<u8>, g: Map<Seq<u8>, VarView>, e: NodeError| false
    } else {
        let inner_ok = gives_upto(native, (depth - 1) as nat);
        let inner_fail = fails_upto(native, (depth - 1) as nat);
        |s: Script, n: Seq<u8>, g: Map<Seq<u8>, VarView>, e: NodeError|
            exists|st: Seq<usize>| #[trigger] fails_with(s, n, g, native, inner_ok, inner_fail, e, st, (depth - 1) as nat)
    }
}

/// Replaying more outputs than were used changes nothing.
proof fn lemma_replay_extend(
    s: RunState,
    outs: Seq<Seq<(Seq<u8>, VarView)>>,
    more: Seq<Seq<(Seq<u8>, VarView)>>,
    n: nat,
)
    requires
        !(replay(s, outs, n) is Failed),
        outs.len() <= more.len(),
        forall|j: int| 0 <= j < outs.len() ==> #[trigger] more[j] == outs[j],
    ensures
        replay(s, more, n) == replay(s, outs, n),
    decreases n,
{
    if n > 0 {
        let prev = replay(s, outs, (n - 1) as nat);
        if prev is Failed {
        } else {
            lemma_replay_extend(s, outs, more, (n - 1) as nat);
        }
    }
}

/// With no connection into node `n`, no connection supplies it anything.
proof fn lemma_no_incoming(r: Seq<ConnView>, n: usize)
    requires
        forall|i: int| 0 <= i < r.len() ==> #[trigger] r[i].to != n,
    ensures
        conn_inputs(r, n) == Map::<Seq<u8>, VarView>::empty(),
        pending_sources(r, n).len() == 0,
    decreases r.len(),
{
    if r.len() > 0 {
        assert(r[r.len() - 1].to != n);
        lemma_no_incoming(r.drop_last(), n);
    }
}


/// A step keeps the nodes, and only ever adds to the runs.
proof fn lemma_step_grows(x: RunState, outs: Seq<Seq<(Seq<u8>, VarView)>>)
    ensures
        step(x, outs) matches Phase::Going(y) ==> y.nodes == x.nodes && x.runs.len() <= y.runs.len()
            && y.runs.subrange(0, x.runs.len() as int) == x.runs,
        step(x, outs) matches Phase::Finished(y) ==> y == x,
{
    if step(x, outs) is Going {
        let y = step(x, outs)->Going_0;
        assert(y.runs.subrange(0, x.runs.len() as int) =~= x.runs);
    }
}

/// Once failed or finished, a call stays so.
proof fn lemma_replay_settled(s: RunState, outs: Seq<Seq<(Seq<u8>, VarView)>>, m: nat, n: nat)
    requires
        m <= n,
        !(replay(s, outs, m) is Going),
    ensures
        replay(s, outs, n) == replay(s, outs, m),
    decreases n - m,
{
    if m < n {
        lemma_replay_settled(s, outs, m, (n - 1) as nat);
    }
}

/// A state on the way to a finished call has the final nodes, and its runs
/// begin the final runs.
proof fn lemma_replay_prefix(s: RunState, outs: Seq<Seq<(Seq<u8>, VarView)>>, m: nat, n: nat)
    requires
        m <= n,
        replay(s, outs, m) is Going,
        replay(s, outs, n) is Finished,
    ensures
        ({
            let x = replay(s, outs, m)->Going_0;
            let fin = replay(s, outs, n)->Finished_0;
            &&& x.nodes == fin.nodes
            &&& x.runs.len() <= fin.runs.len()
            &&& fin.runs.subrange(0, x.runs.len() as int) == x.runs
        }),
    decreases n - m,
{
    let x = replay(s, outs, m)->Going_0;
    lemma_step_grows(x, outs);
    assert(replay(s, outs, m + 1) == step(x, outs));
    if step(x, outs) is Going {
        lemma_replay_prefix(s, outs, m + 1, n);
        let y = step(x, outs)->Going_0;
        let fin = replay(s, outs, n)->Finished_0;
        assert(fin.runs.subrange(0, x.runs.len() as int) =~= fin.runs.subrange(0, y.runs.len() as int).subrange(
            0,
            x.runs.len() as int,
        ));
    } else {
        lemma_replay_settled(s, outs, m + 1, n);
    }
}

/// `native` gives equal outputs for the same node on equal inputs.
pub open spec fn deterministic<F: Fn(&BasicNode, VarRegisters) -> Result<VarRegisters, NodeError>>(
    native: F,
) -> bool {
    forall|b: BasicNode, i1: VarRegisters, i2: VarRegisters, o1: VarRegisters, o2: VarRegisters|
        i1@ == i2@ && #[trigger] native.ensures((&b, i1), Ok(o1)) && #[trigger] native.ensures(
            (&b, i2),
            Ok(o2),
        ) ==> o1.pairs() == o2.pairs()
}

/// A call keeps no state of its own between calls, so with native logic
/// that answers equal inputs alike and a function of native nodes only,
/// two calls of it on the same inputs that both finish give the same
/// blackboard.
pub proof fn law_repeatable<F: Fn(&BasicNode, VarRegisters) -> Result<VarRegisters, NodeError>>(
    f: Function,
    given: Map<Seq<u8>, VarView>,
    native: F,
    nested: spec_fn(Script, Seq<u8>, Map<Seq<u8>, VarView>, Map<Seq<u8>, VarView>) -> bool,
    bb1: Map<Seq<u8>, VarView>,
    bb2: Map<Seq<u8>, VarView>,
    depth: nat,
)
    requires
        deterministic(native),
        forall|i: int| 0 <= i < f.node_seq().len() ==> #[trigger] f.node_seq()[i] is Basic,
        runs_to(f, given, native, nested, bb1, depth),
        runs_to(f, given, native, nested, bb2, depth),
    ensures
        bb1 == bb2,
{
    let s = start_state(f, given);
    let (o1, n1) = choose|o: Seq<Seq<(Seq<u8>, VarView)>>, n: nat|
        #[trigger] finished_with(replay(s, o, n), native, nested, o, bb1, depth);
    let (o2, n2) = choose|o: Seq<Seq<(Seq<u8>, VarView)>>, n: nat|
        #[trigger] finished_with(replay(s, o, n), native, nested, o, bb2, depth);
    let top = if n1 < n2 { n2 } else { n1 };
    lemma_replay_settled_finished(s, o1, n1, top);
    lemma_replay_settled_finished(s, o2, n2, top);
    lemma_replay_same(f, given, native, nested, o1, o2, n1, n2, top, depth);
}

proof fn lemma_replay_settled_finished(s: RunState, outs: Seq<Seq<(Seq<u8>, VarView)>>, m: nat, n: nat)
    requires
        m <= n,
        replay(s, outs, m) is Finished,
    ensures
        replay(s, outs, n) == replay(s, outs, m),
{
    lemma_replay_settled(s, outs, m, n);
}

/// Two finished replays of the same native-only call agree at every step.
proof fn lemma_replay_same<F: Fn(&BasicNode, VarRegisters) -> Result<VarRegisters, NodeError>>(
    f: Function,
    given: Map<Seq<u8>, VarView>,
    native: F,
    nested: spec_fn(Script, Seq<u8>, Map<Seq<u8>, VarView>, Map<Seq<u8>, VarView>) -> bool,
    o1: Seq<Seq<(Seq<u8>, VarView)>>,
    o2: Seq<Seq<(Seq<u8>, VarView)>>,
    n1: nat,
    n2: nat,
    m: nat,
    depth: nat,
)
    requires
        deterministic(native),
        forall|i: int| 0 <= i < f.node_seq().len() ==> #[trigger] f.node_seq()[i] is Basic,
        replay(start_state(f, given), o1, n1) is Finished,
        replay(start_state(f, given), o2, n2) is Finished,
        outputs_fit(native, nested, replay(start_state(f, given), o1, n1)->Finished_0.nodes, replay(start_state(f, given), o1, n1)->Finished_0.runs, o1, depth),
        outputs_fit(native, nested, replay(start_state(f, given), o2, n2)->Finished_0.nodes, replay(start_state(f, given), o2, n2)->Finished_0.runs, o2, depth),
    ensures
        replay(start_state(f, given), o1, m) == replay(start_state(f, given), o2, m),
    decreases m,
{
    let s = start_state(f, given);
    if m > 0 {
        let m0 = (m - 1) as nat;
        lemma_replay_same(f, given, native, nested, o1, o2, n1, n2, m0, depth);
        let prev = replay(s, o1, m0);
        if prev is Going {
            let x = prev->Going_0;
            // x is on the way to both finished calls
            if m0 > n1 {
                lemma_replay_settled_finished(s, o1, n1, m0);
            }
            if m0 > n2 {
                lemma_replay_settled_finished(s, o2, n2, m0);
            }
            lemma_replay_prefix(s, o1, m0, n1);
            lemma_replay_prefix(s, o2, m0, n2);
            lemma_nodes_kept(s, o1, m0);
            let k = x.runs.len();
            if step(x, o1) != step(x, o2) {
                // only a node run can tell the two apart
                let d = dedup_top(x.stack);
                let t = d.last();
                let fin1 = replay(s, o1, n1)->Finished_0;
                let fin2 = replay(s, o2, n2)->Finished_0;
                lemma_step_grows(x, o1);
                lemma_step_grows(x, o2);
                assert(replay(s, o1, m) == step(x, o1));
                assert(replay(s, o2, m) == step(x, o2));
                if m <= n1 && replay(s, o1, m) is Failed {
                    lemma_replay_settled(s, o1, m, n1);
                }
                if m <= n2 && replay(s, o2, m) is Failed {
                    lemma_replay_settled(s, o2, m, n2);
                }
                if m > n1 {
                    lemma_replay_settled_finished(s, o1, n1, m);
                }
                if m > n2 {
                    lemma_replay_settled_finished(s, o2, n2, m);
                }
                assert(!(step(x, o1) is Failed));
                assert(!(step(x, o2) is Failed));
                if step(x, o1) is Going && step(x, o2) is Going {
                    lemma_replay_prefix(s, o1, m, n1);
                    lemma_replay_prefix(s, o2, m, n2);
                    let y1 = step(x, o1)->Going_0;
                    let y2 = step(x, o2)->Going_0;
                    assert(fin1.runs[k as int] == y1.runs[k as int]);
                    assert(fin2.runs[k as int] == y2.runs[k as int]);
                    lemma_dedup_top(x.stack);
                    assert(x.stack.len() > 0);
                    assert(x.stack.contains(x.stack[0]));
                    assert(d.contains(x.stack[0]));
                    assert(d.contains(t)) by {
                        assert(d[d.len() - 1] == t);
                    }
                    let j = choose|j: int| 0 <= j < x.stack.len() && x.stack[j] == t;
                    assert(t < x.nodes.len());
                    assert(x.nodes[t as int] is Basic);
                    let b = x.nodes[t as int]->Basic_0;
                    assert(fin1.nodes[fin1.runs[k as int].0 as int] == x.nodes[t as int]);
                    assert(output_fits(native, nested, fin1.nodes[fin1.runs[k as int].0 as int], fin1.runs[k as int].1, o1[k as int], depth));
                    let (i1, p1) = choose|i: VarRegisters, o: VarRegisters|
                        i@ == fin1.runs[k as int].1 && native.ensures((&b, i), Ok(o)) && o.pairs() == o1[k as int];
                    assert(fin2.nodes[fin2.runs[k as int].0 as int] == x.nodes[t as int]);
                    assert(output_fits(native, nested, fin2.nodes[fin2.runs[k as int].0 as int], fin2.runs[k as int].1, o2[k as int], depth));
                    let (i2, p2) = choose|i: VarRegisters, o: VarRegisters|
                        i@ == fin2.runs[k as int].1 && native.ensures((&b, i), Ok(o)) && o.pairs() == o2[k as int];
                    assert(o1[k as int] == o2[k as int]);
                }
            }
        }
    }
}

/// Every state of a replay keeps the starting nodes.
proof fn lemma_nodes_kept(s: RunState, outs: Seq<Seq<(Seq<u8>, VarView)>>, m: nat)
    ensures
        replay(s, outs, m) matches Phase::Going(x) ==> x.nodes == s.nodes,
    decreases m,
{
    if m > 0 {
        lemma_nodes_kept(s, outs, (m - 1) as nat);
        let prev = replay(s, outs, (m - 1) as nat);
        if prev is Going {
            lemma_step_grows(prev->Going_0, outs);
        }
    }
}

/// Caching an output keeps every connection's ends and ports.
proof fn lemma_cache_keeps_ends(r: Seq<ConnView>, n: usize, k: Seq<u8>, v: VarView)
    ensures
        cache_output(r, n, k, v).len() == r.len(),
        forall|c: int| 0 <= c < r.len() ==> {
            let x = #[trigger] cache_output(r, n, k, v)[c];
            x.from == r[c].from && x.to == r[c].to && x.from_param == r[c].from_param
        },
{
}

/// Some connection leaves `n` at port `k` towards `x`.
pub open spec fn leaves_to(r: Seq<ConnView>, n: usize, k: Seq<u8>, x: usize) -> bool {
    exists|c: int| 0 <= c < r.len() && matches_port(r[c], n, k) && r[c].to == x
}

/// Some output of `outs` is a fired pulse on a port where a connection
/// leaves `n` towards `x`.
pub open spec fn fired_towards(r: Seq<ConnView>, n: usize, outs: Seq<(Seq<u8>, VarView)>, x: usize) -> bool {
    exists|i: int| 0 <= i < outs.len() && is_live_pulse(outs[i].1) && #[trigger] leaves_to(r, n, outs[i].0, x)
}

/// Every node that `triggered` schedules is the destination of a
/// connection leaving `n` at port `k`, and then `v` is a fired pulse.
proof fn lemma_triggered_sources(r: Seq<ConnView>, n: usize, k: Seq<u8>, v: VarView)
    ensures
        triggered(r, n, k, v).len() > 0 ==> is_live_pulse(v),
        forall|j: int| 0 <= j < triggered(r, n, k, v).len() ==> #[trigger] leaves_to(
            r,
            n,
            k,
            triggered(r, n, k, v)[j],
        ),
    decreases r.len(),
{
    if r.len() > 0 {
        let t = r.drop_last();
        lemma_triggered_sources(t, n, k, v);
        let tr = triggered(r, n, k, v);
        let tt = triggered(t, n, k, v);
        if matches_port(r.last(), n, k) && is_live_pulse(v) {
            assert(tr == tt.push(r.last().to));
        } else {
            assert(tr == tt);
        }
        assert forall|j: int| 0 <= j < tr.len() implies #[trigger] leaves_to(r, n, k, tr[j]) by {
            if j < tt.len() {
                assert(tr[j] == tt[j]);
                assert(leaves_to(t, n, k, tt[j]));
                let c = choose|c: int| 0 <= c < t.len() && matches_port(t[c], n, k) && t[c].to == tt[j];
                assert(r[c] == t[c]);
            } else {
                assert(r[r.len() - 1].to == tr[j]);
            }
        }
    } else {
        assert(triggered(r, n, k, v).len() == 0);
    }
}

/// Routing a whole output bank of node `n`: the blackboard gains exactly
/// the names of the outputs that no connection leaves, the stack gets
/// only destinations of connections leaving `n` at a port where a fired
/// pulse came out, and every connection keeps its ends.
pub proof fn law_frame_routing(f: FrameView, n: usize, outs: Seq<(Seq<u8>, VarView)>)
    ensures
        ({
            let g = route_all(f, n, outs);
            &&& g.routing.len() == f.routing.len()
            &&& forall|c: int| 0 <= c < f.routing.len() ==> (#[trigger] g.routing[c]).from == f.routing[c].from
                && g.routing[c].to == f.routing[c].to && g.routing[c].from_param == f.routing[c].from_param
            &&& forall|q: Seq<u8>| #[trigger] g.blackboard.contains_key(q) <==> (f.blackboard.contains_key(q)
                || exists|i: int| 0 <= i < outs.len() && outs[i].0 == q && !has_port(f.routing, n, q))
            &&& f.next.len() <= g.next.len()
            &&& g.next.subrange(0, f.next.len() as int) == f.next
            &&& forall|j: int| f.next.len() <= j < g.next.len() ==> #[trigger] fired_towards(
                f.routing,
                n,
                outs,
                g.next[j],
            )
        }),
    decreases outs.len(),
{
    if outs.len() > 0 {
        let t = outs.drop_last();
        law_frame_routing(f, n, t);
        let g0 = route_all(f, n, t);
        let (k, v) = outs.last();
        lemma_cache_keeps_ends(g0.routing, n, k, v);
        lemma_triggered_sources(g0.routing, n, k, v);
        let g = route_all(f, n, outs);
        assert(g == route_one(g0, n, k, v));
        assert(has_port(g0.routing, n, k) == has_port(f.routing, n, k)) by {
            if has_port(g0.routing, n, k) {
                let c = choose|c: int| 0 <= c < g0.routing.len() && matches_port(g0.routing[c], n, k);
                assert(matches_port(f.routing[c], n, k));
            }
            if has_port(f.routing, n, k) {
                let c = choose|c: int| 0 <= c < f.routing.len() && matches_port(f.routing[c], n, k);
                assert(matches_port(g0.routing[c], n, k));
            }
        }
        assert forall|c: int| 0 <= c < f.routing.len() implies (#[trigger] g.routing[c]).from == f.routing[c].from
            && g.routing[c].to == f.routing[c].to && g.routing[c].from_param == f.routing[c].from_param by {
            assert(g.routing[c] == cache_output(g0.routing, n, k, v)[c]);
            assert(g0.routing[c].from == f.routing[c].from);
        }
        assert forall|q: Seq<u8>| #[trigger] g.blackboard.contains_key(q) <==> (f.blackboard.contains_key(q)
            || exists|i: int| 0 <= i < outs.len() && outs[i].0 == q && !has_port(f.routing, n, q)) by {
            if exists|i: int| 0 <= i < t.len() && t[i].0 == q && !has_port(f.routing, n, q) {
                let i = choose|i: int| 0 <= i < t.len() && t[i].0 == q && !has_port(f.routing, n, q);
                assert(outs[i] == t[i]);
            }
            if exists|i: int| 0 <= i < outs.len() && outs[i].0 == q && !has_port(f.routing, n, q) {
                let i = choose|i: int| 0 <= i < outs.len() && outs[i].0 == q && !has_port(f.routing, n, q);
                if i < t.len() {
                    assert(t[i] == outs[i]);
                }
            }
        }
        assert(g.next == g0.next + triggered(g0.routing, n, k, v));
        assert(g.next.subrange(0, f.next.len() as int) =~= f.next) by {
            assert(g.next.subrange(0, g0.next.len() as int) =~= g0.next);
            assert(g0.next.subrange(0, f.next.len() as int) == f.next);
        }
        assert forall|j: int| f.next.len() <= j < g.next.len() implies #[trigger] fired_towards(
            f.routing,
            n,
            outs,
            g.next[j],
        ) by {
            if j < g0.next.len() {
                assert(g.next[j] == g0.next[j]);
                assert(fired_towards(f.routing, n, t, g0.next[j]));
                let i = choose|i: int| 0 <= i < t.len() && is_live_pulse(t[i].1) && #[trigger] leaves_to(f.routing, n, t[i].0, g0.next[j]);
                assert(outs[i] == t[i]);
            } else {
                let jj = j - g0.next.len();
                assert(g.next[j] == triggered(g0.routing, n, k, v)[jj]);
                assert(leaves_to(g0.routing, n, k, triggered(g0.routing, n, k, v)[jj]));
                assert(is_live_pulse(v));
                let c = choose|c: int| 0 <= c < g0.routing.len() && matches_port(g0.routing[c], n, k)
                    && g0.routing[c].to == triggered(g0.routing, n, k, v)[jj];
                assert(outs[outs.len() - 1] == (k, v));
                assert(matches_port(f.routing[c], n, outs[outs.len() - 1].0));
                assert(leaves_to(f.routing, n, outs[outs.len() - 1].0, g.next[j]));
            }
        }
    } else {
        assert(route_all(f, n, outs) == f);
        assert(f.next.subrange(0, f.next.len() as int) =~= f.next);
    }
}

/// A step runs a node only when every connection into it holds a value,
/// on inputs that the connections supply, completed from the blackboard
/// with each required input that they lack; and every required input is
/// then supplied.
pub proof fn law_backfill(x: RunState)
    ensures
        node_to_run(x) matches Some((t, ins)) ==> {
            let ci = conn_inputs(x.routing, t);
            let reqs = x.nodes[t as int].required();
            &&& forall|i: int| 0 <= i < x.routing.len() && #[trigger] x.routing[i].to == t
                ==> x.routing[i].value != VarView::Null
            &&& ins == fill_inputs(ci, x.board, reqs)
            &&& forall|i: int| 0 <= i < reqs.len() ==> !is_missing(ci, x.board, #[trigger] reqs[i])
        },
{
    if node_to_run(x) is Some {
        let t = node_to_run(x)->Some_0.0;
        lemma_pending_sources(x.routing, t);
    }
}

/// How deeply calls into scripts may nest.
pub const CALL_DEPTH_LIMIT: usize = 1024;

/// How many steps one call may take before it is abandoned.
pub const STEP_LIMIT: u64 = 0xffff_ffff_ffff;

impl Script {
    /// Runs the function named `func_name` on `inputs`, which seed the
    /// blackboard; the final blackboard is the result, reached by the steps
    /// of `step` with each native node producing what `native` returned.
    /// A script node runs its function in a fresh activation. An error of
    /// a step, of `native` or of a nested call ends the call unchanged, and
    /// `call_stack` then holds the stack at that point; on success it is
    /// left empty. A call that has not finished after `STEP_LIMIT` steps,
    /// or script calls nested deeper than `CALL_DEPTH_LIMIT`, end with
    /// `Unhandled`.
    pub fn call_func<F>(
        &self,
        func_name: &StringName,
        native: &F,
        inputs: VarRegisters,
        call_stack: &mut Vec<usize>,
    ) -> (r: Result<VarRegisters, NodeError>) where
        F: Fn(&BasicNode, VarRegisters) -> Result<VarRegisters, NodeError>,

        requires
            inputs.wf(),
            forall|b: &BasicNode, i: VarRegisters| native.requires((b, i)),
        ensures
            (forall|j: int| 0 <= j < self.funcs@.len() ==> self.funcs@[j].0@ != func_name@)
                ==> (r matches Err(NodeError::TypeNotFound { name, .. }) && name@ == missing_name(func_name@) && final(call_stack)@ == old(call_stack)@),
            forall|i: int| #[trigger]
                is_last_named(self.funcs@, func_name@, i) ==> self.funcs@[i].1.entry >= self.funcs@[i].1.nodes@.len()
                    ==> (r matches Err(NodeError::Unhandled(_)) && final(call_stack)@ == old(call_stack)@),
            forall|i: int| #[trigger]
                is_last_named(self.funcs@, func_name@, i) ==> entry_blocked(self.funcs@[i].1, inputs@)
                    ==> (r matches Err(NodeError::NullException { name, arg, .. }) && name@
                    == self.funcs@[i].1.node_seq()[self.funcs@[i].1.entry as int].spec_name()
                    && arg@ == self.funcs@[i].1.node_seq()[self.funcs@[i].1.entry as int].required()[first_missing(
                    Map::empty(),
                    inputs@,
                    self.funcs@[i].1.node_seq()[self.funcs@[i].1.entry as int].required(),
                )->0]),
            r matches Ok(bb) ==> call_gives(
                *self,
                func_name@,
                inputs@,
                *native,
                gives_upto(*native, CALL_DEPTH_LIMIT as nat),
                bb@,
                CALL_DEPTH_LIMIT as nat,
            ),
            r matches Err(e) ==> fails_with(
                *self,
                func_name@,
                inputs@,
                *native,
                gives_upto(*native, CALL_DEPTH_LIMIT as nat),
                fails_upto(*native, CALL_DEPTH_LIMIT as nat),
                e,
                final(call_stack)@,
                CALL_DEPTH_LIMIT as nat,
            ),
            r matches Ok(bb) ==> bb.wf() && final(call_stack)@.len() == 0 && forall|k: Seq<u8>|
                #[trigger] inputs@.contains_key(k) ==> bb@.contains_key(k),
    {
        self.call_func_within(func_name, native, inputs, call_stack, CALL_DEPTH_LIMIT)
    }

    fn call_func_within<F>(
        &self,
        func_name: &StringName,
        native: &F,
        inputs: VarRegisters,
        call_stack: &mut Vec<usize>,
        depth: usize,
    ) -> (r: Result<VarRegisters, NodeError>) where
        F: Fn(&BasicNode, VarRegisters) -> Result<VarRegisters, NodeError>,

        requires
            inputs.wf(),
            forall|b: &BasicNode, i: VarRegisters| native.requires((b, i)),
        ensures
            (forall|j: int| 0 <= j < self.funcs@.len() ==> self.funcs@[j].0@ != func_name@)
                ==> (r matches Err(NodeError::TypeNotFound { name, .. }) && name@ == missing_name(func_name@) && final(call_stack)@ == old(call_stack)@),
            forall|i: int| #[trigger]
                is_last_named(self.funcs@, func_name@, i) ==> self.funcs@[i].1.entry >= self.funcs@[i].1.nodes@.len()
                    ==> (r matches Err(NodeError::Unhandled(_)) && final(call_stack)@ == old(call_stack)@),
            forall|i: int| #[trigger]
                is_last_named(self.funcs@, func_name@, i) ==> entry_blocked(self.funcs@[i].1, inputs@)
                    ==> (r matches Err(NodeError::NullException { name, arg, .. }) && name@
                    == self.funcs@[i].1.node_seq()[self.funcs@[i].1.entry as int].spec_name()
                    && arg@ == self.funcs@[i].1.node_seq()[self.funcs@[i].1.entry as int].required()[first_missing(
                    Map::empty(),
                    inputs@,
                    self.funcs@[i].1.node_seq()[self.funcs@[i].1.entry as int].required(),
                )->0]),
            r matches Ok(bb) ==> call_gives(
                *self,
                func_name@,
                inputs@,
                *native,
                gives_upto(*native, depth as nat),
                bb@,
                depth as nat,
            ),
            r matches Err(e) ==> fails_with(
                *self,
                func_name@,
                inputs@,
                *native,
                gives_upto(*native, depth as nat),
                fails_upto(*native, depth as nat),
                e,
                final(call_stack)@,
                depth as nat,
            ),
            r matches Ok(bb) ==> bb.wf() && final(call_stack)@.len() == 0 && forall|k: Seq<u8>|
                #[trigger] inputs@.contains_key(k) ==> bb@.contains_key(k),
        decreases depth,
    {
        let ghost given = inputs@;
        let ghost dn = depth as nat;
        let ghost nested = gives_upto(*native, dn);
        let ghost failing = fails_upto(*native, dn);
        let mut act = match Activation::start(self, func_name, inputs) {
            Ok(a) => a,
            Err(e) => return Err(e),
        };
        let ghost k = choose|i: int|
            is_last_named(self.funcs@, func_name@, i) && self.funcs@[i].1.entry
                < self.funcs@[i].1.nodes@.len();
        assert forall|i: int| #[trigger] is_last_named(self.funcs@, func_name@, i) implies i == k by {
            lemma_first_named_unique(self.funcs@, func_name@, i, k);
        }
        let ghost fk = self.funcs@[k].1;
        let ghost blocked = entry_blocked(fk, given);
        let ghost mut outs: Seq<Seq<(Seq<u8>, VarView)>> = Seq::empty();
        let ghost mut runs: Seq<(usize, Map<Seq<u8>, VarView>)> = Seq::empty();
        assert(state_of(act, runs) == start_state(fk, given));
        let mut steps: u64 = 0;
        while steps < STEP_LIMIT
            invariant
                act.wf(),
                steps <= STEP_LIMIT,
                given == inputs@,
                dn == depth as nat,
                forall|q: Seq<u8>| #[trigger] given.contains_key(q) ==> act.blackboard@.contains_key(q),
                is_last_named(self.funcs@, func_name@, k),
                forall|i: int| #[trigger] is_last_named(self.funcs@, func_name@, i) ==> i == k,
                fk == self.funcs@[k].1,
                fk.entry < fk.nodes@.len(),
                blocked == entry_blocked(fk, given),
                blocked ==> steps == 0,
                act.func.node_seq() == fk.node_seq(),
                act.func.nodes@.len() == fk.nodes@.len(),
                replay(start_state(fk, given), outs, steps as nat) == Phase::Going(state_of(act, runs)),
                outputs_fit(*native, nested, act.func.node_seq(), runs, outs, dn),
                nested == gives_upto(*native, dn),
                failing == fails_upto(*native, dn),
                forall|b: &BasicNode, i: VarRegisters| native.requires((b, i)),
            decreases STEP_LIMIT - steps,
        {
            let ghost before = state_of(act, runs);
            let ghost n0 = steps as nat;
            proof {
                if blocked {
                    assert(before == start_state(fk, given));
                    assert(dedup_top(seq![fk.entry]) =~= seq![fk.entry]) by {
                        assert(seq![fk.entry].drop_first() =~= Seq::<usize>::empty());
                        assert(dedup_top(Seq::<usize>::empty()) =~= Seq::<usize>::empty());
                    }
                    lemma_no_incoming(fk.routing_view(), fk.entry);
                }
            }
            match act.advance() {
                Err(e) => {
                    *call_stack = copy_stack(&act.stack);
                    proof {
                        assert(fails_at(before, *native, nested, failing, e, call_stack@, dn));
                        assert(is_last_named(self.funcs@, func_name@, k));
                    }
                    return Err(e);
                },
                Ok(Step::Done) => {
                    assert(step(before, outs) == Phase::Finished(before));
                    assert(replay(start_state(fk, given), outs, (n0 + 1) as nat) == Phase::Finished(before));
                    assert(finished_with(replay(start_state(fk, given), outs, (n0 + 1) as nat), *native, nested, outs, act.blackboard@, dn));
                    *call_stack = Vec::new();
                    let bb = act.blackboard;
                    assert(runs_to(fk, given, *native, nested, bb@, dn));
                    assert(call_gives(*self, func_name@, given, *native, nested, bb@, dn));
                    return Ok(bb);
                },
                Ok(Step::Backfill) => {
                    assert(step(before, outs) == Phase::Going(state_of(act, runs)));
                },
                Ok(Step::Run { node, inputs }) => {
                    let ghost given_in = inputs;
                    let ghost the_node = act.func.node_seq()[node as int];
                    assert(node_to_run(before) == Some((node, given_in@)));
                    let out = match &*act.func.nodes[node].node {
                        Node::Basic(b) => native(b, inputs),
                        Node::Script(sn) => {
                            if depth == 0 {
                                Err(NodeError::Unhandled("script calls nest too deeply".to_owned()))
                            } else {
                                let mut inner: Vec<usize> = Vec::new();
                                let res = sn.script.call_func_within(&sn.func, native, inputs, &mut inner, depth - 1);
                                proof {
                                    let d1 = (dn - 1) as nat;
                                    if res is Err {
                                        assert(fails_with(*sn.script, sn.func@, given_in@, *native, gives_upto(*native, d1), fails_upto(*native, d1), res->Err_0, inner@, d1));
                                        assert(failing(*sn.script, sn.func@, given_in@, res->Err_0));
                                    } else {
                                        assert(nested(*sn.script, sn.func@, given_in@, res->Ok_0@));
                                    }
                                }
                                res
                            }
                        },
                    };
                    match out {
                        Err(e) => {
                            *call_stack = copy_stack(&act.stack);
                            proof {
                                match the_node {
                                    Node::Basic(b) => {
                                        assert(native.ensures((&b, given_in), Err(e)));
                                    },
                                    Node::Script(sn) => {
                                    },
                                }
                                assert(fails_at(before, *native, nested, failing, e, call_stack@, dn));
                            }
                            return Err(e);
                        },
                        Ok(o) => {
                            let ghost bb_before = act.blackboard@;
                            let ghost rv_before = act.func.routing_view();
                            proof {
                                match the_node {
                                    Node::Basic(b) => {
                                        assert(native.ensures((&b, given_in), Ok(o)));
                                    },
                                    Node::Script(sn) => {
                                        assert(depth > 0);
                                    },
                                }
                                assert(output_fits(*native, nested, the_node, given_in@, o.pairs(), dn));
                                lemma_route_all_keeps_names(
                                    FrameView {
                                        routing: act.func.routing_view(),
                                        blackboard: act.blackboard@,
                                        next: Seq::empty(),
                                    },
                                    node,
                                    o.pairs(),
                                );
                            }
                            let delivered = act.deliver(node, &o);
                            assert(act.blackboard@ == frame_of(rv_before, bb_before, node, o.pairs()).blackboard);
                            assert forall|q: Seq<u8>| #[trigger] given.contains_key(q) implies act.blackboard@.contains_key(q) by {
                                let fv = FrameView { routing: rv_before, blackboard: bb_before, next: Seq::empty() };
                                assert(fv.blackboard.contains_key(q));
                                assert(route_all(fv, node, o.pairs()).blackboard.contains_key(q));
                            }
                            if let Err(e) = delivered {
                                *call_stack = copy_stack(&act.stack);
                                proof {
                                    assert(!all_below(frame_of(rv_before, bb_before, node, o.pairs()).next, before.nodes.len()));
                                    assert(fails_at(before, *native, nested, failing, e, call_stack@, dn));
                                }
                                return Err(e);
                            }
                            proof {
                                let more = outs.push(o.pairs());
                                let runs2 = runs.push((node, given_in@));
                                lemma_replay_extend(start_state(fk, given), outs, more, n0);
                                assert(step(before, more) == Phase::Going(state_of(act, runs2)));
                                assert forall|j: int| 0 <= j < runs2.len() implies #[trigger] output_fits(
                                    *native,
                                    nested,
                                    act.func.node_seq()[runs2[j].0 as int],
                                    runs2[j].1,
                                    more[j],
                                    dn,
                                ) by {
                                    if j < runs.len() {
                                        assert(runs2[j] == runs[j] && more[j] == outs[j]);
                                    } else {
                                        assert(runs2[j] == (node, given_in@));
                                        assert(more[j] == o.pairs());
                                    }
                                }
                                outs = more;
                                runs = runs2;
                            }
                        },
                    }
                },
            }
            steps = steps + 1;
        }
        *call_stack = copy_stack(&act.stack);
        let e = NodeError::Unhandled("step limit reached".to_owned());
        proof {
            assert(steps == STEP_LIMIT);
            assert(replay(start_state(fk, given), outs, STEP_LIMIT as nat) matches Phase::Going(x) && outputs_fit(
                *native,
                nested,
                x.nodes,
                x.runs,
                outs,
                dn,
            ) && (STEP_LIMIT as nat == STEP_LIMIT && e is Unhandled && call_stack@ == x.stack));
            assert(is_last_named(self.funcs@, func_name@, k));
        }
        Err(e)
    }
}

/// A copy of a stack.
fn copy_stack(v: &Vec<usize>) -> (r: Vec<usize>)
    ensures
        r@ == v@,
{
    let mut r: Vec<usize> = Vec::new();
    let mut i: usize = 0;
    while i < v.len()
        invariant
            i <= v@.len(),
            r@ =~= v@.subrange(0, i as int),
        decreases v@.len() - i,
    {
        r.push(v[i]);
        i = i + 1;
    }
    r
}

/// A sequence of distinct entries, each below `n`, has at most `n` entries.
proof fn lemma_distinct_below(s: Seq<usize>, n: nat)
    requires
        s.no_duplicates(),
        forall|i: int| 0 <= i < s.len() ==> #[trigger] s[i] < n,
    ensures
        s.len() <= n,
{
    s.unique_seq_to_set();
    let f = |x: usize| x as int;
    let img = s.to_set().map(f);
    vstd::seq_lib::seq_to_set_is_finite(s);
    vstd::set_lib::lemma_map_size(s.to_set(), img, f);
    vstd::set_lib::lemma_int_range(0, n as int);
    assert forall|y: int| img.contains(y) implies vstd::set_lib::set_int_range(0, n as int).contains(y) by {
        let x = choose|x: usize| s.to_set().contains(x) && f(x) == y;
        let i = choose|i: int| 0 <= i < s.len() && s[i] == x;
    }
    vstd::set_lib::lemma_len_subset(img, vstd::set_lib::set_int_range(0, n as int));
}

/// Deduplication bounds the stack: after it, no node position occurs
/// twice, so a stack of positions below the node count `n` holds at most
/// `n` entries.
pub proof fn law_stack_bounded(s: Seq<usize>, n: nat)
    requires
        forall|i: int| 0 <= i < s.len() ==> #[trigger] s[i] < n,
    ensures
        dedup_top(s).no_duplicates(),
        dedup_top(s).len() <= n,
{
    lemma_dedup_top(s);
    let d = dedup_top(s);
    assert forall|i: int| 0 <= i < d.len() implies #[trigger] d[i] < n by {
        assert(d.contains(d[i]));
        let j = choose|j: int| 0 <= j < s.len() && s[j] == d[i];
    }
    lemma_distinct_below(d, n);
}

/// Routing one output: a pulse that fired on a port schedules exactly the
/// destinations of the connections leaving that port, in order; any other
/// value schedules nothing; an output that no connection leaves lands in
/// the blackboard, and one that some connection leaves is cached on
/// exactly those connections.
pub proof fn law_routing(f: FrameView, n: usize, k: Seq<u8>, v: VarView)
    ensures
        ({
            let g = route_one(f, n, k, v);
            &&& !is_live_pulse(v) ==> g.next == f.next
            &&& is_live_pulse(v) ==> g.next == f.next + f.routing.filter(
                |c: ConnView| matches_port(c, n, k),
            ).map_values(|c: ConnView| c.to)
            &&& !has_port(f.routing, n, k) ==> g.blackboard == f.blackboard.insert(k, v)
            &&& has_port(f.routing, n, k) ==> g.blackboard == f.blackboard
            &&& g.routing.len() == f.routing.len()
            &&& forall|i: int| 0 <= i < f.routing.len() ==> #[trigger] g.routing[i] == if matches_port(
                f.routing[i],
                n,
                k,
            ) {
                with_value(f.routing[i], v)
            } else {
                f.routing[i]
            }
        }),
{
    lemma_triggered(f.routing, n, k, v);
}

proof fn lemma_triggered(r: Seq<ConnView>, n: usize, k: Seq<u8>, v: VarView)
    ensures
        !is_live_pulse(v) ==> triggered(r, n, k, v) == Seq::<usize>::empty(),
        is_live_pulse(v) ==> triggered(r, n, k, v) == r.filter(|c: ConnView| matches_port(c, n, k)).map_values(
            |c: ConnView| c.to,
        ),
    decreases r.len(),
{
    reveal(Seq::filter);
    if r.len() > 0 {
        lemma_triggered(r.drop_last(), n, k, v);
        let p = |c: ConnView| matches_port(c, n, k);
        assert(r.filter(p) == if p(r.last()) {
            r.drop_last().filter(p).push(r.last())
        } else {
            r.drop_last().filter(p)
        });
        if is_live_pulse(v) {
            assert(triggered(r, n, k, v) =~= r.filter(p).map_values(|c: ConnView| c.to));
        }
    }
}

} // verus!
