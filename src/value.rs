//! The value model: tagged values and named value banks.

use vstd::prelude::*;
use crate::names::{GlobalName, StringName};

verus! {

/// A value carried along an edge or held in a bank.
///
/// A number is held as the IEEE-754 bit pattern of a double.
#[derive(Clone, Debug)]
pub enum Var {
    Null,
    Num(u64),
    Bool(bool),
    String(String),
    Execution(bool),
}

/// The mathematical view of a `Var`.
pub enum VarView {
    Null,
    Num(u64),
    Bool(bool),
    Text(Seq<char>),
    Pulse(bool),
}

impl View for Var {
    type V = VarView;

    open spec fn view(&self) -> VarView {
        match self {
            Var::Null => VarView::Null,
            Var::Num(n) => VarView::Num(*n),
            Var::Bool(b) => VarView::Bool(*b),
            Var::String(s) => VarView::Text(s@),
            Var::Execution(b) => VarView::Pulse(*b),
        }
    }
}

/// Whether a value is a pulse that fired.
pub open spec fn is_live_pulse(v: VarView) -> bool {
    v == VarView::Pulse(true)
}

impl Var {
    /// A copy of this value.
    pub fn duplicate(&self) -> (r: Var)
        ensures
            r@ == self@,
    {
        match self {
            Var::Null => Var::Null,
            Var::Num(n) => Var::Num(*n),
            Var::Bool(b) => Var::Bool(*b),
            Var::String(s) => Var::String(s.clone()),
            Var::Execution(b) => Var::Execution(*b),
        }
    }

    /// Whether this is the absent value.
    pub fn is_null(&self) -> (r: bool)
        ensures
            r == (self@ == VarView::Null),
    {
        match self {
            Var::Null => true,
            _ => false,
        }
    }

    /// Whether this is an execution pulse holding `true`.
    pub fn is_live_pulse(&self) -> (r: bool)
        ensures
            r == is_live_pulse(self@),
    {
        match self {
            Var::Execution(b) => *b,
            _ => false,
        }
    }
}

impl PartialEq for Var {
    fn eq(&self, o: &Var) -> (r: bool) {
        match (self, o) {
            (Var::Null, Var::Null) => true,
            (Var::Num(a), Var::Num(b)) => *a == *b,
            (Var::Bool(a), Var::Bool(b)) => *a == *b,
            (Var::String(a), Var::String(b)) => *a == *b,
            (Var::Execution(a), Var::Execution(b)) => *a == *b,
            _ => false,
        }
    }
}

impl vstd::std_specs::cmp::PartialEqSpecImpl for Var {
    open spec fn obeys_eq_spec() -> bool {
        true
    }

    open spec fn eq_spec(&self, o: &Var) -> bool {
        self@ == o@
    }
}

impl Default for Var {
    fn default() -> (r: Var)
        ensures
            r@ == VarView::Null,
    {
        Var::Null
    }
}

/// The map that a sequence of named entries denotes; a later entry for a
/// name overrides an earlier one.
pub open spec fn entries_map(s: Seq<(Seq<u8>, VarView)>) -> Map<Seq<u8>, VarView>
    decreases s.len(),
{
    if s.len() == 0 {
        Map::empty()
    } else {
        entries_map(s.drop_last()).insert(s.last().0, s.last().1)
    }
}

/// No name occurs twice.
pub open spec fn unique_names(s: Seq<(Seq<u8>, VarView)>) -> bool {
    forall|i: int, j: int| 0 <= i < j < s.len() ==> s[i].0 != s[j].0
}

/// In a sequence without repeated names, the denoted map holds exactly the
/// names of the entries, each with its entry's value.
pub proof fn lemma_entries_map(s: Seq<(Seq<u8>, VarView)>)
    requires
        unique_names(s),
    ensures
        forall|k: Seq<u8>|
            #[trigger] entries_map(s).contains_key(k) <==> exists|i: int|
                0 <= i < s.len() && s[i].0 == k,
        forall|i: int| 0 <= i < s.len() ==> #[trigger] entries_map(s)[s[i].0] == s[i].1,
    decreases s.len(),
{
    if s.len() > 0 {
        let t = s.drop_last();
        lemma_entries_map(t);
        assert(entries_map(s) == entries_map(t).insert(s.last().0, s.last().1));
        assert forall|k: Seq<u8>|
            #[trigger] entries_map(s).contains_key(k) <==> exists|i: int|
                0 <= i < s.len() && s[i].0 == k by {
            if k != s.last().0 {
                if entries_map(t).contains_key(k) {
                    let i = choose|i: int| 0 <= i < t.len() && t[i].0 == k;
                    assert(s[i].0 == k);
                }
                if exists|i: int| 0 <= i < s.len() && s[i].0 == k {
                    let i = choose|i: int| 0 <= i < s.len() && s[i].0 == k;
                    assert(t[i].0 == k);
                    assert(entries_map(t).contains_key(k));
                }
            } else {
                assert(s[s.len() - 1].0 == k);
            }
        }
        assert forall|i: int| 0 <= i < s.len() implies #[trigger] entries_map(s)[s[i].0]
            == s[i].1 by {
            if i < s.len() - 1 {
                assert(t[i] == s[i]);
                assert(s[i].0 != s.last().0);
                assert(entries_map(t)[t[i].0] == t[i].1);
            }
        }
    }
}

/// A bank of named values: a node's declared shape, or live registers.
#[derive(Clone, Debug)]
pub struct VarRegisters(pub Vec<(StringName, Var)>);

impl VarRegisters {
    /// The entries of the bank, in order, as plain values.
    pub open spec fn pairs(&self) -> Seq<(Seq<u8>, VarView)> {
        Seq::new(self.0@.len(), |i: int| (self.0@[i].0@, self.0@[i].1@))
    }

    /// Each name occurs once.
    pub open spec fn wf(&self) -> bool {
        unique_names(self.pairs())
    }

    /// The names of the bank, in order.
    pub open spec fn names(&self) -> Seq<Seq<u8>> {
        Seq::new(self.0@.len(), |i: int| self.0@[i].0@)
    }

    /// An empty bank.
    pub fn new() -> (r: VarRegisters)
        ensures
            r.wf(),
            r.pairs().len() == 0,
            r@ == Map::<Seq<u8>, VarView>::empty(),
    {
        let r = VarRegisters(Vec::new());
        assert(r.pairs() =~= Seq::<(Seq<u8>, VarView)>::empty());
        r
    }

    /// Number of entries.
    pub fn len(&self) -> (r: usize)
        ensures
            r == self.pairs().len(),
    {
        self.0.len()
    }

    /// Position of the entry named `k`, if any.
    pub fn position(&self, k: &StringName) -> (r: Option<usize>)
        ensures
            match r {
                Some(i) => i < self.pairs().len() && self.pairs()[i as int].0 == k@,
                None => forall|i: int| 0 <= i < self.pairs().len() ==> self.pairs()[i].0 != k@,
            },
    {
        let mut i: usize = 0;
        while i < self.0.len()
            invariant
                i <= self.0@.len(),
                forall|j: int| 0 <= j < i ==> self.pairs()[j].0 != k@,
            decreases self.0@.len() - i,
        {
            if self.0[i].0 == *k {
                return Some(i);
            }
            i = i + 1;
        }
        None
    }

    /// Whether some entry is named `k`.
    pub fn contains_key(&self, k: &StringName) -> (r: bool)
        requires
            self.wf(),
        ensures
            r == self@.contains_key(k@),
    {
        proof {
            lemma_entries_map(self.pairs());
        }
        match self.position(k) {
            Some(i) => true,
            None => false,
        }
    }

    /// The value named `k`, if any.
    pub fn get(&self, k: &StringName) -> (r: Option<&Var>)
        requires
            self.wf(),
        ensures
            r.is_some() == self@.contains_key(k@),
            r matches Some(v) ==> v@ == self@[k@],
    {
        proof {
            lemma_entries_map(self.pairs());
        }
        match self.position(k) {
            Some(i) => Some(&self.0[i].1),
            None => None,
        }
    }

    /// Sets the value named `k`, replacing any earlier one.
    pub fn insert(&mut self, k: StringName, v: Var)
        requires
            old(self).wf(),
        ensures
            final(self).wf(),
            final(self)@ == old(self)@.insert(k@, v@),
    {
        let ghost kv = k@;
        let ghost vv = v@;
        proof {
            lemma_entries_map(self.pairs());
        }
        match self.position(&k) {
            Some(i) => {
                let ghost before = self.pairs();
                self.0.set(i, (k, v));
                let ghost after = self.pairs();
                assert(after =~= before.update(i as int, (kv, vv)));
                assert(self.wf());
                proof {
                    lemma_entries_map(after);
                    assert(after[i as int].0 == kv);
                    assert forall|q: Seq<u8>| #[trigger] entries_map(after).contains_key(q)
                        == entries_map(before).insert(kv, vv).contains_key(q) by {
                        if q == kv {
                            assert(entries_map(after).contains_key(q));
                        } else {
                            if entries_map(before).contains_key(q) {
                                let j = choose|j: int| 0 <= j < before.len() && before[j].0 == q;
                                assert(after[j].0 == q);
                            }
                            if entries_map(after).contains_key(q) {
                                let j = choose|j: int| 0 <= j < after.len() && after[j].0 == q;
                                assert(before[j].0 == q);
                            }
                        }
                    }
                    assert forall|q: Seq<u8>| #[trigger] entries_map(after).contains_key(q)
                        implies entries_map(after)[q] == entries_map(before).insert(kv, vv)[q] by {
                        let j = choose|j: int| 0 <= j < after.len() && after[j].0 == q;
                        if j != i {
                            assert(before[j] == after[j]);
                        }
                    }
                    assert(entries_map(after) =~= entries_map(before).insert(kv, vv));
                }
            },
            None => {
                let ghost before = self.pairs();
                self.0.push((k, v));
                assert(self.pairs().drop_last() =~= before);
                assert(self.pairs().last() == (kv, vv));
                assert forall|j: int| 0 <= j < before.len() implies self.pairs()[j] == before[j] by {
                }
                assert forall|a: int, b: int| 0 <= a < b < self.pairs().len() implies self.pairs()[a].0
                    != self.pairs()[b].0 by {
                    assert(self.pairs()[a] == before[a]);
                    if b == before.len() {
                        assert(before[a].0 != kv);
                    } else {
                        assert(self.pairs()[b] == before[b]);
                        assert(unique_names(before));
                        assert(before[a].0 != before[b].0);
                    }
                }
                assert(self.wf());
            },
        }
    }
}

impl View for VarRegisters {
    type V = Map<Seq<u8>, VarView>;

    open spec fn view(&self) -> Map<Seq<u8>, VarView> {
        entries_map(self.pairs())
    }
}

/// An error raised while running a node or a function.
#[derive(Clone, Debug)]
pub enum NodeError {
    /// An internal failure, such as an index that points at no node.
    Unhandled(String),
    /// A function or node type that could not be found.
    TypeNotFound { name: GlobalName, msg: String },
    /// A required input that no connection and no blackboard entry supplies.
    NullException { name: GlobalName, arg: StringName, msg: String },
    /// A value of another kind than the one expected.
    MismatchedData {
        name: GlobalName,
        arg: StringName,
        expected: Var,
        received: Var,
        msg: String,
    },
}

} // verus!
