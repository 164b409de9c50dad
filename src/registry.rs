//! A write-once registry of named items, keyed by qualified name.

use std::sync::Arc;
use vstd::prelude::*;
use crate::names::GlobalName;

verus! {

/// An item that carries its own qualified name.
pub trait NamespacedType {
    /// The qualified name of the item.
    spec fn spec_name(&self) -> (Seq<u8>, Seq<u8>);

    /// The qualified name of the item.
    fn get_name(&self) -> (r: GlobalName)
        ensures
            r@ == self.spec_name(),
    ;
}

/// The map that a sequence of named items denotes.
pub open spec fn items_map<T: NamespacedType>(s: Seq<T>) -> Map<(Seq<u8>, Seq<u8>), T>
    decreases s.len(),
{
    if s.len() == 0 {
        Map::empty()
    } else {
        items_map(s.drop_last()).insert(s.last().spec_name(), s.last())
    }
}

/// No two items share a name.
pub open spec fn distinct_names<T: NamespacedType>(s: Seq<T>) -> bool {
    forall|i: int, j: int| 0 <= i < j < s.len() ==> s[i].spec_name() != s[j].spec_name()
}

proof fn lemma_items_map<T: NamespacedType>(s: Seq<T>)
    requires
        distinct_names(s),
    ensures
        forall|k: (Seq<u8>, Seq<u8>)|
            #[trigger] items_map(s).contains_key(k) <==> exists|i: int|
                0 <= i < s.len() && s[i].spec_name() == k,
        forall|i: int| 0 <= i < s.len() ==> #[trigger] items_map(s)[s[i].spec_name()] == s[i],
    decreases s.len(),
{
    if s.len() > 0 {
        let t = s.drop_last();
        lemma_items_map(t);
        assert(items_map(s) == items_map(t).insert(s.last().spec_name(), s.last()));
        assert forall|k: (Seq<u8>, Seq<u8>)|
            #[trigger] items_map(s).contains_key(k) <==> exists|i: int|
                0 <= i < s.len() && s[i].spec_name() == k by {
            if k != s.last().spec_name() {
                if items_map(t).contains_key(k) {
                    let i = choose|i: int| 0 <= i < t.len() && t[i].spec_name() == k;
                    assert(s[i].spec_name() == k);
                }
                if exists|i: int| 0 <= i < s.len() && s[i].spec_name() == k {
                    let i = choose|i: int| 0 <= i < s.len() && s[i].spec_name() == k;
                    assert(t[i].spec_name() == k);
                    assert(items_map(t).contains_key(k));
                }
            } else {
                assert(s[s.len() - 1].spec_name() == k);
            }
        }
        assert forall|i: int| 0 <= i < s.len() implies #[trigger] items_map(s)[s[i].spec_name()]
            == s[i] by {
            if i < s.len() - 1 {
                assert(t[i] == s[i]);
                assert(s[i].spec_name() != s.last().spec_name());
                assert(items_map(t)[t[i].spec_name()] == t[i]);
            }
        }
    }
}

/// A registry of shared items, each stored once under its qualified name.
#[derive(Debug, Clone)]
pub struct TypeRegistry<T: NamespacedType> {
    types: Vec<Arc<T>>,
}

/// Registering under a name that is already taken.
#[derive(Debug, Clone)]
pub struct RegistrationConflict {
    pub name: GlobalName,
}

impl<T: NamespacedType> TypeRegistry<T> {
    /// The registered items, in order of registration.
    pub closed spec fn items(&self) -> Seq<T> {
        Seq::new(self.types@.len(), |i: int| *self.types@[i])
    }

    /// No name is registered twice.
    pub closed spec fn wf(&self) -> bool {
        distinct_names(self.items())
    }

    /// An empty registry.
    pub fn new() -> (r: TypeRegistry<T>)
        ensures
            r.wf(),
            r@ == Map::<(Seq<u8>, Seq<u8>), T>::empty(),
    {
        let r = TypeRegistry { types: Vec::new() };
        assert(r.items() =~= Seq::<T>::empty());
        r
    }

    fn find(&self, name: &GlobalName) -> (r: Option<usize>)
        ensures
            match r {
                Some(i) => i < self.items().len() && self.items()[i as int].spec_name() == name@,
                None => forall|i: int|
                    0 <= i < self.items().len() ==> self.items()[i].spec_name() != name@,
            },
    {
        let mut i: usize = 0;
        while i < self.types.len()
            invariant
                i <= self.types@.len(),
                forall|j: int| 0 <= j < i ==> self.items()[j].spec_name() != name@,
            decreases self.types@.len() - i,
        {
            let n = self.types[i].get_name();
            if n == *name {
                return Some(i);
            }
            i = i + 1;
        }
        None
    }

    /// Whether an item is registered under `name`.
    pub fn contains(&self, name: &GlobalName) -> (r: bool)
        requires
            self.wf(),
        ensures
            r == self@.contains_key(name@),
    {
        proof {
            lemma_items_map(self.items());
        }
        match self.find(name) {
            Some(_) => true,
            None => false,
        }
    }

    /// The item registered under `name`, if any.
    pub fn get(&self, name: &GlobalName) -> (r: Option<Arc<T>>)
        requires
            self.wf(),
        ensures
            r.is_some() == self@.contains_key(name@),
            r matches Some(a) ==> *a == self@[name@],
    {
        proof {
            lemma_items_map(self.items());
        }
        match self.find(name) {
            Some(i) => Some(self.types[i].clone()),
            None => None,
        }
    }

    /// Registers `value` under its own name, which must not be taken yet.
    pub fn register(&mut self, value: T)
        requires
            old(self).wf(),
            !old(self)@.contains_key(value.spec_name()),
        ensures
            final(self).wf(),
            final(self)@ == old(self)@.insert(value.spec_name(), value),
    {
        let ghost before = self.items();
        let ghost v = value;
        proof {
            lemma_items_map(before);
        }
        self.types.push(Arc::new(value));
        assert(self.items().drop_last() =~= before);
        assert(self.items().last() == v);
        assert forall|a: int, b: int| 0 <= a < b < self.items().len() implies self.items()[a].spec_name()
            != self.items()[b].spec_name() by {
            assert(self.items()[a] == before[a]);
            if b < before.len() {
                assert(self.items()[b] == before[b]);
            } else {
                assert(items_map(before).contains_key(before[a].spec_name()));
            }
        }
    }

    /// Registers `value` under its own name, or reports the conflict and
    /// leaves the registry as it was when that name is taken.
    pub fn try_register(&mut self, value: T) -> (r: Result<(), RegistrationConflict>)
        requires
            old(self).wf(),
        ensures
            final(self).wf(),
            r.is_ok() == !old(self)@.contains_key(value.spec_name()),
            r.is_ok() ==> final(self)@ == old(self)@.insert(value.spec_name(), value),
            r matches Err(e) ==> e.name@ == value.spec_name() && final(self)@ == old(self)@,
    {
        let name = value.get_name();
        if self.contains(&name) {
            Err(RegistrationConflict { name })
        } else {
            self.register(value);
            Ok(())
        }
    }
}

impl<T: NamespacedType> View for TypeRegistry<T> {
    type V = Map<(Seq<u8>, Seq<u8>), T>;

    closed spec fn view(&self) -> Map<(Seq<u8>, Seq<u8>), T> {
        items_map(self.items())
    }
}

impl<T: NamespacedType> Default for TypeRegistry<T> {
    fn default() -> (r: TypeRegistry<T>)
        ensures
            r.wf(),
            r@ == Map::<(Seq<u8>, Seq<u8>), T>::empty(),
    {
        TypeRegistry::new()
    }
}

} // verus!
