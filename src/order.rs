//! Byte-wise ordering of names and a stable insertion sort.

use vstd::prelude::*;

verus! {

/// Lexicographic order on byte strings: a prefix comes first.
pub open spec fn bytes_le(a: Seq<u8>, b: Seq<u8>) -> bool
    decreases a.len(),
{
    if a.len() == 0 {
        true
    } else if b.len() == 0 {
        false
    } else if a[0] != b[0] {
        a[0] < b[0]
    } else {
        bytes_le(a.drop_first(), b.drop_first())
    }
}

/// Any two byte strings are ordered one way or the other.
pub proof fn lemma_bytes_le_total(a: Seq<u8>, b: Seq<u8>)
    ensures
        bytes_le(a, b) || bytes_le(b, a),
    decreases a.len(),
{
    if a.len() > 0 && b.len() > 0 && a[0] == b[0] {
        lemma_bytes_le_total(a.drop_first(), b.drop_first());
    }
}

/// Byte strings ordered both ways are equal.
pub proof fn lemma_bytes_le_antisymmetric(a: Seq<u8>, b: Seq<u8>)
    requires
        bytes_le(a, b),
        bytes_le(b, a),
    ensures
        a == b,
    decreases a.len(),
{
    if a.len() > 0 && b.len() > 0 {
        lemma_bytes_le_antisymmetric(a.drop_first(), b.drop_first());
        assert(a =~= seq![a[0]] + a.drop_first());
        assert(b =~= seq![b[0]] + b.drop_first());
    }
}

/// The order on byte strings is transitive.
pub proof fn lemma_bytes_le_transitive(a: Seq<u8>, b: Seq<u8>, c: Seq<u8>)
    requires
        bytes_le(a, b),
        bytes_le(b, c),
    ensures
        bytes_le(a, c),
    decreases a.len(),
{
    if a.len() > 0 && b.len() > 0 && c.len() > 0 && a[0] == b[0] && b[0] == c[0] {
        lemma_bytes_le_transitive(a.drop_first(), b.drop_first(), c.drop_first());
    }
}

/// Compares two byte strings in lexicographic order.
pub fn bytes_le_exec(a: &Vec<u8>, b: &Vec<u8>) -> (r: bool)
    ensures
        r == bytes_le(a@, b@),
{
    let mut i: usize = 0;
    assert(a@.subrange(0, a@.len() as int) =~= a@);
    assert(b@.subrange(0, b@.len() as int) =~= b@);
    while i < a.len()
        invariant
            i <= a@.len(),
            i <= b@.len() || i == 0,
            forall|j: int| 0 <= j < i ==> a@[j] == b@[j],
            bytes_le(a@, b@) == bytes_le(a@.subrange(i as int, a@.len() as int), b@.subrange(
                i as int,
                b@.len() as int,
            )),
        decreases a@.len() - i,
    {
        if i >= b.len() {
            return false;
        }
        let ghost sa = a@.subrange(i as int, a@.len() as int);
        let ghost sb = b@.subrange(i as int, b@.len() as int);
        assert(sa[0] == a@[i as int] && sb[0] == b@[i as int]);
        if a[i] != b[i] {
            return a[i] < b[i];
        }
        assert(sa.drop_first() =~= a@.subrange(i + 1, a@.len() as int));
        assert(sb.drop_first() =~= b@.subrange(i + 1, b@.len() as int));
        i = i + 1;
    }
    true
}

/// `leq` is a total preorder.
pub open spec fn total_preorder<T>(leq: spec_fn(T, T) -> bool) -> bool {
    &&& forall|a: T, b: T| #[trigger] leq(a, b) || leq(b, a)
    &&& forall|a: T, b: T, c: T| #[trigger] leq(a, b) && #[trigger] leq(b, c) ==> leq(a, c)
}

/// Every earlier entry is `leq` every later one.
pub open spec fn sorted_by<T>(s: Seq<T>, leq: spec_fn(T, T) -> bool) -> bool {
    forall|i: int, j: int| 0 <= i < j < s.len() ==> leq(#[trigger] s[i], #[trigger] s[j])
}

/// `r` is `v` rearranged by `p`: position `i` of `r` holds the entry at
/// position `p[i]` of `v`, each position of `v` is used once, and entries
/// that `leq` finds equivalent keep their relative order.
pub open spec fn stable_arrangement<T>(v: Seq<T>, r: Seq<T>, p: Seq<int>, leq: spec_fn(T, T) -> bool) -> bool {
    &&& p.len() == v.len()
    &&& r.len() == v.len()
    &&& p.no_duplicates()
    &&& forall|i: int| 0 <= i < p.len() ==> 0 <= #[trigger] p[i] < v.len() && r[i] == v[p[i]]
    &&& forall|i: int, j: int| 0 <= i < j < r.len() && leq(#[trigger] r[j], #[trigger] r[i]) ==> p[i] < p[j]
}

/// Sorts `v` by `leq`, decided by `le`; entries that `leq` finds
/// equivalent keep their order.
pub fn insertion_sort<T, F: Fn(&T, &T) -> bool>(v: Vec<T>, le: &F, leq: Ghost<spec_fn(T, T) -> bool>) -> (r: Vec<T>)
    requires
        total_preorder(leq@),
        forall|i: int, j: int| 0 <= i < v@.len() && 0 <= j < v@.len() ==> le.requires((&v@[i], &v@[j])),
        forall|a: &T, b: &T, x: bool| le.ensures((a, b), x) ==> x == leq@(*a, *b),
    ensures
        r@.to_multiset() == v@.to_multiset(),
        sorted_by(r@, leq@),
        exists|p: Seq<int>| stable_arrangement(v@, r@, p, leq@),
{
    broadcast use vstd::seq_lib::group_to_multiset_ensures;
    let ghost orig = v@;
    let mut src = v;
    let mut r: Vec<T> = Vec::new();
    let ghost mut p: Seq<int> = Seq::empty();
    while src.len() > 0
        invariant
            src@ == orig.subrange(orig.len() - src@.len(), orig.len() as int),
            src@.len() <= orig.len(),
            p.len() == r@.len(),
            r@.len() == orig.len() - src@.len(),
            p.no_duplicates(),
            forall|i: int| 0 <= i < p.len() ==> 0 <= #[trigger] p[i] < r@.len() && r@[i] == orig[p[i]],
            forall|i: int, j: int| 0 <= i < j < r@.len() && leq@(#[trigger] r@[j], #[trigger] r@[i]) ==> p[i] < p[j],
            total_preorder(leq@),
            forall|i: int, j: int| 0 <= i < orig.len() && 0 <= j < orig.len() ==> le.requires((&orig[i], &orig[j])),
            forall|a: &T, b: &T, x: bool| le.ensures((a, b), x) ==> x == leq@(*a, *b),
            r@.to_multiset().add(src@.to_multiset()) == orig.to_multiset(),
            sorted_by(r@, leq@),
        decreases src@.len(),
    {
        let ghost s0 = src@;
        let ghost c = r@.len() as int;
        assert(s0[0] == orig[c]);
        let x = src.remove(0);
        assert(s0 == seq![x] + src@);
        assert(s0.to_multiset() == src@.to_multiset().insert(x)) by {
            assert(s0 =~= src@.insert(0, x));
            vstd::seq_lib::to_multiset_insert(src@, 0, x);
        }
        let mut j: usize = 0;
        let mut found = false;
        while !found && j < r.len()
            invariant
                j <= r@.len(),
                found ==> j < r@.len() && !leq@(r@[j as int], x),
                forall|m: int| 0 <= m < j ==> leq@(r@[m], x),
                forall|i: int, j: int| 0 <= i < orig.len() && 0 <= j < orig.len() ==> le.requires((&orig[i], &orig[j])),
                forall|a: &T, b: &T, x: bool| le.ensures((a, b), x) ==> x == leq@(*a, *b),
                p.len() == r@.len(),
                forall|m: int| 0 <= m < p.len() ==> 0 <= #[trigger] p[m] < orig.len() && r@[m] == orig[p[m]],
                0 <= c < orig.len(),
                x == orig[c],
            decreases r@.len() - j + (if found { 0int } else { 1int }),
        {
            assert(r@[j as int] == orig[p[j as int]]);
            assert(le.requires((&orig[p[j as int]], &orig[c])));
            if le(&r[j], &x) {
                j = j + 1;
            } else {
                found = true;
            }
        }
        let ghost r0 = r@;
        proof {
            if found {
                assert(!leq@(r0[j as int], x));
                assert(leq@(x, r0[j as int]));
                assert forall|m: int| j <= m < r0.len() implies leq@(x, r0[m]) by {
                    if m > j {
                        assert(leq@(r0[j as int], r0[m]));
                    }
                }
            }
        }
        r.insert(j, x);
        assert(r@ == r0.insert(j as int, x));
        let ghost p0 = p;
        proof {
            p = p0.insert(j as int, c);
            assert forall|a: int, b: int| 0 <= a < b < r@.len() && leq@(#[trigger] r@[b], #[trigger] r@[a]) implies p[a] < p[b] by {
                if a == j {
                    if leq@(r0[b - 1], x) {
                        assert(leq@(r0[j as int], r0[b - 1]));
                        assert(leq@(r0[j as int], x));
                    }
                } else if b == j {
                    assert(p0[a] < c);
                } else if a < j && b < j {
                    assert(r@[a] == r0[a] && r@[b] == r0[b]);
                } else if a < j {
                    assert(r@[a] == r0[a] && r@[b] == r0[b - 1]);
                } else {
                    assert(r@[a] == r0[a - 1] && r@[b] == r0[b - 1]);
                }
            }
            assert forall|i: int, k: int| 0 <= i < p.len() && 0 <= k < p.len() && i != k implies p[i] != p[k] by {
                if i != j && k != j {
                    let i0 = if i < j { i } else { i - 1 };
                    let k0 = if k < j { k } else { k - 1 };
                    assert(p0[i0] != p0[k0]);
                } else if i == j {
                    let k0 = if k < j { k } else { k - 1 };
                    assert(p0[k0] < c);
                } else {
                    let i0 = if i < j { i } else { i - 1 };
                    assert(p0[i0] < c);
                }
            }
            assert forall|i: int| 0 <= i < p.len() implies 0 <= #[trigger] p[i] < r@.len() && r@[i] == orig[p[i]] by {
                if i < j {
                    assert(p0[i] < c);
                } else if i > j {
                    assert(p0[i - 1] < c);
                }
            }
            assert(src@ =~= orig.subrange(orig.len() - src@.len(), orig.len() as int));
        }
        proof {
            vstd::seq_lib::to_multiset_insert(r0, j as int, x);
            assert(r@.to_multiset() == r0.to_multiset().insert(x));
            assert(r@.to_multiset().add(src@.to_multiset()) =~= r0.to_multiset().add(
                s0.to_multiset(),
            ));
        }
        assert forall|a: int, b: int| 0 <= a < b < r@.len() implies leq@(#[trigger] r@[a], #[trigger] r@[b]) by {
            if b < j {
                assert(leq@(r0[a], r0[b]));
            } else if b == j {
            } else if a < j {
                assert(leq@(r0[a], x) && leq@(x, r0[b - 1]));
            } else if a == j {
            } else {
                assert(leq@(r0[a - 1], r0[b - 1]));
            }
        }
    }
    assert(src@ =~= Seq::<T>::empty());
    assert(stable_arrangement(orig, r@, p, leq@));
    r
}

} // verus!
