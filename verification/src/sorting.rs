//! Stable sorting by an integer key.
use vstd::prelude::*;

verus! {

/// Items that are ordered by an integer key.
pub trait Keyed: Sized {
    /// The key.
    spec fn key(&self) -> int;

    /// Computes the key.
    fn sort_key(&self) -> (k: u64)
        ensures
            k as int == self.key(),
    ;
}

/// Bytes are their own keys.
impl Keyed for u8 {
    open spec fn key(&self) -> int {
        *self as int
    }

    fn sort_key(&self) -> (k: u64) {
        *self as u64
    }
}

/// `s` with `x` placed behind every item whose key is no greater.
pub open spec fn inserted<T: Keyed>(s: Seq<T>, x: T) -> Seq<T>
    decreases s.len(),
{
    if s.len() == 0 || s.last().key() <= x.key() {
        s.push(x)
    } else {
        inserted(s.drop_last(), x).push(s.last())
    }
}

/// The items of `s` in order of their keys, equal keys in their order in `s`.
pub open spec fn sorted<T: Keyed>(s: Seq<T>) -> Seq<T>
    decreases s.len(),
{
    if s.len() == 0 {
        s
    } else {
        inserted(sorted(s.drop_last()), s.last())
    }
}

/// Whether keys never fall from one item to a later one.
pub open spec fn ordered<T: Keyed>(s: Seq<T>) -> bool {
    forall|i: int, j: int| 0 <= i < j < s.len() ==> #[trigger] s[i].key() <= #[trigger] s[j].key()
}

/// The items of `s` that have key `k`, in their order.
pub open spec fn with_key<T: Keyed>(s: Seq<T>, k: int) -> Seq<T>
    decreases s.len(),
{
    if s.len() == 0 {
        s
    } else if s.last().key() == k {
        with_key(s.drop_last(), k).push(s.last())
    } else {
        with_key(s.drop_last(), k)
    }
}

proof fn lemma_inserted<T: Keyed>(s: Seq<T>, x: T)
    ensures
        inserted(s, x).len() == s.len() + 1,
        inserted(s, x).to_multiset() == s.to_multiset().insert(x),
        forall|i: int|
            0 <= i < s.len() + 1 ==> (#[trigger] inserted(s, x)[i]) == x || exists|j: int|
                0 <= j < s.len() && s[j] == inserted(s, x)[i],
    decreases s.len(),
{
    broadcast use vstd::seq_lib::group_to_multiset_ensures;

    if s.len() == 0 || s.last().key() <= x.key() {
        assert forall|i: int| 0 <= i < s.len() + 1 implies (#[trigger] inserted(s, x)[i]) == x
            || exists|j: int| 0 <= j < s.len() && s[j] == inserted(s, x)[i] by {
            if i < s.len() {
                assert(s[i] == inserted(s, x)[i]);
            }
        }
    } else {
        let t = s.drop_last();
        lemma_inserted(t, x);
        assert(s == t.push(s.last()));
        assert forall|i: int| 0 <= i < s.len() + 1 implies (#[trigger] inserted(s, x)[i]) == x
            || exists|j: int| 0 <= j < s.len() && s[j] == inserted(s, x)[i] by {
            if i < s.len() {
                assert(inserted(s, x)[i] == inserted(t, x)[i]);
                if inserted(t, x)[i] != x {
                    let j = choose|j: int| 0 <= j < t.len() && t[j] == inserted(t, x)[i];
                    assert(s[j] == inserted(s, x)[i]);
                }
            } else {
                assert(s[s.len() - 1] == inserted(s, x)[i]);
            }
        }
    }
}

/// Putting an item in its place keeps the order, and adds one item.
pub proof fn inserted_keeps_order<T: Keyed>(s: Seq<T>, x: T)
    requires
        ordered(s),
    ensures
        ordered(inserted(s, x)),
        inserted(s, x).len() == s.len() + 1,
    decreases s.len(),
{
    if s.len() == 0 || s.last().key() <= x.key() {
    } else {
        let t = s.drop_last();
        lemma_inserted(t, x);
        inserted_keeps_order(t, x);
        assert forall|i: int, j: int| 0 <= i < j < inserted(s, x).len() implies (
        #[trigger] inserted(s, x)[i].key()) <= (#[trigger] inserted(s, x)[j].key()) by {
            if j == s.len() {
                assert(inserted(s, x)[i] == inserted(t, x)[i]);
                if inserted(t, x)[i] != x {
                    let m = choose|m: int| 0 <= m < t.len() && t[m] == inserted(t, x)[i];
                    assert(s[m].key() <= s[s.len() - 1].key());
                }
            } else {
                assert(inserted(s, x)[i] == inserted(t, x)[i]);
                assert(inserted(s, x)[j] == inserted(t, x)[j]);
            }
        }
    }
}

proof fn lemma_inserted_with_key<T: Keyed>(s: Seq<T>, x: T, k: int)
    ensures
        with_key(inserted(s, x), k) == (if x.key() == k {
            with_key(s, k).push(x)
        } else {
            with_key(s, k)
        }),
    decreases s.len(),
{
    if s.len() == 0 || s.last().key() <= x.key() {
        assert(s.push(x).drop_last() == s);
    } else {
        let t = s.drop_last();
        lemma_inserted_with_key(t, x, k);
        assert(inserted(s, x).drop_last() == inserted(t, x));
        assert(inserted(s, x).last() == s.last());
    }
}

/// Sorting yields an ordered arrangement of the same items.
pub proof fn sorted_is_ordered<T: Keyed>(s: Seq<T>)
    ensures
        ordered(sorted(s)),
        sorted(s).len() == s.len(),
        sorted(s).to_multiset() == s.to_multiset(),
    decreases s.len(),
{
    broadcast use vstd::seq_lib::group_to_multiset_ensures;

    if s.len() > 0 {
        sorted_is_ordered(s.drop_last());
        lemma_inserted(sorted(s.drop_last()), s.last());
        inserted_keeps_order(sorted(s.drop_last()), s.last());
        assert(s == s.drop_last().push(s.last()));
    }
}

/// Every item of the sorted arrangement is one of the items.
pub proof fn sorted_keeps_items<T: Keyed>(s: Seq<T>)
    ensures
        sorted(s).len() == s.len(),
        forall|i: int| 0 <= i < s.len() ==> s.contains(#[trigger] sorted(s)[i]),
        forall|i: int| 0 <= i < s.len() ==> sorted(s).contains(#[trigger] s[i]),
{
    broadcast use vstd::seq_lib::group_to_multiset_ensures;

    sorted_is_ordered(s);
    assert forall|i: int| 0 <= i < s.len() implies s.contains(#[trigger] sorted(s)[i]) by {
        assert(sorted(s).contains(sorted(s)[i]));
        assert(s.to_multiset().count(sorted(s)[i]) > 0);
    }
    assert forall|i: int| 0 <= i < s.len() implies sorted(s).contains(#[trigger] s[i]) by {
        assert(s.contains(s[i]));
        assert(sorted(s).to_multiset().count(s[i]) > 0);
    }
}

/// Sorting is stable: items with one key keep their order.
pub proof fn sorted_is_stable<T: Keyed>(s: Seq<T>, k: int)
    ensures
        with_key(sorted(s), k) == with_key(s, k),
    decreases s.len(),
{
    if s.len() > 0 {
        sorted_is_stable(s.drop_last(), k);
        lemma_inserted_with_key(sorted(s.drop_last()), s.last(), k);
    }
}

/// Putting an item in its place means inserting it behind the last item whose key
/// is no greater.
pub proof fn inserted_at<T: Keyed>(s: Seq<T>, x: T, p: int)
    requires
        0 <= p <= s.len(),
        forall|j: int| p <= j < s.len() ==> (#[trigger] s[j]).key() > x.key(),
        p > 0 ==> s[p - 1].key() <= x.key(),
    ensures
        inserted(s, x) == s.insert(p, x),
    decreases s.len(),
{
    if p < s.len() {
        assert(s[s.len() - 1].key() > x.key());
        inserted_at(s.drop_last(), x, p);
        assert(s.drop_last().insert(p, x).push(s.last()) == s.insert(p, x));
    } else {
        assert(s.push(x) == s.insert(p, x));
    }
}

/// Sorts by key, keeping the order of items whose keys are equal.
pub fn stable_sort<T: Keyed>(v: Vec<T>) -> (r: Vec<T>)
    ensures
        r@ == sorted(v@),
{
    let mut rest: Vec<T> = v;
    let ghost all = rest@;
    let mut out: Vec<T> = Vec::new();
    assert(all.take(0) == Seq::<T>::empty());
    assert(all.skip(0) == all);
    while rest.len() > 0
        invariant
            rest.len() <= all.len(),
            rest@ == all.skip(all.len() - rest.len()),
            out@ == sorted(all.take(all.len() - rest.len())),
        decreases rest.len(),
    {
        let ghost n = all.len() - rest.len();
        let x = rest.remove(0);
        let k: u64 = x.sort_key();
        let mut p: usize = out.len();
        while p > 0 && out[p - 1].sort_key() > k
            invariant
                p <= out.len(),
                k as int == x.key(),
                forall|j: int| p <= j < out.len() ==> (#[trigger] out@[j]).key() > x.key(),
            decreases p,
        {
            p = p - 1;
        }
        proof {
            inserted_at(out@, x, p as int);
            assert(all.take(n + 1).drop_last() == all.take(n));
            assert(all.take(n + 1).last() == x);
            assert(all.skip(n).remove(0) == all.skip(n + 1));
        }
        out.insert(p, x);
    }
    assert(all.take(all.len() as int) == all);
    out
}

/// Mapping two arrangements of the same items gives two arrangements of the same items.
pub proof fn mapping_keeps_arrangement<A, B>(a: Seq<A>, b: Seq<A>, f: spec_fn(A) -> B)
    requires
        a.to_multiset() == b.to_multiset(),
    ensures
        a.map_values(f).to_multiset() == b.map_values(f).to_multiset(),
    decreases a.len(),
{
    broadcast use vstd::seq_lib::group_to_multiset_ensures;

    assert(a.len() == b.len()) by {
        a.to_multiset_ensures();
        b.to_multiset_ensures();
    }
    if a.len() > 0 {
        let x = a.last();
        assert(a.contains(x));
        assert(b.to_multiset().count(x) > 0);
        assert(b.contains(x));
        let j = choose|j: int| 0 <= j < b.len() && b[j] == x;
        let t = a.drop_last();
        let u = b.remove(j);
        assert(t == a.remove(a.len() - 1));
        assert(t.to_multiset() == u.to_multiset());
        mapping_keeps_arrangement(t, u, f);
        let (fa, fb) = (a.map_values(f), b.map_values(f));
        assert(fa == t.map_values(f).push(f(x)));
        assert(fb.remove(j) == u.map_values(f));
        assert(fb.to_multiset() == fb.remove(j).to_multiset().insert(f(x))) by {
            assert(fb[j] == f(x));
            assert(fb.contains(f(x)));
        }
    } else {
        assert(a.map_values(f) == b.map_values(f));
    }
}

/// An item goes behind all others that have its key, which keep their order.
pub proof fn inserted_goes_behind_its_equals<T: Keyed>(s: Seq<T>, x: T, k: int)
    ensures
        with_key(inserted(s, x), k) == (if x.key() == k {
            with_key(s, k).push(x)
        } else {
            with_key(s, k)
        }),
        inserted(s, x).to_multiset() == s.to_multiset().insert(x),
{
    lemma_inserted_with_key(s, x, k);
    lemma_inserted(s, x);
}

} // verus!
