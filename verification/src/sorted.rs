//! Sets kept as strictly increasing vectors: one writing per set, so that two
//! sets are equal exactly when their vectors are, and iteration goes in
//! increasing order (as a `BTreeSet` does).

use vstd::prelude::*;

verus! {

/// A strict total order, with its executable comparison.
pub trait Key: Sized {
    spec fn lt(self, other: Self) -> bool;

    proof fn lt_irreflexive(a: Self)
        ensures
            !a.lt(a),
    ;

    proof fn lt_transitive(a: Self, b: Self, c: Self)
        requires
            a.lt(b),
            b.lt(c),
        ensures
            a.lt(c),
    ;

    proof fn lt_total(a: Self, b: Self)
        ensures
            a.lt(b) || b.lt(a) || a == b,
    ;

    fn less(&self, other: &Self) -> (r: bool)
        ensures
            r == self.lt(*other),
    ;

    fn same(&self, other: &Self) -> (r: bool)
        ensures
            r == (*self == *other),
    ;
}

/// Strictly increasing.
pub open spec fn sorted<T: Key + Copy>(s: Seq<T>) -> bool {
    forall|i: int, j: int| 0 <= i < j < s.len() ==> (#[trigger] s[i]).lt(#[trigger] s[j])
}

pub proof fn lemma_sorted_no_duplicates<T: Key + Copy>(s: Seq<T>)
    requires
        sorted(s),
    ensures
        s.no_duplicates(),
        s.to_set().len() == s.len(),
{
    assert forall|i: int, j: int| 0 <= i < s.len() && 0 <= j < s.len() && i != j implies s[i]
        != s[j] by {
        if i < j {
            T::lt_irreflexive(s[i]);
        } else {
            T::lt_irreflexive(s[j]);
        }
    }
    s.unique_seq_to_set();
}

pub proof fn lemma_push_to_set<T>(s: Seq<T>, x: T)
    ensures
        s.push(x).to_set() == s.to_set().insert(x),
{
    assert forall|y: T| s.push(x).to_set().contains(y) <==> s.to_set().insert(x).contains(y) by {
        if s.push(x).to_set().contains(y) {
            let m = choose|m: int| 0 <= m < s.push(x).len() && s.push(x)[m] == y;
            if m < s.len() {
                assert(s[m] == y);
            }
        }
        if s.to_set().contains(y) {
            let m = choose|m: int| 0 <= m < s.len() && s[m] == y;
            assert(s.push(x)[m] == y);
        }
        if y == x {
            assert(s.push(x)[s.len() as int] == x);
        }
    }
    assert(s.push(x).to_set() =~= s.to_set().insert(x));
}

/// Two increasing writings of the same set are the same writing.
pub proof fn lemma_sorted_unique<T: Key + Copy>(a: Seq<T>, b: Seq<T>)
    requires
        sorted(a),
        sorted(b),
        a.to_set() == b.to_set(),
    ensures
        a == b,
    decreases a.len(),
{
    if a.len() == 0 {
        if b.len() > 0 {
            assert(b.to_set().contains(b[0]));
        }
        assert(a =~= b);
    } else {
        assert(a.to_set().contains(a[0]));
        let j = choose|j: int| 0 <= j < b.len() && b[j] == a[0];
        assert(b.to_set().contains(b[0]));
        let k = choose|k: int| 0 <= k < a.len() && a[k] == b[0];
        if j > 0 {
            if k > 0 {
                T::lt_transitive(a[0], a[k], a[0]);
                T::lt_irreflexive(a[0]);
            } else {
                T::lt_irreflexive(b[0]);
            }
        }
        assert(a[0] == b[0]);
        let a1 = a.drop_first();
        let b1 = b.drop_first();
        assert forall|x: T| a1.to_set().contains(x) implies b1.to_set().contains(x) by {
            let i = choose|i: int| 0 <= i < a1.len() && a1[i] == x;
            assert(a.to_set().contains(x));
            assert(b.to_set().contains(x));
            let m = choose|m: int| 0 <= m < b.len() && b[m] == x;
            if m == 0 {
                T::lt_irreflexive(a[0]);
                assert(a[0].lt(a[i + 1]));
            }
            assert(b1[m - 1] == x);
        }
        assert forall|x: T| b1.to_set().contains(x) implies a1.to_set().contains(x) by {
            let i = choose|i: int| 0 <= i < b1.len() && b1[i] == x;
            assert(b.to_set().contains(x));
            assert(a.to_set().contains(x));
            let m = choose|m: int| 0 <= m < a.len() && a[m] == x;
            if m == 0 {
                T::lt_irreflexive(b[0]);
                assert(b[0].lt(b[i + 1]));
            }
            assert(a1[m - 1] == x);
        }
        assert(a1.to_set() =~= b1.to_set());
        lemma_sorted_unique(a1, b1);
        assert forall|i: int| 0 <= i < a.len() implies a[i] == b[i] by {
            if i > 0 {
                assert(a[i] == a1[i - 1]);
                assert(b[i] == b1[i - 1]);
            }
        }
        assert(a =~= b);
    }
}

/// Adds `x` to the set that `v` writes, keeping `v` increasing.
pub fn insert_sorted<T: Key + Copy>(v: &mut Vec<T>, x: T)
    requires
        sorted(old(v)@),
    ensures
        sorted(final(v)@),
        final(v)@.to_set() == old(v)@.to_set().insert(x),
{
    let mut i: usize = 0;
    while i < v.len() && v[i].less(&x)
        invariant
            i <= v@.len(),
            sorted(v@),
            forall|k: int| 0 <= k < i ==> (#[trigger] v@[k]).lt(x),
        decreases v@.len() - i,
    {
        i = i + 1;
    }
    if i < v.len() && v[i].same(&x) {
        assert(v@.to_set().contains(x));
        assert(v@.to_set().insert(x) =~= v@.to_set());
        return;
    }
    let ghost before = v@;
    proof {
        if i < before.len() {
            T::lt_total(before[i as int], x);
        }
    }
    v.insert(i, x);
    assert forall|p: int, q: int| 0 <= p < q < v@.len() implies (#[trigger] v@[p]).lt(
        #[trigger] v@[q],
    ) by {
        if q < i {
        } else if q == i {
        } else if p < i {
            assert(before[p].lt(x));
            T::lt_transitive(before[p], x, before[i as int]);
            if q - 1 > i {
                T::lt_transitive(before[p], before[i as int], before[q - 1]);
            }
        } else if p == i {
            if q - 1 > i {
                T::lt_transitive(x, before[i as int], before[q - 1]);
            }
        } else {
        }
    }
    assert forall|y: T| v@.to_set().contains(y) <==> before.to_set().insert(x).contains(y) by {
        if v@.to_set().contains(y) {
            let m = choose|m: int| 0 <= m < v@.len() && v@[m] == y;
            if m < i {
                assert(before[m] == y);
            } else if m > i {
                assert(before[m - 1] == y);
            }
        }
        if before.to_set().contains(y) {
            let m = choose|m: int| 0 <= m < before.len() && before[m] == y;
            if m < i {
                assert(v@[m] == y);
            } else {
                assert(v@[m + 1] == y);
            }
        }
        if y == x {
            assert(v@[i as int] == x);
        }
    }
    assert(v@.to_set() =~= before.to_set().insert(x));
}

/// Whether `x` is in `v`.
pub fn contains_key<T: Key + Copy>(v: &[T], x: &T) -> (r: bool)
    ensures
        r == v@.contains(*x),
{
    let mut i: usize = 0;
    while i < v.len()
        invariant
            i <= v@.len(),
            forall|k: int| 0 <= k < i ==> v@[k] != *x,
        decreases v@.len() - i,
    {
        if v[i].same(x) {
            assert(v@[i as int] == *x);
            return true;
        }
        i = i + 1;
    }
    false
}

/// The elements of `a`, in order, that are (`keep`) or are not (`!keep`) in `b`.
pub open spec fn select<T>(a: Seq<T>, b: Seq<T>, keep: bool) -> Seq<T>
    decreases a.len(),
{
    if a.len() == 0 {
        a
    } else {
        let rest = select(a.drop_last(), b, keep);
        if b.contains(a.last()) == keep {
            rest.push(a.last())
        } else {
            rest
        }
    }
}

/// `select`, executed: the difference (`keep == false`) or the intersection
/// (`keep == true`) of two sets, in the order of `a`.
pub fn select_keys<T: Key + Copy>(a: &[T], b: &[T], keep: bool) -> (r: Vec<T>)
    ensures
        r@ == select(a@, b@, keep),
{
    let mut out: Vec<T> = Vec::new();
    let mut i: usize = 0;
    while i < a.len()
        invariant
            i <= a@.len(),
            out@ == select(a@.subrange(0, i as int), b@, keep),
        decreases a@.len() - i,
    {
        let x: T = a[i];
        let inb: bool = contains_key(b, &x);
        i = i + 1;
        assert(a@.subrange(0, i as int).drop_last() == a@.subrange(0, i - 1));
        if inb == keep {
            out.push(x);
        }
    }
    assert(a@.subrange(0, a@.len() as int) == a@);
    out
}

} // verus!
