//! Sorted lists without repeats, for values ordered by an integer key.
use vstd::prelude::*;

use crate::week::Week;

verus! {

/// A value with an integer key that orders it and tells it apart.
pub trait Keyed: Sized {
    spec fn key(self) -> int;

    proof fn lemma_key_injective(a: Self, b: Self)
        requires
            a.key() == b.key(),
        ensures
            a == b,
    ;

    fn less(&self, other: &Self) -> (r: bool)
        ensures
            r == (self.key() < other.key()),
    ;
}

impl Keyed for u16 {
    open spec fn key(self) -> int {
        self as int
    }

    proof fn lemma_key_injective(a: Self, b: Self) {
    }

    fn less(&self, other: &Self) -> (r: bool) {
        *self < *other
    }
}

impl Keyed for u32 {
    open spec fn key(self) -> int {
        self as int
    }

    proof fn lemma_key_injective(a: Self, b: Self) {
    }

    fn less(&self, other: &Self) -> (r: bool) {
        *self < *other
    }
}

impl Keyed for (u32, u32) {
    open spec fn key(self) -> int {
        self.0 as int * 0x1_0000_0000 + self.1 as int
    }

    proof fn lemma_key_injective(a: Self, b: Self) {
    }

    fn less(&self, other: &Self) -> (r: bool) {
        self.0 < other.0 || (self.0 == other.0 && self.1 < other.1)
    }
}

impl Keyed for Week {
    open spec fn key(self) -> int {
        self.year as int * 256 + self.week as int
    }

    proof fn lemma_key_injective(a: Self, b: Self) {
    }

    fn less(&self, other: &Self) -> (r: bool) {
        self.year < other.year || (self.year == other.year && self.week < other.week)
    }
}

/// Strictly increasing by key (so no value occurs twice).
pub open spec fn key_sorted<T: Keyed>(v: Seq<T>) -> bool {
    forall|i: int, j: int| 0 <= i < j < v.len() ==> (#[trigger] v[i]).key() < (#[trigger] v[j]).key()
}

/// Adds `x` to a key-sorted list unless it is already there.
pub fn insert_unique<T: Keyed>(v: &mut Vec<T>, x: T)
    requires
        key_sorted(old(v)@),
    ensures
        key_sorted(final(v)@),
        final(v)@.to_set() == old(v)@.to_set().insert(x),
{
    let ghost old_v = v@;
    let mut k = 0usize;
    while k < v.len() && v[k].less(&x)
        invariant
            k <= v.len(),
            v@ == old_v,
            key_sorted(old_v),
            forall|i: int| 0 <= i < k ==> (#[trigger] old_v[i]).key() < x.key(),
        decreases v.len() - k,
    {
        k = k + 1;
    }
    if k < v.len() && !x.less(&v[k]) {
        proof {
            T::lemma_key_injective(old_v[k as int], x);
        }
        assert(old_v.to_set().insert(x) =~= old_v.to_set()) by {
            assert(old_v[k as int] == x);
        }
        return;
    }
    v.insert(k, x);
    assert(v@ =~= old_v.insert(k as int, x));
    assert forall|e: T| v@.to_set().contains(e) <==> old_v.to_set().insert(x).contains(e) by {
        if old_v.to_set().contains(e) && e != x {
            let i = choose|i: int| 0 <= i < old_v.len() && old_v[i] == e;
            if i < k {
                assert(v@[i] == e);
            } else {
                assert(v@[i + 1] == e);
            }
        }
        if e == x {
            assert(v@[k as int] == e);
        }
        if v@.to_set().contains(e) {
            let i = choose|i: int| 0 <= i < v@.len() && v@[i] == e;
            if i < k {
                assert(old_v[i] == e);
            } else if i > k {
                assert(old_v[i - 1] == e);
            }
        }
    }
    assert(v@.to_set() =~= old_v.to_set().insert(x));
}

/// Position of `x` in a key-sorted list that holds it (binary search).
pub fn position_of<T: Keyed>(v: &Vec<T>, x: &T) -> (r: usize)
    requires
        key_sorted(v@),
        v@.contains(*x),
    ensures
        r < v.len(),
        v@[r as int] == *x,
{
    let mut lo = 0usize;
    let mut hi = v.len();
    while lo < hi
        invariant
            lo <= hi <= v.len(),
            key_sorted(v@),
            v@.contains(*x),
            forall|i: int| 0 <= i < v.len() && v@[i] == *x ==> lo <= i < hi,
        decreases hi - lo,
    {
        let mid = lo + (hi - lo) / 2;
        if v[mid].less(x) {
            lo = mid + 1;
        } else if x.less(&v[mid]) {
            hi = mid;
        } else {
            proof {
                T::lemma_key_injective(v@[mid as int], *x);
            }
            return mid;
        }
    }
    proof {
        let i = choose|i: int| 0 <= i < v.len() && v@[i] == *x;
        assert(lo <= i < hi);
    }
    0
}

} // verus!
