//! Keys that can be ordered: a key stands for an integer, its rank, and keys
//! are compared by rank.

use vstd::prelude::*;

verus! {

/// A totally ordered key. Different keys have different ranks, so the order
/// of the ranks is a total order of the keys.
pub trait Ordered: Copy {
    /// The integer by which this key is ordered.
    spec fn rank(self) -> int;

    /// Keys of equal rank are the same key.
    proof fn rank_is_injective(a: Self, b: Self)
        requires
            a.rank() == b.rank(),
        ensures
            a == b,
    ;

    /// `self < other`.
    fn less(&self, other: &Self) -> (b: bool)
        ensures
            b == (self.rank() < other.rank()),
    ;

    /// `self == other`.
    fn same(&self, other: &Self) -> (b: bool)
        ensures
            b == (self.rank() == other.rank()),
            b == (*self == *other),
    ;
}

impl Ordered for u8 {
    open spec fn rank(self) -> int {
        self as int
    }

    proof fn rank_is_injective(a: Self, b: Self) {
    }

    fn less(&self, other: &Self) -> (b: bool) {
        *self < *other
    }

    fn same(&self, other: &Self) -> (b: bool) {
        *self == *other
    }
}

impl Ordered for u16 {
    open spec fn rank(self) -> int {
        self as int
    }

    proof fn rank_is_injective(a: Self, b: Self) {
    }

    fn less(&self, other: &Self) -> (b: bool) {
        *self < *other
    }

    fn same(&self, other: &Self) -> (b: bool) {
        *self == *other
    }
}

impl Ordered for u32 {
    open spec fn rank(self) -> int {
        self as int
    }

    proof fn rank_is_injective(a: Self, b: Self) {
    }

    fn less(&self, other: &Self) -> (b: bool) {
        *self < *other
    }

    fn same(&self, other: &Self) -> (b: bool) {
        *self == *other
    }
}

impl Ordered for u64 {
    open spec fn rank(self) -> int {
        self as int
    }

    proof fn rank_is_injective(a: Self, b: Self) {
    }

    fn less(&self, other: &Self) -> (b: bool) {
        *self < *other
    }

    fn same(&self, other: &Self) -> (b: bool) {
        *self == *other
    }
}

impl Ordered for usize {
    open spec fn rank(self) -> int {
        self as int
    }

    proof fn rank_is_injective(a: Self, b: Self) {
    }

    fn less(&self, other: &Self) -> (b: bool) {
        *self < *other
    }

    fn same(&self, other: &Self) -> (b: bool) {
        *self == *other
    }
}

impl Ordered for i8 {
    open spec fn rank(self) -> int {
        self as int
    }

    proof fn rank_is_injective(a: Self, b: Self) {
    }

    fn less(&self, other: &Self) -> (b: bool) {
        *self < *other
    }

    fn same(&self, other: &Self) -> (b: bool) {
        *self == *other
    }
}

impl Ordered for i16 {
    open spec fn rank(self) -> int {
        self as int
    }

    proof fn rank_is_injective(a: Self, b: Self) {
    }

    fn less(&self, other: &Self) -> (b: bool) {
        *self < *other
    }

    fn same(&self, other: &Self) -> (b: bool) {
        *self == *other
    }
}

impl Ordered for i32 {
    open spec fn rank(self) -> int {
        self as int
    }

    proof fn rank_is_injective(a: Self, b: Self) {
    }

    fn less(&self, other: &Self) -> (b: bool) {
        *self < *other
    }

    fn same(&self, other: &Self) -> (b: bool) {
        *self == *other
    }
}

impl Ordered for i64 {
    open spec fn rank(self) -> int {
        self as int
    }

    proof fn rank_is_injective(a: Self, b: Self) {
    }

    fn less(&self, other: &Self) -> (b: bool) {
        *self < *other
    }

    fn same(&self, other: &Self) -> (b: bool) {
        *self == *other
    }
}

impl Ordered for isize {
    open spec fn rank(self) -> int {
        self as int
    }

    proof fn rank_is_injective(a: Self, b: Self) {
    }

    fn less(&self, other: &Self) -> (b: bool) {
        *self < *other
    }

    fn same(&self, other: &Self) -> (b: bool) {
        *self == *other
    }
}

/// Ascending, equal neighbours allowed.
pub open spec fn ascending<T: Ordered>(s: Seq<T>) -> bool {
    forall|i: int, j: int| 0 <= i <= j < s.len() ==> s[i].rank() <= s[j].rank()
}

/// Ascending, and no key twice.
pub open spec fn strictly_ascending<T: Ordered>(s: Seq<T>) -> bool {
    forall|i: int, j: int| 0 <= i < j < s.len() ==> s[i].rank() < s[j].rank()
}

/// A strictly ascending sequence is determined by the keys it holds.
pub proof fn lemma_strictly_ascending_unique<T: Ordered>(x: Seq<T>, y: Seq<T>)
    requires
        strictly_ascending(x),
        strictly_ascending(y),
        forall|k: T| x.contains(k) <==> y.contains(k),
    ensures
        x == y,
    decreases x.len(),
{
    if x.len() == 0 {
        if y.len() > 0 {
            assert(y.contains(y[0]));
        }
        assert(x =~= y);
    } else {
        let m = x.last();
        assert(x.contains(m));
        assert(y.contains(m));
        let j = choose|j: int| 0 <= j < y.len() && y[j] == m;
        let top = y.last();
        assert(y.contains(top));
        assert(x.contains(top));
        let i = choose|i: int| 0 <= i < x.len() && x[i] == top;
        assert(top.rank() <= m.rank());
        assert(m.rank() <= top.rank());
        T::rank_is_injective(m, top);
        let xs = x.drop_last();
        let ys = y.drop_last();
        assert forall|k: T| xs.contains(k) <==> ys.contains(k) by {
            if xs.contains(k) {
                let a = choose|a: int| 0 <= a < xs.len() && xs[a] == k;
                assert(x[a] == k);
                assert(x.contains(k));
                let b = choose|b: int| 0 <= b < y.len() && y[b] == k;
                assert(k.rank() < m.rank());
                assert(ys[b] == k);
            }
            if ys.contains(k) {
                let b = choose|b: int| 0 <= b < ys.len() && ys[b] == k;
                assert(y[b] == k);
                assert(y.contains(k));
                let a = choose|a: int| 0 <= a < x.len() && x[a] == k;
                assert(k.rank() < top.rank());
                assert(xs[a] == k);
            }
        }
        lemma_strictly_ascending_unique(xs, ys);
        assert(x =~= xs.push(m));
        assert(y =~= ys.push(top));
    }
}

} // verus!
