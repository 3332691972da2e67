//! The variables of a diagram: a type with a strict total order that the
//! verifier can read.

use vstd::prelude::*;

verus! {

/// A boolean variable that diagrams can branch on.
///
/// Every diagram of one session keeps its variables in one fixed order:
/// `rank` places a variable on the integer line, and a variable of lower
/// rank stands nearer to the root. Two variables of the same rank are the
/// same variable.
pub trait Variable: Copy + Sized {
    /// The position of this variable in the order.
    spec fn rank(self) -> int;

    /// Distinct variables have distinct ranks.
    proof fn lemma_rank_injective(a: Self, b: Self)
        ensures
            a.rank() == b.rank() ==> a == b,
    ;

    /// Does `self` come strictly before `other` in the order?
    fn precedes(self, other: Self) -> (r: bool)
        ensures
            r == (self.rank() < other.rank()),
    ;

    /// Are `self` and `other` the same variable?
    fn same(self, other: Self) -> (r: bool)
        ensures
            r == (self == other),
    ;
}

impl Variable for u8 {
    open spec fn rank(self) -> int {
        self as int
    }

    proof fn lemma_rank_injective(a: Self, b: Self) {
    }

    fn precedes(self, other: Self) -> (r: bool) {
        self < other
    }

    fn same(self, other: Self) -> (r: bool) {
        self == other
    }
}

impl Variable for u16 {
    open spec fn rank(self) -> int {
        self as int
    }

    proof fn lemma_rank_injective(a: Self, b: Self) {
    }

    fn precedes(self, other: Self) -> (r: bool) {
        self < other
    }

    fn same(self, other: Self) -> (r: bool) {
        self == other
    }
}

impl Variable for u32 {
    open spec fn rank(self) -> int {
        self as int
    }

    proof fn lemma_rank_injective(a: Self, b: Self) {
    }

    fn precedes(self, other: Self) -> (r: bool) {
        self < other
    }

    fn same(self, other: Self) -> (r: bool) {
        self == other
    }
}

impl Variable for u64 {
    open spec fn rank(self) -> int {
        self as int
    }

    proof fn lemma_rank_injective(a: Self, b: Self) {
    }

    fn precedes(self, other: Self) -> (r: bool) {
        self < other
    }

    fn same(self, other: Self) -> (r: bool) {
        self == other
    }
}

impl Variable for u128 {
    open spec fn rank(self) -> int {
        self as int
    }

    proof fn lemma_rank_injective(a: Self, b: Self) {
    }

    fn precedes(self, other: Self) -> (r: bool) {
        self < other
    }

    fn same(self, other: Self) -> (r: bool) {
        self == other
    }
}

impl Variable for usize {
    open spec fn rank(self) -> int {
        self as int
    }

    proof fn lemma_rank_injective(a: Self, b: Self) {
    }

    fn precedes(self, other: Self) -> (r: bool) {
        self < other
    }

    fn same(self, other: Self) -> (r: bool) {
        self == other
    }
}

impl Variable for i8 {
    open spec fn rank(self) -> int {
        self as int
    }

    proof fn lemma_rank_injective(a: Self, b: Self) {
    }

    fn precedes(self, other: Self) -> (r: bool) {
        self < other
    }

    fn same(self, other: Self) -> (r: bool) {
        self == other
    }
}

impl Variable for i16 {
    open spec fn rank(self) -> int {
        self as int
    }

    proof fn lemma_rank_injective(a: Self, b: Self) {
    }

    fn precedes(self, other: Self) -> (r: bool) {
        self < other
    }

    fn same(self, other: Self) -> (r: bool) {
        self == other
    }
}

impl Variable for i32 {
    open spec fn rank(self) -> int {
        self as int
    }

    proof fn lemma_rank_injective(a: Self, b: Self) {
    }

    fn precedes(self, other: Self) -> (r: bool) {
        self < other
    }

    fn same(self, other: Self) -> (r: bool) {
        self == other
    }
}

impl Variable for i64 {
    open spec fn rank(self) -> int {
        self as int
    }

    proof fn lemma_rank_injective(a: Self, b: Self) {
    }

    fn precedes(self, other: Self) -> (r: bool) {
        self < other
    }

    fn same(self, other: Self) -> (r: bool) {
        self == other
    }
}

impl Variable for i128 {
    open spec fn rank(self) -> int {
        self as int
    }

    proof fn lemma_rank_injective(a: Self, b: Self) {
    }

    fn precedes(self, other: Self) -> (r: bool) {
        self < other
    }

    fn same(self, other: Self) -> (r: bool) {
        self == other
    }
}

impl Variable for isize {
    open spec fn rank(self) -> int {
        self as int
    }

    proof fn lemma_rank_injective(a: Self, b: Self) {
    }

    fn precedes(self, other: Self) -> (r: bool) {
        self < other
    }

    fn same(self, other: Self) -> (r: bool) {
        self == other
    }
}

} // verus!
