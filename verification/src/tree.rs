//! The mathematical model of a diagram: a decision tree over ordered
//! variables, what it evaluates to, and why the reduced ordered form of a
//! boolean function is unique.

use crate::variable::Variable;
use vstd::prelude::*;

verus! {

/// A decision tree: a constant, or a test of one variable with the tree to
/// follow when the variable is false (`low`) and when it is true (`high`).
pub enum Tree<V> {
    Leaf(bool),
    Branch { var: V, low: Box<Tree<V>>, high: Box<Tree<V>> },
}

impl<V: Variable> Tree<V> {
    /// The value of the tree under the assignment that makes exactly the
    /// variables in `truths` true.
    pub open spec fn eval(self, truths: Set<V>) -> bool
        decreases self,
    {
        match self {
            Tree::Leaf(value) => value,
            Tree::Branch { var, low, high } => if truths.contains(var) {
                high.eval(truths)
            } else {
                low.eval(truths)
            },
        }
    }

    /// The number of constants and tests in the tree.
    pub open spec fn size(self) -> nat
        decreases self,
    {
        match self {
            Tree::Leaf(_) => 1,
            Tree::Branch { var, low, high } => 1 + low.size() + high.size(),
        }
    }

    /// The variables that the tree tests.
    pub open spec fn vars(self) -> Set<V>
        decreases self,
    {
        match self {
            Tree::Leaf(_) => Set::empty(),
            Tree::Branch { var, low, high } => low.vars().union(high.vars()).insert(var),
        }
    }

    /// Every variable of the tree comes strictly after rank `r`.
    pub open spec fn after(self, r: int) -> bool {
        forall|w: V| #[trigger] self.vars().contains(w) ==> r < w.rank()
    }

    /// On every path from the root the variables come in strictly
    /// increasing order.
    pub open spec fn ordered(self) -> bool
        decreases self,
    {
        match self {
            Tree::Leaf(_) => true,
            Tree::Branch { var, low, high } => {
                &&& low.ordered()
                &&& high.ordered()
                &&& low.after(var.rank())
                &&& high.after(var.rank())
            },
        }
    }

    /// No test is redundant: the two branches of every test differ.
    pub open spec fn reduced(self) -> bool
        decreases self,
    {
        match self {
            Tree::Leaf(_) => true,
            Tree::Branch { var, low, high } => {
                &&& low.reduced()
                &&& high.reduced()
                &&& *low != *high
            },
        }
    }

    /// Reduced and ordered: the normal form of a boolean function.
    pub open spec fn canonical(self) -> bool {
        self.ordered() && self.reduced()
    }

    /// The two trees stand for the same boolean function.
    pub open spec fn equivalent(self, other: Self) -> bool {
        forall|truths: Set<V>| #[trigger] self.eval(truths) == other.eval(truths)
    }

    /// `self` is the negation of `a`.
    pub open spec fn is_not_of(self, a: Self) -> bool {
        forall|truths: Set<V>| #[trigger] self.eval(truths) == !a.eval(truths)
    }

    /// `self` is the conjunction of `a` and `b`.
    pub open spec fn is_and_of(self, a: Self, b: Self) -> bool {
        forall|truths: Set<V>| #[trigger] self.eval(truths) == (a.eval(truths) && b.eval(truths))
    }

    /// `self` is the disjunction of `a` and `b`.
    pub open spec fn is_or_of(self, a: Self, b: Self) -> bool {
        forall|truths: Set<V>| #[trigger] self.eval(truths) == (a.eval(truths) || b.eval(truths))
    }

    /// `self` is the exclusive disjunction of `a` and `b`.
    pub open spec fn is_xor_of(self, a: Self, b: Self) -> bool {
        forall|truths: Set<V>| #[trigger] self.eval(truths) == (a.eval(truths) != b.eval(truths))
    }

    /// The tree that is `low` where `var` is false and `high` where it is
    /// true, with no test that is not needed: `low` itself where the two are
    /// the same.
    pub open spec fn choice(var: V, low: Self, high: Self) -> Self {
        if low == high {
            low
        } else {
            Tree::Branch { var, low: Box::new(low), high: Box::new(high) }
        }
    }

    /// The tree of the variable `x` alone.
    pub open spec fn variable(x: V) -> Self {
        Tree::Branch { var: x, low: Box::new(Tree::Leaf(false)), high: Box::new(Tree::Leaf(true)) }
    }

    /// The tree of a variable is true exactly when the variable is, and
    /// tests nothing else.
    pub proof fn lemma_variable(x: V)
        ensures
            forall|truths: Set<V>| #[trigger] Self::variable(x).eval(truths) == truths.contains(x),
            Self::variable(x).vars() == set![x],
            Self::variable(x).canonical(),
    {
        reveal_with_fuel(Tree::eval, 2);
        reveal_with_fuel(Tree::vars, 2);
        reveal_with_fuel(Tree::ordered, 2);
        reveal_with_fuel(Tree::reduced, 2);
    }

    /// What `choice` evaluates to, and which variables it can test.
    pub proof fn lemma_choice(var: V, low: Self, high: Self)
        ensures
            forall|truths: Set<V>| #[trigger]
                Self::choice(var, low, high).eval(truths) == if truths.contains(var) {
                    high.eval(truths)
                } else {
                    low.eval(truths)
                },
            Self::choice(var, low, high).vars().subset_of(low.vars().union(high.vars()).insert(var)),
    {
    }

    /// The value of a tree depends only on the variables that it tests.
    pub proof fn lemma_eval_depends_on_vars(self, s1: Set<V>, s2: Set<V>)
        requires
            forall|w: V| #[trigger] self.vars().contains(w) ==> (s1.contains(w) <==> s2.contains(w)),
        ensures
            self.eval(s1) == self.eval(s2),
        decreases self,
    {
        match self {
            Tree::Leaf(_) => {},
            Tree::Branch { var, low, high } => {
                assert(self.vars().contains(var));
                assert forall|w: V| #[trigger] low.vars().contains(w) implies (s1.contains(w) <==> s2.contains(w)) by {
                    assert(self.vars().contains(w));
                }
                assert forall|w: V| #[trigger] high.vars().contains(w) implies (s1.contains(w) <==> s2.contains(w)) by {
                    assert(self.vars().contains(w));
                }
                low.lemma_eval_depends_on_vars(s1, s2);
                high.lemma_eval_depends_on_vars(s1, s2);
            },
        }
    }

    /// A variable that the tree does not test can be switched either way
    /// without changing the tree's value.
    pub proof fn lemma_eval_ignores(self, x: V, truths: Set<V>)
        requires
            !self.vars().contains(x),
        ensures
            self.eval(truths.insert(x)) == self.eval(truths),
            self.eval(truths.remove(x)) == self.eval(truths),
    {
        self.lemma_eval_depends_on_vars(truths.insert(x), truths);
        self.lemma_eval_depends_on_vars(truths.remove(x), truths);
    }

    /// In an ordered tree every variable comes after any rank that the root
    /// variable comes after.
    pub proof fn lemma_ordered_after(self, r: int)
        requires
            self.ordered(),
            self is Branch ==> r < self->var.rank(),
        ensures
            self.after(r),
    {
        match self {
            Tree::Leaf(_) => {},
            Tree::Branch { var, low, high } => {
                assert forall|w: V| #[trigger] self.vars().contains(w) implies r < w.rank() by {
                    if w != var {
                        assert(low.vars().contains(w) || high.vars().contains(w));
                    }
                }
            },
        }
    }

    /// Two reduced ordered trees that differ also differ in value under
    /// some assignment.
    pub proof fn lemma_distinct_trees_differ(self, other: Self) -> (truths: Set<V>)
        requires
            self.canonical(),
            other.canonical(),
            self != other,
        ensures
            self.eval(truths) != other.eval(truths),
        decreases self.size() + other.size(), 3nat,
    {
        match (self, other) {
            (Tree::Leaf(_), Tree::Leaf(_)) => Set::empty(),
            (Tree::Leaf(value), Tree::Branch { var, low, high }) => {
                let s = other.lemma_branch_is_not_constant(Set::empty());
                if other.eval(s) != value {
                    s
                } else {
                    Set::empty()
                }
            },
            (Tree::Branch { var, low, high }, Tree::Leaf(value)) => {
                let s = self.lemma_branch_is_not_constant(Set::empty());
                if self.eval(s) != value {
                    s
                } else {
                    Set::empty()
                }
            },
            (
                Tree::Branch { var: v1, low: l1, high: h1 },
                Tree::Branch { var: v2, low: l2, high: h2 },
            ) => {
                if v1 == v2 {
                    if *l1 != *l2 {
                        let s = l1.lemma_distinct_trees_differ(*l2);
                        l1.lemma_eval_ignores(v1, s);
                        l2.lemma_eval_ignores(v1, s);
                        s.remove(v1)
                    } else {
                        let s = h1.lemma_distinct_trees_differ(*h2);
                        h1.lemma_eval_ignores(v1, s);
                        h2.lemma_eval_ignores(v1, s);
                        s.insert(v1)
                    }
                } else if v1.rank() < v2.rank() {
                    other.lemma_ordered_after(v1.rank());
                    self.lemma_branch_differs_from_later(other)
                } else {
                    V::lemma_rank_injective(v1, v2);
                    self.lemma_ordered_after(v2.rank());
                    other.lemma_branch_differs_from_later(self)
                }
            },
        }
    }

    /// A reduced ordered tree that tests a variable at its root is not
    /// constant: some assignment gives it another value than `base` does.
    proof fn lemma_branch_is_not_constant(self, base: Set<V>) -> (truths: Set<V>)
        requires
            self.canonical(),
            self is Branch,
        ensures
            self.eval(truths) != self.eval(base),
        decreases self.size(), 2nat,
    {
        let (s0, s1) = self.lemma_branch_splits();
        if self.eval(s0) != self.eval(base) {
            s0
        } else {
            s1
        }
    }

    /// The root test of a reduced ordered tree matters: there is an
    /// assignment under which switching the root variable changes the value.
    proof fn lemma_branch_splits(self) -> (pair: (Set<V>, Set<V>))
        requires
            self.canonical(),
            self is Branch,
        ensures
            self.eval(pair.0) != self.eval(pair.1),
            pair.0 == pair.1.remove(self->var),
            pair.1.contains(self->var),
        decreases self.size(), 1nat,
    {
        let var = self->var;
        let low = *self->low;
        let high = *self->high;
        let s = low.lemma_distinct_trees_differ(high);
        low.lemma_eval_ignores(var, s);
        high.lemma_eval_ignores(var, s);
        (s.remove(var), s.insert(var))
    }

    /// A reduced ordered tree differs somewhere from any tree whose
    /// variables all come after its root variable.
    proof fn lemma_branch_differs_from_later(self, other: Self) -> (truths: Set<V>)
        requires
            self.canonical(),
            self is Branch,
            other.after(self->var.rank()),
        ensures
            self.eval(truths) != other.eval(truths),
        decreases self.size(), 2nat,
    {
        let (s0, s1) = self.lemma_branch_splits();
        other.lemma_eval_ignores(self->var, s1);
        if self.eval(s0) != other.eval(s0) {
            s0
        } else {
            s1
        }
    }

    /// The reduced ordered form is unique: two reduced ordered trees that
    /// stand for the same boolean function are the same tree.
    pub proof fn lemma_canonical_form_is_unique(self, other: Self)
        requires
            self.canonical(),
            other.canonical(),
            self.equivalent(other),
        ensures
            self == other,
    {
        if self != other {
            let truths = self.lemma_distinct_trees_differ(other);
        }
    }
}

} // verus!
