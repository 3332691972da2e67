//! The laws of boolean algebra, as they hold of the diagrams of a session.
//!
//! Each law speaks of handles: where two constructions stand for the same
//! boolean function, a session in good order has given them the same
//! handle. The results of the operations are named by what the operations
//! promise of them (`is_not_of`, `is_and_of`, `is_or_of`, `is_xor_of`), so
//! a law applies to whatever a call has returned.

use crate::raw::{Bdd, Context};
use crate::tree::Tree;
use crate::variable::Variable;
use vstd::arithmetic::power2::{lemma2_to64, lemma_pow2_strictly_increases, pow2};
use vstd::prelude::*;

verus! {

impl<'arena, V: Variable> Context<'arena, V> {
    /// An operation has one result: two diagrams that are both the
    /// negation of `a` are the same handle.
    pub proof fn lemma_not_unique(&self, a: Bdd<'arena, V>, r1: Bdd<'arena, V>, r2: Bdd<'arena, V>)
        requires
            self.wf(),
            self.owns(r1),
            self.owns(r2),
            r1@.is_not_of(a@),
            r2@.is_not_of(a@),
        ensures
            r1 == r2,
    {
        self.lemma_equivalent_is_equal(r1, r2);
    }

    /// An operation has one result: two diagrams that are both the
    /// conjunction of `a` and `b` are the same handle, whenever they were
    /// built.
    pub proof fn lemma_and_unique(
        &self,
        a: Bdd<'arena, V>,
        b: Bdd<'arena, V>,
        r1: Bdd<'arena, V>,
        r2: Bdd<'arena, V>,
    )
        requires
            self.wf(),
            self.owns(r1),
            self.owns(r2),
            r1@.is_and_of(a@, b@),
            r2@.is_and_of(a@, b@),
        ensures
            r1 == r2,
    {
        self.lemma_equivalent_is_equal(r1, r2);
    }

    /// Negating twice gives the diagram back.
    pub proof fn lemma_not_involutive(
        &self,
        a: Bdd<'arena, V>,
        not_a: Bdd<'arena, V>,
        not_not_a: Bdd<'arena, V>,
    )
        requires
            self.wf(),
            self.owns(a),
            self.owns(not_not_a),
            not_a@.is_not_of(a@),
            not_not_a@.is_not_of(not_a@),
        ensures
            not_not_a == a,
    {
        self.lemma_equivalent_is_equal(not_not_a, a);
    }

    /// The conjunction of a diagram with itself is that diagram.
    pub proof fn lemma_and_idempotent(&self, a: Bdd<'arena, V>, r: Bdd<'arena, V>)
        requires
            self.wf(),
            self.owns(a),
            self.owns(r),
            r@.is_and_of(a@, a@),
        ensures
            r == a,
    {
        self.lemma_equivalent_is_equal(r, a);
    }

    /// The disjunction of a diagram with itself is that diagram.
    pub proof fn lemma_or_idempotent(&self, a: Bdd<'arena, V>, r: Bdd<'arena, V>)
        requires
            self.wf(),
            self.owns(a),
            self.owns(r),
            r@.is_or_of(a@, a@),
        ensures
            r == a,
    {
        self.lemma_equivalent_is_equal(r, a);
    }

    /// Conjunction does not depend on the order of its operands.
    pub proof fn lemma_and_commutative(
        &self,
        a: Bdd<'arena, V>,
        b: Bdd<'arena, V>,
        ab: Bdd<'arena, V>,
        ba: Bdd<'arena, V>,
    )
        requires
            self.wf(),
            self.owns(ab),
            self.owns(ba),
            ab@.is_and_of(a@, b@),
            ba@.is_and_of(b@, a@),
        ensures
            ab == ba,
    {
        self.lemma_equivalent_is_equal(ab, ba);
    }

    /// Disjunction does not depend on the order of its operands.
    pub proof fn lemma_or_commutative(
        &self,
        a: Bdd<'arena, V>,
        b: Bdd<'arena, V>,
        ab: Bdd<'arena, V>,
        ba: Bdd<'arena, V>,
    )
        requires
            self.wf(),
            self.owns(ab),
            self.owns(ba),
            ab@.is_or_of(a@, b@),
            ba@.is_or_of(b@, a@),
        ensures
            ab == ba,
    {
        self.lemma_equivalent_is_equal(ab, ba);
    }

    /// Exclusive disjunction does not depend on the order of its operands.
    pub proof fn lemma_xor_commutative(
        &self,
        a: Bdd<'arena, V>,
        b: Bdd<'arena, V>,
        ab: Bdd<'arena, V>,
        ba: Bdd<'arena, V>,
    )
        requires
            self.wf(),
            self.owns(ab),
            self.owns(ba),
            ab@.is_xor_of(a@, b@),
            ba@.is_xor_of(b@, a@),
        ensures
            ab == ba,
    {
        self.lemma_equivalent_is_equal(ab, ba);
    }

    /// Conjunction does not depend on how its operands are grouped:
    /// `(a and b) and c` is `a and (b and c)`.
    pub proof fn lemma_and_associative(
        &self,
        a: Bdd<'arena, V>,
        b: Bdd<'arena, V>,
        c: Bdd<'arena, V>,
        ab: Bdd<'arena, V>,
        bc: Bdd<'arena, V>,
        left: Bdd<'arena, V>,
        right: Bdd<'arena, V>,
    )
        requires
            self.wf(),
            self.owns(left),
            self.owns(right),
            ab@.is_and_of(a@, b@),
            bc@.is_and_of(b@, c@),
            left@.is_and_of(ab@, c@),
            right@.is_and_of(a@, bc@),
        ensures
            left == right,
    {
        self.lemma_equivalent_is_equal(left, right);
    }

    /// Disjunction does not depend on how its operands are grouped:
    /// `(a or b) or c` is `a or (b or c)`.
    pub proof fn lemma_or_associative(
        &self,
        a: Bdd<'arena, V>,
        b: Bdd<'arena, V>,
        c: Bdd<'arena, V>,
        ab: Bdd<'arena, V>,
        bc: Bdd<'arena, V>,
        left: Bdd<'arena, V>,
        right: Bdd<'arena, V>,
    )
        requires
            self.wf(),
            self.owns(left),
            self.owns(right),
            ab@.is_or_of(a@, b@),
            bc@.is_or_of(b@, c@),
            left@.is_or_of(ab@, c@),
            right@.is_or_of(a@, bc@),
        ensures
            left == right,
    {
        self.lemma_equivalent_is_equal(left, right);
    }

    /// False absorbs a conjunction: `a and false` is false.
    pub proof fn lemma_and_false(&self, a: Bdd<'arena, V>, f: Bdd<'arena, V>, r: Bdd<'arena, V>)
        requires
            self.wf(),
            self.owns(f),
            self.owns(r),
            f@ == Tree::<V>::Leaf(false),
            r@.is_and_of(a@, f@),
        ensures
            r == f,
    {
        self.lemma_equivalent_is_equal(r, f);
    }

    /// True is neutral in a conjunction: `a and true` is `a`.
    pub proof fn lemma_and_true(&self, a: Bdd<'arena, V>, t: Bdd<'arena, V>, r: Bdd<'arena, V>)
        requires
            self.wf(),
            self.owns(a),
            self.owns(r),
            t@ == Tree::<V>::Leaf(true),
            r@.is_and_of(a@, t@),
        ensures
            r == a,
    {
        self.lemma_equivalent_is_equal(r, a);
    }

    /// False is neutral in a disjunction: `a or false` is `a`.
    pub proof fn lemma_or_false(&self, a: Bdd<'arena, V>, f: Bdd<'arena, V>, r: Bdd<'arena, V>)
        requires
            self.wf(),
            self.owns(a),
            self.owns(r),
            f@ == Tree::<V>::Leaf(false),
            r@.is_or_of(a@, f@),
        ensures
            r == a,
    {
        self.lemma_equivalent_is_equal(r, a);
    }

    /// True absorbs a disjunction: `a or true` is true.
    pub proof fn lemma_or_true(&self, a: Bdd<'arena, V>, t: Bdd<'arena, V>, r: Bdd<'arena, V>)
        requires
            self.wf(),
            self.owns(t),
            self.owns(r),
            t@ == Tree::<V>::Leaf(true),
            r@.is_or_of(a@, t@),
        ensures
            r == t,
    {
        self.lemma_equivalent_is_equal(r, t);
    }

    /// A diagram and its negation are never both true: their conjunction is
    /// false.
    pub proof fn lemma_and_complement(
        &self,
        a: Bdd<'arena, V>,
        not_a: Bdd<'arena, V>,
        f: Bdd<'arena, V>,
        r: Bdd<'arena, V>,
    )
        requires
            self.wf(),
            self.owns(f),
            self.owns(r),
            f@ == Tree::<V>::Leaf(false),
            not_a@.is_not_of(a@),
            r@.is_and_of(a@, not_a@),
        ensures
            r == f,
    {
        self.lemma_equivalent_is_equal(r, f);
    }

    /// Of a diagram and its negation one is always true: their disjunction
    /// is true.
    pub proof fn lemma_or_complement(
        &self,
        a: Bdd<'arena, V>,
        not_a: Bdd<'arena, V>,
        t: Bdd<'arena, V>,
        r: Bdd<'arena, V>,
    )
        requires
            self.wf(),
            self.owns(t),
            self.owns(r),
            t@ == Tree::<V>::Leaf(true),
            not_a@.is_not_of(a@),
            r@.is_or_of(a@, not_a@),
        ensures
            r == t,
    {
        self.lemma_equivalent_is_equal(r, t);
    }

    /// Conjunction distributes over disjunction: `a and (b or c)` is
    /// `(a and b) or (a and c)`.
    pub proof fn lemma_and_distributes(
        &self,
        a: Bdd<'arena, V>,
        b: Bdd<'arena, V>,
        c: Bdd<'arena, V>,
        b_or_c: Bdd<'arena, V>,
        left: Bdd<'arena, V>,
        a_and_b: Bdd<'arena, V>,
        a_and_c: Bdd<'arena, V>,
        right: Bdd<'arena, V>,
    )
        requires
            self.wf(),
            self.owns(left),
            self.owns(right),
            b_or_c@.is_or_of(b@, c@),
            left@.is_and_of(a@, b_or_c@),
            a_and_b@.is_and_of(a@, b@),
            a_and_c@.is_and_of(a@, c@),
            right@.is_or_of(a_and_b@, a_and_c@),
        ensures
            left == right,
    {
        self.lemma_equivalent_is_equal(left, right);
    }

    /// Disjunction distributes over conjunction: `a or (b and c)` is
    /// `(a or b) and (a or c)`.
    pub proof fn lemma_or_distributes(
        &self,
        a: Bdd<'arena, V>,
        b: Bdd<'arena, V>,
        c: Bdd<'arena, V>,
        b_and_c: Bdd<'arena, V>,
        left: Bdd<'arena, V>,
        a_or_b: Bdd<'arena, V>,
        a_or_c: Bdd<'arena, V>,
        right: Bdd<'arena, V>,
    )
        requires
            self.wf(),
            self.owns(left),
            self.owns(right),
            b_and_c@.is_and_of(b@, c@),
            left@.is_or_of(a@, b_and_c@),
            a_or_b@.is_or_of(a@, b@),
            a_or_c@.is_or_of(a@, c@),
            right@.is_and_of(a_or_b@, a_or_c@),
        ensures
            left == right,
    {
        self.lemma_equivalent_is_equal(left, right);
    }

    /// De Morgan: the negation of a conjunction is the disjunction of the
    /// negations.
    pub proof fn lemma_not_and(
        &self,
        a: Bdd<'arena, V>,
        b: Bdd<'arena, V>,
        a_and_b: Bdd<'arena, V>,
        left: Bdd<'arena, V>,
        not_a: Bdd<'arena, V>,
        not_b: Bdd<'arena, V>,
        right: Bdd<'arena, V>,
    )
        requires
            self.wf(),
            self.owns(left),
            self.owns(right),
            a_and_b@.is_and_of(a@, b@),
            left@.is_not_of(a_and_b@),
            not_a@.is_not_of(a@),
            not_b@.is_not_of(b@),
            right@.is_or_of(not_a@, not_b@),
        ensures
            left == right,
    {
        self.lemma_equivalent_is_equal(left, right);
    }

    /// De Morgan: the negation of a disjunction is the conjunction of the
    /// negations.
    pub proof fn lemma_not_or(
        &self,
        a: Bdd<'arena, V>,
        b: Bdd<'arena, V>,
        a_or_b: Bdd<'arena, V>,
        left: Bdd<'arena, V>,
        not_a: Bdd<'arena, V>,
        not_b: Bdd<'arena, V>,
        right: Bdd<'arena, V>,
    )
        requires
            self.wf(),
            self.owns(left),
            self.owns(right),
            a_or_b@.is_or_of(a@, b@),
            left@.is_not_of(a_or_b@),
            not_a@.is_not_of(a@),
            not_b@.is_not_of(b@),
            right@.is_and_of(not_a@, not_b@),
        ensures
            left == right,
    {
        self.lemma_equivalent_is_equal(left, right);
    }

    /// The exclusive disjunction of a diagram with itself is false.
    pub proof fn lemma_xor_self(&self, a: Bdd<'arena, V>, f: Bdd<'arena, V>, r: Bdd<'arena, V>)
        requires
            self.wf(),
            self.owns(f),
            self.owns(r),
            f@ == Tree::<V>::Leaf(false),
            r@.is_xor_of(a@, a@),
        ensures
            r == f,
    {
        self.lemma_equivalent_is_equal(r, f);
    }

    /// The exclusive disjunction of a diagram with its negation is true.
    pub proof fn lemma_xor_complement(
        &self,
        a: Bdd<'arena, V>,
        not_a: Bdd<'arena, V>,
        t: Bdd<'arena, V>,
        r: Bdd<'arena, V>,
    )
        requires
            self.wf(),
            self.owns(t),
            self.owns(r),
            t@ == Tree::<V>::Leaf(true),
            not_a@.is_not_of(a@),
            r@.is_xor_of(a@, not_a@),
        ensures
            r == t,
    {
        self.lemma_equivalent_is_equal(r, t);
    }

    /// Exclusive disjunction spelled out: `a xor b` is
    /// `(a and not b) or (not a and b)`.
    pub proof fn lemma_xor_expands(
        &self,
        a: Bdd<'arena, V>,
        b: Bdd<'arena, V>,
        a_xor_b: Bdd<'arena, V>,
        not_a: Bdd<'arena, V>,
        not_b: Bdd<'arena, V>,
        a_only: Bdd<'arena, V>,
        b_only: Bdd<'arena, V>,
        right: Bdd<'arena, V>,
    )
        requires
            self.wf(),
            self.owns(a_xor_b),
            self.owns(right),
            a_xor_b@.is_xor_of(a@, b@),
            not_a@.is_not_of(a@),
            not_b@.is_not_of(b@),
            a_only@.is_and_of(a@, not_b@),
            b_only@.is_and_of(not_a@, b@),
            right@.is_or_of(a_only@, b_only@),
        ensures
            a_xor_b == right,
    {
        self.lemma_equivalent_is_equal(a_xor_b, right);
    }
}

/// Every assignment is a model of the constant true: over a list of
/// variables without repetitions it has two to the power of their number.
pub proof fn lemma_count_true<V: Variable>(vars: Seq<V>)
    requires
        vars.no_duplicates(),
    ensures
        Tree::<V>::Leaf(true).count_models(vars) == pow2(vars.len()),
{
    Tree::<V>::Leaf(true).lemma_count_is_tally(vars);
    Tree::<V>::Leaf(true).lemma_tally_leaf(vars, Set::empty());
}

/// The constant false has no model.
pub proof fn lemma_count_false<V: Variable>(vars: Seq<V>)
    ensures
        Tree::<V>::Leaf(false).count_models(vars) == 0,
{
    assert(Tree::<V>::Leaf(false).models(vars) =~= Set::<Set<V>>::empty());
}

/// No diagram has more models than there are assignments: over a list of
/// variables without repetitions, two to the power of their number. A count
/// over fewer than 64 variables therefore fits in 64 bits.
pub proof fn lemma_count_bound<V: Variable>(tree: Tree<V>, vars: Seq<V>)
    requires
        vars.no_duplicates(),
    ensures
        tree.count_models(vars) <= pow2(vars.len()),
        vars.len() < 64 ==> tree.count_models(vars) <= u64::MAX,
{
    tree.lemma_count_is_tally(vars);
    tree.lemma_tally_bound(vars, Set::empty());
    if vars.len() < 64 {
        lemma2_to64();
        lemma_pow2_strictly_increases(vars.len(), 64);
    }
}

} // verus!
