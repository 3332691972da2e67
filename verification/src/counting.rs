//! Counting the assignments that satisfy a tree.

use crate::tree::Tree;
use crate::variable::Variable;
use vstd::arithmetic::power2::{lemma2_to64, lemma_pow2_unfold, pow2};
use vstd::prelude::*;
use vstd::relations::injective_on;
use vstd::set_lib::{lemma_map_size, lemma_set_disjoint_lens};

verus! {

/// The variables of `vars` come in strictly increasing order, so none
/// occurs twice.
pub open spec fn increasing<V: Variable>(vars: Seq<V>) -> bool {
    forall|i: int, j: int| 0 <= i < j < vars.len() ==> vars[i].rank() < vars[j].rank()
}

/// A list in increasing order names no variable twice.
pub proof fn lemma_increasing_no_duplicates<V: Variable>(vars: Seq<V>)
    requires
        increasing(vars),
    ensures
        vars.no_duplicates(),
{
}

/// The list without its first `start` variables is in increasing order
/// too, begins with variable number `start`, and goes on with the list
/// without its first `start + 1` variables.
pub proof fn lemma_increasing_skip<V: Variable>(vars: Seq<V>, start: int)
    requires
        increasing(vars),
        0 <= start < vars.len(),
    ensures
        increasing(vars.skip(start)),
        vars.skip(start).len() > 0,
        vars.skip(start)[0] == vars[start],
        vars.skip(start).drop_first() == vars.skip(start + 1),
{
}

impl<V: Variable> Tree<V> {
    /// The models of the tree over `vars`: the sets of variables of `vars`
    /// that, made true together with those of `truths`, make the tree true.
    pub open spec fn models_from(self, vars: Seq<V>, truths: Set<V>) -> Set<Set<V>> {
        Set::new(|chosen: Set<V>| chosen.subset_of(vars.to_set()) && self.eval(truths.union(chosen)))
    }

    /// The models of the tree over `vars`: the assignments that make the
    /// tree true and no variable outside `vars`.
    pub open spec fn models(self, vars: Seq<V>) -> Set<Set<V>> {
        self.models_from(vars, Set::empty())
    }

    /// The number of assignments to the variables of `vars` that satisfy
    /// the tree.
    pub open spec fn count_models(self, vars: Seq<V>) -> nat {
        self.models(vars).len()
    }

    /// The number of models worked out variable by variable: each
    /// variable of `vars` in turn is taken as false and as true, on top of
    /// the variables of `truths`, which are true throughout.
    pub open spec fn tally(self, vars: Seq<V>, truths: Set<V>) -> nat
        decreases vars.len(),
    {
        if vars.len() == 0 {
            if self.eval(truths) {
                1
            } else {
                0
            }
        } else {
            self.tally(vars.drop_first(), truths) + self.tally(
                vars.drop_first(),
                truths.insert(vars[0]),
            )
        }
    }

    /// `vars` names every variable that the tree tests.
    pub open spec fn covered_by(self, vars: Seq<V>) -> bool {
        forall|w: V| #[trigger] self.vars().contains(w) ==> vars.contains(w)
    }

    /// The count looks at `truths` only on the variables of the tree.
    pub proof fn lemma_tally_depends_on_vars(self, vars: Seq<V>, s1: Set<V>, s2: Set<V>)
        requires
            forall|w: V| #[trigger] self.vars().contains(w) ==> (s1.contains(w) <==> s2.contains(w)),
        ensures
            self.tally(vars, s1) == self.tally(vars, s2),
        decreases vars.len(),
    {
        if vars.len() == 0 {
            self.lemma_eval_depends_on_vars(s1, s2);
        } else {
            self.lemma_tally_depends_on_vars(vars.drop_first(), s1, s2);
            self.lemma_tally_depends_on_vars(
                vars.drop_first(),
                s1.insert(vars[0]),
                s2.insert(vars[0]),
            );
        }
    }

    /// While the root variable is false and not to be chosen, a tree counts
    /// as its low branch.
    pub proof fn lemma_tally_low(self, vars: Seq<V>, truths: Set<V>)
        requires
            self is Branch,
            !truths.contains(self->var),
            !vars.contains(self->var),
        ensures
            self.tally(vars, truths) == self->low.tally(vars, truths),
        decreases vars.len(),
    {
        if vars.len() > 0 {
            let rest = vars.drop_first();
            self.lemma_tally_low(rest, truths);
            self.lemma_tally_low(rest, truths.insert(vars[0]));
        }
    }

    /// While the root variable is true, a tree counts as its high branch.
    pub proof fn lemma_tally_high(self, vars: Seq<V>, truths: Set<V>)
        requires
            self is Branch,
            truths.contains(self->var),
        ensures
            self.tally(vars, truths) == self->high.tally(vars, truths),
        decreases vars.len(),
    {
        if vars.len() > 0 {
            self.lemma_tally_high(vars.drop_first(), truths);
            self.lemma_tally_high(vars.drop_first(), truths.insert(vars[0]));
        }
    }

    /// Counting over a list that starts with the root variable: the models
    /// of the two branches over the rest of the list, added up.
    pub proof fn lemma_tally_branch(self, vars: Seq<V>)
        requires
            self is Branch,
            self.ordered(),
            increasing(vars),
            vars.len() > 0,
            vars[0] == self->var,
        ensures
            self.tally(vars, Set::empty()) == self->low.tally(vars.drop_first(), Set::empty())
                + self->high.tally(vars.drop_first(), Set::empty()),
    {
        let x = self->var;
        let rest = vars.drop_first();
        let none = Set::<V>::empty();
        self.lemma_tally_low(rest, none);
        self.lemma_tally_high(rest, none.insert(x));
        self->high.lemma_tally_depends_on_vars(rest, none.insert(x), none);
    }

    /// Counting over a list that starts with a variable that the tree does
    /// not test: twice the count over the rest of the list.
    pub proof fn lemma_tally_skip(self, vars: Seq<V>)
        requires
            vars.len() > 0,
            !self.vars().contains(vars[0]),
        ensures
            self.tally(vars, Set::empty()) == 2 * self.tally(vars.drop_first(), Set::empty()),
    {
        let none = Set::<V>::empty();
        self.lemma_tally_depends_on_vars(vars.drop_first(), none.insert(vars[0]), none);
    }

    /// Where the list starts with the root variable, it covers the tree
    /// exactly if its rest covers both branches.
    pub proof fn lemma_covered_branch(self, vars: Seq<V>)
        requires
            self is Branch,
            self.ordered(),
            vars.len() > 0,
            vars[0] == self->var,
        ensures
            self.covered_by(vars) <==> self->low.covered_by(vars.drop_first()) && self->high.covered_by(
                vars.drop_first(),
            ),
    {
        let x = self->var;
        let rest = vars.drop_first();
        if self.covered_by(vars) {
            assert forall|w: V| #[trigger] self->low.vars().contains(w) implies rest.contains(w) by {
                assert(self.vars().contains(w));
                let i = choose|i: int| 0 <= i < vars.len() && vars[i] == w;
                assert(rest[i - 1] == w);
            }
            assert forall|w: V| #[trigger] self->high.vars().contains(w) implies rest.contains(w) by {
                assert(self.vars().contains(w));
                let i = choose|i: int| 0 <= i < vars.len() && vars[i] == w;
                assert(rest[i - 1] == w);
            }
        }
        if self->low.covered_by(rest) && self->high.covered_by(rest) {
            assert forall|w: V| #[trigger] self.vars().contains(w) implies vars.contains(w) by {
                if w != x {
                    assert(self->low.vars().contains(w) || self->high.vars().contains(w));
                    let i = choose|i: int| 0 <= i < rest.len() && rest[i] == w;
                    assert(vars[i + 1] == w);
                }
            }
        }
    }

    /// Where the list starts with a variable that comes before the root
    /// variable, the tree does not test that variable, and the list covers
    /// the tree exactly if its rest does.
    pub proof fn lemma_covered_skip(self, vars: Seq<V>)
        requires
            self is Branch,
            self.ordered(),
            vars.len() > 0,
            vars[0].rank() < self->var.rank(),
        ensures
            !self.vars().contains(vars[0]),
            self.covered_by(vars) <==> self.covered_by(vars.drop_first()),
    {
        let rest = vars.drop_first();
        self.lemma_ordered_after(vars[0].rank());
        if self.covered_by(vars) {
            assert forall|w: V| #[trigger] self.vars().contains(w) implies rest.contains(w) by {
                let i = choose|i: int| 0 <= i < vars.len() && vars[i] == w;
                assert(rest[i - 1] == w);
            }
        }
        if self.covered_by(rest) {
            assert forall|w: V| #[trigger] self.vars().contains(w) implies vars.contains(w) by {
                let i = choose|i: int| 0 <= i < rest.len() && rest[i] == w;
                assert(vars[i + 1] == w);
            }
        }
    }

    /// An increasing list that is empty, or starts after the root variable,
    /// does not cover the tree.
    pub proof fn lemma_not_covered(self, vars: Seq<V>)
        requires
            self is Branch,
            increasing(vars),
            vars.len() > 0 ==> self->var.rank() < vars[0].rank(),
        ensures
            !self.covered_by(vars),
    {
        assert(self.vars().contains(self->var));
        if vars.contains(self->var) {
            let i = choose|i: int| 0 <= i < vars.len() && vars[i] == self->var;
            assert(vars[0].rank() <= vars[i].rank());
        }
    }

    /// Over a list without repetitions the tally from no variable true is
    /// the number of models.
    pub proof fn lemma_count_is_tally(self, vars: Seq<V>)
        requires
            vars.no_duplicates(),
        ensures
            self.models(vars).finite(),
            self.count_models(vars) == self.tally(vars, Set::empty()),
    {
        self.lemma_tally_is_number_of_models(vars, Set::empty());
    }

    /// Over a list without repetitions the tally is the number of models:
    /// as many as there are sets of variables of `vars` that make the tree
    /// true.
    pub proof fn lemma_tally_is_number_of_models(self, vars: Seq<V>, truths: Set<V>)
        requires
            vars.no_duplicates(),
        ensures
            self.models_from(vars, truths).finite(),
            self.tally(vars, truths) == self.models_from(vars, truths).len(),
        decreases vars.len(),
    {
        let models = self.models_from(vars, truths);
        let none = Set::<V>::empty();
        if vars.len() == 0 {
            assert(truths.union(none) == truths);
            assert forall|chosen: Set<V>| chosen.subset_of(vars.to_set()) implies chosen == none by {
                assert(chosen =~= none);
            }
            if self.eval(truths) {
                assert(models =~= set![none]);
            } else {
                assert(models =~= Set::<Set<V>>::empty());
            }
        } else {
            let x = vars[0];
            let rest = vars.drop_first();
            assert forall|w: V| vars.to_set().contains(w) <==> (w == x || rest.to_set().contains(w)) by {
                if vars.to_set().contains(w) && w != x {
                    let i = choose|i: int| 0 <= i < vars.len() && vars[i] == w;
                    assert(rest[i - 1] == w);
                }
                if rest.to_set().contains(w) {
                    let i = choose|i: int| 0 <= i < rest.len() && rest[i] == w;
                    assert(vars[i + 1] == w);
                }
            }
            assert(!rest.to_set().contains(x)) by {
                if rest.contains(x) {
                    let i = choose|i: int| 0 <= i < rest.len() && rest[i] == x;
                    assert(vars[i + 1] == vars[0]);
                }
            }
            let without = self.models_from(rest, truths);
            let beside = self.models_from(rest, truths.insert(x));
            self.lemma_tally_is_number_of_models(rest, truths);
            self.lemma_tally_is_number_of_models(rest, truths.insert(x));
            let put = |chosen: Set<V>| chosen.insert(x);
            let with = beside.map(put);
            assert(injective_on(put, beside)) by {
                assert forall|c1: Set<V>, c2: Set<V>|
                    beside.contains(c1) && beside.contains(c2) && #[trigger] put(c1) == #[trigger] put(
                        c2,
                    ) implies c1 == c2 by {
                    assert forall|w: V| c1.contains(w) == c2.contains(w) by {
                        assert(c1.insert(x).contains(w) == c2.insert(x).contains(w));
                    }
                    assert(c1 =~= c2);
                }
            }
            lemma_map_size(beside, with, put);
            assert forall|chosen: Set<V>| models.contains(chosen) <==> without.contains(chosen)
                || with.contains(chosen) by {
                if models.contains(chosen) && chosen.contains(x) {
                    let smaller = chosen.remove(x);
                    assert(truths.insert(x).union(smaller) == truths.union(chosen));
                    assert(beside.contains(smaller));
                }
                if with.contains(chosen) {
                    let smaller = choose|smaller: Set<V>| beside.contains(smaller) && put(smaller) == chosen;
                    assert(truths.insert(x).union(smaller) == truths.union(chosen));
                }
            }
            assert(models =~= without + with);
            lemma_set_disjoint_lens(without, with);
        }
    }

    /// A constant has all the assignments as models, or none.
    pub proof fn lemma_tally_leaf(self, vars: Seq<V>, truths: Set<V>)
        requires
            self is Leaf,
        ensures
            self.tally(vars, truths) == if self->0 {
                pow2(vars.len())
            } else {
                0
            },
        decreases vars.len(),
    {
        if vars.len() == 0 {
            lemma2_to64();
        } else {
            self.lemma_tally_leaf(vars.drop_first(), truths);
            self.lemma_tally_leaf(vars.drop_first(), truths.insert(vars[0]));
            lemma_pow2_unfold(vars.len());
        }
    }

    /// No tree has more models than there are assignments.
    pub proof fn lemma_tally_bound(self, vars: Seq<V>, truths: Set<V>)
        ensures
            self.tally(vars, truths) <= pow2(vars.len()),
        decreases vars.len(),
    {
        if vars.len() == 0 {
            lemma2_to64();
        } else {
            self.lemma_tally_bound(vars.drop_first(), truths);
            self.lemma_tally_bound(vars.drop_first(), truths.insert(vars[0]));
            lemma_pow2_unfold(vars.len());
        }
    }
}

} // verus!
