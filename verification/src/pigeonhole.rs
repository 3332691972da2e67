//! The pigeonhole problem as a diagram: every pigeon sits in a hole, and no
//! hole holds two pigeons.
//!
//! Pigeon `p` sitting in hole `h` is the variable `p + h * pigeons`.

use crate::raw::{Bdd, Context};
use crate::tree::Tree;
use vstd::prelude::*;

verus! {

/// The number of the variable for pigeon `pigeon` sitting in hole `hole`.
pub open spec fn slot(pigeon: int, hole: int, pigeons: int) -> int {
    pigeon + hole * pigeons
}

/// Pigeon `pigeon` sits in hole `hole`.
pub open spec fn sits(truths: Set<u16>, pigeon: int, hole: int, pigeons: int) -> bool {
    truths.contains(slot(pigeon, hole, pigeons) as u16)
}

/// Pigeon `pigeon` sits in one of the holes before `before`.
pub open spec fn housed(truths: Set<u16>, pigeon: int, pigeons: int, before: int) -> bool {
    exists|hole: int| 0 <= hole < before && #[trigger] sits(truths, pigeon, hole, pigeons)
}

/// Each of the pigeons before `before` sits in one of the `holes` holes.
pub open spec fn all_housed(truths: Set<u16>, pigeons: int, holes: int, before: int) -> bool {
    forall|pigeon: int| 0 <= pigeon < before ==> #[trigger] housed(truths, pigeon, pigeons, holes)
}

/// Pigeon `first` shares hole `hole` with none of the later pigeons before
/// `before`.
pub open spec fn alone_among(truths: Set<u16>, hole: int, first: int, pigeons: int, before: int) -> bool {
    forall|second: int|
        first < second < before ==> !(sits(truths, first, hole, pigeons) && #[trigger] sits(
            truths,
            second,
            hole,
            pigeons,
        ))
}

/// None of the pigeons before `before` shares hole `hole` with a later
/// pigeon.
pub open spec fn hole_fair(truths: Set<u16>, hole: int, pigeons: int, before: int) -> bool {
    forall|first: int| 0 <= first < before ==> #[trigger] alone_among(truths, hole, first, pigeons, pigeons)
}

/// None of the holes before `before` holds two pigeons.
pub open spec fn holes_fair(truths: Set<u16>, pigeons: int, before: int) -> bool {
    forall|hole: int| 0 <= hole < before ==> #[trigger] hole_fair(truths, hole, pigeons, pigeons)
}

/// Every pigeon sits in a hole and no hole holds two pigeons.
pub open spec fn seated(truths: Set<u16>, pigeons: int, holes: int) -> bool {
    all_housed(truths, pigeons, holes, pigeons) && holes_fair(truths, pigeons, holes)
}

/// A function that sends `pigeons` numbers to fewer `holes` numbers sends
/// two of them to the same.
proof fn lemma_two_share(f: spec_fn(int) -> int, pigeons: int, holes: int) -> (pair: (int, int))
    requires
        0 <= holes < pigeons,
        forall|p: int| 0 <= p < pigeons ==> 0 <= #[trigger] f(p) < holes,
    ensures
        0 <= pair.0 < pair.1 < pigeons,
        f(pair.0) == f(pair.1),
    decreases holes,
{
    let last = pigeons - 1;
    assert(0 <= f(last) < holes);
    if exists|p: int| 0 <= p < last && #[trigger] f(p) == f(last) {
        let p = choose|p: int| 0 <= p < last && #[trigger] f(p) == f(last);
        (p, last)
    } else {
        let g = |p: int|
            if f(p) == holes - 1 {
                f(last)
            } else {
                f(p)
            };
        assert forall|p: int| 0 <= p < last implies 0 <= #[trigger] g(p) < holes - 1 by {
            assert(0 <= f(p) < holes);
            assert(f(p) != f(last));
        }
        let (p, q) = lemma_two_share(g, last, holes - 1);
        assert(f(p) != f(last));
        assert(f(q) != f(last));
        (p, q)
    }
}

/// The pigeonhole principle: more pigeons than holes cannot all be seated.
pub proof fn lemma_too_many_pigeons(truths: Set<u16>, pigeons: int, holes: int)
    requires
        0 <= holes < pigeons,
    ensures
        !seated(truths, pigeons, holes),
{
    if seated(truths, pigeons, holes) {
        let f = |p: int| choose|hole: int| 0 <= hole < holes && #[trigger] sits(truths, p, hole, pigeons);
        assert forall|p: int| 0 <= p < pigeons implies 0 <= #[trigger] f(p) < holes && sits(
            truths,
            p,
            f(p),
            pigeons,
        ) by {
            assert(housed(truths, p, pigeons, holes));
        }
        let (p, q) = lemma_two_share(f, pigeons, holes);
        assert(0 <= f(p) < holes && sits(truths, p, f(p), pigeons));
        assert(0 <= f(q) < holes && sits(truths, q, f(q), pigeons));
        assert(hole_fair(truths, f(p), pigeons, pigeons));
        assert(alone_among(truths, f(p), p, pigeons, pigeons));
    }
}

/// Different seats are different variables.
proof fn lemma_slot_injective(p: int, h: int, q: int, k: int, pigeons: int)
    requires
        0 <= p < pigeons,
        0 <= q < pigeons,
        0 <= h,
        0 <= k,
        slot(p, h, pigeons) == slot(q, k, pigeons),
    ensures
        p == q,
        h == k,
{
    if h < k {
        assert((k - h) * pigeons >= pigeons) by (nonlinear_arith)
            requires
                k - h >= 1,
                pigeons > 0,
        ;
        assert(k * pigeons - h * pigeons == (k - h) * pigeons) by (nonlinear_arith);
    } else if k < h {
        assert((h - k) * pigeons >= pigeons) by (nonlinear_arith)
            requires
                h - k >= 1,
                pigeons > 0,
        ;
        assert(h * pigeons - k * pigeons == (h - k) * pigeons) by (nonlinear_arith);
    }
}

proof fn lemma_slot_bound(p: int, h: int, pigeons: int, holes: int)
    requires
        0 <= p < pigeons <= 255,
        0 <= h < holes <= 255,
    ensures
        0 <= h * pigeons <= 254 * 255,
        0 <= slot(p, h, pigeons) <= 254 + 254 * 255,
        slot(p, h, pigeons) < pigeons * holes,
{
    assert(0 <= h * pigeons <= 254 * 255 && h * pigeons + pigeons <= pigeons * holes) by (nonlinear_arith)
        requires
            0 <= h < holes,
            h <= 254,
            0 <= pigeons <= 255,
    ;
}

/// The assignment that seats each pigeon in the hole of its own number.
pub open spec fn each_in_own(pigeons: int) -> Set<u16> {
    Set::new(|v: u16| exists|p: int| 0 <= p < pigeons && v == #[trigger] slot(p, p, pigeons))
}

/// As many holes as pigeons are enough: each pigeon takes the hole of its
/// own number.
pub proof fn lemma_enough_holes(pigeons: int, holes: int)
    requires
        0 <= pigeons <= holes <= 255,
    ensures
        seated(each_in_own(pigeons), pigeons, holes),
{
    let truths = each_in_own(pigeons);
    assert forall|pigeon: int| 0 <= pigeon < pigeons implies #[trigger] housed(
        truths,
        pigeon,
        pigeons,
        holes,
    ) by {
        lemma_slot_bound(pigeon, pigeon, pigeons, holes);
        assert(sits(truths, pigeon, pigeon, pigeons));
    }
    assert forall|hole: int| 0 <= hole < holes implies #[trigger] hole_fair(
        truths,
        hole,
        pigeons,
        pigeons,
    ) by {
        assert forall|first: int| 0 <= first < pigeons implies #[trigger] alone_among(
            truths,
            hole,
            first,
            pigeons,
            pigeons,
        ) by {
            assert forall|second: int| first < second < pigeons implies !(sits(
                truths,
                first,
                hole,
                pigeons,
            ) && #[trigger] sits(truths, second, hole, pigeons)) by {
                if sits(truths, first, hole, pigeons) && sits(truths, second, hole, pigeons) {
                    lemma_slot_bound(first, hole, pigeons, holes);
                    lemma_slot_bound(second, hole, pigeons, holes);
                    let p = choose|p: int|
                        0 <= p < pigeons && slot(first, hole, pigeons) as u16 == #[trigger] slot(
                            p,
                            p,
                            pigeons,
                        );
                    let q = choose|q: int|
                        0 <= q < pigeons && slot(second, hole, pigeons) as u16 == #[trigger] slot(
                            q,
                            q,
                            pigeons,
                        );
                    lemma_slot_injective(first, hole, p, p, pigeons);
                    lemma_slot_injective(second, hole, q, q, pigeons);
                }
            }
        }
    }
}

/// A pigeonhole problem: the session in which its diagrams are built, and
/// the numbers of pigeons and of holes.
pub struct PigeonHolePb<'a> {
    pub bddctx: Context<'a, u16>,
    pub pigeons: u8,
    pub holes: u8,
}

impl<'a> PigeonHolePb<'a> {
    /// The problem's session is in good order.
    pub open spec fn wf(&self) -> bool {
        self.bddctx.wf()
    }

    /// The same problem as `old`, its session grown.
    pub open spec fn grown_from(&self, old: &Self) -> bool {
        &&& self.bddctx.wf()
        &&& self.bddctx.extends(&old.bddctx)
        &&& self.pigeons == old.pigeons
        &&& self.holes == old.holes
    }

    /// The variables of the problem.
    pub open spec fn slots(&self) -> Set<u16> {
        Set::new(|v: u16| v < self.pigeons * self.holes)
    }

    /// The diagram belongs to the problem's session, is in good order and
    /// tests no variable but the problem's.
    pub open spec fn holds(&self, b: Bdd<'a, u16>) -> bool {
        &&& self.bddctx.owns(b)
        &&& b.wf()
        &&& b@.vars().subset_of(self.slots())
    }

    /// The diagram of pigeon `pigeon` sitting in hole `hole`.
    pub fn var(&mut self, pigeon: u8, hole: u8) -> (x: Bdd<'a, u16>)
        requires
            old(self).wf(),
            pigeon < old(self).pigeons,
            hole < old(self).holes,
        ensures
            final(self).grown_from(old(self)),
            final(self).holds(x),
            x@ == Tree::variable(slot(pigeon as int, hole as int, old(self).pigeons as int) as u16),
            forall|truths: Set<u16>| #[trigger]
                x@.eval(truths) == sits(truths, pigeon as int, hole as int, old(self).pigeons as int),
    {
        proof {
            lemma_slot_bound(pigeon as int, hole as int, self.pigeons as int, self.holes as int);
        }
        self.bddctx.var(pigeon as u16 + hole as u16 * self.pigeons as u16)
    }

    /// The diagram of pigeon `pigeon` sitting in some hole.
    pub fn pigeon_has_hole(&mut self, pigeon: u8) -> (res: Bdd<'a, u16>)
        requires
            old(self).wf(),
            old(self).holes > 0 ==> pigeon < old(self).pigeons,
        ensures
            final(self).grown_from(old(self)),
            final(self).holds(res),
            forall|truths: Set<u16>| #[trigger]
                res@.eval(truths) == housed(
                    truths,
                    pigeon as int,
                    old(self).pigeons as int,
                    old(self).holes as int,
                ),
    {
        let ghost before = *self;
        let mut res = self.bddctx.false_();
        let mut h: u8 = 0;
        while h < self.holes
            invariant
                0 <= h <= self.holes,
                self.holes > 0 ==> pigeon < self.pigeons,
                self.grown_from(&before),
                self.holds(res),
                forall|truths: Set<u16>| #[trigger]
                    res@.eval(truths) == housed(truths, pigeon as int, self.pigeons as int, h as int),
            decreases self.holes - h,
        {
            let x = self.var(pigeon, h);
            res = self.bddctx.or(res, x);
            proof {
                assert forall|truths: Set<u16>| #[trigger]
                    res@.eval(truths) == housed(truths, pigeon as int, self.pigeons as int, h + 1) by {
                    assert(x@.eval(truths) == sits(truths, pigeon as int, h as int, self.pigeons as int));
                }
            }
            h += 1;
        }
        res
    }

    /// The diagram of every pigeon sitting in some hole.
    pub fn pigeons_have_hole(&mut self) -> (res: Bdd<'a, u16>)
        requires
            old(self).wf(),
        ensures
            final(self).grown_from(old(self)),
            final(self).holds(res),
            forall|truths: Set<u16>| #[trigger]
                res@.eval(truths) == all_housed(
                    truths,
                    old(self).pigeons as int,
                    old(self).holes as int,
                    old(self).pigeons as int,
                ),
    {
        let ghost before = *self;
        let mut res = self.bddctx.true_();
        let mut p: u8 = 0;
        while p < self.pigeons
            invariant
                0 <= p <= self.pigeons,
                self.grown_from(&before),
                self.holds(res),
                forall|truths: Set<u16>| #[trigger]
                    res@.eval(truths) == all_housed(
                        truths,
                        self.pigeons as int,
                        self.holes as int,
                        p as int,
                    ),
            decreases self.pigeons - p,
        {
            let phh = self.pigeon_has_hole(p);
            res = self.bddctx.and(res, phh);
            p += 1;
        }
        res
    }

    /// The diagram of no hole holding two pigeons.
    pub fn holes_have_max_1_pigeon(&mut self) -> (res: Bdd<'a, u16>)
        requires
            old(self).wf(),
        ensures
            final(self).grown_from(old(self)),
            final(self).holds(res),
            forall|truths: Set<u16>| #[trigger]
                res@.eval(truths) == holes_fair(truths, old(self).pigeons as int, old(self).holes as int),
    {
        let ghost before = *self;
        let mut res = self.bddctx.true_();
        let mut h: u8 = 0;
        while h < self.holes
            invariant
                0 <= h <= self.holes,
                self.grown_from(&before),
                self.holds(res),
                forall|truths: Set<u16>| #[trigger]
                    res@.eval(truths) == holes_fair(truths, self.pigeons as int, h as int),
            decreases self.holes - h,
        {
            let ghost holes_done = res;
            let mut first: u8 = 0;
            while first < self.pigeons
                invariant
                    0 <= h < self.holes,
                    0 <= first <= self.pigeons,
                    self.grown_from(&before),
                    self.holds(res),
                    forall|truths: Set<u16>| #[trigger]
                        res@.eval(truths) == (holes_done@.eval(truths) && hole_fair(
                            truths,
                            h as int,
                            self.pigeons as int,
                            first as int,
                        )),
                decreases self.pigeons - first,
            {
                let ghost firsts_done = res;
                let mut second: u8 = first + 1;
                while second < self.pigeons
                    invariant
                        0 <= h < self.holes,
                        0 <= first < self.pigeons,
                        first < second <= self.pigeons,
                        self.grown_from(&before),
                        self.holds(res),
                        forall|truths: Set<u16>| #[trigger]
                            res@.eval(truths) == (firsts_done@.eval(truths) && alone_among(
                                truths,
                                h as int,
                                first as int,
                                self.pigeons as int,
                                second as int,
                            )),
                    decreases self.pigeons - second,
                {
                    let one = self.var(first, h);
                    let other = self.var(second, h);
                    let both = self.bddctx.and(one, other);
                    let not_both = self.bddctx.not(both);
                    res = self.bddctx.and(res, not_both);
                    proof {
                        assert forall|truths: Set<u16>| #[trigger]
                            res@.eval(truths) == (firsts_done@.eval(truths) && alone_among(
                                truths,
                                h as int,
                                first as int,
                                self.pigeons as int,
                                second + 1,
                            )) by {
                            assert(other@.eval(truths) == sits(
                                truths,
                                second as int,
                                h as int,
                                self.pigeons as int,
                            ));
                        }
                    }
                    second += 1;
                }
                first += 1;
            }
            h += 1;
        }
        res
    }

    /// The diagram of the whole problem: every pigeon sits in a hole and no
    /// hole holds two. With more pigeons than holes it is the constant
    /// false; otherwise it is not.
    pub fn formula(&mut self) -> (res: Bdd<'a, u16>)
        requires
            old(self).wf(),
        ensures
            final(self).grown_from(old(self)),
            final(self).holds(res),
            forall|truths: Set<u16>| #[trigger]
                res@.eval(truths) == seated(truths, old(self).pigeons as int, old(self).holes as int),
            (res@ == Tree::<u16>::Leaf(false)) <==> old(self).pigeons > old(self).holes,
    {
        let phh = self.pigeons_have_hole();
        let hhm1p = self.holes_have_max_1_pigeon();
        let res = self.bddctx.and(phh, hhm1p);
        proof {
            let none = Tree::<u16>::Leaf(false);
            if self.pigeons > self.holes {
                assert forall|truths: Set<u16>| #[trigger] res@.eval(truths) == none.eval(truths) by {
                    lemma_too_many_pigeons(truths, self.pigeons as int, self.holes as int);
                }
                res.lemma_wf_canonical();
                res@.lemma_canonical_form_is_unique(none);
            } else {
                lemma_enough_holes(self.pigeons as int, self.holes as int);
                assert(res@.eval(each_in_own(self.pigeons as int)));
            }
        }
        res
    }
}

} // verus!
