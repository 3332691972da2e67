//! Sessions and diagram handles.
//!
//! A [`Context`] is one working session. It owns the table of the nodes
//! made so far and the caches of the operations; the node records live in
//! an arena that the caller lends to the session. A [`Bdd`] is a handle on
//! one node. The session never makes two nodes with the same variable and
//! the same branches, and never one whose branches coincide, so that two
//! handles of a session are equal exactly when they stand for the same
//! boolean function.

use crate::arena::alloc_in;
use crate::counting::{increasing, lemma_increasing_no_duplicates, lemma_increasing_skip};
use crate::tree::Tree;
use crate::variable::Variable;
use bumpalo::Bump;
use std::collections::HashMap;
use std::hash::{Hash, Hasher};
use vstd::arithmetic::power2::{lemma2_to64, lemma_pow2_strictly_increases};
use vstd::bits::lemma_u64_shl_is_mul;
use vstd::pervasive::unreached;
use vstd::prelude::*;
use vstd::std_specs::cmp::PartialEqSpecImpl;

verus! {

broadcast use vstd::std_specs::hash::group_hash_axioms;

/// A node record: one of the two constants, or the test of a variable with
/// the diagrams for the variable being false and being true.
#[derive(Clone, Copy, Debug)]
enum Node<'arena, V> {
    False,
    True,
    If { var: V, low: Bdd<'arena, V>, high: Bdd<'arena, V> },
}

/// A diagram of some session: the number under which the session knows the
/// node, and the node record in the session's arena.
#[derive(Clone, Copy, Debug)]
pub struct Bdd<'arena, V> {
    id: usize,
    node: &'arena Node<'arena, V>,
}

/// One working session: the arena, every node made so far under its
/// number, the index that finds a node by its content, and the caches of
/// negation and conjunction.
pub struct Context<'arena, V> {
    alloc: &'arena Bump,
    nodes: Vec<Bdd<'arena, V>>,
    unique: HashMap<u128, Vec<usize>>,
    not_memo: HashMap<usize, usize>,
    and_memo: HashMap<u128, usize>,
}

/// Calls `Hasher::write_usize` of std, which feeds one number to a hasher.
/// Nothing is claimed of the state that the hasher is left in.
#[verifier::external_body]
fn feed<H: Hasher>(state: &mut H, n: usize) {
    state.write_usize(n)
}

/// Two numbers packed into one key.
spec fn pair_key(a: usize, b: usize) -> u128 {
    (a * 0x1_0000_0000_0000_0000 + b) as u128
}

proof fn lemma_pair_key_injective(a: usize, b: usize, c: usize, d: usize)
    requires
        pair_key(a, b) == pair_key(c, d),
    ensures
        a == c,
        b == d,
{
}

fn make_pair_key(a: usize, b: usize) -> (key: u128)
    ensures
        key == pair_key(a, b),
{
    (a as u128) * 0x1_0000_0000_0000_0000u128 + (b as u128)
}

impl<'arena, V: Variable> View for Bdd<'arena, V> {
    type V = Tree<V>;

    /// The decision tree that the diagram unfolds to.
    closed spec fn view(&self) -> Tree<V>
        decreases self,
    {
        match *self.node {
            Node::False => Tree::Leaf(false),
            Node::True => Tree::Leaf(true),
            Node::If { var, low, high } => Tree::Branch {
                var,
                low: Box::new(low.view()),
                high: Box::new(high.view()),
            },
        }
    }
}

impl<'arena, V> PartialEq for Bdd<'arena, V> {
    /// Two handles are equal when they carry the same number. Among the
    /// diagrams of one session that is the case exactly when they stand for
    /// the same boolean function.
    fn eq(&self, other: &Self) -> (r: bool) {
        self.id == other.id
    }
}

impl<'arena, V> Eq for Bdd<'arena, V> {

}

impl<'arena, V> Hash for Bdd<'arena, V> {
    /// Hashes the number of the handle, so that equal handles hash alike.
    fn hash<H: Hasher>(&self, state: &mut H) {
        feed(state, self.id)
    }
}

impl<'arena, V> PartialEqSpecImpl for Bdd<'arena, V> {
    open spec fn obeys_eq_spec() -> bool {
        true
    }

    closed spec fn eq_spec(&self, other: &Self) -> bool {
        self.id == other.id
    }
}

impl<'arena, V: Variable> Bdd<'arena, V> {
    /// The key under which the index files a test: its two branches.
    spec fn key(self) -> u128 {
        match *self.node {
            Node::If { var, low, high } => pair_key(low.id, high.id),
            _ => 0,
        }
    }

    /// Both are tests of the same variable with the same branches, by number.
    spec fn same_test(self, other: Self) -> bool {
        match (*self.node, *other.node) {
            (
                Node::If { var: v1, low: l1, high: h1 },
                Node::If { var: v2, low: l2, high: h2 },
            ) => v1 == v2 && l1.id == l2.id && h1.id == h2.id,
            _ => false,
        }
    }

    /// The handle is entry number `self.id` of `table`.
    spec fn listed_in(self, table: Seq<Self>) -> bool {
        self.id < table.len() && table[self.id as int] == self
    }

    /// The handle was issued by a session in good order. This holds of
    /// every diagram that a session returns, and says of the diagram alone
    /// what the session's good order gives: its tree is reduced and ordered,
    /// and within it equal numbers mean equal diagrams.
    pub closed spec fn wf(self) -> bool {
        exists|table: Seq<Self>| table_wf(table) && #[trigger] self.listed_in(table)
    }

    /// The tree of a diagram in good order is reduced and ordered.
    pub proof fn lemma_wf_canonical(self)
        requires
            self.wf(),
        ensures
            self@.canonical(),
    {
        let table = choose|table: Seq<Self>| table_wf(table) && #[trigger] self.listed_in(table);
        lemma_table_canonical(table, self.id as int);
    }
}

/// Entry `i` of the table is in order: it carries its own number, the
/// constants stand at 0 and 1, and a test has two different branches that
/// stand earlier in the table and whose variables come after its own.
spec fn entry_wf<'arena, V: Variable>(table: Seq<Bdd<'arena, V>>, i: int) -> bool {
    let b = table[i];
    &&& b.id == i
    &&& match *b.node {
        Node::False => i == 0,
        Node::True => i == 1,
        Node::If { var, low, high } => {
            &&& 2 <= i
            &&& low.id < i
            &&& high.id < i
            &&& low.id != high.id
            &&& table[low.id as int] == low
            &&& table[high.id as int] == high
            &&& low@.after(var.rank())
            &&& high@.after(var.rank())
        },
    }
}

/// The table of a session in good order: false at 0, true at 1, every
/// entry in order, and no test listed twice.
spec fn table_wf<'arena, V: Variable>(table: Seq<Bdd<'arena, V>>) -> bool {
    &&& table.len() >= 2
    &&& *table[0].node is False
    &&& *table[1].node is True
    &&& forall|i: int| 0 <= i < table.len() ==> entry_wf(table, i)
    &&& forall|i: int, j: int|
        0 <= i < j < table.len() ==> !(#[trigger] table[i].same_test(#[trigger] table[j]))
}

/// Two entries of a table in good order that unfold to the same tree are
/// the same entry.
proof fn lemma_table_injective<'arena, V: Variable>(table: Seq<Bdd<'arena, V>>, i: int, j: int)
    requires
        table_wf(table),
        0 <= i < table.len(),
        0 <= j < table.len(),
        table[i]@ == table[j]@,
    ensures
        i == j,
    decreases i,
{
    assert(entry_wf(table, i));
    assert(entry_wf(table, j));
    match (*table[i].node, *table[j].node) {
        (
            Node::If { var: v1, low: l1, high: h1 },
            Node::If { var: v2, low: l2, high: h2 },
        ) => {
            lemma_table_injective(table, l1.id as int, l2.id as int);
            lemma_table_injective(table, h1.id as int, h2.id as int);
            assert(table[i].same_test(table[j]));
            assert(table[j].same_test(table[i]));
        },
        _ => {},
    }
}

/// Every entry of a table in good order unfolds to a reduced ordered tree.
proof fn lemma_table_canonical<'arena, V: Variable>(table: Seq<Bdd<'arena, V>>, i: int)
    requires
        table_wf(table),
        0 <= i < table.len(),
    ensures
        table[i]@.canonical(),
    decreases i,
{
    assert(entry_wf(table, i));
    match *table[i].node {
        Node::If { var, low, high } => {
            lemma_table_canonical(table, low.id as int);
            lemma_table_canonical(table, high.id as int);
            if low@ == high@ {
                lemma_table_injective(table, low.id as int, high.id as int);
            }
        },
        _ => {},
    }
}

impl<'arena, V: Variable> Context<'arena, V> {
    /// The session is in good order: its table is, the index files every
    /// test under its key and nothing else, and the caches hold only
    /// correct results.
    pub closed spec fn wf(&self) -> bool {
        &&& table_wf(self.nodes@)
        &&& self.index_wf()
        &&& self.not_memo_wf()
        &&& self.and_memo_wf()
    }

    spec fn index_wf(&self) -> bool {
        &&& forall|k: u128, j: int|
            self.unique@.contains_key(k) && 0 <= j < self.unique@[k]@.len() ==> {
                let id = #[trigger] self.unique@[k]@[j];
                2 <= id < self.nodes@.len() && self.nodes@[id as int].key() == k
            }
        &&& forall|i: int|
            2 <= i < self.nodes@.len() ==> {
                let k = #[trigger] self.nodes@[i].key();
                self.unique@.contains_key(k) && self.unique@[k]@.contains(i as usize)
            }
    }

    /// What the cache of negation holds for the diagram number `k` is its
    /// negation.
    spec fn not_cached(&self, k: usize) -> bool {
        let r = self.not_memo@[k];
        &&& k < self.nodes@.len()
        &&& r < self.nodes@.len()
        &&& self.nodes@[r as int]@.is_not_of(self.nodes@[k as int]@)
        &&& self.nodes@[r as int]@.vars().subset_of(self.nodes@[k as int]@.vars())
    }

    spec fn not_memo_wf(&self) -> bool {
        forall|k: usize| #[trigger] self.not_memo@.contains_key(k) ==> self.not_cached(k)
    }

    /// What the cache of conjunction holds for the diagrams number `a` and
    /// `b` is their conjunction.
    spec fn and_cached(&self, a: usize, b: usize) -> bool {
        let r = self.and_memo@[pair_key(a, b)];
        &&& a < self.nodes@.len()
        &&& b < self.nodes@.len()
        &&& r < self.nodes@.len()
        &&& self.nodes@[r as int]@.is_and_of(self.nodes@[a as int]@, self.nodes@[b as int]@)
        &&& self.nodes@[r as int]@.vars().subset_of(
            self.nodes@[a as int]@.vars().union(self.nodes@[b as int]@.vars()),
        )
    }

    spec fn and_memo_wf(&self) -> bool {
        forall|a: usize, b: usize|
            self.and_memo@.contains_key(#[trigger] pair_key(a, b)) ==> self.and_cached(a, b)
    }

    /// The diagram was made by this session.
    pub closed spec fn owns(&self, b: Bdd<'arena, V>) -> bool {
        b.listed_in(self.nodes@)
    }

    /// Every diagram of `old` is a diagram of this session too.
    pub open spec fn extends(&self, old: &Self) -> bool {
        forall|b: Bdd<'arena, V>| #[trigger] old.owns(b) ==> self.owns(b)
    }

    /// The number of nodes that the session has made, the two constants
    /// included.
    pub closed spec fn size(&self) -> nat {
        self.nodes@.len()
    }

    /// A diagram of a session in good order is in good order.
    pub proof fn lemma_owned_wf(&self, b: Bdd<'arena, V>)
        requires
            self.wf(),
            self.owns(b),
        ensures
            b.wf(),
            b@.canonical(),
    {
        b.lemma_wf_canonical();
    }

    /// Within a session in good order, diagrams that stand for the same
    /// boolean function are the same handle.
    pub proof fn lemma_equivalent_is_equal(&self, a: Bdd<'arena, V>, b: Bdd<'arena, V>)
        requires
            self.wf(),
            self.owns(a),
            self.owns(b),
            a@.equivalent(b@),
        ensures
            a == b,
    {
        lemma_table_canonical(self.nodes@, a.id as int);
        lemma_table_canonical(self.nodes@, b.id as int);
        a@.lemma_canonical_form_is_unique(b@);
        lemma_table_injective(self.nodes@, a.id as int, b.id as int);
    }

    /// What equality of handles means within a session in good order: `==`
    /// holds of two diagrams exactly when they are the same diagram, which is
    /// the case exactly when they unfold to the same tree, and that exactly
    /// when they stand for the same boolean function.
    pub proof fn lemma_eq(&self, a: Bdd<'arena, V>, b: Bdd<'arena, V>)
        requires
            self.wf(),
            self.owns(a),
            self.owns(b),
        ensures
            vstd::std_specs::cmp::PartialEqSpec::eq_spec(&a, &b) <==> a == b,
            a == b <==> a@ == b@,
            a@ == b@ <==> a@.equivalent(b@),
    {
        if a@.equivalent(b@) {
            self.lemma_equivalent_is_equal(a, b);
        }
    }

    /// Creates a session whose nodes will live in `alloc`. It holds the two
    /// constants and nothing else.
    pub fn new(alloc: &'arena Bump) -> (ctx: Self)
        ensures
            ctx.wf(),
            ctx.size() == 2,
    {
        let mut nodes: Vec<Bdd<'arena, V>> = Vec::new();
        nodes.push(Bdd { id: 0, node: alloc_in(alloc, Node::False) });
        nodes.push(Bdd { id: 1, node: alloc_in(alloc, Node::True) });
        let ctx = Context {
            alloc,
            nodes,
            unique: HashMap::new(),
            not_memo: HashMap::new(),
            and_memo: HashMap::new(),
        };
        ctx
    }

    /// Looks in the index for the test of `var` with branches `low` and
    /// `high`.
    fn find(&self, var: V, low: Bdd<'arena, V>, high: Bdd<'arena, V>) -> (r: Option<Bdd<'arena, V>>)
        requires
            self.wf(),
            self.owns(low),
            self.owns(high),
        ensures
            match r {
                Some(b) => self.owns(b) && *b.node == (Node::If { var, low, high }),
                None => forall|i: int|
                    0 <= i < self.nodes@.len() ==> *(#[trigger] self.nodes@[i]).node != (Node::If {
                        var,
                        low,
                        high,
                    }),
            },
    {
        let key = make_pair_key(low.id, high.id);
        match self.unique.get(&key) {
            None => {
                proof {
                    assert forall|i: int| 0 <= i < self.nodes@.len() implies *(
                    #[trigger] self.nodes@[i]).node != (Node::If { var, low, high }) by {
                        if *self.nodes@[i].node == (Node::If { var, low, high }) {
                            assert(self.nodes@[i].key() == key);
                        }
                    }
                }
                None
            },
            Some(bucket) => {
                let mut j: usize = 0;
                while j < bucket.len()
                    invariant
                        0 <= j <= bucket.len(),
                        self.wf(),
                        self.owns(low),
                        self.owns(high),
                        key == pair_key(low.id, high.id),
                        self.unique@.contains_key(key),
                        self.unique@[key] == *bucket,
                        forall|m: int|
                            0 <= m < j ==> *self.nodes@[#[trigger] bucket@[m] as int].node != (
                            Node::If { var, low, high }),
                    decreases bucket.len() - j,
                {
                    let id = bucket[j];
                    proof {
                        assert(entry_wf(self.nodes@, id as int));
                    }
                    let cand = self.nodes[id];
                    match *cand.node {
                        Node::If { var: w, low: l, high: h } => {
                            if w.same(var) {
                                proof {
                                    lemma_pair_key_injective(l.id, h.id, low.id, high.id);
                                }
                                return Some(cand);
                            }
                        },
                        _ => {},
                    }
                    j += 1;
                }
                proof {
                    assert forall|i: int| 0 <= i < self.nodes@.len() implies *(
                    #[trigger] self.nodes@[i]).node != (Node::If { var, low, high }) by {
                        if *self.nodes@[i].node == (Node::If { var, low, high }) {
                            assert(entry_wf(self.nodes@, i));
                            assert(self.nodes@[i].key() == key);
                            assert(bucket@.contains(i as usize));
                        }
                    }
                }
                None
            },
        }
    }

    /// Puts a test that the table does not hold yet into the arena, the
    /// table and the index.
    fn add(&mut self, var: V, low: Bdd<'arena, V>, high: Bdd<'arena, V>) -> (r: Bdd<'arena, V>)
        requires
            old(self).wf(),
            old(self).owns(low),
            old(self).owns(high),
            low.id != high.id,
            low@.after(var.rank()),
            high@.after(var.rank()),
            forall|i: int|
                0 <= i < old(self).nodes@.len() ==> *(#[trigger] old(self).nodes@[i]).node != (Node::If {
                    var,
                    low,
                    high,
                }),
        ensures
            final(self).wf(),
            final(self).extends(old(self)),
            final(self).owns(r),
            final(self).nodes@ == old(self).nodes@.push(r),
            *r.node == (Node::If { var, low, high }),
    {
        let id = self.nodes.len();
        let r = Bdd { id, node: alloc_in(self.alloc, Node::If { var, low, high }) };
        let key = make_pair_key(low.id, high.id);
        self.nodes.push(r);
        let mut bucket = match self.unique.remove(&key) {
            Some(bucket) => bucket,
            None => Vec::new(),
        };
        bucket.push(id);
        self.unique.insert(key, bucket);
        proof {
            let before = old(self).nodes@;
            let after = self.nodes@;
            assert forall|i: int| 0 <= i < after.len() implies entry_wf(after, i) by {
                if i < before.len() {
                    assert(entry_wf(before, i));
                }
            }
            assert forall|i: int, j: int| 0 <= i < j < after.len() implies !(
            #[trigger] after[i].same_test(#[trigger] after[j])) by {
                if j == before.len() && after[i].same_test(after[j]) {
                    assert(entry_wf(before, i));
                }
            }
            assert(self.index_wf()) by {
                assert forall|k: u128, j: int|
                    self.unique@.contains_key(k) && 0 <= j < self.unique@[k]@.len() implies {
                    let id = #[trigger] self.unique@[k]@[j];
                    2 <= id < self.nodes@.len() && self.nodes@[id as int].key() == k
                } by {
                    if k != key || j < self.unique@[k]@.len() - 1 {
                        assert(self.unique@[k]@[j] == old(self).unique@[k]@[j]);
                    }
                }
                assert forall|i: int| 2 <= i < self.nodes@.len() implies {
                    let k = #[trigger] self.nodes@[i].key();
                    self.unique@.contains_key(k) && self.unique@[k]@.contains(i as usize)
                } by {
                    let k = self.nodes@[i].key();
                    if i < before.len() {
                        let m = choose|m: int|
                            0 <= m < old(self).unique@[k]@.len() && old(self).unique@[k]@[m] == i as usize;
                        assert(self.unique@[k]@[m] == i as usize);
                    } else {
                        assert(self.unique@[k]@[self.unique@[k]@.len() - 1] == i as usize);
                    }
                }
            }
        }
        r
    }

    /// The table lists a diagram whose node is `n`.
    spec fn lists(&self, n: Node<'arena, V>) -> bool {
        exists|i: int| 0 <= i < self.nodes@.len() && *(#[trigger] self.nodes@[i]).node == n
    }

    /// Returns the diagram whose node is `n`. Where the session holds such a
    /// diagram already, that one is returned and nothing changes; else the
    /// node goes into the arena and a new diagram is listed for it.
    fn hashcons(&mut self, n: Node<'arena, V>) -> (r: Bdd<'arena, V>)
        requires
            old(self).wf(),
            n is If ==> {
                &&& old(self).owns(n->low)
                &&& old(self).owns(n->high)
                &&& n->low.id != n->high.id
                &&& n->low@.after(n->var.rank())
                &&& n->high@.after(n->var.rank())
            },
        ensures
            final(self).wf(),
            final(self).extends(old(self)),
            final(self).owns(r),
            *r.node == n,
            final(self).nodes@ == if old(self).lists(n) {
                old(self).nodes@
            } else {
                old(self).nodes@.push(r)
            },
    {
        match n {
            Node::False => self.false_(),
            Node::True => self.true_(),
            Node::If { var, low, high } => {
                match self.find(var, low, high) {
                    Some(found) => found,
                    None => self.add(var, low, high),
                }
            },
        }
    }

    /// The diagram that is `children[0]` where `var` is false and
    /// `children[1]` where it is true: the common child where the two are
    /// the same, else the test of `var`.
    fn node(&mut self, var: V, children: [Bdd<'arena, V>; 2]) -> (r: Bdd<'arena, V>)
        requires
            old(self).wf(),
            old(self).owns(children[0]),
            old(self).owns(children[1]),
            children[0]@.after(var.rank()),
            children[1]@.after(var.rank()),
        ensures
            final(self).wf(),
            final(self).extends(old(self)),
            final(self).owns(r),
            r@ == Tree::choice(var, children[0]@, children[1]@),
    {
        if children[0] == children[1] {
            return children[0];
        }
        let node: Node<'arena, V> = Node::If { var, low: children[0], high: children[1] };
        proof {
            if children[0]@ == children[1]@ {
                lemma_table_injective(self.nodes@, children[0].id as int, children[1].id as int);
            }
        }
        self.hashcons(node)
    }

    /// The diagram of the variable `x` alone: true exactly when `x` is.
    pub fn var(&mut self, x: V) -> (r: Bdd<'arena, V>)
        requires
            old(self).wf(),
        ensures
            final(self).wf(),
            final(self).extends(old(self)),
            final(self).owns(r),
            r.wf(),
            r@ == Tree::variable(x),
            r@.vars() == set![x],
            forall|truths: Set<V>| #[trigger] r@.eval(truths) == truths.contains(x),
    {
        let children = [self.false_(), self.true_()];
        let r = self.node(x, children);
        proof {
            self.lemma_owned_wf(r);
            Tree::lemma_variable(x);
        }
        r
    }

    /// The negation of `x`: the diagram that is true exactly where `x` is
    /// false. Each diagram is negated once in a session; later calls find
    /// the result in the cache.
    pub fn not(&mut self, x: Bdd<'arena, V>) -> (r: Bdd<'arena, V>)
        requires
            old(self).wf(),
            old(self).owns(x),
        ensures
            final(self).wf(),
            final(self).extends(old(self)),
            final(self).owns(r),
            r.wf(),
            r@.is_not_of(x@),
            r@.vars().subset_of(x@.vars()),
        decreases x,
    {
        proof {
            assert(entry_wf(self.nodes@, x.id as int));
        }
        let r = match *x.node {
            Node::True => self.false_(),
            Node::False => self.true_(),
            Node::If { var, low, high } => {
                match self.not_memo.get(&x.id) {
                    Some(id) => {
                        proof {
                            assert(self.not_cached(x.id));
                            assert(entry_wf(self.nodes@, *id as int));
                        }
                        self.nodes[*id]
                    },
                    None => {
                        proof {
                            assert(self.owns(low));
                            assert(self.owns(high));
                        }
                        let not_low = self.not(low);
                        let not_high = self.not(high);
                        let r = self.node(var, [not_low, not_high]);
                        proof {
                            Tree::lemma_choice(var, not_low@, not_high@);
                            assert(r@.is_not_of(x@));
                            assert(r@.vars().subset_of(x@.vars()));
                            assert(self.owns(x));
                        }
                        self.not_memo.insert(x.id, r.id);
                        r
                    },
                }
            },
        };
        proof {
            self.lemma_owned_wf(r);
        }
        r
    }

    /// The conjunction of `a` and `b`: the diagram that is true exactly
    /// where both are. Each pair of diagrams is combined once in a session,
    /// in whichever order it comes; later calls find the result in the
    /// cache.
    pub fn and(&mut self, a: Bdd<'arena, V>, b: Bdd<'arena, V>) -> (r: Bdd<'arena, V>)
        requires
            old(self).wf(),
            old(self).owns(a),
            old(self).owns(b),
        ensures
            final(self).wf(),
            final(self).extends(old(self)),
            final(self).owns(r),
            r.wf(),
            r@.is_and_of(a@, b@),
            r@.vars().subset_of(a@.vars().union(b@.vars())),
        decreases a, b,
    {
        proof {
            assert(entry_wf(self.nodes@, a.id as int));
            assert(entry_wf(self.nodes@, b.id as int));
            self.lemma_owned_wf(a);
            self.lemma_owned_wf(b);
        }
        let r = match (*a.node, *b.node) {
            (Node::True, _) => b,
            (_, Node::True) => a,
            (Node::False, _) => self.false_(),
            (_, Node::False) => self.false_(),
            (
                Node::If { var: var_a, low: low_a, high: high_a },
                Node::If { var: var_b, low: low_b, high: high_b },
            ) => {
                let (first, second) = if a.id <= b.id {
                    (a.id, b.id)
                } else {
                    (b.id, a.id)
                };
                let key = make_pair_key(first, second);
                match self.and_memo.get(&key) {
                    Some(id) => {
                        proof {
                            assert(self.and_cached(first, second));
                            assert(entry_wf(self.nodes@, *id as int));
                        }
                        self.nodes[*id]
                    },
                    None => {
                        proof {
                            assert(self.owns(low_a));
                            assert(self.owns(high_a));
                            assert(self.owns(low_b));
                            assert(self.owns(high_b));
                        }
                        let r = if var_a.same(var_b) {
                            let low = self.and(low_a, low_b);
                            let high = self.and(high_a, high_b);
                            let r = self.node(var_a, [low, high]);
                            proof {
                                Tree::lemma_choice(var_a, low@, high@);
                            }
                            r
                        } else if var_a.precedes(var_b) {
                            proof {
                                b@.lemma_ordered_after(var_a.rank());
                            }
                            let low = self.and(low_a, b);
                            let high = self.and(high_a, b);
                            let r = self.node(var_a, [low, high]);
                            proof {
                                Tree::lemma_choice(var_a, low@, high@);
                            }
                            r
                        } else {
                            proof {
                                V::lemma_rank_injective(var_a, var_b);
                                a@.lemma_ordered_after(var_b.rank());
                            }
                            let low = self.and(a, low_b);
                            let high = self.and(a, high_b);
                            let r = self.node(var_b, [low, high]);
                            proof {
                                Tree::lemma_choice(var_b, low@, high@);
                            }
                            r
                        };
                        proof {
                            assert(r@.is_and_of(a@, b@));
                            assert(r@.vars().subset_of(a@.vars().union(b@.vars())));
                            assert(self.owns(a));
                            assert(self.owns(b));
                        }
                        self.and_memo.insert(key, r.id);
                        proof {
                            assert forall|c: usize, d: usize|
                                self.and_memo@.contains_key(
                                    #[trigger] pair_key(c, d),
                                ) implies self.and_cached(c, d) by {
                                if pair_key(c, d) == key {
                                    lemma_pair_key_injective(c, d, first, second);
                                    assert(a@.vars().union(b@.vars()) == b@.vars().union(a@.vars()));
                                }
                            }
                        }
                        r
                    },
                }
            },
        };
        proof {
            self.lemma_owned_wf(r);
        }
        r
    }

    /// The disjunction of `a` and `b`: the diagram that is true exactly
    /// where at least one of them is.
    pub fn or(&mut self, a: Bdd<'arena, V>, b: Bdd<'arena, V>) -> (r: Bdd<'arena, V>)
        requires
            old(self).wf(),
            old(self).owns(a),
            old(self).owns(b),
        ensures
            final(self).wf(),
            final(self).extends(old(self)),
            final(self).owns(r),
            r.wf(),
            r@.is_or_of(a@, b@),
            r@.vars().subset_of(a@.vars().union(b@.vars())),
    {
        let na = self.not(a);
        let nb = self.not(b);
        let nand = self.and(na, nb);
        self.not(nand)
    }

    /// The exclusive disjunction of `a` and `b`: the diagram that is true
    /// exactly where one of them is and the other is not.
    pub fn xor(&mut self, a: Bdd<'arena, V>, b: Bdd<'arena, V>) -> (r: Bdd<'arena, V>)
        requires
            old(self).wf(),
            old(self).owns(a),
            old(self).owns(b),
        ensures
            final(self).wf(),
            final(self).extends(old(self)),
            final(self).owns(r),
            r.wf(),
            r@.is_xor_of(a@, b@),
            r@.vars().subset_of(a@.vars().union(b@.vars())),
    {
        let aob = self.or(a, b);
        let aab = self.and(a, b);
        let naab = self.not(aab);
        self.and(aob, naab)
    }

    /// The constant true.
    pub fn true_(&mut self) -> (r: Bdd<'arena, V>)
        requires
            old(self).wf(),
        ensures
            *final(self) == *old(self),
            final(self).owns(r),
            r.wf(),
            r@ == Tree::<V>::Leaf(true),
    {
        proof {
            assert(entry_wf(self.nodes@, 1));
        }
        let r = self.nodes[1];
        proof {
            assert(r.listed_in(self.nodes@));
        }
        r
    }

    /// The constant false.
    pub fn false_(&mut self) -> (r: Bdd<'arena, V>)
        requires
            old(self).wf(),
        ensures
            *final(self) == *old(self),
            final(self).owns(r),
            r.wf(),
            r@ == Tree::<V>::Leaf(false),
    {
        proof {
            assert(entry_wf(self.nodes@, 0));
        }
        let r = self.nodes[0];
        r
    }
}

/// The cache of a count holds only correct counts: under the key of a
/// diagram's number and of how many variables are left, the number of models
/// of that diagram over the last so many variables of `vars`, which cover
/// the diagram.
spec fn counts_wf<'arena, V: Variable>(
    memo: Map<u128, u64>,
    table: Seq<Bdd<'arena, V>>,
    vars: Seq<V>,
) -> bool {
    forall|id: usize, left: usize|
        memo.contains_key(#[trigger] pair_key(id, left)) ==> count_cached(memo, table, vars, id, left)
}

/// What the cache of a count holds for the diagram number `id` and `left`
/// variables left is the tally of that diagram over the last `left`
/// variables of `vars`, which cover it.
spec fn count_cached<'arena, V: Variable>(
    memo: Map<u128, u64>,
    table: Seq<Bdd<'arena, V>>,
    vars: Seq<V>,
    id: usize,
    left: usize,
) -> bool {
    &&& id < table.len()
    &&& left <= vars.len()
    &&& table[id as int]@.covered_by(vars.skip(vars.len() - left))
    &&& memo[pair_key(id, left)] == table[id as int]@.tally(vars.skip(vars.len() - left), Set::empty())
}

/// Is the list in strictly increasing order?
fn is_increasing<V: Variable>(vars: &[V]) -> (r: bool)
    ensures
        r == increasing(vars@),
{
    if vars.len() < 2 {
        return true;
    }
    let mut i: usize = 1;
    while i < vars.len()
        invariant
            1 <= i <= vars.len(),
            forall|a: int, b: int| 0 <= a < b < i ==> vars@[a].rank() < vars@[b].rank(),
        decreases vars.len() - i,
    {
        if !vars[i - 1].precedes(vars[i]) {
            return false;
        }
        i += 1;
    }
    true
}

impl<'arena, V: Variable> Bdd<'arena, V> {
    /// The number of assignments to the variables of `vars` under which
    /// the diagram is true. `vars` is in strictly increasing order and
    /// names every variable of the diagram, and the count fits the result
    /// type.
    pub fn nsat(self, vars: &[V]) -> (count: u64)
        requires
            self.wf(),
            increasing(vars@),
            self@.covered_by(vars@),
            self@.count_models(vars@) <= u64::MAX,
        ensures
            count == self@.count_models(vars@),
    {
        let ghost table = choose|table: Seq<Self>| table_wf(table) && #[trigger] self.listed_in(table);
        let mut memo: HashMap<u128, u64> = HashMap::new();
        proof {
            assert(vars@.skip(0) =~= vars@);
            lemma_increasing_no_duplicates(vars@);
            self@.lemma_count_is_tally(vars@);
        }
        match self.nsat_from(vars, 0, &mut memo, Ghost(table)) {
            Some(count) => count,
            None => unreached(),
        }
    }

    /// The number of assignments to the variables of `vars` under which
    /// the diagram is true, for any list: `None` where the list is not in
    /// strictly increasing order, where it leaves out a variable of the
    /// diagram, and where the count does not fit the result type.
    pub fn checked_nsat(self, vars: &[V]) -> (r: Option<u64>)
        requires
            self.wf(),
        ensures
            r == if increasing(vars@) && self@.covered_by(vars@) && self@.count_models(vars@)
                <= u64::MAX {
                Some(self@.count_models(vars@) as u64)
            } else {
                None
            },
    {
        if !is_increasing(vars) {
            return None;
        }
        let ghost table = choose|table: Seq<Self>| table_wf(table) && #[trigger] self.listed_in(table);
        let mut memo: HashMap<u128, u64> = HashMap::new();
        proof {
            assert(vars@.skip(0) =~= vars@);
            lemma_increasing_no_duplicates(vars@);
            self@.lemma_count_is_tally(vars@);
        }
        self.nsat_from(vars, 0, &mut memo, Ghost(table))
    }

    /// The number of models over the variables of `vars` from number
    /// `start` on, where those cover the diagram and the number fits. The
    /// count of a test is worked out once for each number of variables left,
    /// and kept in `memo`.
    fn nsat_from(
        self,
        vars: &[V],
        start: usize,
        memo: &mut HashMap<u128, u64>,
        Ghost(table): Ghost<Seq<Self>>,
    ) -> (r: Option<u64>)
        requires
            table_wf(table),
            self.listed_in(table),
            start <= vars.len(),
            increasing(vars@),
            counts_wf(old(memo)@, table, vars@),
        ensures
            r == if self@.covered_by(vars@.skip(start as int)) && self@.tally(
                vars@.skip(start as int),
                Set::empty(),
            ) <= u64::MAX {
                Some(self@.tally(vars@.skip(start as int), Set::empty()) as u64)
            } else {
                None
            },
            counts_wf(final(memo)@, table, vars@),
        decreases vars.len() - start,
    {
        let ghost rest = vars@.skip(start as int);
        let left = vars.len() - start;
        proof {
            assert(entry_wf(table, self.id as int));
            lemma_table_canonical(table, self.id as int);
        }
        match *self.node {
            Node::False => {
                proof {
                    self@.lemma_tally_leaf(rest, Set::empty());
                }
                Some(0)
            },
            Node::True => {
                proof {
                    self@.lemma_tally_leaf(rest, Set::empty());
                    lemma2_to64();
                    if left > 64 {
                        lemma_pow2_strictly_increases(64, left as nat);
                    }
                }
                if left < 64 {
                    proof {
                        lemma_pow2_strictly_increases(left as nat, 64);
                        lemma_u64_shl_is_mul(1, left as u64);
                    }
                    Some(1u64 << (left as u64))
                } else {
                    None
                }
            },
            Node::If { var, low, high } => {
                if start == vars.len() {
                    proof {
                        self@.lemma_not_covered(rest);
                    }
                    return None;
                }
                let key = make_pair_key(self.id, left);
                if let Some(count) = memo.get(&key) {
                    proof {
                        assert(count_cached(memo@, table, vars@, self.id, left));
                    }
                    return Some(*count);
                }
                proof {
                    lemma_increasing_skip(vars@, start as int);
                }
                let first = vars[start];
                let count = if first.same(var) {
                    proof {
                        self@.lemma_tally_branch(rest);
                        self@.lemma_covered_branch(rest);
                    }
                    let count_low = low.nsat_from(vars, start + 1, memo, Ghost(table))?;
                    let count_high = high.nsat_from(vars, start + 1, memo, Ghost(table))?;
                    count_low.checked_add(count_high)?
                } else if var.precedes(first) {
                    proof {
                        self@.lemma_not_covered(rest);
                    }
                    return None;
                } else {
                    proof {
                        V::lemma_rank_injective(first, var);
                        self@.lemma_covered_skip(rest);
                        self@.lemma_tally_skip(rest);
                    }
                    let half = self.nsat_from(vars, start + 1, memo, Ghost(table))?;
                    half.checked_mul(2)?
                };
                memo.insert(key, count);
                proof {
                    assert forall|id: usize, n: usize|
                        memo@.contains_key(#[trigger] pair_key(id, n)) implies count_cached(
                        memo@,
                        table,
                        vars@,
                        id,
                        n,
                    ) by {
                        if pair_key(id, n) == key {
                            lemma_pair_key_injective(id, n, self.id, left);
                        }
                    }
                }
                Some(count)
            },
        }
    }
}

} // verus!
