//! [`LabelBag`]: the Pareto front of labels at one `(round, stop)` cell,
//! and the potential that bounds how often bags can grow.

use vstd::prelude::*;
use vstd::set_lib::*;

use crate::label::Label;
use crate::time::SecondOfDay;

verus! {

/// A Pareto front of labels at a single `(round, stop)` cell. For the
/// single-criterion [`crate::ArrivalTime`] it holds at most one label.
pub struct LabelBag<L> {
    pub items: Vec<L>,
}

/// The least arrival among the labels, `u32::MAX` when there are none.
pub open spec fn min_arrival_of<L: Label>(s: Seq<L>) -> u32
    decreases s.len(),
{
    if s.len() == 0 {
        u32::MAX
    } else {
        let m = min_arrival_of(s.drop_last());
        if s.last().arrival_of() < m {
            s.last().arrival_of()
        } else {
            m
        }
    }
}

/// Some label of `s` weakly dominates `l`.
pub open spec fn some_dominates<L: Label>(s: Seq<L>, l: L) -> bool {
    exists|i: int| 0 <= i < s.len() && (#[trigger] s[i]).dominates_spec(&l)
}

/// The bag after inserting `new`, which no label of `s` dominates: the
/// labels `new` dominates leave and `new` joins at the end.
pub open spec fn bag_insert<L: Label>(s: Seq<L>, new: L) -> Seq<L> {
    s.filter(|x: L| !new.dominates_spec(&x)).push(new)
}

/// Some label of `items` arrives at `t` or earlier.
pub open spec fn arrives_by<L: Label>(items: Seq<L>, t: u32) -> bool {
    exists|i: int| 0 <= i < items.len() && (#[trigger] items[i]).arrival_of() <= t
}

/// A nonempty bag holds a label arriving at its least arrival, so it
/// arrives by any time from that on.
pub proof fn lemma_min_arrival_arrives<L: Label>(s: Seq<L>, t: u32)
    requires
        s.len() > 0,
        min_arrival_of(s) <= t,
    ensures
        arrives_by(s, t),
    decreases s.len(),
{
    let m = min_arrival_of(s.drop_last());
    if s.last().arrival_of() < m || s.len() == 1 {
        if s.len() == 1 {
            assert(s.drop_last().len() == 0);
        }
        assert(s[s.len() - 1].arrival_of() <= t);
    } else {
        lemma_min_arrival_arrives(s.drop_last(), t);
        let i = choose|i: int| 0 <= i < s.drop_last().len() && (#[trigger] s.drop_last()[i]).arrival_of() <= t;
        assert(s[i] == s.drop_last()[i]);
    }
}

/// Arriving by a time means arriving by any later time.
pub proof fn lemma_arrives_by_later<L: Label>(s: Seq<L>, t1: u32, t2: u32)
    requires
        arrives_by(s, t1),
        t1 <= t2,
    ensures
        arrives_by(s, t2),
{
    let i = choose|i: int| 0 <= i < s.len() && (#[trigger] s[i]).arrival_of() <= t1;
    assert(s[i].arrival_of() <= t2);
}

/// Inserting into a bag keeps a label arriving by `t`: either the old one
/// stays, or the newcomer dominates it and so arrives no later.
pub proof fn lemma_arrives_by_insert<L: Label>(items: Seq<L>, new: L, t: u32)
    requires
        arrives_by(items, t),
    ensures
        arrives_by(bag_insert(items, new), t),
{
    let i = choose|i: int| 0 <= i < items.len() && (#[trigger] items[i]).arrival_of() <= t;
    let b = bag_insert(items, new);
    let pred = |x: L| !new.dominates_spec(&x);
    if new.dominates_spec(&items[i]) {
        L::lemma_dominates_arrival(new, items[i]);
        assert(b[b.len() - 1] == new);
    } else {
        items.lemma_filter_contains(pred, i);
        let f = items.filter(pred);
        let w = choose|w: int| 0 <= w < f.len() && f[w] == items[i];
        assert(b[w] == f[w]);
    }
}

/// A label of the bag after inserting `new` was in the bag or is `new`.
pub proof fn lemma_bag_insert_members<L: Label>(s: Seq<L>, new: L, m: L)
    requires
        bag_insert(s, new).contains(m),
    ensures
        s.contains(m) || m == new,
{
    let pred = |x: L| !new.dominates_spec(&x);
    let b = bag_insert(s, new);
    let f = s.filter(pred);
    if m != new {
        let q = choose|q: int| 0 <= q < b.len() && b[q] == m;
        assert(q < b.len() - 1);
        assert(b[q] == f[q]);
        assert(f.contains(m));
        s.lemma_filter_contains_rev(pred, m);
    }
}

/// No label of `s` dominates a label at another position of `s` (so no
/// label occurs twice either).
pub open spec fn bag_antichain<L: Label>(s: Seq<L>) -> bool {
    forall|i: int, j: int|
        #![trigger s[i], s[j]]
        0 <= i < s.len() && 0 <= j < s.len() && i != j ==> !s[i].dominates_spec(&s[j])
}

/// Filtering a sequence without repeats leaves none.
proof fn lemma_filter_no_duplicates<A>(s: Seq<A>, pred: spec_fn(A) -> bool)
    requires
        s.no_duplicates(),
    ensures
        s.filter(pred).no_duplicates(),
    decreases s.len(),
{
    if s.len() > 0 {
        let init = s.drop_last();
        let e = s.last();
        assert(init.no_duplicates()) by {
            assert forall|i: int, j: int| 0 <= i < init.len() && 0 <= j < init.len() && i != j implies init[i] != init[j] by {
                assert(init[i] == s[i] && init[j] == s[j]);
            }
        }
        lemma_filter_no_duplicates(init, pred);
        assert(s =~= init.push(e));
        init.lemma_filter_push(e, pred);
        if pred(e) {
            let f = init.filter(pred);
            assert(!f.contains(e)) by {
                if f.contains(e) {
                    init.lemma_filter_contains_rev(pred, e);
                    let w = choose|w: int| 0 <= w < init.len() && init[w] == e;
                    assert(s[w] == s[s.len() - 1]);
                }
            }
            assert forall|i: int, j: int| 0 <= i < f.len() + 1 && 0 <= j < f.len() + 1 && i != j implies f.push(e)[i]
                != f.push(e)[j] by {
                if i < f.len() && j < f.len() {
                } else if i < f.len() {
                    assert(f.contains(f[i]));
                } else {
                    assert(f.contains(f[j]));
                }
            }
        }
    }
}

/// Inserting a label no member dominates keeps a bag free of dominated
/// labels.
pub proof fn lemma_insert_keeps_antichain<L: Label>(s: Seq<L>, new: L)
    requires
        bag_antichain(s),
        !some_dominates(s, new),
    ensures
        bag_antichain(bag_insert(s, new)),
{
    let b = bag_insert(s, new);
    let pred = |z: L| !new.dominates_spec(&z);
    let f = s.filter(pred);
    assert(s.no_duplicates()) by {
        assert forall|i: int, j: int| 0 <= i < s.len() && 0 <= j < s.len() && i != j implies s[i] != s[j] by {
            if s[i] == s[j] {
                L::lemma_dominates_reflexive(s[i]);
                assert(!s[i].dominates_spec(&s[j]));
            }
        }
    }
    lemma_filter_no_duplicates(s, pred);
    assert(b == f.push(new));
    assert forall|i: int, j: int| #![trigger b[i], b[j]] 0 <= i < b.len() && 0 <= j < b.len() && i != j implies !b[i].dominates_spec(
        &b[j],
    ) by {
        if i < f.len() && j < f.len() {
            assert(b[i] == f[i] && b[j] == f[j]);
            s.lemma_filter_contains_rev(pred, f[i]);
            s.lemma_filter_contains_rev(pred, f[j]);
            assert(f.contains(f[i]));
            assert(f.contains(f[j]));
            let wi = choose|w: int| 0 <= w < s.len() && s[w] == f[i];
            let wj = choose|w: int| 0 <= w < s.len() && s[w] == f[j];
            assert(f[i] != f[j]);
            assert(wi != wj);
        } else if i < f.len() {
            assert(b[j] == new);
            assert(b[i] == f[i]);
            assert(f.contains(f[i]));
            s.lemma_filter_contains_rev(pred, f[i]);
            let w = choose|w: int| 0 <= w < s.len() && s[w] == f[i];
            assert(!s[w].dominates_spec(&new));
        } else {
            assert(b[i] == new);
            assert(b[j] == f[j]);
            s.lemma_filter_pred(pred, j);
        }
    }
}

impl<L: Label> LabelBag<L> {
    /// An empty bag.
    pub fn new() -> (r: Self)
        ensures
            r.items@ == Seq::<L>::empty(),
    {
        LabelBag { items: Vec::new() }
    }

    /// The bag holds no label.
    pub fn is_empty(&self) -> (r: bool)
        ensures
            r == (self.items@.len() == 0),
    {
        self.items.len() == 0
    }

    /// Inserts `new` unless some label already weakly dominates it; on
    /// insertion, drops every label that `new` weakly dominates.
    pub fn insert(&mut self, new: L) -> (added: bool)
        ensures
            added == !some_dominates(old(self).items@, new),
            !added ==> final(self).items@ == old(self).items@,
            !added ==> *final(self) == *old(self),
            added ==> final(self).items@ == bag_insert(old(self).items@, new),
            bag_antichain(old(self).items@) ==> bag_antichain(final(self).items@),
    {
        let mut i: usize = 0;
        while i < self.items.len()
            invariant
                i <= self.items@.len(),
                forall|j: int| 0 <= j < i ==> !(#[trigger] self.items@[j]).dominates_spec(&new),
            decreases self.items@.len() - i,
        {
            if self.items[i].dominates(&new) {
                return false;
            }
            i = i + 1;
        }
        let ghost pred = |x: L| !new.dominates_spec(&x);
        let mut kept: Vec<L> = Vec::new();
        let mut j: usize = 0;
        while j < self.items.len()
            invariant
                j <= self.items@.len(),
                kept@ == self.items@.subrange(0, j as int).filter(pred),
                pred == (|x: L| !new.dominates_spec(&x)),
            decreases self.items@.len() - j,
        {
            let x = self.items[j];
            let ghost s1 = self.items@.subrange(0, j + 1);
            proof {
                assert(s1.drop_last() =~= self.items@.subrange(0, j as int));
                assert(s1.last() == x);
                reveal_with_fuel(Seq::filter, 1);
                assert(s1.filter(pred) == if pred(x) {
                    s1.drop_last().filter(pred).push(x)
                } else {
                    s1.drop_last().filter(pred)
                });
            }
            if !new.dominates(&x) {
                kept.push(x);
            }
            j = j + 1;
        }
        assert(self.items@.subrange(0, self.items@.len() as int) =~= self.items@);
        kept.push(new);
        proof {
            if bag_antichain(old(self).items@) {
                lemma_insert_keeps_antichain(old(self).items@, new);
            }
        }
        self.items = kept;
        true
    }

    /// The least arrival in the bag, `u32::MAX` when empty.
    pub fn min_arrival(&self) -> (r: SecondOfDay)
        ensures
            r.0 == min_arrival_of(self.items@),
    {
        let mut m: u32 = u32::MAX;
        let mut i: usize = 0;
        while i < self.items.len()
            invariant
                i <= self.items@.len(),
                m == min_arrival_of(self.items@.subrange(0, i as int)),
            decreases self.items@.len() - i,
        {
            let a = self.items[i].arrival();
            proof {
                assert(self.items@.subrange(0, i + 1).drop_last() =~= self.items@.subrange(0, i as int));
            }
            if a.0 < m {
                m = a.0;
            }
            i = i + 1;
        }
        assert(self.items@.subrange(0, self.items@.len() as int) =~= self.items@);
        SecondOfDay(m)
    }

    /// Some label in the bag weakly dominates `candidate`.
    pub fn dominates_label(&self, candidate: &L) -> (r: bool)
        ensures
            r == some_dominates(self.items@, *candidate),
    {
        let mut i: usize = 0;
        while i < self.items.len()
            invariant
                i <= self.items@.len(),
                forall|j: int| 0 <= j < i ==> !(#[trigger] self.items@[j]).dominates_spec(candidate),
            decreases self.items@.len() - i,
        {
            if self.items[i].dominates(candidate) {
                return true;
            }
            i = i + 1;
        }
        false
    }

    /// Removes every label.
    pub fn clear(&mut self)
        ensures
            final(self).items@ == Seq::<L>::empty(),
    {
        self.items = Vec::new();
    }

    /// A copy of the bag.
    pub fn copy(&self) -> (r: Self)
        ensures
            r.items@ == self.items@,
    {
        LabelBag { items: crate::manual::copy_vec(&self.items) }
    }
}

// ---------------------------------------------------------------------
// Potential: a bag can only grow finitely often.
// ---------------------------------------------------------------------

/// The codes of the labels that some label of `s` weakly dominates.
pub open spec fn covered<L: Label>(s: Seq<L>) -> Set<u64> {
    Set::<u64>::full().filter(
        |c: u64| exists|i: int, l: L| 0 <= i < s.len() && l.code() == c && #[trigger] s[i].dominates_spec(&l),
    )
}

/// The number of codes not yet covered by `s`.
pub open spec fn bag_potential<L: Label>(s: Seq<L>) -> nat {
    Set::<u64>::full().difference(covered(s)).len()
}

/// Inserting a label that no member dominates strictly lowers the potential.
pub proof fn lemma_insert_lowers_potential<L: Label>(s: Seq<L>, new: L)
    requires
        !some_dominates(s, new),
    ensures
        bag_potential(bag_insert(s, new)) < bag_potential(s),
{
    broadcast use full_set_properties;
    let full = Set::<u64>::full();
    assert(full.finite());
    let t = bag_insert(s, new);
    let pred = |x: L| !new.dominates_spec(&x);
    let f = s.filter(pred);
    assert(t == f.push(new));
    // covered(s) is contained in covered(t).
    assert forall|c: u64| covered(s).contains(c) implies covered(t).contains(c) by {
        let (i, l) = choose|i: int, l: L| 0 <= i < s.len() && l.code() == c && #[trigger] s[i].dominates_spec(&l);
        if pred(s[i]) {
            s.lemma_filter_contains(pred, i);
            let j = choose|j: int| 0 <= j < f.len() && f[j] == s[i];
            assert(t[j] == s[i]);
            assert(0 <= j < t.len() && l.code() == c && t[j].dominates_spec(&l));
        } else {
            L::lemma_dominates_transitive(new, s[i], l);
            let j = f.len() as int;
            assert(t[j] == new);
            assert(0 <= j < t.len() && l.code() == c && t[j].dominates_spec(&l));
        }
    }
    // The new label's code is covered now but was not before.
    L::lemma_dominates_reflexive(new);
    let x = new.code();
    assert(t[f.len() as int] == new);
    assert(covered(t).contains(x));
    if covered(s).contains(x) {
        let (i, l) = choose|i: int, l: L| 0 <= i < s.len() && l.code() == x && #[trigger] s[i].dominates_spec(&l);
        L::lemma_code_injective(l, new);
        assert(s[i].dominates_spec(&new));
        assert(false);
    }
    let a = full.difference(covered(s));
    let b = full.difference(covered(t));
    assert(b.subset_of(a.remove(x)));
    lemma_len_subset(b, a.remove(x));
    assert(a.contains(x));
}

/// The summed potential of a sequence of bags.
pub open spec fn total_potential<L: Label>(bags: Seq<LabelBag<L>>) -> nat
    decreases bags.len(),
{
    if bags.len() == 0 {
        0
    } else {
        total_potential(bags.drop_last()) + bag_potential(bags.last().items@)
    }
}

/// Replacing one bag by one of lower potential lowers the total by the
/// same amount.
pub proof fn lemma_total_potential_update<L: Label>(bags: Seq<LabelBag<L>>, i: int, b: LabelBag<L>)
    requires
        0 <= i < bags.len(),
        bag_potential(b.items@) < bag_potential(bags[i].items@),
    ensures
        total_potential(bags.update(i, b)) + bag_potential(bags[i].items@) == total_potential(bags)
            + bag_potential(b.items@),
        total_potential(bags.update(i, b)) < total_potential(bags),
    decreases bags.len(),
{
    let u = bags.update(i, b);
    if i == bags.len() - 1 {
        assert(u.drop_last() =~= bags.drop_last());
    } else {
        lemma_total_potential_update(bags.drop_last(), i, b);
        assert(u.drop_last() =~= bags.drop_last().update(i, b));
    }
}

} // verus!
