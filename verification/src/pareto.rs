//! The Pareto sweep shared by every front the library returns: take the
//! candidates in ascending preference order and keep each one that no kept
//! candidate weakly dominates, evicting the kept ones it dominates.

use vstd::prelude::*;

verus! {

/// A candidate of a Pareto front: a total preorder that says which
/// candidates are considered first, and a weak dominance relation.
pub trait ParetoItem: Sized {
    /// `self` comes no later than `other` in the sweep order.
    spec fn key_le(&self, other: &Self) -> bool;

    /// `self` weakly dominates `other`.
    spec fn pdom(&self, other: &Self) -> bool;

    /// The sweep order is total.
    proof fn lemma_key_total(a: &Self, b: &Self)
        ensures
            a.key_le(b) || b.key_le(a),
    ;

    /// The sweep order is transitive.
    proof fn lemma_key_transitive(a: &Self, b: &Self, c: &Self)
        requires
            a.key_le(b),
            b.key_le(c),
        ensures
            a.key_le(c),
    ;

    /// Dominance is reflexive.
    proof fn lemma_pdom_reflexive(a: &Self)
        ensures
            a.pdom(a),
    ;

    /// Dominance is transitive.
    proof fn lemma_pdom_transitive(a: &Self, b: &Self, c: &Self)
        requires
            a.pdom(b),
            b.pdom(c),
        ensures
            a.pdom(c),
    ;

    /// Exec form of [`ParetoItem::key_le`].
    fn key_le_exec(&self, other: &Self) -> (r: bool)
        ensures
            r == self.key_le(other),
    ;

    /// Exec form of [`ParetoItem::pdom`].
    fn pdom_exec(&self, other: &Self) -> (r: bool)
        ensures
            r == self.pdom(other),
    ;
}

/// Some member of `front` weakly dominates `x`.
pub open spec fn covers<T: ParetoItem>(front: Seq<T>, x: T) -> bool {
    exists|j: int| 0 <= j < front.len() && (#[trigger] front[j]).pdom(&x)
}

/// `out` is the Pareto front of `input` as the sweep builds it: sorted in
/// sweep order, no member dominates another, every member is a candidate,
/// and every candidate is dominated by (or equal to) some member.
pub open spec fn is_swept_front<T: ParetoItem>(input: Seq<T>, out: Seq<T>) -> bool {
    &&& forall|i: int, j: int| #![trigger out[i], out[j]] 0 <= i < j < out.len() ==> out[i].key_le(&out[j])
    &&& forall|i: int, j: int|
        #![trigger out[i], out[j]]
        0 <= i < out.len() && 0 <= j < out.len() && i != j ==> !out[i].pdom(&out[j])
    &&& forall|i: int| 0 <= i < out.len() ==> input.contains(out[i])
    &&& forall|i: int| #![trigger input[i]] 0 <= i < input.len() ==> covers(out, input[i])
}

/// Index of the first candidate that comes no later than every other one.
fn first_min<T: ParetoItem>(pool: &Vec<T>) -> (m: usize)
    requires
        pool@.len() > 0,
    ensures
        m < pool@.len(),
        forall|j: int| 0 <= j < pool@.len() ==> pool@[m as int].key_le(&#[trigger] pool@[j]),
{
    let mut m: usize = 0;
    let mut i: usize = 1;
    proof {
        T::lemma_key_total(&pool@[0], &pool@[0]);
    }
    while i < pool.len()
        invariant
            1 <= i <= pool@.len(),
            m < i,
            forall|j: int| 0 <= j < i ==> pool@[m as int].key_le(&#[trigger] pool@[j]),
        decreases pool@.len() - i,
    {
        if !pool[m].key_le_exec(&pool[i]) {
            proof {
                T::lemma_key_total(&pool@[m as int], &pool@[i as int]);
                assert forall|j: int| 0 <= j < i + 1 implies pool@[i as int].key_le(&#[trigger] pool@[j]) by {
                    if j < i {
                        T::lemma_key_transitive(&pool@[i as int], &pool@[m as int], &pool@[j]);
                    } else {
                        T::lemma_key_total(&pool@[i as int], &pool@[i as int]);
                    }
                }
            }
            m = i;
        }
        i = i + 1;
    }
    m
}

/// The Pareto front of `input` (see [`is_swept_front`]).
pub fn pareto_sweep<T: ParetoItem>(input: Vec<T>) -> (out: Vec<T>)
    ensures
        is_swept_front(input@, out@),
{
    let ghost inp = input@;
    let mut pool = input;
    let mut front: Vec<T> = Vec::new();
    proof {
        assert forall|i: int| 0 <= i < pool@.len() implies inp.contains(pool@[i]) by {
            assert(inp[i] == pool@[i]);
        }
        assert forall|i: int| #![trigger inp[i]] 0 <= i < inp.len() implies (pool@.contains(inp[i]))
            || covers(front@, inp[i]) by {
            assert(pool@[i] == inp[i]);
        }
    }
    while pool.len() > 0
        invariant
            forall|i: int, j: int| #![trigger front@[i], front@[j]] 0 <= i < j < front@.len() ==> front@[i].key_le(&front@[j]),
            forall|i: int, j: int|
                #![trigger front@[i], front@[j]] 0 <= i < front@.len() && 0 <= j < front@.len() && i != j ==> !front@[i].pdom(&front@[j]),
            forall|i: int, j: int|
                #![trigger front@[i], pool@[j]] 0 <= i < front@.len() && 0 <= j < pool@.len() ==> front@[i].key_le(&pool@[j]),
            forall|i: int| 0 <= i < front@.len() ==> inp.contains(front@[i]),
            forall|i: int| 0 <= i < pool@.len() ==> inp.contains(pool@[i]),
            forall|i: int|
                #![trigger inp[i]]
                0 <= i < inp.len() ==> (pool@.contains(inp[i]))
                    || covers(front@, inp[i]),
        decreases pool@.len(),
    {
        let m = first_min(&pool);
        let ghost old_pool = pool@;
        let ghost old_front = front@;
        let r = pool.remove(m);
        let mut dominated = false;
        let mut i: usize = 0;
        while i < front.len()
            invariant
                i <= front@.len(),
                front@ == old_front,
                dominated ==> exists|j: int| 0 <= j < front@.len() && (#[trigger] front@[j]).pdom(&r),
                !dominated ==> forall|j: int| 0 <= j < i ==> !(#[trigger] front@[j]).pdom(&r),
            decreases front@.len() - i,
        {
            if front[i].pdom_exec(&r) {
                dominated = true;
            }
            i = i + 1;
        }
        if !dominated {
            // Keep the members `r` does not dominate, then add `r`.
            let mut kept: Vec<T> = Vec::new();
            let ghost mut kept_from: Seq<int> = Seq::empty();
            let mut rest = front;
            front = Vec::new();
            let ghost rest0 = rest@;
            let mut k: usize = 0;
            while rest.len() > 0
                invariant
                    k + rest@.len() == rest0.len(),
                    rest0.len() <= usize::MAX,
                    rest@ == rest0.subrange(k as int, rest0.len() as int),
                    kept_from.len() == kept@.len(),
                    forall|a: int| 0 <= a < kept@.len() ==> 0 <= #[trigger] kept_from[a] < k,
                    forall|a: int, b: int| 0 <= a < b < kept@.len() ==> kept_from[a] < kept_from[b],
                    forall|a: int| 0 <= a < kept@.len() ==> #[trigger] kept@[a] == rest0[kept_from[a]],
                    forall|a: int| 0 <= a < kept@.len() ==> !r.pdom(&#[trigger] kept@[a]),
                    forall|b: int| 0 <= b < k ==> r.pdom(&#[trigger] rest0[b]) || kept_from.contains(b),
                decreases rest@.len(),
            {
                let f = rest.remove(0);
                let ghost old_kf = kept_from;
                proof {
                    assert(f == rest0[k as int]);
                }
                if !r.pdom_exec(&f) {
                    kept.push(f);
                    proof {
                        kept_from = kept_from.push(k as int);
                        assert(kept_from[kept_from.len() - 1] == k);
                    }
                }
                proof {
                    assert(rest@ =~= rest0.subrange(k + 1, rest0.len() as int));
                    assert forall|b: int| 0 <= b < k + 1 implies r.pdom(&#[trigger] rest0[b]) || kept_from.contains(b) by {
                        if b < k && !r.pdom(&rest0[b]) {
                            assert(old_kf.contains(b));
                            let a = choose|a: int| 0 <= a < old_kf.len() && old_kf[a] == b;
                            assert(kept_from[a] == b);
                        }
                        if b == k && !r.pdom(&rest0[b]) {
                            assert(kept_from[kept_from.len() - 1] == k);
                        }
                    }
                }
                k = k + 1;
            }
            front = kept;
            front.push(r);
            proof {
                let nf = front@;
                let kn = nf.len() - 1;
                assert(nf[kn] == r);
                // Order.
                assert forall|i: int, j: int| #![trigger nf[i], nf[j]] 0 <= i < j < nf.len() implies nf[i].key_le(&nf[j]) by {
                    if j < kn {
                        assert(nf[i] == rest0[kept_from[i]]);
                        assert(nf[j] == rest0[kept_from[j]]);
                    } else {
                        assert(nf[i] == old_front[kept_from[i]]);
                        assert(old_pool[m as int] == r);
                    }
                }
                // Antichain.
                assert forall|i: int, j: int|
                    #![trigger nf[i], nf[j]] 0 <= i < nf.len() && 0 <= j < nf.len() && i != j implies !nf[i].pdom(&nf[j]) by {
                    if i < kn && j < kn {
                        assert(nf[i] == old_front[kept_from[i]]);
                        assert(nf[j] == old_front[kept_from[j]]);
                        assert(kept_from[i] != kept_from[j]);
                    } else if i == kn {
                        assert(nf[j] == kept@[j]);
                    } else {
                        assert(nf[i] == old_front[kept_from[i]]);
                    }
                }
                // Everything in the front comes from the input.
                assert forall|i: int| 0 <= i < nf.len() implies inp.contains(nf[i]) by {
                    if i < kn {
                        assert(nf[i] == old_front[kept_from[i]]);
                    } else {
                        assert(old_pool[m as int] == r);
                    }
                }
                // Front before pool.
                assert forall|i: int, j: int| #![trigger nf[i], pool@[j]] 0 <= i < nf.len() && 0 <= j < pool@.len() implies nf[i].key_le(&pool@[j]) by {
                    let jj = if j < m { j } else { j + 1 };
                    assert(pool@[j] == old_pool[jj]);
                    if i < kn {
                        assert(nf[i] == old_front[kept_from[i]]);
                    } else {
                        assert(old_pool[m as int] == r);
                    }
                }
                // Every input is still pending or covered.
                assert forall|i: int| #![trigger inp[i]] 0 <= i < inp.len() implies (pool@.contains(inp[i]))
                    || covers(nf, inp[i]) by {
                    if exists|j: int| 0 <= j < old_pool.len() && old_pool[j] == inp[i] {
                        let j = choose|j: int| 0 <= j < old_pool.len() && old_pool[j] == inp[i];
                        if j == m {
                            T::lemma_pdom_reflexive(&r);
                            assert(nf[kn].pdom(&inp[i]));
                        } else {
                            let jj = if j < m { j } else { j - 1 };
                            assert(pool@[jj] == old_pool[j]);
                        }
                    } else {
                        let j = choose|j: int| 0 <= j < old_front.len() && (#[trigger] old_front[j]).pdom(&inp[i]);
                        if r.pdom(&old_front[j]) {
                            T::lemma_pdom_transitive(&r, &old_front[j], &inp[i]);
                            assert(nf[kn].pdom(&inp[i]));
                        } else {
                            assert(rest0 == old_front);
                            assert(!r.pdom(&rest0[j]));
                            assert(kept_from.contains(j));
                            let a = choose|a: int| 0 <= a < kept_from.len() && kept_from[a] == j;
                            assert(kept@[a] == rest0[j]);
                            assert(nf[a] == kept@[a]);
                            assert(nf[a].pdom(&inp[i]));
                        }
                    }
                }
            }
        } else {
            proof {
                assert forall|i: int, j: int| #![trigger front@[i], pool@[j]] 0 <= i < front@.len() && 0 <= j < pool@.len() implies front@[i].key_le(&pool@[j]) by {
                    let jj = if j < m { j } else { j + 1 };
                    assert(pool@[j] == old_pool[jj]);
                }
                assert forall|i: int| #![trigger inp[i]] 0 <= i < inp.len() implies (pool@.contains(inp[i]))
                    || covers(front@, inp[i]) by {
                    if exists|j: int| 0 <= j < old_pool.len() && old_pool[j] == inp[i] {
                        let j = choose|j: int| 0 <= j < old_pool.len() && old_pool[j] == inp[i];
                        if j == m {
                            let f = choose|f: int| 0 <= f < front@.len() && (#[trigger] front@[f]).pdom(&r);
                            assert(front@[f].pdom(&inp[i]));
                        } else {
                            let jj = if j < m { j } else { j - 1 };
                            assert(pool@[jj] == old_pool[j]);
                        }
                    }
                }
                assert forall|i: int| 0 <= i < pool@.len() implies inp.contains(pool@[i]) by {
                    let ii = if i < m { i } else { i + 1 };
                    assert(pool@[i] == old_pool[ii]);
                }
            }
        }
        proof {
            assert forall|i: int| 0 <= i < pool@.len() implies inp.contains(pool@[i]) by {
                let ii = if i < m { i } else { i + 1 };
                assert(pool@[i] == old_pool[ii]);
            }
        }
    }
    front
}

} // verus!
