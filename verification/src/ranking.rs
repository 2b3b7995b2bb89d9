//! Scored results and the selection of the best of them.
//!
//! A score is held as an unsigned key whose order is the order of the
//! distances it stands for: a smaller key is a closer match.

use vstd::prelude::*;
use vstd::relations::{sorted_by, total_ordering};
use vstd::seq_lib::{lemma_multiset_commutative, lemma_sorted_unique};

verus! {

/// The place of a 32-bit sign-and-magnitude pattern in the total order of
/// such patterns: those with the sign bit clear count up from 0 by
/// magnitude, those with the sign bit set count down from -1.
pub open spec fn total_order_rank(bits: u32) -> int {
    if bits & 0x8000_0000 == 0 {
        bits as int
    } else {
        -1 - ((bits & 0x7fff_ffff) as int)
    }
}

/// The key of the pattern `bits`: its rank, moved up into the unsigned range.
pub open spec fn spec_score_key(bits: u32) -> u32 {
    (total_order_rank(bits) + 0x8000_0000) as u32
}

/// Maps the bit pattern of a single-precision number to a key that orders as
/// the numbers do: negative numbers below positive ones, and among numbers of
/// one sign by magnitude.
pub fn score_key(bits: u32) -> (key: u32)
    ensures
        key == spec_score_key(bits),
        key as int == total_order_rank(bits) + 0x8000_0000,
{
    proof {
        lemma_rank_bits(bits);
    }
    if bits & 0x8000_0000 != 0 {
        !bits
    } else {
        bits | 0x8000_0000
    }
}

/// The bit pattern that has the key `key`.
pub fn key_bits(key: u32) -> (bits: u32)
    ensures
        spec_score_key(bits) == key,
{
    let bits = if key & 0x8000_0000 != 0 {
        key & 0x7fff_ffff
    } else {
        !key
    };
    proof {
        lemma_rank_bits(bits);
        assert(key & 0x8000_0000 != 0 ==> (key & 0x7fff_ffff) & 0x8000_0000 == 0 && (key
            & 0x7fff_ffff) | 0x8000_0000 == key) by (bit_vector);
        assert(key & 0x8000_0000 == 0 ==> (!key) & 0x8000_0000 != 0 && !(!key) == key)
            by (bit_vector);
    }
    bits
}

proof fn lemma_rank_bits(bits: u32)
    ensures
        bits & 0x8000_0000 != 0 ==> (!bits) as int == 0x8000_0000 - 1 - (bits & 0x7fff_ffff),
        bits & 0x8000_0000 == 0 ==> (bits | 0x8000_0000) as int == bits + 0x8000_0000,
        0 <= total_order_rank(bits) + 0x8000_0000 <= u32::MAX,
{
    assert(bits & 0x8000_0000 != 0 ==> !bits == 0x7fff_ffff - (bits & 0x7fff_ffff)) by (bit_vector);
    assert(bits & 0x8000_0000 == 0 ==> bits | 0x8000_0000 == bits + 0x8000_0000 && bits
        < 0x8000_0000) by (bit_vector);
    assert((bits & 0x7fff_ffff) <= 0x7fff_ffff) by (bit_vector);
}

/// The keys order as the ranks do, and no two patterns share a key.
pub proof fn lemma_score_key_order(a: u32, b: u32)
    ensures
        spec_score_key(a) < spec_score_key(b) <==> total_order_rank(a) < total_order_rank(b),
        spec_score_key(a) == spec_score_key(b) <==> a == b,
{
    lemma_rank_bits(a);
    lemma_rank_bits(b);
    assert((a & 0x8000_0000 == 0) == (b & 0x8000_0000 == 0) && (a & 0x7fff_ffff) == (b
        & 0x7fff_ffff) ==> a == b) by (bit_vector);
    assert(a & 0x8000_0000 == 0 ==> a & 0x7fff_ffff == a) by (bit_vector);
    assert(b & 0x8000_0000 == 0 ==> b & 0x7fff_ffff == b) by (bit_vector);
}

/// A vector's id with the key of its distance to the query.
#[derive(Clone, Copy, Debug, PartialEq, Eq, PartialOrd, Ord, Hash)]
pub struct IdWithScore {
    pub score: u32,
    pub id: u64,
}

/// `a` ranks no later than `b`: by score, and by id where the scores are
/// equal.
pub open spec fn precedes(a: IdWithScore, b: IdWithScore) -> bool {
    a.score < b.score || (a.score == b.score && a.id <= b.id)
}

/// The ranking order as a relation.
pub open spec fn ranking() -> spec_fn(IdWithScore, IdWithScore) -> bool {
    |a: IdWithScore, b: IdWithScore| precedes(a, b)
}

/// The ranking order is a total order.
pub proof fn lemma_ranking_total()
    ensures
        total_ordering(ranking()),
{
    let r = ranking();
    assert(vstd::relations::reflexive(r));
    assert(vstd::relations::antisymmetric(r)) by {
        assert forall|x: IdWithScore, y: IdWithScore| #[trigger] r(x, y) && #[trigger] r(y, x)
            implies x == y by {
            assert(x.score == y.score && x.id == y.id);
        }
    }
    assert(vstd::relations::transitive(r));
    assert(vstd::relations::strongly_connected(r));
}

/// The `k` best of `candidates`, best first; all of them where there are
/// fewer than `k`.
pub open spec fn top_k(candidates: Seq<IdWithScore>, k: nat) -> Seq<IdWithScore> {
    let ranked = candidates.sort_by(ranking());
    ranked.take(if k <= ranked.len() {
        k as int
    } else {
        ranked.len() as int
    })
}

/// As many results are selected as are asked for, or all where there are
/// fewer.
pub proof fn lemma_top_k_len(candidates: Seq<IdWithScore>, k: nat)
    ensures
        top_k(candidates, k).len() == (if k <= candidates.len() {
            k
        } else {
            candidates.len()
        }),
{
    broadcast use vstd::seq_lib::group_to_multiset_ensures;

    lemma_ranking_total();
    candidates.lemma_sort_by_ensures(ranking());
    let ranked = candidates.sort_by(ranking());
    assert(ranked.to_multiset().len() == ranked.len());
    assert(candidates.to_multiset().len() == candidates.len());
}

/// The results selected are in ranking order, each of them is a candidate,
/// and no candidate ranks before the last of them unless it is selected
/// too: a candidate occurs among the results at least as often as it occurs
/// among the candidates, or `k` results rank no later than it.
pub proof fn lemma_top_k_is_best(candidates: Seq<IdWithScore>, k: nat)
    ensures
        sorted_by(top_k(candidates, k), ranking()),
        forall|i: int|
            0 <= i < top_k(candidates, k).len() ==> candidates.contains(
                #[trigger] top_k(candidates, k)[i],
            ),
        forall|i: int, j: int|
            0 <= i < top_k(candidates, k).len() && top_k(candidates, k).len() <= j
                < candidates.len() ==> precedes(
                #[trigger] top_k(candidates, k)[i],
                #[trigger] candidates.sort_by(ranking())[j],
            ),
{
    broadcast use vstd::seq_lib::group_to_multiset_ensures;

    lemma_ranking_total();
    lemma_top_k_len(candidates, k);
    candidates.lemma_sort_by_ensures(ranking());
    let ranked = candidates.sort_by(ranking());
    let best = top_k(candidates, k);
    assert(ranked.to_multiset().len() == ranked.len());
    assert(candidates.to_multiset().len() == candidates.len());
    assert forall|i: int, j: int| 0 <= i < j < best.len() implies #[trigger] ranking()(
        best[i],
        best[j],
    ) by {
        assert(ranking()(ranked[i], ranked[j]));
    }
    assert forall|i: int| 0 <= i < best.len() implies candidates.contains(#[trigger] best[i]) by {
        assert(ranked.contains(ranked[i]));
        assert(ranked.to_multiset().count(ranked[i]) > 0);
        assert(candidates.to_multiset().count(ranked[i]) > 0);
    }
    assert forall|i: int, j: int|
        0 <= i < best.len() && best.len() <= j < candidates.len() implies precedes(
        #[trigger] best[i],
        #[trigger] ranked[j],
    ) by {
        assert(ranking()(ranked[i], ranked[j]));
    }
}

impl IdWithScore {
    /// Whether `self` ranks no later than `other`.
    pub fn precedes(&self, other: &IdWithScore) -> (r: bool)
        ensures
            r == precedes(*self, *other),
    {
        self.score < other.score || (self.score == other.score && self.id <= other.id)
    }

    /// Whether `self` ranks strictly before `other`.
    pub fn ranks_before(&self, other: &IdWithScore) -> (r: bool)
        ensures
            r == !precedes(*other, *self),
    {
        self.score < other.score || (self.score == other.score && self.id < other.id)
    }
}

/// The best `k` of the results offered so far, kept in ranking order. It
/// holds at most `k` results at any time: once it is full, a result is let in
/// only by putting the worst one out.
pub struct TopK {
    limit: usize,
    best: Vec<IdWithScore>,
    offered: Ghost<Seq<IdWithScore>>,
    dropped: Ghost<Seq<IdWithScore>>,
}

impl TopK {
    /// The number of results to keep.
    pub closed spec fn limit(&self) -> nat {
        self.limit as nat
    }

    /// The results offered so far, in the order they came.
    pub closed spec fn offered(&self) -> Seq<IdWithScore> {
        self.offered@
    }

    /// The results kept, best first.
    pub closed spec fn kept(&self) -> Seq<IdWithScore> {
        self.best@
    }

    /// The invariant: the kept results are in ranking order and at most
    /// `limit`; with those dropped they make up what was offered; none
    /// dropped ranks before one kept; and none was dropped while there was
    /// room.
    pub closed spec fn wf(&self) -> bool {
        &&& sorted_by(self.best@, ranking())
        &&& self.best@.len() <= self.limit
        &&& self.best@.to_multiset().add(self.dropped@.to_multiset())
            == self.offered@.to_multiset()
        &&& forall|i: int, j: int|
            0 <= i < self.best@.len() && 0 <= j < self.dropped@.len() ==> precedes(
                #[trigger] self.best@[i],
                #[trigger] self.dropped@[j],
            )
        &&& self.dropped@.len() > 0 ==> self.best@.len() == self.limit
    }

    /// What is kept is the best `limit` of what was offered.
    pub proof fn lemma_kept_is_top_k(&self)
        requires
            self.wf(),
        ensures
            self.kept() == top_k(self.offered(), self.limit()),
    {
        broadcast use vstd::seq_lib::group_to_multiset_ensures;

        let r = ranking();
        lemma_ranking_total();
        let best = self.best@;
        let dropped = self.dropped@;
        let offered = self.offered@;
        let tail = dropped.sort_by(r);
        dropped.lemma_sort_by_ensures(r);
        offered.lemma_sort_by_ensures(r);
        let full = best + tail;
        assert(tail.len() == dropped.len()) by {
            assert(tail.to_multiset().len() == dropped.to_multiset().len());
        }
        assert(sorted_by(full, r)) by {
            assert forall|i: int, j: int| 0 <= i < j < full.len() implies #[trigger] r(
                full[i],
                full[j],
            ) by {
                if j < best.len() {
                    assert(r(best[i], best[j]));
                } else if i >= best.len() {
                    assert(r(tail[i - best.len()], tail[j - best.len()]));
                } else {
                    let t = tail[j - best.len()];
                    assert(tail.contains(t));
                    assert(tail.to_multiset().count(t) > 0);
                    assert(dropped.to_multiset().count(t) > 0);
                    assert(dropped.contains(t));
                    let d = choose|d: int| 0 <= d < dropped.len() && dropped[d] == t;
                    assert(precedes(best[i], dropped[d]));
                }
            }
        }
        lemma_multiset_commutative(best, tail);
        assert(full.to_multiset() == offered.to_multiset());
        lemma_sorted_unique(full, offered.sort_by(r), r);
        assert(full.len() == offered.len()) by {
            assert(full.to_multiset().len() == full.len());
            assert(offered.to_multiset().len() == offered.len());
        }
        assert(self.best@ =~= top_k(offered, self.limit as nat));
    }

    /// An empty selection of at most `limit` results.
    pub fn new(limit: usize) -> (top: Self)
        ensures
            top.wf(),
            top.limit() == limit,
            top.offered() == Seq::<IdWithScore>::empty(),
    {
        let top = TopK {
            limit,
            best: Vec::new(),
            offered: Ghost(Seq::empty()),
            dropped: Ghost(Seq::empty()),
        };
        proof {
            broadcast use {
                vstd::seq_lib::group_to_multiset_ensures,
                vstd::multiset::group_multiset_axioms,
            };

            let none = Seq::<IdWithScore>::empty().to_multiset();
            assert(none.len() == 0);
            assert(none =~= vstd::multiset::Multiset::empty());
            assert(top.best@.to_multiset().add(top.dropped@.to_multiset())
                =~= top.offered@.to_multiset());
        }
        top
    }

    /// The number of results kept.
    pub fn len(&self) -> (n: usize)
        requires
            self.wf(),
        ensures
            n == self.kept().len(),
            n == top_k(self.offered(), self.limit()).len(),
    {
        proof {
            self.lemma_kept_is_top_k();
        }
        self.best.len()
    }

    /// Puts `item` at its place among the kept results.
    fn insert(&mut self, item: IdWithScore)
        requires
            sorted_by(old(self).best@, ranking()),
        ensures
            sorted_by(final(self).best@, ranking()),
            final(self).best@.to_multiset() == old(self).best@.to_multiset().insert(item),
            final(self).best@.len() == old(self).best@.len() + 1,
            final(self).limit == old(self).limit,
            final(self).offered == old(self).offered,
            final(self).dropped == old(self).dropped,
            forall|i: int|
                0 <= i < final(self).best@.len() ==> #[trigger] final(self).best@[i] == item
                    || old(self).best@.contains(final(self).best@[i]),
            final(self).best@.last() == item || (old(self).best@.len() > 0
                && final(self).best@.last() == old(self).best@.last()),
    {
        broadcast use vstd::seq_lib::group_to_multiset_ensures;

        let n = self.best.len();
        let mut at: usize = 0;
        while at < n && self.best[at].precedes(&item)
            invariant
                at <= n,
                n == self.best@.len(),
                self.best@ == old(self).best@,
                forall|i: int| 0 <= i < at ==> precedes(#[trigger] self.best@[i], item),
            decreases n - at,
        {
            at += 1;
        }
        let ghost before = self.best@;
        self.best.insert(at, item);
        proof {
            let r = ranking();
            let after = self.best@;
            assert(after == before.insert(at as int, item));
            assert forall|i: int, j: int| 0 <= i < j < after.len() implies #[trigger] precedes(
                after[i],
                after[j],
            ) by {
                if j < at {
                    assert(r(before[i], before[j]));
                } else if j == at {
                    assert(precedes(before[i], item));
                } else if i == at {
                    assert(j - 1 == at || r(before[at as int], before[j - 1]));
                    assert(!precedes(before[at as int], item));
                } else if i > at {
                    assert(r(before[i - 1], before[j - 1]));
                } else {
                    assert(r(before[i], before[j - 1]));
                }
            }
            assert(sorted_by(after, ranking()));
            assert forall|i: int| 0 <= i < after.len() implies #[trigger] after[i] == item
                || before.contains(after[i]) by {
                if i < at {
                    assert(after[i] == before[i]);
                } else if i > at {
                    assert(after[i] == before[i - 1]);
                }
            }
        }
    }

    /// Offers one more result.
    pub fn offer(&mut self, item: IdWithScore)
        requires
            old(self).wf(),
        ensures
            final(self).wf(),
            final(self).limit() == old(self).limit(),
            final(self).offered() == old(self).offered().push(item),
    {
        broadcast use vstd::seq_lib::group_to_multiset_ensures;

        let ghost best0 = self.best@;
        let ghost dropped0 = self.dropped@;
        let ghost offered0 = self.offered@;
        let n = self.best.len();
        if n < self.limit {
            self.insert(item);
            proof {
                self.offered = Ghost(offered0.push(item));
                assert(self.best@.to_multiset().add(self.dropped@.to_multiset())
                    =~= self.offered@.to_multiset());
            }
        } else if n > 0 && item.ranks_before(&self.best[n - 1]) {
            let worst = self.best.pop().unwrap();
            proof {
                assert(self.best@ == best0.drop_last());
                assert(sorted_by(self.best@, ranking())) by {
                    assert forall|i: int, j: int| 0 <= i < j < self.best@.len() implies #[trigger] precedes(
                        self.best@[i],
                        self.best@[j],
                    ) by {
                        assert(ranking()(best0[i], best0[j]));
                    }
                }
                assert(best0 =~= self.best@.push(worst));
                assert(best0.to_multiset() =~= self.best@.to_multiset().insert(worst));
            }
            let ghost best1 = self.best@;
            self.insert(item);
            proof {
                self.offered = Ghost(offered0.push(item));
                self.dropped = Ghost(dropped0.push(worst));
                assert(self.best@.to_multiset().add(self.dropped@.to_multiset())
                    =~= self.offered@.to_multiset());
                assert forall|i: int, j: int|
                    0 <= i < self.best@.len() && 0 <= j < self.dropped@.len() implies precedes(
                    #[trigger] self.best@[i],
                    #[trigger] self.dropped@[j],
                ) by {
                    let b = self.best@[i];
                    let d = self.dropped@[j];
                    // Every kept result ranks no later than the one put out.
                    assert(precedes(b, worst)) by {
                        if b != item {
                            assert(best1.contains(b));
                            let p = choose|p: int| 0 <= p < best1.len() && best1[p] == b;
                            assert(ranking()(best0[p], best0[n - 1]));
                        }
                    }
                    if j < dropped0.len() {
                        assert(precedes(best0[n - 1], dropped0[j]));
                    }
                }
            }
        } else {
            proof {
                self.offered = Ghost(offered0.push(item));
                self.dropped = Ghost(dropped0.push(item));
                assert(self.best@.to_multiset().add(self.dropped@.to_multiset())
                    =~= self.offered@.to_multiset());
                assert forall|i: int, j: int|
                    0 <= i < self.best@.len() && 0 <= j < self.dropped@.len() implies precedes(
                    #[trigger] self.best@[i],
                    #[trigger] self.dropped@[j],
                ) by {
                    if j == dropped0.len() {
                        assert(i == n - 1 || ranking()(best0[i], best0[n - 1]));
                    }
                }
            }
        }
    }

    /// The best `limit` of the results offered, best first.
    pub fn into_sorted(self) -> (results: Vec<IdWithScore>)
        requires
            self.wf(),
        ensures
            results@ == top_k(self.offered(), self.limit()),
    {
        proof {
            self.lemma_kept_is_top_k();
        }
        self.best
    }
}

} // verus!
