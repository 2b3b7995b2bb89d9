//! Searches that probe every cluster.
//!
//! Where every vector of an index is in one posting list, a search that
//! probes all clusters scans every vector once: what it returns are the best
//! of all vectors, and all vectors where more results are asked for than
//! there are vectors.

use vstd::prelude::*;
use vstd::multiset::Multiset;
use vstd::relations::sorted_by;
use vstd::seq_lib::{commutative_foldl, lemma_fold_left_permutation, lemma_multiset_commutative};
use crate::index_file::{parse_header, Header, IndexError, IntSeqEncodingType};
use crate::ivf::{centroid_candidates, centroid_scores, concat, nearest, scored_by, Ivf};
use crate::ivf_builder::{all_ids, local_ids};
use crate::ivf_writer::{header_for, index_file_bytes, lemma_index_file_round_trip, writable};
use crate::ranking::{
    lemma_ranking_total, lemma_top_k_is_best, lemma_top_k_len, ranking, top_k, IdWithScore,
};

verus! {

/// The id of a result.
pub open spec fn id_of() -> spec_fn(IdWithScore) -> u64 {
    |r: IdWithScore| r.id
}

/// The ids of the results.
pub open spec fn ids(results: Seq<IdWithScore>) -> Seq<u64> {
    results.map_values(id_of())
}

/// The numbers of `n` clusters: the numbers from 0 up to `n`.
pub open spec fn all_clusters(n: nat) -> Seq<usize> {
    Seq::new(n, |c: int| c as usize)
}

/// Adding the image of one more element to the images of the others.
pub open spec fn insert_image<A, B>(g: spec_fn(A) -> B) -> spec_fn(Multiset<B>, A) -> Multiset<B> {
    |acc: Multiset<B>, x: A| acc.insert(g(x))
}

/// The images of the elements of a sequence, each as often as it comes up,
/// are what is had by adding them one by one.
proof fn lemma_images_as_fold<A, B>(s: Seq<A>, g: spec_fn(A) -> B)
    ensures
        s.map_values(g).to_multiset() == s.fold_left(Multiset::empty(), insert_image(g)),
    decreases s.len(),
{
    broadcast use vstd::seq_lib::group_to_multiset_ensures;

    if s.len() == 0 {
        assert(s.map_values(g).to_multiset().len() == 0);
        assert(s.map_values(g).to_multiset() =~= Multiset::empty());
    } else {
        lemma_images_as_fold(s.drop_last(), g);
        assert(s.map_values(g) =~= s.drop_last().map_values(g).push(g(s.last())));
    }
}

/// Two sequences of the same elements, in whatever order, have the same
/// images.
pub proof fn lemma_images_of_permutation<A, B>(s1: Seq<A>, s2: Seq<A>, g: spec_fn(A) -> B)
    requires
        s1.to_multiset() == s2.to_multiset(),
    ensures
        s1.map_values(g).to_multiset() == s2.map_values(g).to_multiset(),
{
    let f = insert_image(g);
    assert(commutative_foldl(f)) by {
        assert forall|x: A, y: A, v: Multiset<B>| #[trigger] f(f(v, x), y) == f(f(v, y), x) by {
            assert(v.insert(g(x)).insert(g(y)) =~= v.insert(g(y)).insert(g(x)));
        }
    }
    lemma_images_as_fold(s1, g);
    lemma_images_as_fold(s2, g);
    lemma_fold_left_permutation(s1, s2, f, Multiset::empty());
}

/// A filter that every element passes keeps the sequence as it is.
proof fn lemma_filter_keeps_all<A>(s: Seq<A>, pred: spec_fn(A) -> bool)
    requires
        forall|i: int| 0 <= i < s.len() ==> pred(#[trigger] s[i]),
    ensures
        s.filter(pred) == s,
    decreases s.len(),
{
    if s.len() == 0 {
        s.lemma_filter_len(pred);
        assert(s.filter(pred) =~= s);
    } else {
        let before = s.drop_last();
        assert forall|i: int| 0 <= i < before.len() implies pred(#[trigger] before[i]) by {
            assert(before[i] == s[i]);
        }
        lemma_filter_keeps_all(before, pred);
        before.lemma_filter_push(s.last(), pred);
        assert(before.push(s.last()) =~= s);
    }
}

/// The nearest of all clusters, where as many are asked for as there are or
/// more, are all clusters in some order.
pub proof fn lemma_nearest_of_all(scores: Seq<u32>, num_probes: nat)
    requires
        scores.len() <= num_probes,
        scores.len() <= usize::MAX,
    ensures
        nearest(scores, num_probes).to_multiset() == all_clusters(scores.len()).to_multiset(),
        nearest(scores, num_probes).len() == scores.len(),
{
    broadcast use vstd::seq_lib::group_to_multiset_ensures;

    let candidates = centroid_candidates(scores);
    let ranked = candidates.sort_by(ranking());
    let g = |r: IdWithScore| r.id as usize;
    lemma_ranking_total();
    candidates.lemma_sort_by_ensures(ranking());
    lemma_top_k_len(candidates, num_probes);
    assert(ranked.to_multiset().len() == ranked.len());
    assert(candidates.to_multiset().len() == candidates.len());
    assert(top_k(candidates, num_probes) =~= ranked);
    lemma_images_of_permutation(ranked, candidates, g);
    assert(candidates.map_values(g) =~= all_clusters(scores.len()));
    assert(nearest(scores, num_probes).to_multiset().len() == nearest(scores, num_probes).len());
    assert(all_clusters(scores.len()).to_multiset().len() == scores.len());
}

impl Ivf {
    /// The number of clusters that the index file declares.
    pub open spec fn declared_clusters(&self) -> nat {
        self.index_storage.spec_header().num_clusters as nat
    }

    /// The ids in the posting list of `centroid`, each as often as the list
    /// holds it.
    pub open spec fn ids_of(&self, centroid: usize) -> Multiset<u64> {
        self.scanned_ids(centroid as int).to_multiset()
    }

    /// Adding the ids of one more posting list to those of others.
    pub open spec fn add_ids(&self) -> spec_fn(Multiset<u64>, usize) -> Multiset<u64> {
        |acc: Multiset<u64>, centroid: usize| acc.add(self.ids_of(centroid))
    }

    /// The ids in the posting lists of `centroids`, each as often as the
    /// lists hold it.
    pub open spec fn probed_ids(&self, centroids: Seq<usize>) -> Multiset<u64> {
        centroids.fold_left(Multiset::empty(), self.add_ids())
    }

    /// The index holds each of `n` vectors once: each local id below `n` is
    /// in one posting list, once, the lists hold no other id, and the
    /// vectors hold one for each of them.
    pub open spec fn holds_each_once(&self, n: nat) -> bool {
        &&& n <= u64::MAX
        &&& self.probed_ids(all_clusters(self.declared_clusters())) == local_ids(n).to_multiset()
        &&& forall|id: int| 0 <= id < n ==> self.holds(#[trigger] (id as u64))
    }

    /// Each result is that of a vector which the index holds, with a score
    /// that the scorer gave to that vector.
    pub open spec fn well_scored<F: Fn(&[u8]) -> u32>(
        &self,
        scorer: &F,
        results: Seq<IdWithScore>,
    ) -> bool {
        forall|j: int|
            0 <= j < results.len() ==> self.holds((#[trigger] results[j]).id) && scored_by(
                scorer,
                self.vector_storage.vector(results[j].id as int)->Some_0,
                results[j].score,
            )
    }

    /// The ids of posting lists do not depend on the order in which the
    /// lists are taken.
    pub proof fn lemma_probed_ids_of_permutation(&self, a: Seq<usize>, b: Seq<usize>)
        requires
            a.to_multiset() == b.to_multiset(),
        ensures
            self.probed_ids(a) == self.probed_ids(b),
    {
        let f = self.add_ids();
        assert(commutative_foldl(f)) by {
            assert forall|x: usize, y: usize, v: Multiset<u64>| #[trigger]
                f(f(v, x), y) == f(f(v, y), x) by {
                assert(v.add(self.ids_of(x)).add(self.ids_of(y)) =~= v.add(self.ids_of(y)).add(
                    self.ids_of(x),
                ));
            }
        }
        lemma_fold_left_permutation(a, b, f, Multiset::empty());
    }

    /// The ids of each posting list are among the ids of all of them.
    proof fn lemma_probed_ids_hold_each(&self, centroids: Seq<usize>, i: int, id: u64)
        requires
            0 <= i < centroids.len(),
        ensures
            self.ids_of(centroids[i]).count(id) <= self.probed_ids(centroids).count(id),
        decreases centroids.len(),
    {
        let before = centroids.drop_last();
        assert(self.probed_ids(centroids) == self.probed_ids(before).add(
            self.ids_of(centroids.last()),
        ));
        if i < before.len() {
            self.lemma_probed_ids_hold_each(before, i, id);
            assert(before[i] == centroids[i]);
        }
    }

    /// The ids in the posting lists of the first `m` clusters are those of
    /// the first `m` of `lists`, where the file gives those lists.
    proof fn lemma_probed_ids_of_lists(&self, lists: Seq<Seq<u64>>, m: int)
        requires
            0 <= m <= lists.len() <= usize::MAX,
            forall|c: int| 0 <= c < lists.len() ==> #[trigger] self.scanned_ids(c) == lists[c],
        ensures
            self.probed_ids(all_clusters(m as nat)) == all_ids(lists.take(m)),
        decreases m,
    {
        broadcast use vstd::seq_lib::group_to_multiset_ensures;

        if m == 0 {
            assert(lists.take(0) =~= Seq::<Seq<u64>>::empty());
            assert(all_ids(lists.take(0)).len() == 0);
            assert(all_ids(lists.take(0)) =~= Multiset::empty());
        } else {
            self.lemma_probed_ids_of_lists(lists, m - 1);
            let clusters = all_clusters(m as nat);
            assert(clusters.drop_last() =~= all_clusters((m - 1) as nat));
            assert(clusters.last() == (m - 1) as usize);
            assert(self.scanned_ids(m - 1) == lists[m - 1]);
            assert(lists.take(m) =~= lists.take(m - 1).push(lists[m - 1]));
            lists.take(m - 1).lemma_flatten_push(lists[m - 1]);
            lemma_multiset_commutative(lists.take(m - 1).flatten(), lists[m - 1]);
        }
    }

    /// An index whose file gives posting lists that hold each of `n` local
    /// ids once, and whose vectors hold one for each of them, holds each of
    /// `n` vectors once.
    pub proof fn lemma_holds_each_once(&self, lists: Seq<Seq<u64>>, n: nat)
        requires
            n <= u64::MAX,
            lists.len() == self.declared_clusters(),
            forall|c: int|
                0 <= c < lists.len() ==> #[trigger] self.index_storage.posting_list(c) == Ok::<
                    Seq<u64>,
                    IndexError,
                >(lists[c]),
            all_ids(lists) == local_ids(n).to_multiset(),
            forall|id: int| 0 <= id < n ==> self.holds(#[trigger] (id as u64)),
        ensures
            self.holds_each_once(n),
    {
        assert forall|c: int| 0 <= c < lists.len() implies #[trigger] self.scanned_ids(c)
            == lists[c] by {
            assert(self.index_storage.posting_list(c) == Ok::<Seq<u64>, IndexError>(lists[c]));
        }
        self.lemma_probed_ids_of_lists(lists, lists.len() as int);
        assert(lists.take(lists.len() as int) =~= lists);
    }

    /// An index over a file that was written for posting lists that hold
    /// each local id once, and over vectors that hold one for each local id,
    /// holds each vector once: a search of all its clusters finds the best
    /// of all vectors.
    pub proof fn lemma_written_index_holds_each_once(
        &self,
        num_features: u32,
        doc_ids: Seq<u64>,
        centroids: Seq<Seq<u8>>,
        lists: Seq<Seq<u64>>,
        encoding: IntSeqEncodingType,
    )
        requires
            writable(num_features, doc_ids, centroids, lists, encoding) is Ok,
            forall|c: int| 0 <= c < lists.len() ==> (#[trigger] lists[c]).len() <= usize::MAX,
            self.index_storage.bytes() == index_file_bytes(
                num_features,
                doc_ids,
                centroids,
                lists,
                encoding,
            ),
            parse_header(self.index_storage.bytes()) == Ok::<Header, IndexError>(
                self.index_storage.spec_header(),
            ),
            self.index_storage.spec_encoding() == encoding,
            all_ids(lists) == local_ids(doc_ids.len()).to_multiset(),
            forall|id: int| 0 <= id < doc_ids.len() ==> self.holds(#[trigger] (id as u64)),
        ensures
            self.holds_each_once(doc_ids.len()),
    {
        lemma_index_file_round_trip(num_features, doc_ids, centroids, lists, encoding);
        let h = header_for(num_features, doc_ids, centroids, lists, encoding);
        assert(self.index_storage.spec_header() == h);
        assert forall|c: int| 0 <= c < lists.len() implies #[trigger]
            self.index_storage.posting_list(c) == Ok::<Seq<u64>, IndexError>(lists[c]) by {
            assert(crate::index_file::posting_list_at(
                self.index_storage.bytes(),
                h,
                c,
                encoding,
            ) == Ok::<Seq<u64>, IndexError>(lists[c]));
        }
        self.lemma_holds_each_once(lists, doc_ids.len());
    }

    /// The results of scans of posting lists whose vectors the index all
    /// holds have the ids of the lists, and each has a score of its vector.
    proof fn lemma_scans_have_ids<F: Fn(&[u8]) -> u32>(
        &self,
        scorer: &F,
        centroids: Seq<usize>,
        scans: Seq<Seq<IdWithScore>>,
    )
        requires
            self.are_scans(scorer, centroids, scans),
            forall|i: int, p: int|
                0 <= i < centroids.len() && 0 <= p < self.scanned_ids(centroids[i] as int).len()
                    ==> self.holds(#[trigger] self.scanned_ids(centroids[i] as int)[p]),
        ensures
            ids(concat(scans)).to_multiset() == self.probed_ids(centroids),
            self.well_scored(scorer, concat(scans)),
        decreases centroids.len(),
    {
        broadcast use vstd::seq_lib::group_to_multiset_ensures;

        if centroids.len() == 0 {
            assert(scans =~= Seq::<Seq<IdWithScore>>::empty());
            assert(concat(scans) =~= Seq::<IdWithScore>::empty());
            assert(ids(concat(scans)).to_multiset().len() == 0);
            assert(ids(concat(scans)).to_multiset() =~= Multiset::empty());
        } else {
            let last = centroids.len() - 1;
            let before = centroids.drop_last();
            let scans_before = scans.drop_last();
            let scan = scans[last];
            let list = self.scanned_ids(centroids[last] as int);
            assert(self.are_scans(scorer, before, scans_before)) by {
                assert forall|i: int| 0 <= i < before.len() implies self.is_scan(
                    scorer,
                    before[i] as int,
                    #[trigger] scans_before[i],
                ) by {
                    assert(self.is_scan(scorer, centroids[i] as int, scans[i]));
                }
            }
            assert forall|i: int, p: int|
                0 <= i < before.len() && 0 <= p < self.scanned_ids(
                    before[i] as int,
                ).len() implies self.holds(#[trigger] self.scanned_ids(before[i] as int)[p]) by {
                assert(before[i] == centroids[i]);
                assert(self.holds(self.scanned_ids(centroids[i] as int)[p]));
            }
            self.lemma_scans_have_ids(scorer, before, scans_before);

            // The last scan has the ids of its list.
            assert(self.is_scan(scorer, centroids[last] as int, scan));
            assert forall|p: int| 0 <= p < list.len() implies self.holds_fn()(
                #[trigger] list[p],
            ) by {
                assert(self.holds(self.scanned_ids(centroids[last] as int)[p]));
            }
            lemma_filter_keeps_all(list, self.holds_fn());
            assert(ids(scan) =~= list);

            // All scans are those before with the last one added.
            assert(scans =~= scans_before.push(scan));
            scans_before.lemma_flatten_push(scan);
            let head = concat(scans_before);
            assert(concat(scans) =~= head + scan);
            assert(ids(head + scan) =~= ids(head) + ids(scan));
            lemma_multiset_commutative(ids(head), ids(scan));
            assert(self.probed_ids(centroids) == self.probed_ids(before).add(
                self.ids_of(centroids.last()),
            ));
            assert forall|j: int| 0 <= j < concat(scans).len() implies self.holds(
                (#[trigger] concat(scans)[j]).id,
            ) && scored_by(
                scorer,
                self.vector_storage.vector(concat(scans)[j].id as int)->Some_0,
                concat(scans)[j].score,
            ) by {
                if j < head.len() {
                    assert(concat(scans)[j] == head[j]);
                } else {
                    let p = j - head.len();
                    assert(concat(scans)[j] == scan[p]);
                    assert(scan[p].id == list[p]);
                }
            }
        }
    }

    /// Scans of all clusters of an index that holds each of `n` vectors once
    /// give one result for each vector, with a score of that vector. The
    /// best `k` of them are `k` results, or `n` where `k` is more; they are
    /// in ranking order; and where `k` is no less than `n`, they are the
    /// results of all vectors.
    pub proof fn lemma_scans_of_all_clusters<F: Fn(&[u8]) -> u32>(
        &self,
        scorer: &F,
        centroids: Seq<usize>,
        scans: Seq<Seq<IdWithScore>>,
        k: nat,
        n: nat,
    )
        requires
            self.holds_each_once(n),
            centroids.to_multiset() == all_clusters(self.declared_clusters()).to_multiset(),
            self.are_scans(scorer, centroids, scans),
        ensures
            ids(concat(scans)).to_multiset() == local_ids(n).to_multiset(),
            concat(scans).len() == n,
            self.well_scored(scorer, concat(scans)),
            self.well_scored(scorer, top_k(concat(scans), k)),
            sorted_by(top_k(concat(scans), k), ranking()),
            top_k(concat(scans), k).len() == (if k <= n {
                k
            } else {
                n
            }),
            k >= n ==> ids(top_k(concat(scans), k)).to_multiset() == local_ids(n).to_multiset(),
    {
        broadcast use vstd::seq_lib::group_to_multiset_ensures;

        let all = all_clusters(self.declared_clusters());
        self.lemma_probed_ids_of_permutation(centroids, all);
        assert forall|i: int, p: int|
            0 <= i < centroids.len() && 0 <= p < self.scanned_ids(
                centroids[i] as int,
            ).len() implies self.holds(#[trigger] self.scanned_ids(centroids[i] as int)[p]) by {
            let list = self.scanned_ids(centroids[i] as int);
            let id = list[p];
            self.lemma_probed_ids_hold_each(centroids, i, id);
            assert(list.contains(id));
            assert(list.to_multiset().count(id) > 0);
            assert(local_ids(n).to_multiset().count(id) > 0);
            assert(local_ids(n).contains(id));
            let q = choose|q: int| 0 <= q < local_ids(n).len() && local_ids(n)[q] == id;
            assert(id == q as u64);
            assert(self.holds(q as u64));
        }
        self.lemma_scans_have_ids(scorer, centroids, scans);
        let found = concat(scans);
        assert(found.len() == n) by {
            assert(ids(found).to_multiset().len() == ids(found).len());
            assert(local_ids(n).to_multiset().len() == local_ids(n).len());
        }
        let best = top_k(found, k);
        lemma_top_k_len(found, k);
        lemma_top_k_is_best(found, k);
        assert forall|j: int| 0 <= j < best.len() implies self.holds((#[trigger] best[j]).id)
            && scored_by(
            scorer,
            self.vector_storage.vector(best[j].id as int)->Some_0,
            best[j].score,
        ) by {
            assert(found.contains(best[j]));
            let q = choose|q: int| 0 <= q < found.len() && found[q] == best[j];
            assert(self.holds(found[q].id));
        }
        if k >= n {
            lemma_ranking_total();
            found.lemma_sort_by_ensures(ranking());
            let ranked = found.sort_by(ranking());
            assert(ranked.to_multiset().len() == ranked.len());
            assert(found.to_multiset().len() == found.len());
            assert(best =~= ranked);
            lemma_images_of_permutation(ranked, found, id_of());
        }
    }

    /// What a search returns that probes every cluster of an index that
    /// holds each of `n` vectors once: the best `k` of the results of all
    /// vectors, each with a score that the scorer gave to its vector, in
    /// ranking order; all `n` of them where `k` is no less than `n`.
    pub proof fn lemma_search_of_all_clusters<F: Fn(&[u8]) -> u32>(
        &self,
        scorer: &F,
        k: nat,
        num_probes: nat,
        n: nat,
        results: Seq<IdWithScore>,
    )
        requires
            self.holds_each_once(n),
            num_probes >= self.declared_clusters(),
            exists|scores: Seq<u32>, scans: Seq<Seq<IdWithScore>>|
                centroid_scores(scorer, &self.index_storage, scores) && self.are_scans(
                    scorer,
                    nearest(scores, num_probes),
                    scans,
                ) && results == top_k(concat(scans), k),
        ensures
            results.len() == (if k <= n {
                k
            } else {
                n
            }),
            sorted_by(results, ranking()),
            self.well_scored(scorer, results),
            k >= n ==> ids(results).to_multiset() == local_ids(n).to_multiset(),
            exists|all: Seq<IdWithScore>|
                ids(all).to_multiset() == local_ids(n).to_multiset() && self.well_scored(
                    scorer,
                    all,
                ) && results == top_k(all, k),
    {
        let (scores, scans) = choose|scores: Seq<u32>, scans: Seq<Seq<IdWithScore>>|
            centroid_scores(scorer, &self.index_storage, scores) && self.are_scans(
                scorer,
                nearest(scores, num_probes),
                scans,
            ) && results == top_k(concat(scans), k);
        lemma_nearest_of_all(scores, num_probes);
        self.lemma_scans_of_all_clusters(scorer, nearest(scores, num_probes), scans, k, n);
        let all = concat(scans);
        assert(ids(all).to_multiset() == local_ids(n).to_multiset() && self.well_scored(
            scorer,
            all,
        ) && results == top_k(all, k));
    }
}

} // verus!
