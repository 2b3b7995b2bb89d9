//! Search in an inverted-file index.
//!
//! The index keeps one posting list for each centroid: the ids of the
//! vectors that belong to it. A search scores the centroids, picks the
//! nearest ones, scans their posting lists and keeps the best results.
//!
//! The index does not compute distances. A search takes a scorer: a function
//! from the bytes of a vector to the key of its distance to the query (see
//! [`crate::ranking::score_key`]). What a search returns is stated in terms of
//! the scores that the scorer gave.

use vstd::prelude::*;
use crate::elias_fano::{
    elias_fano_decoding, lemma_decode_all, lower_code, non_decreasing, upper_code,
};
use crate::index_file::{FixedIndexFile, IndexError};
use crate::plain::{lemma_plain_round_trip, plain_decoding, plain_encoding};
use crate::ranking::{lemma_top_k_len, top_k, IdWithScore, TopK};
use crate::vector_storage::FixedFileVectorStorage;

verus! {

/// The scorer takes any vector.
pub open spec fn scores_all<F: Fn(&[u8]) -> u32>(scorer: &F) -> bool {
    forall|v: &[u8]| scorer.requires((v,))
}

/// `score` is a score that the scorer gave to the vector with the bytes
/// `item`.
pub open spec fn scored_by<F: Fn(&[u8]) -> u32>(scorer: &F, item: Seq<u8>, score: u32) -> bool {
    exists|v: &[u8]| v@ == item && #[trigger] scorer.ensures((v,), score)
}

/// The centroids as results to rank: centroid `i` with the score
/// `scores[i]`.
pub open spec fn centroid_candidates(scores: Seq<u32>) -> Seq<IdWithScore> {
    Seq::new(scores.len(), |i: int| IdWithScore { score: scores[i], id: i as u64 })
}

/// The `num_probes` centroids with the lowest scores, lowest first; of two
/// with one score the one with the lower number comes first.
pub open spec fn nearest(scores: Seq<u32>, num_probes: nat) -> Seq<usize> {
    top_k(centroid_candidates(scores), num_probes).map_values(|r: IdWithScore| r.id as usize)
}

/// `scores` holds, for each centroid of the file, a score that the scorer
/// gave to it.
pub open spec fn centroid_scores<F: Fn(&[u8]) -> u32>(
    scorer: &F,
    file: &FixedIndexFile,
    scores: Seq<u32>,
) -> bool {
    &&& scores.len() == file.spec_header().num_clusters
    &&& forall|i: int|
        #![trigger scores[i]]
        #![trigger file.centroid(i)]
        0 <= i < scores.len() ==> file.centroid(i) is Ok && scored_by(
            scorer,
            file.centroid(i)->Ok_0,
            scores[i],
        )
}

/// The lists one after another.
pub open spec fn concat(lists: Seq<Seq<IdWithScore>>) -> Seq<IdWithScore> {
    lists.flatten()
}

/// The number of the first centroid that cannot be read, if there is one.
pub open spec fn first_unreadable(file: &FixedIndexFile, below: int) -> Option<int>
    decreases below,
{
    if below <= 0 {
        None
    } else {
        match first_unreadable(file, below - 1) {
            Some(i) => Some(i),
            None => if file.centroid(below - 1) is Err {
                Some(below - 1)
            } else {
                None
            },
        }
    }
}

/// Picks the `num_probes` nearest of the centroids with the given scores.
pub fn nearest_centroids(scores: &Vec<u32>, num_probes: usize) -> (ids: Vec<usize>)
    ensures
        ids@ == nearest(scores@, num_probes as nat),
{
    let mut top = TopK::new(num_probes);
    let mut i: usize = 0;
    while i < scores.len()
        invariant
            i <= scores@.len(),
            top.wf(),
            top.limit() == num_probes,
            top.offered() == centroid_candidates(scores@).take(i as int),
        decreases scores@.len() - i,
    {
        top.offer(IdWithScore { score: scores[i], id: i as u64 });
        proof {
            assert(top.offered() =~= centroid_candidates(scores@).take(i as int + 1));
        }
        i += 1;
    }
    proof {
        assert(centroid_candidates(scores@).take(i as int) =~= centroid_candidates(scores@));
    }
    let best = top.into_sorted();
    let mut ids: Vec<usize> = Vec::new();
    let mut j: usize = 0;
    while j < best.len()
        invariant
            j <= best@.len(),
            best@ == top_k(centroid_candidates(scores@), num_probes as nat),
            ids@ == best@.take(j as int).map_values(|r: IdWithScore| r.id as usize),
        decreases best@.len() - j,
    {
        ids.push(best[j].id as usize);
        proof {
            assert(ids@ =~= best@.take(j as int + 1).map_values(|r: IdWithScore| r.id as usize));
        }
        j += 1;
    }
    proof {
        assert(best@.take(j as int) =~= best@);
    }
    ids
}

/// An inverted-file index: the vectors, and the index file with the
/// centroids and their posting lists.
pub struct Ivf {
    /// The vectors, by local id.
    pub vector_storage: FixedFileVectorStorage,
    /// The centroids and, for each, the local ids of the vectors that belong
    /// to it.
    pub index_storage: FixedIndexFile,
    /// The number of clusters.
    pub num_clusters: usize,
}

impl Ivf {
    /// The invariant: both files are well-formed.
    pub open spec fn wf(&self) -> bool {
        self.vector_storage.wf() && self.index_storage.wf()
    }

    /// Whether the vectors hold one for `id`.
    pub open spec fn holds(&self, id: u64) -> bool {
        id <= usize::MAX && self.vector_storage.vector(id as int) is Some
    }

    /// `holds` as a function value.
    pub open spec fn holds_fn(&self) -> spec_fn(u64) -> bool {
        |id: u64| self.holds(id)
    }

    /// `scanned` is what a scan of the ids in `list` gives: one result for
    /// each id for which the vectors hold one, in the order of the list, with
    /// a score that the scorer gave to that vector.
    pub open spec fn is_scan_of<F: Fn(&[u8]) -> u32>(
        &self,
        scorer: &F,
        list: Seq<u64>,
        scanned: Seq<IdWithScore>,
    ) -> bool {
        let present = list.filter(self.holds_fn());
        &&& scanned.len() == present.len()
        &&& forall|j: int|
            0 <= j < present.len() ==> (#[trigger] scanned[j]).id == present[j] && scored_by(
                scorer,
                self.vector_storage.vector(present[j] as int)->Some_0,
                scanned[j].score,
            )
    }

    /// The error with which a scan of the posting list of `centroid` fails:
    /// the error of a list that the file cannot give, because there is no
    /// such centroid or because the directory or the offset of the list is
    /// corrupt. A list whose bytes are found but are no code of a list does
    /// not fail the scan.
    pub open spec fn scan_error(&self, centroid: int) -> Option<IndexError> {
        match self.index_storage.posting_list(centroid) {
            Ok(_) => None,
            Err(IndexError::PostingListMalformed) => None,
            Err(e) => Some(e),
        }
    }

    /// The ids that a scan of the posting list of `centroid` goes through:
    /// those of the list, and none where the list cannot be decoded.
    pub open spec fn scanned_ids(&self, centroid: int) -> Seq<u64> {
        match self.index_storage.posting_list(centroid) {
            Ok(list) => list,
            Err(_) => Seq::empty(),
        }
    }

    /// `scanned` is what a scan of the posting list of `centroid` gives: the
    /// scan does not fail, and `scanned` is a scan of the ids of the list.
    pub open spec fn is_scan<F: Fn(&[u8]) -> u32>(
        &self,
        scorer: &F,
        centroid: int,
        scanned: Seq<IdWithScore>,
    ) -> bool {
        self.scan_error(centroid) is None && self.is_scan_of(
            scorer,
            self.scanned_ids(centroid),
            scanned,
        )
    }

    /// The error of the first of the first `below` of `centroids` whose scan
    /// fails; `None` where none fails.
    pub open spec fn first_scan_error(&self, centroids: Seq<usize>, below: int) -> Option<
        IndexError,
    >
        decreases below,
    {
        if below <= 0 {
            None
        } else {
            match self.first_scan_error(centroids, below - 1) {
                Some(e) => Some(e),
                None => self.scan_error(centroids[below - 1] as int),
            }
        }
    }

    /// `scans` holds a scan for each of `centroids`, in order.
    pub open spec fn are_scans<F: Fn(&[u8]) -> u32>(
        &self,
        scorer: &F,
        centroids: Seq<usize>,
        scans: Seq<Seq<IdWithScore>>,
    ) -> bool {
        &&& scans.len() == centroids.len()
        &&& forall|i: int|
            0 <= i < centroids.len() ==> self.is_scan(scorer, centroids[i] as int, #[trigger] scans[i])
    }

    /// Puts an index together from its two files.
    pub fn new(
        vector_storage: FixedFileVectorStorage,
        index_storage: FixedIndexFile,
        num_clusters: usize,
    ) -> (ivf: Self)
        ensures
            ivf.vector_storage == vector_storage,
            ivf.index_storage == index_storage,
            ivf.num_clusters == num_clusters,
    {
        Self { vector_storage, index_storage, num_clusters }
    }

    /// Scores every centroid of the file and returns the `num_probes`
    /// nearest, nearest first. Fails where a centroid cannot be read, with
    /// the error of the first such centroid.
    pub fn find_nearest_centroids<F: Fn(&[u8]) -> u32>(
        scorer: &F,
        index_storage: &FixedIndexFile,
        num_probes: usize,
    ) -> (r: Result<Vec<usize>, IndexError>)
        requires
            index_storage.wf(),
            scores_all(scorer),
        ensures
            match r {
                Ok(ids) => first_unreadable(
                    index_storage,
                    index_storage.spec_header().num_clusters as int,
                ) is None && exists|scores: Seq<u32>|
                    centroid_scores(scorer, index_storage, scores) && ids@ == nearest(
                        scores,
                        num_probes as nat,
                    ),
                Err(e) => match first_unreadable(
                    index_storage,
                    index_storage.spec_header().num_clusters as int,
                ) {
                    Some(i) => index_storage.centroid(i) == Err::<Seq<u8>, IndexError>(e),
                    None => false,
                },
            },
    {
        let num_clusters = index_storage.header().num_clusters as usize;
        let mut scores: Vec<u32> = Vec::new();
        let mut i: usize = 0;
        while i < num_clusters
            invariant
                i <= num_clusters,
                num_clusters == index_storage.spec_header().num_clusters,
                index_storage.wf(),
                scores_all(scorer),
                scores@.len() == i,
                first_unreadable(index_storage, i as int) is None,
                forall|j: int|
                    #![trigger scores@[j]]
                    #![trigger index_storage.centroid(j)]
                    0 <= j < i ==> index_storage.centroid(j) is Ok && scored_by(
                        scorer,
                        index_storage.centroid(j)->Ok_0,
                        scores@[j],
                    ),
            decreases num_clusters - i,
        {
            let ghost scores_before = scores@;
            match index_storage.get_centroid(i) {
                Ok(centroid) => {
                    let score = scorer(centroid);
                    scores.push(score);
                    proof {
                        assert(scorer.ensures((centroid,), score));
                        assert(scored_by(scorer, index_storage.centroid(i as int)->Ok_0, score));
                        assert forall|j: int|
                            #![trigger scores@[j]]
                            #![trigger index_storage.centroid(j)]
                            0 <= j < i + 1 implies index_storage.centroid(j) is Ok && scored_by(
                            scorer,
                            index_storage.centroid(j)->Ok_0,
                            scores@[j],
                        ) by {
                            if j < i {
                                assert(scores@[j] == scores_before[j]);
                            }
                        }
                    }
                },
                Err(e) => {
                    proof {
                        lemma_first_unreadable_stays(
                            index_storage,
                            i as int + 1,
                            num_clusters as int,
                        );
                    }
                    return Err(e);
                },
            }
            i += 1;
        }
        let ids = nearest_centroids(&scores, num_probes);
        proof {
            assert(centroid_scores(scorer, index_storage, scores@));
        }
        Ok(ids)
    }

    /// Scans a decoded posting list: scores each vector that it names. An
    /// id for which the vectors hold none is passed over.
    pub fn scan_ids<F: Fn(&[u8]) -> u32>(&self, list: &[u64], scorer: &F) -> (results: Vec<
        IdWithScore,
    >)
        requires
            self.wf(),
            scores_all(scorer),
        ensures
            self.is_scan_of(scorer, list@, results@),
            list@.len() == 0 ==> results@.len() == 0,
    {
        let ghost holds = self.holds_fn();
        let mut results: Vec<IdWithScore> = Vec::new();
        let mut i: usize = 0;
        proof {
            assert(list@.take(0) =~= Seq::<u64>::empty());
            list@.take(0).lemma_filter_len(holds);
        }
        while i < list.len()
            invariant
                i <= list@.len(),
                self.wf(),
                scores_all(scorer),
                holds == self.holds_fn(),
                results@.len() == list@.take(i as int).filter(holds).len(),
                forall|j: int|
                    0 <= j < results@.len() ==> (#[trigger] results@[j]).id == list@.take(
                        i as int,
                    ).filter(holds)[j] && scored_by(
                        scorer,
                        self.vector_storage.vector(results@[j].id as int)->Some_0,
                        results@[j].score,
                    ),
            decreases list@.len() - i,
        {
            let idx = list[i];
            proof {
                assert(list@.take(i as int + 1) =~= list@.take(i as int).push(idx));
                list@.take(i as int).lemma_filter_push(idx, holds);
            }
            if idx <= usize::MAX as u64 {
                match self.vector_storage.get(idx as usize) {
                    Some(vector) => {
                        let distance = scorer(vector);
                        results.push(IdWithScore { score: distance, id: idx });
                        proof {
                            assert(scorer.ensures((vector,), distance));
                            assert(scored_by(
                                scorer,
                                self.vector_storage.vector(idx as int)->Some_0,
                                distance,
                            ));
                        }
                    },
                    None => {},
                }
            }
            i += 1;
        }
        proof {
            assert(list@.take(i as int) =~= list@);
            if list@.len() == 0 {
                list@.lemma_filter_len(holds);
            }
        }
        results
    }

    /// Scans the posting list of `centroid`: scores each vector that it
    /// names. An id for which the vectors hold none is passed over, and a
    /// list whose bytes are no code of a list gives no result. Fails where
    /// the file cannot give the list, with the error of the file.
    pub fn scan_posting_list<F: Fn(&[u8]) -> u32>(&self, centroid: usize, scorer: &F) -> (r:
        Result<Vec<IdWithScore>, IndexError>)
        requires
            self.wf(),
            scores_all(scorer),
        ensures
            match r {
                Ok(results) => self.is_scan(scorer, centroid as int, results@)
                    && (self.scanned_ids(centroid as int).len() == 0 ==> results@.len() == 0),
                Err(e) => self.scan_error(centroid as int) == Some(e),
            },
    {
        match self.index_storage.get_posting_list(centroid) {
            Ok(list) => Ok(self.scan_ids(list.as_slice(), scorer)),
            Err(IndexError::PostingListMalformed) => {
                proof {
                    Seq::<u64>::empty().lemma_filter_len(self.holds_fn());
                }
                Ok(Vec::new())
            },
            Err(e) => Err(e),
        }
    }

    /// Scans the posting lists of the given centroids and returns the `k`
    /// best results, best first; all results where there are fewer than `k`.
    /// Fails where a scan fails, with the error of the first that does.
    pub fn search_with_centroids<F: Fn(&[u8]) -> u32>(
        &self,
        scorer: &F,
        nearest_centroid_ids: Vec<usize>,
        k: usize,
    ) -> (r: Result<Vec<IdWithScore>, IndexError>)
        requires
            self.wf(),
            scores_all(scorer),
        ensures
            match r {
                Ok(results) => self.first_scan_error(
                    nearest_centroid_ids@,
                    nearest_centroid_ids@.len() as int,
                ) is None && exists|scans: Seq<Seq<IdWithScore>>|
                    self.are_scans(scorer, nearest_centroid_ids@, scans) && results@ == top_k(
                        concat(scans),
                        k as nat,
                    ) && results@.len() == (if k <= concat(scans).len() {
                        k as nat
                    } else {
                        concat(scans).len()
                    }),
                Err(e) => self.first_scan_error(
                    nearest_centroid_ids@,
                    nearest_centroid_ids@.len() as int,
                ) == Some(e),
            },
    {
        let mut heap = TopK::new(k);
        let ghost mut scans: Seq<Seq<IdWithScore>> = Seq::empty();
        let mut c: usize = 0;
        proof {
            assert(concat(scans) =~= Seq::<IdWithScore>::empty());
        }
        while c < nearest_centroid_ids.len()
            invariant
                c <= nearest_centroid_ids@.len(),
                self.wf(),
                scores_all(scorer),
                heap.wf(),
                heap.limit() == k,
                heap.offered() == concat(scans),
                scans.len() == c,
                self.first_scan_error(nearest_centroid_ids@, c as int) is None,
                forall|i: int|
                    0 <= i < c ==> self.is_scan(
                        scorer,
                        nearest_centroid_ids@[i] as int,
                        #[trigger] scans[i],
                    ),
            decreases nearest_centroid_ids@.len() - c,
        {
            let centroid = nearest_centroid_ids[c];
            let results = match self.scan_posting_list(centroid, scorer) {
                Ok(results) => results,
                Err(e) => {
                    proof {
                        self.lemma_first_scan_error_stays(
                            nearest_centroid_ids@,
                            c as int + 1,
                            nearest_centroid_ids@.len() as int,
                        );
                    }
                    return Err(e);
                },
            };
            let ghost offered_before = heap.offered();
            let mut i: usize = 0;
            while i < results.len()
                invariant
                    i <= results@.len(),
                    heap.wf(),
                    heap.limit() == k,
                    heap.offered() == offered_before + results@.take(i as int),
                decreases results@.len() - i,
            {
                heap.offer(results[i]);
                proof {
                    assert(results@.take(i as int + 1) =~= results@.take(i as int).push(
                        results@[i as int],
                    ));
                    assert(heap.offered() =~= offered_before + results@.take(i as int + 1));
                }
                i += 1;
            }
            proof {
                assert(results@.take(i as int) =~= results@);
                scans.lemma_flatten_push(results@);
                scans = scans.push(results@);
            }
            c += 1;
        }
        let results = heap.into_sorted();
        proof {
            lemma_top_k_len(concat(scans), k as nat);
            assert(self.are_scans(scorer, nearest_centroid_ids@, scans) && results@ == top_k(
                concat(scans),
                k as nat,
            ) && results@.len() == (if k <= concat(scans).len() {
                k as nat
            } else {
                concat(scans).len()
            }));
        }
        Ok(results)
    }

    /// Once a scan fails, the first scan that fails stays the same however
    /// many more centroids are looked at.
    proof fn lemma_first_scan_error_stays(&self, centroids: Seq<usize>, from: int, to: int)
        requires
            0 < from <= to,
            self.first_scan_error(centroids, from) is Some,
        ensures
            self.first_scan_error(centroids, to) == self.first_scan_error(centroids, from),
        decreases to - from,
    {
        if from < to {
            self.lemma_first_scan_error_stays(centroids, from, to - 1);
        }
    }

    /// Searches the index for the `k` vectors nearest to the query that the
    /// scorer stands for, in the posting lists of the `ef_construction`
    /// nearest centroids. Fails where a centroid cannot be read, with its
    /// error, and where the scan of one of the nearest centroids fails, with
    /// the error of the first that does.
    pub fn search<F: Fn(&[u8]) -> u32>(&self, scorer: &F, k: usize, ef_construction: u32) -> (r:
        Result<Vec<IdWithScore>, IndexError>)
        requires
            self.wf(),
            scores_all(scorer),
        ensures
            match r {
                Ok(results) => first_unreadable(
                    &self.index_storage,
                    self.index_storage.spec_header().num_clusters as int,
                ) is None && exists|scores: Seq<u32>, scans: Seq<Seq<IdWithScore>>|
                    centroid_scores(scorer, &self.index_storage, scores) && self.are_scans(
                        scorer,
                        nearest(scores, ef_construction as nat),
                        scans,
                    ) && results@ == top_k(concat(scans), k as nat),
                Err(e) => match first_unreadable(
                    &self.index_storage,
                    self.index_storage.spec_header().num_clusters as int,
                ) {
                    Some(i) => self.index_storage.centroid(i) == Err::<Seq<u8>, IndexError>(e),
                    None => exists|scores: Seq<u32>|
                        centroid_scores(scorer, &self.index_storage, scores)
                            && self.first_scan_error(
                            nearest(scores, ef_construction as nat),
                            nearest(scores, ef_construction as nat).len() as int,
                        ) == Some(e),
                },
            },
    {
        match Self::find_nearest_centroids(scorer, &self.index_storage, ef_construction as usize) {
            Ok(nearest_centroids) => {
                let ghost ids = nearest_centroids@;
                let ghost scores = choose|scores: Seq<u32>|
                    centroid_scores(scorer, &self.index_storage, scores) && ids == nearest(
                        scores,
                        ef_construction as nat,
                    );
                match self.search_with_centroids(scorer, nearest_centroids, k) {
                    Ok(results) => {
                        proof {
                            let scans = choose|scans: Seq<Seq<IdWithScore>>|
                                self.are_scans(scorer, ids, scans) && results@ == top_k(
                                    concat(scans),
                                    k as nat,
                                );
                            assert(centroid_scores(scorer, &self.index_storage, scores)
                                && self.are_scans(
                                scorer,
                                nearest(scores, ef_construction as nat),
                                scans,
                            ) && results@ == top_k(concat(scans), k as nat));
                        }
                        Ok(results)
                    },
                    Err(e) => {
                        proof {
                            assert(centroid_scores(scorer, &self.index_storage, scores)
                                && self.first_scan_error(
                                nearest(scores, ef_construction as nat),
                                nearest(scores, ef_construction as nat).len() as int,
                            ) == Some(e));
                        }
                        Err(e)
                    },
                }
            },
            Err(e) => Err(e),
        }
    }
}

/// Once a centroid cannot be read, the first such centroid stays the same
/// however many more are looked at.
proof fn lemma_first_unreadable_stays(file: &FixedIndexFile, from: int, to: int)
    requires
        0 < from <= to,
        first_unreadable(file, from - 1) is None,
        file.centroid(from - 1) is Err,
    ensures
        first_unreadable(file, to) == Some(from - 1),
    decreases to - from,
{
    if from < to {
        lemma_first_unreadable_stays(file, from, to - 1);
    }
}

/// A scan does not depend on the codec of its posting list: the ids that an
/// Elias–Fano code and a plain code of one list give back are the same, and
/// so are the scans of them.
pub proof fn lemma_scan_codec_independent<F: Fn(&[u8]) -> u32>(
    ivf: &Ivf,
    scorer: &F,
    list: Seq<u64>,
    width: nat,
    size: nat,
    scanned: Seq<IdWithScore>,
)
    requires
        non_decreasing(list),
        width <= 63,
        list.len() <= size,
    ensures
        ivf.is_scan_of(
            scorer,
            elias_fano_decoding(
                upper_code(list, width),
                lower_code(list, width, size),
                width,
                list.len(),
            ),
            scanned,
        ) == ivf.is_scan_of(scorer, plain_decoding(plain_encoding(list)), scanned),
{
    lemma_decode_all(list, width, size);
    lemma_plain_round_trip(list);
}

/// A search does not depend on the encoding of the posting lists: two
/// indexes over the same vectors whose files hold the same centroids and the
/// same posting lists, however encoded, have the same scores of centroids
/// and the same scans, and so the same results.
pub proof fn lemma_search_codec_independent<F: Fn(&[u8]) -> u32>(
    a: &Ivf,
    b: &Ivf,
    scorer: &F,
    scores: Seq<u32>,
    centroids: Seq<usize>,
    scans: Seq<Seq<IdWithScore>>,
)
    requires
        a.vector_storage.bytes() == b.vector_storage.bytes(),
        a.vector_storage.vector_len() == b.vector_storage.vector_len(),
        a.index_storage.spec_header().num_clusters == b.index_storage.spec_header().num_clusters,
        forall|c: int| #[trigger] a.index_storage.centroid(c) == b.index_storage.centroid(c),
        forall|c: int| #[trigger]
            a.index_storage.posting_list(c) == b.index_storage.posting_list(c),
    ensures
        centroid_scores(scorer, &a.index_storage, scores) == centroid_scores(
            scorer,
            &b.index_storage,
            scores,
        ),
        a.are_scans(scorer, centroids, scans) == b.are_scans(scorer, centroids, scans),
{
    assert(a.holds_fn() == b.holds_fn()) by {
        assert forall|id: u64| #[trigger] a.holds_fn()(id) == b.holds_fn()(id) by {}
        assert(a.holds_fn() =~= b.holds_fn());
    }
    let fa = &a.index_storage;
    let fb = &b.index_storage;
    if centroid_scores(scorer, fa, scores) {
        assert forall|i: int|
            #![trigger scores[i]]
            #![trigger fb.centroid(i)]
            0 <= i < scores.len() implies fb.centroid(i) is Ok && scored_by(
            scorer,
            fb.centroid(i)->Ok_0,
            scores[i],
        ) by {
            assert(fa.centroid(i) == fb.centroid(i));
        }
    }
    if centroid_scores(scorer, fb, scores) {
        assert forall|i: int|
            #![trigger scores[i]]
            #![trigger fa.centroid(i)]
            0 <= i < scores.len() implies fa.centroid(i) is Ok && scored_by(
            scorer,
            fa.centroid(i)->Ok_0,
            scores[i],
        ) by {
            assert(fa.centroid(i) == fb.centroid(i));
        }
    }
    assert forall|i: int| 0 <= i < centroids.len() && scans.len() == centroids.len() implies a.is_scan(
        scorer,
        centroids[i] as int,
        #[trigger] scans[i],
    ) == b.is_scan(scorer, centroids[i] as int, scans[i]) by {
        assert(a.index_storage.posting_list(centroids[i] as int) == b.index_storage.posting_list(
            centroids[i] as int,
        ));
    }
}

/// A scan that found nothing adds nothing to the results of the others.
pub proof fn lemma_concat_skips_empty(before: Seq<Seq<IdWithScore>>, after: Seq<Seq<IdWithScore>>)
    ensures
        concat(before.push(Seq::empty()) + after) == concat(before + after),
    decreases after.len(),
{
    let empty = Seq::<IdWithScore>::empty();
    if after.len() == 0 {
        assert(before.push(empty) + after =~= before.push(empty));
        assert(before + after =~= before);
        before.lemma_flatten_push(empty);
        assert(before.flatten() + empty =~= before.flatten());
    } else {
        let last = after.last();
        let rest = after.drop_last();
        lemma_concat_skips_empty(before, rest);
        assert(before.push(empty) + after =~= (before.push(empty) + rest).push(last));
        assert(before + after =~= (before + rest).push(last));
        (before.push(empty) + rest).lemma_flatten_push(last);
        (before + rest).lemma_flatten_push(last);
    }
}

} // verus!
