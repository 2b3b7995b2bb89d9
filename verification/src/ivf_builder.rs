//! Building the posting lists of an inverted-file index.
//!
//! Vectors are added one by one. Each gets the next local id and is assigned
//! to one cluster or more, at most as many as the builder allows. The
//! posting list of a cluster holds the local ids of the vectors assigned to
//! it, in increasing order.

use vstd::prelude::*;
use crate::ivf::{nearest, nearest_centroids};

verus! {

/// Why a vector cannot be added.
#[derive(Clone, Copy, Debug, PartialEq, Eq)]
pub enum BuildError {
    /// The vector is assigned to no cluster.
    NoCluster,
    /// The vector is assigned to more clusters than a vector may belong to.
    TooManyClusters,
    /// A cluster of the assignment does not exist.
    ClusterOutOfRange,
    /// A cluster occurs twice in the assignment.
    ClusterRepeated,
    /// No local id is left for the vector.
    TooManyVectors,
}

/// Each id is higher than the one before it.
pub open spec fn strictly_increasing(list: Seq<u64>) -> bool {
    forall|i: int, j: int| 0 <= i < j < list.len() ==> list[i] < list[j]
}

/// The local ids of `n` vectors: the numbers from 0 up to `n`.
pub open spec fn local_ids(n: nat) -> Seq<u64> {
    Seq::new(n, |i: int| i as u64)
}

/// The posting lists as sequences.
pub open spec fn views_of(lists: Seq<Vec<u64>>) -> Seq<Seq<u64>> {
    Seq::new(lists.len(), |c: int| lists[c]@)
}

/// The ids in the posting lists, each as often as the lists hold it.
pub open spec fn all_ids(lists: Seq<Seq<u64>>) -> vstd::multiset::Multiset<u64> {
    lists.flatten().to_multiset()
}

/// One more id at the end of one list is one more id in the lists.
pub proof fn lemma_all_ids_push(before: Seq<Seq<u64>>, after: Seq<Seq<u64>>, c: int, id: u64)
    requires
        0 <= c < before.len(),
        after == before.update(c, before[c].push(id)),
    ensures
        all_ids(after) == all_ids(before).insert(id),
{
    broadcast use vstd::seq_lib::group_to_multiset_ensures;

    let head = before.take(c);
    let tail = before.skip(c + 1);
    let old_list = before[c];
    let new_list = old_list.push(id);
    assert(before =~= head + seq![old_list] + tail);
    assert(after =~= head + seq![new_list] + tail);
    vstd::seq_lib::lemma_flatten_concat(head + seq![old_list], tail);
    vstd::seq_lib::lemma_flatten_concat(head, seq![old_list]);
    vstd::seq_lib::lemma_flatten_concat(head + seq![new_list], tail);
    vstd::seq_lib::lemma_flatten_concat(head, seq![new_list]);
    seq![old_list].lemma_flatten_one_element();
    seq![new_list].lemma_flatten_one_element();
    let a = head.flatten();
    let b = tail.flatten();
    assert(before.flatten() =~= a + old_list + b);
    assert(after.flatten() =~= a + new_list + b);
    vstd::seq_lib::lemma_multiset_commutative(a + old_list, b);
    vstd::seq_lib::lemma_multiset_commutative(a, old_list);
    vstd::seq_lib::lemma_multiset_commutative(a + new_list, b);
    vstd::seq_lib::lemma_multiset_commutative(a, new_list);
    assert(new_list.to_multiset() =~= old_list.to_multiset().insert(id));
    assert(all_ids(after) =~= all_ids(before).insert(id));
}

/// Lists that are all empty hold no id.
proof fn lemma_all_ids_of_empty_lists(lists: Seq<Seq<u64>>)
    requires
        forall|c: int| 0 <= c < lists.len() ==> #[trigger] lists[c] == Seq::<u64>::empty(),
    ensures
        lists.flatten() == Seq::<u64>::empty(),
    decreases lists.len(),
{
    if lists.len() > 0 {
        let before = lists.drop_last();
        assert forall|c: int| 0 <= c < before.len() implies #[trigger] before[c] == Seq::<
            u64,
        >::empty() by {
            assert(before[c] == lists[c]);
        }
        lemma_all_ids_of_empty_lists(before);
        assert(lists =~= before.push(lists.last()));
        before.lemma_flatten_push(lists.last());
        assert(lists.flatten() =~= Seq::<u64>::empty());
    }
}

/// Whether a vector can be assigned to `clusters` where there are
/// `num_clusters` clusters and a vector may belong to `limit` of them; if
/// not, the first reason why not.
pub open spec fn check_assignment(clusters: Seq<usize>, num_clusters: nat, limit: nat) -> Result<
    (),
    BuildError,
> {
    if clusters.len() == 0 {
        Err(BuildError::NoCluster)
    } else if clusters.len() > limit {
        Err(BuildError::TooManyClusters)
    } else if exists|p: int| 0 <= p < clusters.len() && #[trigger] clusters[p] >= num_clusters {
        Err(BuildError::ClusterOutOfRange)
    } else if !clusters.no_duplicates() {
        Err(BuildError::ClusterRepeated)
    } else {
        Ok(())
    }
}

/// Whether one more vector can be added to `num_vectors` vectors with the
/// given assignment; if not, the first reason why not.
pub open spec fn check_add(
    num_vectors: nat,
    clusters: Seq<usize>,
    num_clusters: nat,
    limit: nat,
) -> Result<(), BuildError> {
    if num_vectors >= u64::MAX {
        Err(BuildError::TooManyVectors)
    } else {
        check_assignment(clusters, num_clusters, limit)
    }
}

/// Whether the centroid has a score, and one no higher than `cutoff`.
pub open spec fn within(scores: Seq<u32>, cutoff: u32) -> spec_fn(usize) -> bool {
    |c: usize| c < scores.len() && scores[c as int] <= cutoff
}

/// Chooses the clusters of a vector from the scores of the centroids: the
/// `limit` nearest centroids, nearest first, without those whose score is
/// higher than `cutoff`.
pub fn choose_clusters(scores: &Vec<u32>, limit: usize, cutoff: u32) -> (clusters: Vec<usize>)
    ensures
        clusters@ == nearest(scores@, limit as nat).filter(within(scores@, cutoff)),
        clusters@.len() <= limit,
{
    let candidates = nearest_centroids(scores, limit);
    let ghost keep = within(scores@, cutoff);
    let mut clusters: Vec<usize> = Vec::new();
    let mut i: usize = 0;
    proof {
        assert(candidates@.take(0) =~= Seq::<usize>::empty());
        candidates@.take(0).lemma_filter_len(keep);
        assert(candidates@.take(0).filter(keep) =~= Seq::<usize>::empty());
    }
    while i < candidates.len()
        invariant
            i <= candidates@.len(),
            keep == within(scores@, cutoff),
            clusters@ == candidates@.take(i as int).filter(keep),
        decreases candidates@.len() - i,
    {
        let c = candidates[i];
        proof {
            assert(candidates@.take(i as int + 1) =~= candidates@.take(i as int).push(c));
            candidates@.take(i as int).lemma_filter_push(c, keep);
        }
        if c < scores.len() && scores[c] <= cutoff {
            clusters.push(c);
        }
        i += 1;
    }
    proof {
        assert(candidates@.take(i as int) =~= candidates@);
        candidates@.lemma_filter_len(keep);
        crate::ranking::lemma_top_k_len(
            crate::ivf::centroid_candidates(scores@),
            limit as nat,
        );
    }
    clusters
}

/// The builder of the posting lists.
pub struct IvfBuilder {
    doc_ids: Vec<u64>,
    posting_lists: Vec<Vec<u64>>,
    max_clusters_per_vector: usize,
    assigned: Ghost<Seq<Seq<usize>>>,
}

impl IvfBuilder {
    /// The number of clusters.
    pub closed spec fn num_clusters(&self) -> nat {
        self.posting_lists@.len()
    }

    /// The number of vectors added.
    pub closed spec fn num_vectors(&self) -> nat {
        self.doc_ids@.len()
    }

    /// The number of clusters that a vector may belong to.
    pub closed spec fn limit(&self) -> nat {
        self.max_clusters_per_vector as nat
    }

    /// The doc id of each vector, by local id.
    pub closed spec fn doc_id_seq(&self) -> Seq<u64> {
        self.doc_ids@
    }

    /// The posting list of cluster `c`.
    pub closed spec fn list(&self, c: int) -> Seq<u64> {
        self.posting_lists@[c]@
    }

    /// The clusters that each vector was assigned to, by local id.
    pub closed spec fn assignment(&self) -> Seq<Seq<usize>> {
        self.assigned@
    }

    /// The invariant of the builder.
    pub closed spec fn wf(&self) -> bool {
        let n = self.doc_ids@.len();
        &&& self.assigned@.len() == n
        &&& n <= u64::MAX
        &&& forall|c: int|
            0 <= c < self.posting_lists@.len() ==> strictly_increasing(
                #[trigger] self.posting_lists@[c]@,
            )
        &&& forall|c: int, p: int|
            0 <= c < self.posting_lists@.len() && 0 <= p < self.posting_lists@[c]@.len()
                ==> #[trigger] self.posting_lists@[c]@[p] < n
        &&& forall|id: int, c: int|
            0 <= id < n && 0 <= c < self.posting_lists@.len() ==> (
            #[trigger] self.posting_lists@[c]@.contains(id as u64) <==> #[trigger] self.assigned@[id].contains(
                c as usize,
            ))
        &&& forall|id: int|
            0 <= id < n ==> check_assignment(
                #[trigger] self.assigned@[id],
                self.posting_lists@.len(),
                self.max_clusters_per_vector as nat,
            ) is Ok
        &&& self.posting_lists@.len() == 1 ==> self.posting_lists@[0]@ == local_ids(n)
        &&& self.max_clusters_per_vector == 1 ==> all_ids(views_of(self.posting_lists@))
            == local_ids(n).to_multiset()
    }

    /// The posting lists, by cluster.
    pub open spec fn lists(&self) -> Seq<Seq<u64>> {
        Seq::new(self.num_clusters(), |c: int| self.list(c))
    }

    /// A builder for `num_clusters` clusters, with no vector yet.
    pub fn new(num_clusters: usize, max_clusters_per_vector: usize) -> (builder: Self)
        ensures
            builder.wf(),
            builder.num_clusters() == num_clusters,
            builder.num_vectors() == 0,
            builder.doc_id_seq() == Seq::<u64>::empty(),
            builder.assignment() == Seq::<Seq<usize>>::empty(),
            builder.limit() == max_clusters_per_vector,
            forall|c: int| 0 <= c < num_clusters ==> #[trigger] builder.list(c) == Seq::<u64>::empty(),
    {
        let mut posting_lists: Vec<Vec<u64>> = Vec::new();
        let mut c: usize = 0;
        while c < num_clusters
            invariant
                c <= num_clusters,
                posting_lists@.len() == c,
                forall|j: int| 0 <= j < c ==> (#[trigger] posting_lists@[j])@ == Seq::<u64>::empty(),
            decreases num_clusters - c,
        {
            posting_lists.push(Vec::new());
            c += 1;
        }
        let builder = IvfBuilder {
            doc_ids: Vec::new(),
            posting_lists,
            max_clusters_per_vector,
            assigned: Ghost(Seq::empty()),
        };
        proof {
            if num_clusters == 1 {
                assert(builder.posting_lists@[0]@ =~= local_ids(0));
            }
            assert(builder.doc_ids@ =~= Seq::<u64>::empty());
            lemma_all_ids_of_empty_lists(views_of(builder.posting_lists@));
            assert(local_ids(0) =~= Seq::<u64>::empty());
        }
        builder
    }

    /// Where a vector belongs to one cluster only, each vector is in one
    /// posting list, once, and the lists hold nothing else.
    pub proof fn lemma_one_list_each(&self)
        requires
            self.wf(),
            self.limit() == 1,
        ensures
            all_ids(self.lists()) == local_ids(self.num_vectors()).to_multiset(),
    {
        assert(self.lists() =~= views_of(self.posting_lists@));
    }

    /// There is one doc id and one assignment for each vector.
    pub proof fn lemma_counts(&self)
        requires
            self.wf(),
        ensures
            self.doc_id_seq().len() == self.num_vectors(),
            self.assignment().len() == self.num_vectors(),
            self.num_vectors() <= u64::MAX,
    {
    }

    /// Checks an assignment.
    fn check(&self, clusters: &Vec<usize>) -> (r: Result<(), BuildError>)
        ensures
            r == check_assignment(clusters@, self.num_clusters(), self.limit()),
    {
        let n = clusters.len();
        if n == 0 {
            return Err(BuildError::NoCluster);
        }
        if n > self.max_clusters_per_vector {
            return Err(BuildError::TooManyClusters);
        }
        let num_clusters = self.posting_lists.len();
        let mut p: usize = 0;
        while p < n
            invariant
                p <= n,
                n == clusters@.len(),
                0 < n <= self.max_clusters_per_vector,
                num_clusters == self.posting_lists@.len(),
                forall|q: int| 0 <= q < p ==> #[trigger] clusters@[q] < num_clusters,
            decreases n - p,
        {
            if clusters[p] >= num_clusters {
                return Err(BuildError::ClusterOutOfRange);
            }
            p += 1;
        }
        let mut p: usize = 0;
        while p < n
            invariant
                p <= n,
                n == clusters@.len(),
                0 < n <= self.max_clusters_per_vector,
                num_clusters == self.posting_lists@.len(),
                forall|q: int| 0 <= q < n ==> #[trigger] clusters@[q] < num_clusters,
                forall|a: int, b: int| 0 <= a < b < n && a < p ==> clusters@[a] != clusters@[b],
            decreases n - p,
        {
            let mut q: usize = p + 1;
            while q < n
                invariant
                    p < q <= n,
                    n == clusters@.len(),
                    0 < n <= self.max_clusters_per_vector,
                    num_clusters == self.posting_lists@.len(),
                    forall|q: int| 0 <= q < n ==> #[trigger] clusters@[q] < num_clusters,
                    forall|a: int, b: int|
                        0 <= a < b < n && a < p ==> clusters@[a] != clusters@[b],
                    forall|b: int| p < b < q ==> clusters@[p as int] != clusters@[b],
                decreases n - q,
            {
                if clusters[p] == clusters[q] {
                    return Err(BuildError::ClusterRepeated);
                }
                q += 1;
            }
            p += 1;
        }
        proof {
            assert(clusters@.no_duplicates()) by {
                assert forall|a: int, b: int|
                    0 <= a < clusters@.len() && 0 <= b < clusters@.len() && a != b implies clusters@[a]
                    != clusters@[b] by {
                    if a < b {
                        assert(clusters@[a] != clusters@[b]);
                    } else {
                        assert(clusters@[b] != clusters@[a]);
                    }
                }
            }
        }
        Ok(())
    }

    /// Adds a vector with the doc id `doc_id` and assigns it to `clusters`.
    /// Returns the local id of the vector. Where the assignment is not a
    /// valid one, or no local id is left, the builder stays as it was.
    pub fn add_vector(&mut self, doc_id: u64, clusters: &Vec<usize>) -> (r: Result<u64, BuildError>)
        requires
            old(self).wf(),
        ensures
            final(self).wf(),
            final(self).num_clusters() == old(self).num_clusters(),
            final(self).limit() == old(self).limit(),
            match r {
                Ok(id) => {
                    &&& check_add(
                        old(self).num_vectors(),
                        clusters@,
                        old(self).num_clusters(),
                        old(self).limit(),
                    ) is Ok
                    &&& id == old(self).num_vectors()
                    &&& final(self).num_vectors() == old(self).num_vectors() + 1
                    &&& final(self).doc_id_seq() == old(self).doc_id_seq().push(doc_id)
                    &&& final(self).assignment() == old(self).assignment().push(clusters@)
                    &&& forall|c: int|
                        0 <= c < old(self).num_clusters() ==> #[trigger] final(self).list(c) == (
                        if clusters@.contains(c as usize) {
                            old(self).list(c).push(id)
                        } else {
                            old(self).list(c)
                        })
                },
                Err(e) => {
                    &&& check_add(
                        old(self).num_vectors(),
                        clusters@,
                        old(self).num_clusters(),
                        old(self).limit(),
                    ) == Err::<(), BuildError>(e)
                    &&& final(self).num_vectors() == old(self).num_vectors()
                    &&& final(self).doc_id_seq() == old(self).doc_id_seq()
                    &&& final(self).assignment() == old(self).assignment()
                    &&& forall|c: int|
                        0 <= c < old(self).num_clusters() ==> #[trigger] final(self).list(c)
                            == old(self).list(c)
                },
            },
    {
        if self.doc_ids.len() as u64 == u64::MAX {
            return Err(BuildError::TooManyVectors);
        }
        match self.check(clusters) {
            Err(e) => {
                return Err(e);
            },
            Ok(()) => {},
        }
        let ghost before = *self;
        let ghost n = self.doc_ids@.len();
        let id = self.doc_ids.len() as u64;
        let num_clusters = self.posting_lists.len();
        let mut j: usize = 0;
        while j < clusters.len()
            invariant
                j <= clusters@.len(),
                id == n,
                n == before.doc_ids@.len(),
                before.wf(),
                check_assignment(clusters@, before.num_clusters(), before.limit()) is Ok,
                self.doc_ids == before.doc_ids,
                self.assigned == before.assigned,
                self.max_clusters_per_vector == before.max_clusters_per_vector,
                self.posting_lists@.len() == before.posting_lists@.len(),
                num_clusters == before.posting_lists@.len(),
                forall|c: int|
                    0 <= c < num_clusters ==> (#[trigger] self.posting_lists@[c])@ == (
                    if clusters@.take(j as int).contains(c as usize) {
                        before.posting_lists@[c]@.push(id)
                    } else {
                        before.posting_lists@[c]@
                    }),
            decreases clusters@.len() - j,
        {
            let c = clusters[j];
            let ghost lists_before = self.posting_lists@;
            proof {
                assert(clusters@[j as int] < num_clusters);
                // The cluster has not been served yet.
                assert(!clusters@.take(j as int).contains(c)) by {
                    if clusters@.take(j as int).contains(c) {
                        let p = choose|p: int|
                            0 <= p < j && clusters@.take(j as int)[p] == c;
                        assert(clusters@[p] == clusters@[j as int]);
                    }
                }
            }
            self.posting_lists[c].push(id);
            proof {
                let done = clusters@.take(j as int);
                let next = clusters@.take(j as int + 1);
                assert(next =~= done.push(c));
                assert forall|d: int| 0 <= d < num_clusters implies (
                #[trigger] self.posting_lists@[d])@ == (if next.contains(d as usize) {
                    before.posting_lists@[d]@.push(id)
                } else {
                    before.posting_lists@[d]@
                }) by {
                    if d == c {
                        assert(next[j as int] == c);
                        assert(next.contains(d as usize));
                        assert(lists_before[d]@ == before.posting_lists@[d]@);
                    } else {
                        assert(self.posting_lists@[d] == lists_before[d]);
                        if done.contains(d as usize) {
                            let p = choose|p: int| 0 <= p < done.len() && done[p] == d as usize;
                            assert(next[p] == d as usize);
                        }
                        if next.contains(d as usize) {
                            let p = choose|p: int| 0 <= p < next.len() && next[p] == d as usize;
                            assert(p < j);
                            assert(done[p] == d as usize);
                        }
                    }
                }
            }
            j += 1;
        }
        self.doc_ids.push(doc_id);
        proof {
            assert(clusters@.take(j as int) =~= clusters@);
            self.assigned = Ghost(before.assigned@.push(clusters@));
            lemma_add_keeps_wf(before, *self, clusters@, doc_id);
        }
        Ok(id)
    }

    /// The doc id of each vector, by local id.
    pub fn doc_ids(&self) -> (ids: &Vec<u64>)
        ensures
            ids@ == self.doc_id_seq(),
            ids@.len() == self.num_vectors(),
    {
        &self.doc_ids
    }

    /// The posting lists, by cluster.
    pub fn posting_lists(&self) -> (lists: &Vec<Vec<u64>>)
        ensures
            lists@.len() == self.num_clusters(),
            forall|c: int| 0 <= c < lists@.len() ==> (#[trigger] lists@[c])@ == self.list(c),
    {
        &self.posting_lists
    }

    /// Within a posting list the local ids increase, and each is the id of
    /// a vector that was added.
    pub proof fn lemma_lists_sorted(&self, c: int)
        requires
            self.wf(),
            0 <= c < self.num_clusters(),
        ensures
            strictly_increasing(self.list(c)),
            forall|p: int| 0 <= p < self.list(c).len() ==> #[trigger] self.list(c)[p]
                < self.num_vectors(),
    {
    }

    /// A vector is in the posting lists of the clusters it was assigned to,
    /// and in no other.
    pub proof fn lemma_membership(&self, id: int, c: int)
        requires
            self.wf(),
            0 <= id < self.num_vectors(),
            0 <= c < self.num_clusters(),
        ensures
            self.list(c).contains(id as u64) <==> self.assignment()[id].contains(c as usize),
    {
    }

    /// The clusters whose posting list holds the local id `id`.
    pub open spec fn clusters_of(&self, id: int) -> Set<usize> {
        Set::new(|c: usize| c < self.num_clusters() && self.list(c as int).contains(id as u64))
    }

    /// No vector is in more posting lists than a vector may belong to.
    pub proof fn lemma_membership_bounded(&self, id: int)
        requires
            self.wf(),
            0 <= id < self.num_vectors(),
        ensures
            self.clusters_of(id).finite(),
            self.clusters_of(id).len() <= self.limit(),
    {
        let assigned = self.assigned@[id];
        assert(check_assignment(assigned, self.posting_lists@.len(), self.limit()) is Ok);
        assert(self.clusters_of(id) =~= assigned.to_set()) by {
            assert forall|c: usize| self.clusters_of(id).contains(c) == assigned.to_set().contains(
                c,
            ) by {
                if c < self.num_clusters() {
                    self.lemma_membership(id, c as int);
                } else {
                    if assigned.contains(c) {
                        let p = choose|p: int| 0 <= p < assigned.len() && assigned[p] == c;
                        assert(assigned[p] < self.posting_lists@.len());
                    }
                }
            }
        }
        vstd::seq_lib::seq_to_set_is_finite(assigned);
        assigned.lemma_cardinality_of_set();
    }

    /// With a single cluster, its posting list holds every local id.
    pub proof fn lemma_single_cluster(&self)
        requires
            self.wf(),
            self.num_clusters() == 1,
        ensures
            self.list(0) == local_ids(self.num_vectors()),
    {
    }
}

/// Adding a vector keeps the invariant.
proof fn lemma_add_keeps_wf(before: IvfBuilder, after: IvfBuilder, clusters: Seq<usize>, doc_id: u64)
    requires
        before.wf(),
        before.doc_ids@.len() < u64::MAX,
        check_assignment(clusters, before.num_clusters(), before.limit()) is Ok,
        after.doc_ids@ == before.doc_ids@.push(doc_id),
        after.assigned@ == before.assigned@.push(clusters),
        after.max_clusters_per_vector == before.max_clusters_per_vector,
        after.posting_lists@.len() == before.posting_lists@.len(),
        forall|c: int|
            0 <= c < before.posting_lists@.len() ==> (#[trigger] after.posting_lists@[c])@ == (
            if clusters.contains(c as usize) {
                before.posting_lists@[c]@.push(before.doc_ids@.len() as u64)
            } else {
                before.posting_lists@[c]@
            }),
    ensures
        after.wf(),
{
    let n = before.doc_ids@.len();
    let id = n as u64;
    let num = before.posting_lists@.len();
    assert forall|c: int| 0 <= c < num implies strictly_increasing(
        #[trigger] after.posting_lists@[c]@,
    ) by {
        let old_list = before.posting_lists@[c]@;
        let new_list = after.posting_lists@[c]@;
        assert(strictly_increasing(old_list));
        assert forall|i: int, j: int| 0 <= i < j < new_list.len() implies new_list[i]
            < new_list[j] by {
            if j < old_list.len() {
                assert(old_list[i] < old_list[j]);
            } else {
                assert(before.posting_lists@[c]@[i] < n);
            }
        }
    }
    assert forall|c: int, p: int|
        0 <= c < num && 0 <= p < after.posting_lists@[c]@.len() implies #[trigger] after.posting_lists@[c]@[p]
        < n + 1 by {
        if p < before.posting_lists@[c]@.len() {
            assert(before.posting_lists@[c]@[p] < n);
        }
    }
    assert forall|v: int, c: int| 0 <= v < n + 1 && 0 <= c < num implies (
    #[trigger] after.posting_lists@[c]@.contains(v as u64) <==> #[trigger] after.assigned@[v].contains(
        c as usize,
    )) by {
        let old_list = before.posting_lists@[c]@;
        let new_list = after.posting_lists@[c]@;
        if v < n {
            assert(after.assigned@[v] == before.assigned@[v]);
            assert(old_list.contains(v as u64) <==> before.assigned@[v].contains(c as usize));
            if new_list.contains(v as u64) {
                let p = choose|p: int| 0 <= p < new_list.len() && new_list[p] == v as u64;
                assert(p < old_list.len());
                assert(old_list[p] == v as u64);
            }
            if old_list.contains(v as u64) {
                let p = choose|p: int| 0 <= p < old_list.len() && old_list[p] == v as u64;
                assert(new_list[p] == v as u64);
            }
        } else {
            assert(after.assigned@[v] == clusters);
            if new_list.contains(id) {
                let p = choose|p: int| 0 <= p < new_list.len() && new_list[p] == id;
                if p < old_list.len() {
                    assert(before.posting_lists@[c]@[p] < n);
                }
            }
            if clusters.contains(c as usize) {
                assert(new_list[old_list.len() as int] == id);
            }
        }
    }
    assert forall|v: int| 0 <= v < n + 1 implies check_assignment(
        #[trigger] after.assigned@[v],
        num,
        after.max_clusters_per_vector as nat,
    ) is Ok by {
        if v < n {
            assert(after.assigned@[v] == before.assigned@[v]);
        }
    }
    if num == 1 {
        assert(clusters[0] < 1);
        assert(clusters.contains(0usize));
        assert(after.posting_lists@[0]@ =~= local_ids(n + 1));
    }
    if after.max_clusters_per_vector == 1 {
        broadcast use vstd::seq_lib::group_to_multiset_ensures;

        let c = clusters[0] as int;
        assert(clusters.len() == 1);
        assert(clusters.contains(clusters[0]));
        let old_lists = views_of(before.posting_lists@);
        let new_lists = views_of(after.posting_lists@);
        assert(new_lists =~= old_lists.update(c, old_lists[c].push(id))) by {
            assert forall|d: int| 0 <= d < num implies #[trigger] new_lists[d] == old_lists.update(
                c,
                old_lists[c].push(id),
            )[d] by {
                let list = after.posting_lists@[d]@;
                assert(new_lists[d] == list);
                assert(old_lists[d] == before.posting_lists@[d]@);
                assert(before.posting_lists.len() == num);
                assert((d as usize) as int == d);
                if d != c {
                    if clusters.contains(d as usize) {
                        let p = choose|p: int| 0 <= p < clusters.len() && clusters[p] == d as usize;
                        assert(p == 0);
                        assert(clusters[0] as int == d);
                    }
                    assert(list == before.posting_lists@[d]@);
                } else {
                    assert(d as usize == clusters[0]);
                    assert(list == before.posting_lists@[d]@.push(id));
                }
            }
        }
        lemma_all_ids_push(old_lists, new_lists, c, id);
        assert(local_ids(n + 1) =~= local_ids(n).push(id));
    }
}

} // verus!
