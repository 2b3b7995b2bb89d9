//! The index writer: what is built, from which rows, and where it goes.

use vstd::prelude::*;
use vstd::relations::{sorted_by, total_ordering};
use vstd::seq_lib::lemma_sorted_unique;
use vstd::string::StringExecFns;
use crate::config::{BaseConfig, HnswConfigWithBase, IndexWriterConfig};
use crate::random::shuffle;
use crate::sorting::{sort, u64_le};

verus! {

/// The numbers from 0 up to `n`, in order.
pub open spec fn row_numbers(n: nat) -> Seq<u64> {
    Seq::new(n, |i: int| i as u64)
}

/// The first `count` of `rows`, or all of them where there are fewer.
pub open spec fn first_rows(rows: Seq<u64>, count: nat) -> Seq<u64> {
    rows.take(if count <= rows.len() {
        count as int
    } else {
        rows.len() as int
    })
}

/// The order of 64-bit integers is a total order.
pub proof fn lemma_u64_le_total()
    ensures
        total_ordering(u64_le()),
{
    let r = u64_le();
    assert(vstd::relations::reflexive(r));
    assert(vstd::relations::antisymmetric(r));
    assert(vstd::relations::transitive(r));
    assert(vstd::relations::strongly_connected(r));
}

/// Each number is higher than the one before it.
pub open spec fn increasing(rows: Seq<u64>) -> bool {
    forall|i: int, j: int| 0 <= i < j < rows.len() ==> rows[i] < rows[j]
}

/// A choice of rows out of the rows 0 up to `n`, put in order, names no row
/// twice and no row that is not there.
pub proof fn lemma_picked_rows_distinct(order: Seq<u64>, n: nat, count: nat)
    requires
        n <= u64::MAX,
        order.to_multiset() == row_numbers(n).to_multiset(),
    ensures
        increasing(first_rows(order, count).sort_by(u64_le())),
        forall|i: int|
            0 <= i < first_rows(order, count).sort_by(u64_le()).len() ==> #[trigger] first_rows(
                order,
                count,
            ).sort_by(u64_le())[i] < n,
{
    broadcast use vstd::seq_lib::group_to_multiset_ensures;

    let all = row_numbers(n);
    let prefix = first_rows(order, count);
    let picked = prefix.sort_by(u64_le());
    lemma_u64_le_total();
    prefix.lemma_sort_by_ensures(u64_le());
    assert(all.no_duplicates());
    all.lemma_multiset_has_no_duplicates();
    order.lemma_multiset_has_no_duplicates_conv();
    assert(prefix.no_duplicates()) by {
        assert forall|i: int, j: int|
            0 <= i < prefix.len() && 0 <= j < prefix.len() && i != j implies prefix[i]
            != prefix[j] by {
            assert(prefix[i] == order[i] && prefix[j] == order[j]);
        }
    }
    prefix.lemma_multiset_has_no_duplicates();
    picked.lemma_multiset_has_no_duplicates_conv();
    assert forall|i: int, j: int| 0 <= i < j < picked.len() implies picked[i] < picked[j] by {
        assert(u64_le()(picked[i], picked[j]));
        assert(picked[i] != picked[j]);
    }
    assert forall|i: int| 0 <= i < picked.len() implies #[trigger] picked[i] < n by {
        let x = picked[i];
        assert(picked.contains(x));
        assert(picked.to_multiset().count(x) > 0);
        assert(prefix.to_multiset().count(x) > 0);
        assert(prefix.contains(x));
        let p = choose|p: int| 0 <= p < prefix.len() && prefix[p] == x;
        assert(order[p] == x);
        assert(order.contains(x));
        assert(order.to_multiset().count(x) > 0);
        assert(all.to_multiset().count(x) > 0);
        assert(all.contains(x));
        let q = choose|q: int| 0 <= q < all.len() && all[q] == x;
        assert(all[q] == q as u64);
    }
}

/// Where the parts of a graph index are built and written, below the output
/// directory.
pub struct HnswLayout {
    /// The scratch directory of the quantizer's training.
    pub quantizer_temp_directory: String,
    /// The directory of the quantizer.
    pub quantizer_directory: String,
    /// The scratch directory of the vectors.
    pub vector_directory: String,
    /// The directory of the graph.
    pub hnsw_directory: String,
}

/// Where the parts of an index with a navigator over an inverted file are
/// written, below the output directory.
pub struct SpannLayout {
    /// The directory of the inverted file.
    pub ivf_directory: String,
    /// The directory of the navigator over the centroids.
    pub centroid_directory: String,
    /// The directory of the navigator's quantizer.
    pub centroid_quantizer_directory: String,
    /// The directory of the navigator's graph.
    pub hnsw_directory: String,
}

/// The index writer.
pub struct IndexWriter {
    config: IndexWriterConfig,
}

impl IndexWriter {
    /// The options of the writer.
    pub closed spec fn spec_config(&self) -> IndexWriterConfig {
        self.config
    }

    /// A writer with the given options.
    pub fn new(config: IndexWriterConfig) -> (writer: Self)
        ensures
            writer.spec_config() == config,
    {
        Self { config }
    }

    /// The options of the writer.
    pub fn config(&self) -> (c: &IndexWriterConfig)
        ensures
            *c == self.spec_config(),
    {
        &self.config
    }

    /// The first `num_random_rows` of `rows`, in non-decreasing order.
    pub fn sorted_prefix(rows: Vec<u64>, num_random_rows: usize) -> (picked: Vec<u64>)
        ensures
            picked@ == first_rows(rows@, num_random_rows as nat).sort_by(u64_le()),
            sorted_by(picked@, u64_le()),
            picked@.len() == first_rows(rows@, num_random_rows as nat).len(),
    {
        broadcast use vstd::seq_lib::group_to_multiset_ensures;

        let mut picked = rows;
        picked.truncate(num_random_rows);
        let ghost prefix = picked@;
        proof {
            assert(prefix =~= first_rows(rows@, num_random_rows as nat));
        }
        sort(&mut picked);
        proof {
            lemma_u64_le_total();
            prefix.lemma_sort_by_ensures(u64_le());
            lemma_sorted_unique(picked@, prefix.sort_by(u64_le()), u64_le());
            assert(picked@.to_multiset().len() == picked@.len());
            assert(prefix.to_multiset().len() == prefix.len());
        }
        picked
    }

    /// Picks `num_random_rows` of the rows 0 up to `num_rows` at random, all
    /// of them where there are fewer, and returns them in increasing order.
    pub fn get_sorted_random_rows(num_rows: usize, num_random_rows: usize) -> (picked: Vec<u64>)
        ensures
            exists|order: Seq<u64>|
                order.to_multiset() == row_numbers(num_rows as nat).to_multiset() && picked@
                    == first_rows(order, num_random_rows as nat).sort_by(u64_le()),
            increasing(picked@),
            forall|i: int| 0 <= i < picked@.len() ==> #[trigger] picked@[i] < num_rows,
            picked@.len() == (if num_random_rows <= num_rows {
                num_random_rows
            } else {
                num_rows
            }),
    {
        broadcast use vstd::seq_lib::group_to_multiset_ensures;

        let mut v: Vec<u64> = Vec::new();
        let mut i: usize = 0;
        while i < num_rows
            invariant
                i <= num_rows,
                v@ == row_numbers(i as nat),
            decreases num_rows - i,
        {
            v.push(i as u64);
            proof {
                assert(v@ =~= row_numbers((i + 1) as nat));
            }
            i += 1;
        }
        shuffle(&mut v);
        let ghost order = v@;
        proof {
            assert(order.to_multiset().len() == order.len());
            assert(row_numbers(num_rows as nat).to_multiset().len() == num_rows);
        }
        let picked = Self::sorted_prefix(v, num_random_rows);
        proof {
            assert(order.to_multiset() == row_numbers(num_rows as nat).to_multiset() && picked@
                == first_rows(order, num_random_rows as nat).sort_by(u64_le()));
            lemma_picked_rows_distinct(order, num_rows as nat, num_random_rows as nat);
        }
        picked
    }

    /// The directory named `name` below the output directory of `base`.
    pub fn subdirectory(base: &BaseConfig, name: &str) -> (p: String)
        ensures
            p@ == base.output_path@ + "/"@ + name@,
    {
        base.output_path.clone().concat("/").concat(name)
    }

    /// The directory in which the writer records its common options: below
    /// the output directory, named after the kind of index in those options.
    pub fn config_directory(&self) -> (p: String)
        ensures
            p@ == self.spec_config().spec_base_config().output_path@ + "/"@
                + self.spec_config().spec_base_config().index_type.spec_name(),
    {
        let base = self.config.base_config();
        Self::subdirectory(base, base.index_type.name())
    }

    /// The path of the file in which the writer records its common options.
    pub fn config_file_path(&self) -> (p: String)
        ensures
            p@ == self.spec_config().spec_base_config().output_path@ + "/"@
                + self.spec_config().spec_base_config().index_type.spec_name()
                + "/base_config.yaml"@,
    {
        self.config_directory().concat("/base_config.yaml")
    }

    /// The number of values of a quantized vector: one for each subvector.
    /// `None` where the subvectors have no dimension.
    pub fn quantized_dimension(config: &HnswConfigWithBase) -> (r: Option<usize>)
        ensures
            config.quantizer_config.subvector_dimension == 0 ==> r is None,
            config.quantizer_config.subvector_dimension > 0 ==> r == Some(
                (config.base_config.dimension
                    / config.quantizer_config.subvector_dimension) as usize,
            ),
    {
        if config.quantizer_config.subvector_dimension == 0 {
            None
        } else {
            Some(config.base_config.dimension / config.quantizer_config.subvector_dimension)
        }
    }

    /// Where the parts of a graph index go.
    pub fn hnsw_layout(base: &BaseConfig) -> (layout: HnswLayout)
        ensures
            layout.quantizer_temp_directory@ == base.output_path@ + "/"@ + "pq_tmp"@,
            layout.quantizer_directory@ == base.output_path@ + "/"@ + "quantizer"@,
            layout.vector_directory@ == base.output_path@ + "/"@ + "vectors"@,
            layout.hnsw_directory@ == base.output_path@ + "/"@ + "hnsw"@,
    {
        HnswLayout {
            quantizer_temp_directory: Self::subdirectory(base, "pq_tmp"),
            quantizer_directory: Self::subdirectory(base, "quantizer"),
            vector_directory: Self::subdirectory(base, "vectors"),
            hnsw_directory: Self::subdirectory(base, "hnsw"),
        }
    }

    /// The directory of an inverted-file index.
    pub fn ivf_directory(base: &BaseConfig) -> (p: String)
        ensures
            p@ == base.output_path@ + "/"@ + "ivf"@,
    {
        Self::subdirectory(base, "ivf")
    }

    /// Where the parts of an index with a navigator over an inverted file
    /// go.
    pub fn spann_layout(base: &BaseConfig) -> (layout: SpannLayout)
        ensures
            layout.ivf_directory@ == base.output_path@ + "/"@ + "ivf"@,
            layout.centroid_directory@ == base.output_path@ + "/"@ + "centroids"@,
            layout.centroid_quantizer_directory@ == base.output_path@ + "/"@ + "centroids"@
                + "/quantizer"@,
            layout.hnsw_directory@ == base.output_path@ + "/"@ + "centroids"@ + "/hnsw"@,
    {
        let centroid_directory = Self::subdirectory(base, "centroids");
        SpannLayout {
            ivf_directory: Self::subdirectory(base, "ivf"),
            centroid_quantizer_directory: centroid_directory.clone().concat("/quantizer"),
            hnsw_directory: centroid_directory.clone().concat("/hnsw"),
            centroid_directory,
        }
    }
}

} // verus!
