//! The options of an index build.

use vstd::prelude::*;

verus! {

/// How vectors are quantized before they are stored.
#[derive(Debug, Clone, Copy, PartialEq, Eq)]
pub enum QuantizerType {
    ProductQuantizer,
    NoQuantizer,
}

impl Default for QuantizerType {
    fn default() -> (r: Self)
        ensures
            r == QuantizerType::ProductQuantizer,
    {
        QuantizerType::ProductQuantizer
    }
}

/// The kind of index to build.
#[derive(Debug, Clone, Copy, PartialEq, Eq)]
pub enum IndexType {
    Hnsw,
    Ivf,
    Spann,
}

impl Default for IndexType {
    fn default() -> (r: Self)
        ensures
            r == IndexType::Spann,
    {
        IndexType::Spann
    }
}

impl IndexType {
    /// The name of the kind in lower case, as it is used for directories.
    pub open spec fn spec_name(self) -> Seq<char> {
        match self {
            IndexType::Hnsw => "hnsw"@,
            IndexType::Ivf => "ivf"@,
            IndexType::Spann => "spann"@,
        }
    }

    /// The name of the kind in lower case, as it is used for directories.
    pub fn name(&self) -> (s: &'static str)
        ensures
            s@ == self.spec_name(),
    {
        match self {
            IndexType::Hnsw => "hnsw",
            IndexType::Ivf => "ivf",
            IndexType::Spann => "spann",
        }
    }
}

/// The options common to all kinds of index.
#[derive(Debug, Clone)]
pub struct BaseConfig {
    pub output_path: String,
    pub dimension: usize,
    pub reindex: bool,
    /// The size of the in-memory build buffer, in bytes.
    pub max_memory_size: usize,
    /// The size of a chunk of the backing store, in bytes.
    pub file_size: usize,
    pub index_type: IndexType,
}

impl Default for BaseConfig {
    fn default() -> (r: Self)
        ensures
            r.output_path@ == Seq::<char>::empty(),
            r.dimension == 0,
            !r.reindex,
            r.max_memory_size == 0,
            r.file_size == 0,
            r.index_type == IndexType::Spann,
    {
        BaseConfig {
            output_path: String::new(),
            dimension: 0,
            reindex: false,
            max_memory_size: 0,
            file_size: 0,
            index_type: IndexType::Spann,
        }
    }
}

/// The options of the quantizer and of its training.
#[derive(Debug, Clone, Copy, PartialEq, Eq)]
pub struct QuantizerConfig {
    pub quantizer_type: QuantizerType,
    pub subvector_dimension: usize,
    pub num_bits: u8,
    pub num_training_rows: usize,
    pub max_iteration: usize,
    pub batch_size: usize,
}

impl Default for QuantizerConfig {
    fn default() -> (r: Self)
        ensures
            r == (QuantizerConfig {
                quantizer_type: QuantizerType::ProductQuantizer,
                subvector_dimension: 0,
                num_bits: 0,
                num_training_rows: 0,
                max_iteration: 0,
                batch_size: 0,
            }),
    {
        QuantizerConfig {
            quantizer_type: QuantizerType::ProductQuantizer,
            subvector_dimension: 0,
            num_bits: 0,
            num_training_rows: 0,
            max_iteration: 0,
            batch_size: 0,
        }
    }
}

/// The options of the graph navigator.
#[derive(Debug, Clone, Copy, PartialEq, Eq)]
pub struct HnswConfig {
    pub num_layers: u8,
    pub max_num_neighbors: usize,
    pub ef_construction: u32,
}

impl Default for HnswConfig {
    fn default() -> (r: Self)
        ensures
            r == (HnswConfig { num_layers: 0, max_num_neighbors: 0, ef_construction: 0 }),
    {
        HnswConfig { num_layers: 0, max_num_neighbors: 0, ef_construction: 0 }
    }
}

/// The options of the inverted file and of its clustering. The two
/// fractional options are held as the bit patterns of single-precision
/// numbers.
#[derive(Debug, Clone, Copy, PartialEq, Eq)]
pub struct IvfConfig {
    pub num_clusters: usize,
    pub num_data_points: usize,
    pub max_clusters_per_vector: usize,
    /// The fraction of the best distance within which a vector is also
    /// assigned to further clusters, as a bit pattern.
    pub distance_threshold: u32,
    pub max_iteration: usize,
    pub batch_size: usize,
    /// The movement of the centroids below which clustering stops, as a bit
    /// pattern.
    pub tolerance: u32,
    pub max_posting_list_size: usize,
}

impl Default for IvfConfig {
    fn default() -> (r: Self)
        ensures
            r == (IvfConfig {
                num_clusters: 0,
                num_data_points: 0,
                max_clusters_per_vector: 0,
                distance_threshold: 0,
                max_iteration: 0,
                batch_size: 0,
                tolerance: 0,
                max_posting_list_size: 0,
            }),
    {
        IvfConfig {
            num_clusters: 0,
            num_data_points: 0,
            max_clusters_per_vector: 0,
            distance_threshold: 0,
            max_iteration: 0,
            batch_size: 0,
            tolerance: 0,
            max_posting_list_size: 0,
        }
    }
}

/// The options of an inverted-file index.
#[derive(Debug, Clone)]
pub struct IvfConfigWithBase {
    pub base_config: BaseConfig,
    pub quantizer_config: QuantizerConfig,
    pub ivf_config: IvfConfig,
}

impl Default for IvfConfigWithBase {
    fn default() -> (r: Self)
        ensures
            r.base_config.index_type == IndexType::Spann,
            r.base_config.output_path@ == Seq::<char>::empty(),
            r.quantizer_config.quantizer_type == QuantizerType::ProductQuantizer,
            r.ivf_config.num_clusters == 0,
    {
        IvfConfigWithBase {
            base_config: BaseConfig::default(),
            quantizer_config: QuantizerConfig::default(),
            ivf_config: IvfConfig::default(),
        }
    }
}

/// The options of a graph index.
#[derive(Debug, Clone)]
pub struct HnswConfigWithBase {
    pub base_config: BaseConfig,
    pub quantizer_config: QuantizerConfig,
    pub hnsw_config: HnswConfig,
}

impl Default for HnswConfigWithBase {
    fn default() -> (r: Self)
        ensures
            r.base_config.index_type == IndexType::Spann,
            r.base_config.output_path@ == Seq::<char>::empty(),
            r.quantizer_config.quantizer_type == QuantizerType::ProductQuantizer,
            r.hnsw_config.num_layers == 0,
    {
        HnswConfigWithBase {
            base_config: BaseConfig::default(),
            quantizer_config: QuantizerConfig::default(),
            hnsw_config: HnswConfig::default(),
        }
    }
}

/// The options of an index with a graph navigator over the centroids of an
/// inverted file.
#[derive(Debug, Clone)]
pub struct SpannConfigWithBase {
    pub base_config: BaseConfig,
    pub quantizer_config: QuantizerConfig,
    pub hnsw_config: HnswConfig,
    pub ivf_config: IvfConfig,
}

impl Default for SpannConfigWithBase {
    fn default() -> (r: Self)
        ensures
            r.base_config.index_type == IndexType::Spann,
            r.base_config.output_path@ == Seq::<char>::empty(),
            r.quantizer_config.quantizer_type == QuantizerType::ProductQuantizer,
            r.hnsw_config.num_layers == 0,
            r.ivf_config.num_clusters == 0,
    {
        SpannConfigWithBase {
            base_config: BaseConfig::default(),
            quantizer_config: QuantizerConfig::default(),
            hnsw_config: HnswConfig::default(),
            ivf_config: IvfConfig::default(),
        }
    }
}

/// The options of an index writer, by the kind of index.
#[derive(Debug, Clone)]
pub enum IndexWriterConfig {
    Hnsw(HnswConfigWithBase),
    Ivf(IvfConfigWithBase),
    Spann(SpannConfigWithBase),
}

impl Default for IndexWriterConfig {
    fn default() -> (r: Self)
        ensures
            r is Hnsw,
    {
        IndexWriterConfig::Hnsw(HnswConfigWithBase::default())
    }
}

impl IndexWriterConfig {
    /// The common options of whichever kind this is.
    pub open spec fn spec_base_config(&self) -> BaseConfig {
        match self {
            IndexWriterConfig::Hnsw(c) => c.base_config,
            IndexWriterConfig::Ivf(c) => c.base_config,
            IndexWriterConfig::Spann(c) => c.base_config,
        }
    }

    /// The common options of whichever kind this is.
    pub fn base_config(&self) -> (b: &BaseConfig)
        ensures
            *b == self.spec_base_config(),
    {
        match self {
            IndexWriterConfig::Hnsw(c) => &c.base_config,
            IndexWriterConfig::Ivf(c) => &c.base_config,
            IndexWriterConfig::Spann(c) => &c.base_config,
        }
    }
}

} // verus!
