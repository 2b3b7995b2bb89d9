use spann_core::config::{
    BaseConfig, HnswConfig, HnswConfigWithBase, IndexType, IndexWriterConfig, IvfConfig,
    IvfConfigWithBase, QuantizerConfig, QuantizerType, SpannConfigWithBase,
};
use spann_core::distance::{
    DotProductDistanceCalculator, L2DistanceCalculatorImpl, LaneConformingL2DistanceCalculator,
    LaneSplit, NonStreamingL2DistanceCalculator,
};
use spann_core::index_file::FixedIndexFile;
use spann_core::index_writer::IndexWriter;
use spann_core::ivf_builder::{choose_clusters, BuildError, IvfBuilder};
use spann_core::ivf_writer::{IvfWriter, WriteError};

#[test]
fn test_get_sorted_random_rows() {
    let num_rows = 100;
    let num_random_rows = 50;
    let result = IndexWriter::get_sorted_random_rows(num_rows, num_random_rows);
    assert_eq!(result.len(), num_random_rows);
    for i in 1..result.len() {
        assert!(result[i - 1] <= result[i]);
    }
}

#[test]
fn random_rows_are_distinct_rows() {
    let result = IndexWriter::get_sorted_random_rows(100, 50);
    for i in 1..result.len() {
        assert!(result[i - 1] < result[i]);
    }
    assert!(result.iter().all(|r| *r < 100));

    // More rows asked for than there are: all of them.
    let all = IndexWriter::get_sorted_random_rows(7, 50);
    assert_eq!(all, vec![0, 1, 2, 3, 4, 5, 6]);
    assert!(IndexWriter::get_sorted_random_rows(0, 5).is_empty());
    assert!(IndexWriter::get_sorted_random_rows(5, 0).is_empty());
}

#[test]
fn random_rows_are_in_random_order() {
    // Were the rows not shuffled, every draw would be the first ten rows.
    let first: Vec<u64> = (0..10).collect();
    let mut shuffled = false;
    for _ in 0..20 {
        if IndexWriter::get_sorted_random_rows(1000, 10) != first {
            shuffled = true;
        }
    }
    assert!(shuffled);
}

#[test]
fn sorted_prefix_sorts_the_first_rows() {
    assert_eq!(
        IndexWriter::sorted_prefix(vec![9, 3, 7, 1, 5], 3),
        vec![3, 7, 9]
    );
    assert_eq!(
        IndexWriter::sorted_prefix(vec![9, 3, 7, 1, 5], 9),
        vec![1, 3, 5, 7, 9]
    );
    assert!(IndexWriter::sorted_prefix(vec![9, 3], 0).is_empty());
}

#[test]
fn defaults_of_the_options() {
    assert_eq!(QuantizerType::default(), QuantizerType::ProductQuantizer);
    assert_eq!(IndexType::default(), IndexType::Spann);
    let base = BaseConfig::default();
    assert_eq!(base.output_path, "");
    assert_eq!(base.dimension, 0);
    assert!(!base.reindex);
    assert_eq!(base.index_type, IndexType::Spann);
    assert_eq!(QuantizerConfig::default().num_bits, 0);
    assert_eq!(HnswConfig::default().ef_construction, 0);
    assert_eq!(IvfConfig::default().max_clusters_per_vector, 0);
    assert_eq!(IvfConfigWithBase::default().ivf_config, IvfConfig::default());
    assert_eq!(SpannConfigWithBase::default().hnsw_config, HnswConfig::default());
    assert!(matches!(IndexWriterConfig::default(), IndexWriterConfig::Hnsw(_)));
}

#[test]
fn writer_paths() {
    let mut config = SpannConfigWithBase::default();
    config.base_config.output_path = "/out".to_string();
    config.base_config.index_type = IndexType::Ivf;
    let writer = IndexWriter::new(IndexWriterConfig::Spann(config));
    // The directory is named after the kind in the common options.
    assert_eq!(writer.config_directory(), "/out/ivf");
    assert_eq!(writer.config_file_path(), "/out/ivf/base_config.yaml");
    assert_eq!(writer.config().base_config().output_path, "/out");

    let base = writer.config().base_config();
    assert_eq!(IndexWriter::subdirectory(base, "x"), "/out/x");
    assert_eq!(IndexWriter::ivf_directory(base), "/out/ivf");
    let hnsw = IndexWriter::hnsw_layout(base);
    assert_eq!(hnsw.quantizer_temp_directory, "/out/pq_tmp");
    assert_eq!(hnsw.quantizer_directory, "/out/quantizer");
    assert_eq!(hnsw.vector_directory, "/out/vectors");
    assert_eq!(hnsw.hnsw_directory, "/out/hnsw");
    let spann = IndexWriter::spann_layout(base);
    assert_eq!(spann.ivf_directory, "/out/ivf");
    assert_eq!(spann.centroid_directory, "/out/centroids");
    assert_eq!(spann.centroid_quantizer_directory, "/out/centroids/quantizer");
    assert_eq!(spann.hnsw_directory, "/out/centroids/hnsw");

    assert_eq!(IndexType::Hnsw.name(), "hnsw");
    assert_eq!(IndexType::Ivf.name(), "ivf");
    assert_eq!(IndexType::Spann.name(), "spann");
}

#[test]
fn quantized_dimension_is_one_value_for_each_subvector() {
    let mut config = HnswConfigWithBase::default();
    config.base_config.dimension = 10;
    config.quantizer_config.subvector_dimension = 2;
    assert_eq!(IndexWriter::quantized_dimension(&config), Some(5));
    config.quantizer_config.subvector_dimension = 3;
    assert_eq!(IndexWriter::quantized_dimension(&config), Some(3));
    config.quantizer_config.subvector_dimension = 0;
    assert_eq!(IndexWriter::quantized_dimension(&config), None);
}

fn split(runs_of_16: usize, runs_of_8: usize, runs_of_4: usize, singles: usize) -> LaneSplit {
    LaneSplit { runs_of_16, runs_of_8, runs_of_4, singles }
}

#[test]
fn l2_lane_splits() {
    let f = NonStreamingL2DistanceCalculator::lane_split;
    assert_eq!(f(0), split(0, 0, 0, 0));
    assert_eq!(f(3), split(0, 0, 0, 3));
    assert_eq!(f(4), split(0, 0, 1, 0));
    assert_eq!(f(8), split(0, 1, 0, 0));
    assert_eq!(f(16), split(1, 0, 0, 0));
    assert_eq!(f(31), split(1, 1, 1, 3));
    assert_eq!(f(128), split(8, 0, 0, 0));
    assert_eq!(f(4095), split(255, 1, 1, 3));
    assert_eq!(f(128).start_of_8(), 128);
    assert_eq!(f(31).start_of_8(), 16);
    assert_eq!(f(31).start_of_4(), 24);
    assert_eq!(f(31).start_of_singles(), 28);
}

#[test]
fn dot_product_lane_splits() {
    let f = DotProductDistanceCalculator::lane_split;
    assert_eq!(f(0), split(0, 0, 0, 0));
    assert_eq!(f(4), split(0, 0, 0, 4));
    assert_eq!(f(5), split(0, 0, 1, 1));
    assert_eq!(f(8), split(0, 0, 2, 0));
    assert_eq!(f(9), split(0, 1, 0, 1));
    assert_eq!(f(16), split(0, 2, 0, 0));
    assert_eq!(f(17), split(1, 0, 0, 1));
    assert_eq!(f(30), split(1, 1, 1, 2));
    assert_eq!(f(128), split(8, 0, 0, 0));
}

#[test]
fn lane_conforming_runs() {
    let calculator = LaneConformingL2DistanceCalculator::<8>::new();
    assert_eq!(calculator.runs(128), (16, 0));
    assert_eq!(calculator.runs(30), (3, 6));
    assert_eq!(calculator.runs(7), (0, 7));
    assert_eq!(LaneConformingL2DistanceCalculator::<16>::new().runs(48), (3, 0));
}

#[test]
fn ways_of_computing_the_distance() {
    assert_eq!(
        L2DistanceCalculatorImpl::all(),
        vec![
            L2DistanceCalculatorImpl::Scalar,
            L2DistanceCalculatorImpl::SIMD,
            L2DistanceCalculatorImpl::StreamingWithSIMD,
            L2DistanceCalculatorImpl::StreamingWithSIMDOptimized,
        ]
    );
    assert_eq!(L2DistanceCalculatorImpl::for_len(0), L2DistanceCalculatorImpl::Scalar);
    assert_eq!(L2DistanceCalculatorImpl::for_len(31), L2DistanceCalculatorImpl::Scalar);
    assert_eq!(L2DistanceCalculatorImpl::for_len(32), L2DistanceCalculatorImpl::SIMD);
    assert_eq!(L2DistanceCalculatorImpl::for_len(128), L2DistanceCalculatorImpl::SIMD);
}

#[test]
fn builder_assigns_vectors_to_clusters() {
    let mut builder = IvfBuilder::new(3, 2);
    assert_eq!(builder.add_vector(100, &vec![0]), Ok(0));
    assert_eq!(builder.add_vector(101, &vec![2, 1]), Ok(1));
    assert_eq!(builder.add_vector(102, &vec![1]), Ok(2));
    assert_eq!(builder.add_vector(103, &vec![0, 2]), Ok(3));
    assert_eq!(builder.doc_ids(), &vec![100, 101, 102, 103]);
    assert_eq!(
        builder.posting_lists(),
        &vec![vec![0, 3], vec![1, 2], vec![1, 3]]
    );
    // No vector is in more lists than it may belong to.
    for id in 0..4u64 {
        let count = builder
            .posting_lists()
            .iter()
            .filter(|list| list.contains(&id))
            .count();
        assert!(count >= 1 && count <= 2);
    }
}

#[test]
fn builder_rejects_bad_assignments() {
    let mut builder = IvfBuilder::new(3, 2);
    assert_eq!(builder.add_vector(1, &vec![]), Err(BuildError::NoCluster));
    assert_eq!(
        builder.add_vector(1, &vec![0, 1, 2]),
        Err(BuildError::TooManyClusters)
    );
    assert_eq!(
        builder.add_vector(1, &vec![0, 3]),
        Err(BuildError::ClusterOutOfRange)
    );
    assert_eq!(
        builder.add_vector(1, &vec![1, 1]),
        Err(BuildError::ClusterRepeated)
    );
    // Nothing was added.
    assert!(builder.doc_ids().is_empty());
    assert_eq!(builder.posting_lists(), &vec![vec![], vec![], vec![]]);
    assert_eq!(builder.add_vector(1, &vec![1]), Ok(0));
}

#[test]
fn a_single_cluster_holds_every_vector() {
    let mut builder = IvfBuilder::new(1, 4);
    for i in 0..10 {
        assert_eq!(builder.add_vector(1000 + i, &vec![0]), Ok(i));
    }
    let all: Vec<u64> = (0..10).collect();
    assert_eq!(builder.posting_lists(), &vec![all]);
}

#[test]
fn clusters_are_chosen_by_score() {
    let scores = vec![50, 10, 12, 70, 11];
    assert_eq!(choose_clusters(&scores, 3, 100), vec![1, 4, 2]);
    assert_eq!(choose_clusters(&scores, 3, 11), vec![1, 4]);
    assert_eq!(choose_clusters(&scores, 3, 10), vec![1]);
    assert_eq!(choose_clusters(&scores, 1, 100), vec![1]);
    assert_eq!(choose_clusters(&scores, 9, 50), vec![1, 4, 2, 0]);
    assert!(choose_clusters(&scores, 3, 9).is_empty());
    assert!(choose_clusters(&scores, 0, 100).is_empty());
}

fn centroid(values: &[f32]) -> Vec<u8> {
    values.iter().flat_map(|v| v.to_le_bytes()).collect()
}

#[test]
fn written_index_is_read_back() {
    let doc_ids = vec![100, 101, 102, 103];
    let centroids = vec![centroid(&[1.5, 2.5, 3.5]), centroid(&[5.5, 6.5, 7.5])];
    let posting_lists = vec![vec![0, 3], vec![1, 2]];
    let bytes = IvfWriter::encode(3, &doc_ids, &centroids, &posting_lists).unwrap();
    // header 48, doc ids 40, centroids 32, directory 40, lists 32
    assert_eq!(bytes.len(), 192);
    assert_eq!(bytes.len() % 8, 0);

    let file = FixedIndexFile::new(bytes).unwrap();
    let header = file.header();
    assert_eq!(header.num_features, 3);
    assert_eq!(header.num_clusters, 2);
    assert_eq!(header.num_vectors, 4);
    assert_eq!(header.doc_id_mapping_len, 40);
    assert_eq!(header.centroids_len, 32);
    assert_eq!(header.posting_lists_len, 72);
    for (i, doc_id) in doc_ids.iter().enumerate() {
        assert_eq!(file.get_doc_id(i), Ok(*doc_id));
    }
    for (c, bytes) in centroids.iter().enumerate() {
        assert_eq!(file.get_centroid(c).unwrap(), &bytes[..]);
    }
    for (c, list) in posting_lists.iter().enumerate() {
        assert_eq!(file.get_posting_list(c), Ok(list.clone()));
    }
}

#[test]
fn written_centroids_are_padded() {
    // Three centroids of three features: 8 + 36 bytes, padded to 48.
    let centroids = vec![
        centroid(&[1.0, 2.0, 3.0]),
        centroid(&[4.0, 5.0, 6.0]),
        centroid(&[7.0, 8.0, 9.0]),
    ];
    let posting_lists = vec![vec![0], vec![], vec![1, 2]];
    let bytes = IvfWriter::encode(3, &vec![7, 8, 9], &centroids, &posting_lists).unwrap();
    assert_eq!(bytes.len(), 48 + 32 + 48 + 56 + 24);
    assert_eq!(&bytes[124..128], &[0, 0, 0, 0]);
    let file = FixedIndexFile::new(bytes).unwrap();
    assert_eq!(file.header().centroids_len, 44);
    assert_eq!(file.get_centroid(2).unwrap(), &centroids[2][..]);
    assert_eq!(file.get_posting_list(0), Ok(vec![0]));
    assert_eq!(file.get_posting_list(1), Ok(vec![]));
    assert_eq!(file.get_posting_list(2), Ok(vec![1, 2]));
    assert_eq!(file.get_doc_id(2), Ok(9));
}

#[test]
fn an_index_from_the_builder_is_written_and_read() {
    let mut builder = IvfBuilder::new(2, 2);
    builder.add_vector(10, &vec![0]).unwrap();
    builder.add_vector(11, &vec![1, 0]).unwrap();
    builder.add_vector(12, &vec![1]).unwrap();
    let centroids = vec![centroid(&[0.0]), centroid(&[1.0])];
    let bytes =
        IvfWriter::encode(1, builder.doc_ids(), &centroids, builder.posting_lists()).unwrap();
    let file = FixedIndexFile::new(bytes).unwrap();
    assert_eq!(file.get_posting_list(0), Ok(vec![0, 1]));
    assert_eq!(file.get_posting_list(1), Ok(vec![1, 2]));
    assert_eq!(file.get_doc_id(1), Ok(11));
}

#[test]
fn writer_rejects_what_cannot_be_written() {
    let one = vec![centroid(&[1.0, 2.0])];
    assert_eq!(
        IvfWriter::encode(2, &vec![], &one, &vec![]).err(),
        Some(WriteError::ClusterCountMismatch)
    );
    assert_eq!(
        IvfWriter::encode(3, &vec![], &one, &vec![vec![]]).err(),
        Some(WriteError::CentroidLength)
    );
    // An index of nothing can be written.
    let bytes = IvfWriter::encode(2, &vec![], &vec![], &vec![]).unwrap();
    assert_eq!(bytes.len(), 48 + 8 + 8 + 8);
    let file = FixedIndexFile::new(bytes).unwrap();
    assert_eq!(file.header().num_clusters, 0);
}
