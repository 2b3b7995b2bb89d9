use spann_core::compression::IntSeqEncoder;
use spann_core::elias_fano::{EliasFano, EliasFanoDecoder};
use spann_core::errors::ErrorKind;
use spann_core::index_file::{FixedIndexFile, IndexError, IntSeqEncodingType, Version};
use spann_core::ivf_builder::{choose_clusters, IvfBuilder};
use spann_core::ivf_writer::{IvfWriter, WriteError};
use spann_core::plain::{PlainDecoder, PlainEncoder};
use spann_core::ivf::Ivf;
use spann_core::ivf_reader::{IvfReader, ReadError};
use spann_core::ranking::{key_bits, score_key, IdWithScore};
use spann_core::spann_reader::SpannReader;
use spann_core::vector_storage::{FixedFileVectorStorage, StorageError};

fn create_fixed_file_vector_storage(dataset: &Vec<Vec<f32>>) -> Vec<u8> {
    let mut file: Vec<u8> = Vec::new();

    // Write number of vectors (8 bytes)
    let num_vectors = dataset.len() as u64;
    file.extend_from_slice(&num_vectors.to_le_bytes());

    // Write test data
    for vector in dataset.iter() {
        for element in vector.iter() {
            file.extend_from_slice(&element.to_le_bytes());
        }
    }
    file
}

fn create_fixed_file_index_storage(
    doc_id_mapping: &Vec<u64>,
    centroids: &Vec<Vec<f32>>,
    posting_lists: &Vec<Vec<u64>>,
) -> Vec<u8> {
    let mut file: Vec<u8> = Vec::new();

    let num_vectors = doc_id_mapping.len();
    let num_clusters = centroids.len();
    assert_eq!(num_clusters, posting_lists.len());

    // Create a test header
    let doc_id_mapping_len = 8 * (num_vectors + 1);
    let num_features = centroids[0].len();
    let centroids_len = 8 + num_features * num_clusters * 4;

    file.extend_from_slice(&0u8.to_le_bytes());
    file.extend_from_slice(&(num_features as u32).to_le_bytes());
    file.extend_from_slice(&(num_clusters as u32).to_le_bytes());
    file.extend_from_slice(&(num_vectors as u64).to_le_bytes());
    file.extend_from_slice(&(doc_id_mapping_len as u64).to_le_bytes());
    file.extend_from_slice(&(centroids_len as u64).to_le_bytes());
    file.extend_from_slice(&9u64.to_le_bytes());

    // Add padding to align to 8 bytes
    while file.len() % 8 != 0 {
        file.push(0);
    }

    // Write doc_id_mapping
    file.extend_from_slice(&(num_vectors as u64).to_le_bytes());
    for doc_id in doc_id_mapping.iter() {
        file.extend_from_slice(&doc_id.to_le_bytes());
    }

    // Write centroids
    file.extend_from_slice(&(num_clusters as u64).to_le_bytes());
    for centroid in centroids.iter() {
        for element in centroid.iter() {
            file.extend_from_slice(&element.to_le_bytes());
        }
    }
    while file.len() % 8 != 0 {
        file.push(0);
    }

    // Write posting lists
    file.extend_from_slice(&(num_clusters as u64).to_le_bytes());
    // Posting list offset starts at 0
    let mut pl_offset = 0;
    for posting_list in posting_lists.iter() {
        let pl_len = posting_list.len();
        file.extend_from_slice(&(pl_len as u64).to_le_bytes());
        file.extend_from_slice(&(pl_offset as u64).to_le_bytes());
        pl_offset += pl_len * 8;
    }
    for posting_list in posting_lists.iter() {
        for id in posting_list.iter() {
            file.extend_from_slice(&id.to_le_bytes());
        }
    }
    file
}

fn floats(bytes: &[u8]) -> Vec<f32> {
    bytes
        .chunks_exact(4)
        .map(|c| f32::from_le_bytes([c[0], c[1], c[2], c[3]]))
        .collect()
}

fn l2(a: &[f32], b: &[f32]) -> f32 {
    a.iter()
        .zip(b.iter())
        .map(|(x, y)| (x - y) * (x - y))
        .sum::<f32>()
        .sqrt()
}

fn l2_scorer(query: Vec<f32>) -> impl Fn(&[u8]) -> u32 {
    move |v: &[u8]| score_key(l2(&floats(v), &query).to_bits())
}

fn score_of(result: &IdWithScore) -> f32 {
    f32::from_bits(key_bits(result.score))
}

#[test]
fn test_ivf_new() {
    let dataset = vec![
        vec![1.0, 2.0, 3.0],
        vec![4.0, 5.0, 6.0],
        vec![7.0, 8.0, 9.0],
    ];
    let storage = FixedFileVectorStorage::new(create_fixed_file_vector_storage(&dataset), 3, 4)
        .expect("FixedFileVectorStorage should be created");

    let doc_id_mapping = vec![100, 101, 102];
    let centroids = vec![vec![1.5, 2.5, 3.5], vec![5.5, 6.5, 7.5]];
    let posting_lists = vec![vec![0], vec![1, 2]];
    let index_storage = FixedIndexFile::new(create_fixed_file_index_storage(
        &doc_id_mapping,
        &centroids,
        &posting_lists,
    ))
    .expect("FixedIndexFile should be created");

    let num_clusters = 2;

    let ivf = Ivf::new(storage, index_storage, num_clusters);

    assert_eq!(ivf.num_clusters, num_clusters);
    let cluster_0 = ivf.index_storage.get_posting_list(0);
    let cluster_1 = ivf.index_storage.get_posting_list(1);
    assert!(cluster_0.map_or(false, |list| list.contains(&0)));
    assert!(cluster_1.map_or(false, |list| list.contains(&2)));
}

#[test]
fn test_find_nearest_centroids() {
    let vector = vec![3.0, 4.0, 5.0];
    let doc_id_mapping = vec![100, 101, 102];
    let centroids = vec![
        vec![1.0, 2.0, 3.0],
        vec![4.0, 5.0, 6.0],
        vec![7.0, 8.0, 9.0],
    ];
    let posting_lists = vec![vec![0], vec![1], vec![2]];
    let index_storage = FixedIndexFile::new(create_fixed_file_index_storage(
        &doc_id_mapping,
        &centroids,
        &posting_lists,
    ))
    .expect("FixedIndexFile should be created");
    let num_probes = 2;

    let nearest = Ivf::find_nearest_centroids(&l2_scorer(vector), &index_storage, num_probes)
        .expect("Nearest centroids should be found");

    assert_eq!(nearest.len(), 2);
    assert_eq!(nearest[0], 1);
    assert_eq!(nearest[1], 0);
}

#[test]
fn test_ivf_search() {
    let dataset = vec![
        vec![1.0, 2.0, 3.0],
        vec![4.0, 5.0, 6.0],
        vec![7.0, 8.0, 9.0],
        vec![2.0, 3.0, 4.0],
    ];
    let storage = FixedFileVectorStorage::new(create_fixed_file_vector_storage(&dataset), 3, 4)
        .expect("FixedFileVectorStorage should be created");

    let doc_id_mapping = vec![100, 101, 102, 103];
    let centroids = vec![vec![1.5, 2.5, 3.5], vec![5.5, 6.5, 7.5]];
    let posting_lists = vec![vec![0, 3], vec![1, 2]];
    let index_storage = FixedIndexFile::new(create_fixed_file_index_storage(
        &doc_id_mapping,
        &centroids,
        &posting_lists,
    ))
    .expect("FixedIndexFile should be created");

    let num_clusters = 2;
    let num_probes = 2;

    let ivf = Ivf::new(storage, index_storage, num_clusters);

    let query = vec![2.0, 3.0, 4.0];
    let k = 2;

    let results = ivf
        .search(&l2_scorer(query), k, num_probes)
        .expect("IVF search should return a result");

    assert_eq!(results.len(), 2);
    assert_eq!(results[0].id, 3); // Closest to [2.0, 3.0, 4.0]
    assert_eq!(results[1].id, 0); // Second closest to [2.0, 3.0, 4.0]
    assert!(results[0].score < results[1].score);
    assert!(score_of(&results[0]) < score_of(&results[1]));
    assert_eq!(score_of(&results[0]), 0.0);
    assert!((score_of(&results[1]) - 1.732).abs() < 1e-3);
}

#[test]
fn test_ivf_search_with_empty_result() {
    let dataset = vec![vec![100.0, 200.0, 300.0]];
    let storage = FixedFileVectorStorage::new(create_fixed_file_vector_storage(&dataset), 3, 4)
        .expect("FixedFileVectorStorage should be created");

    let doc_id_mapping = vec![100];
    let centroids = vec![vec![100.0, 200.0, 300.0]];
    let posting_lists = vec![vec![0]];
    let index_storage = FixedIndexFile::new(create_fixed_file_index_storage(
        &doc_id_mapping,
        &centroids,
        &posting_lists,
    ))
    .expect("FixedIndexFile should be created");

    let num_clusters = 1;
    let num_probes = 1;

    let ivf = Ivf::new(storage, index_storage, num_clusters);

    let query = vec![1.0, 2.0, 3.0];
    let k = 5; // More than available results

    let results = ivf
        .search(&l2_scorer(query), k, num_probes)
        .expect("IVF search should return a result");

    assert_eq!(results.len(), 1); // Only one result available
    assert_eq!(results[0].id, 0);
}

fn sample_index() -> Vec<u8> {
    create_fixed_file_index_storage(
        &vec![100, 101, 102, 103],
        &vec![vec![1.5, 2.5, 3.5], vec![5.5, 6.5, 7.5]],
        &vec![vec![0, 3], vec![1, 2]],
    )
}

fn sample_vectors() -> Vec<u8> {
    create_fixed_file_vector_storage(&vec![
        vec![1.0, 2.0, 3.0],
        vec![4.0, 5.0, 6.0],
        vec![7.0, 8.0, 9.0],
        vec![2.0, 3.0, 4.0],
    ])
}

#[test]
fn index_file_header_and_sections() {
    let file = FixedIndexFile::new(sample_index()).unwrap();
    let header = file.header();
    assert_eq!(header.version, Version::V0);
    assert_eq!(header.num_features, 3);
    assert_eq!(header.num_clusters, 2);
    assert_eq!(header.num_vectors, 4);
    assert_eq!(header.doc_id_mapping_len, 40);
    assert_eq!(header.centroids_len, 32);
    assert_eq!(header.posting_lists_len, 9);

    for i in 0..4 {
        assert_eq!(file.get_doc_id(i), Ok(100 + i as u64));
    }
    assert_eq!(file.get_doc_id(4), Err(IndexError::IndexOutOfBound));

    assert_eq!(floats(file.get_centroid(0).unwrap()), vec![1.5, 2.5, 3.5]);
    assert_eq!(floats(file.get_centroid(1).unwrap()), vec![5.5, 6.5, 7.5]);
    assert_eq!(file.get_centroid(2), Err(IndexError::IndexOutOfBound));

    assert_eq!(file.get_posting_list(0), Ok(vec![0, 3]));
    assert_eq!(file.get_posting_list(1), Ok(vec![1, 2]));
    assert_eq!(file.get_posting_list(2), Err(IndexError::IndexOutOfBound));
}

#[test]
fn index_file_rejects_a_bad_header() {
    assert_eq!(
        FixedIndexFile::new(vec![0; 40]).err(),
        Some(IndexError::HeaderTruncated)
    );
    assert_eq!(FixedIndexFile::new(vec![]).err(), Some(IndexError::HeaderTruncated));
    let mut bytes = sample_index();
    bytes[0] = 1;
    assert_eq!(FixedIndexFile::new(bytes).err(), Some(IndexError::VersionMismatch));
    assert_eq!(IndexError::VersionMismatch.kind(), ErrorKind::IndexCorrupt);
    assert_eq!(IndexError::IndexOutOfBound.kind(), ErrorKind::IndexCorrupt);
}

#[test]
fn index_file_reports_truncated_sections() {
    let whole = sample_index();
    // header 48, doc ids 40, centroids 32, directory 8 + 32, lists 32
    assert_eq!(whole.len(), 192);

    let file = FixedIndexFile::new(whole[..80].to_vec()).unwrap();
    assert_eq!(file.get_doc_id(2), Ok(102));
    assert_eq!(file.get_doc_id(3), Err(IndexError::DocIdMappingTruncated));
    assert_eq!(file.get_centroid(0), Err(IndexError::OffsetOutOfRange));
    assert_eq!(file.get_posting_list(0), Err(IndexError::DirectoryInconsistent));

    let file = FixedIndexFile::new(whole[..108].to_vec()).unwrap();
    assert_eq!(floats(file.get_centroid(0).unwrap()), vec![1.5, 2.5, 3.5]);
    assert_eq!(file.get_centroid(1), Err(IndexError::OffsetOutOfRange));

    let file = FixedIndexFile::new(whole[..144].to_vec()).unwrap();
    assert_eq!(file.get_posting_list(0), Err(IndexError::OffsetOutOfRange));
    assert_eq!(file.get_posting_list(1), Err(IndexError::DirectoryInconsistent));

    let file = FixedIndexFile::new(whole[..176].to_vec()).unwrap();
    assert_eq!(file.get_posting_list(0), Ok(vec![0, 3]));
    assert_eq!(file.get_posting_list(1), Err(IndexError::OffsetOutOfRange));
}

#[test]
fn vector_storage_get() {
    let storage = FixedFileVectorStorage::new(sample_vectors(), 3, 4).unwrap();
    assert_eq!(storage.num_vectors(), 4);
    assert_eq!(storage.num_features(), 3);
    assert_eq!(floats(storage.get(0).unwrap()), vec![1.0, 2.0, 3.0]);
    assert_eq!(floats(storage.get(3).unwrap()), vec![2.0, 3.0, 4.0]);
    assert_eq!(storage.get(4), None);

    // A file that declares more vectors than it holds.
    let mut short = sample_vectors();
    short.truncate(8 + 12 + 5);
    let storage = FixedFileVectorStorage::new(short, 3, 4).unwrap();
    assert_eq!(storage.num_vectors(), 4);
    assert_eq!(floats(storage.get(0).unwrap()), vec![1.0, 2.0, 3.0]);
    assert_eq!(storage.get(1), None);
}

#[test]
fn vector_storage_rejects_unusable_files() {
    assert_eq!(
        FixedFileVectorStorage::new(vec![0; 7], 3, 4).err(),
        Some(StorageError::Truncated)
    );
    assert_eq!(
        FixedFileVectorStorage::new(vec![0; 8], usize::MAX, 2).err(),
        Some(StorageError::VectorTooLong)
    );
    assert!(FixedFileVectorStorage::new(vec![0; 8], 3, 4).is_ok());
}

#[test]
fn scan_skips_vectors_that_are_missing() {
    // The posting list names vector 7, which the vector file does not hold.
    let index = create_fixed_file_index_storage(
        &vec![100, 101, 102, 103],
        &vec![vec![1.5, 2.5, 3.5], vec![5.5, 6.5, 7.5]],
        &vec![vec![0, 7, 3], vec![]],
    );
    let ivf = Ivf::new(
        FixedFileVectorStorage::new(sample_vectors(), 3, 4).unwrap(),
        FixedIndexFile::new(index).unwrap(),
        2,
    );
    let scorer = l2_scorer(vec![2.0, 3.0, 4.0]);
    let scanned = ivf.scan_posting_list(0, &scorer).unwrap();
    assert_eq!(scanned.len(), 2);
    assert_eq!(scanned[0].id, 0);
    assert_eq!(scanned[1].id, 3);
    assert_eq!(score_of(&scanned[1]), 0.0);

    // An empty posting list gives nothing; one that is not there is an error.
    assert_eq!(ivf.scan_posting_list(1, &scorer), Ok(vec![]));
    assert_eq!(ivf.scan_posting_list(2, &scorer), Err(IndexError::IndexOutOfBound));

    // The search goes on with the other lists.
    let results = ivf.search(&scorer, 10, 2).unwrap();
    assert_eq!(results.len(), 2);
    assert_eq!(results[0].id, 3);
    assert_eq!(results[1].id, 0);
}

#[test]
fn search_with_given_centroids() {
    let ivf = Ivf::new(
        FixedFileVectorStorage::new(sample_vectors(), 3, 4).unwrap(),
        FixedIndexFile::new(sample_index()).unwrap(),
        2,
    );
    let scorer = l2_scorer(vec![4.0, 5.0, 6.0]);
    let results = ivf.search_with_centroids(&scorer, vec![1], 5).unwrap();
    assert_eq!(results.len(), 2);
    assert_eq!(results[0].id, 1);
    assert_eq!(results[1].id, 2);

    // A list scanned twice gives each of its vectors twice.
    let results = ivf.search_with_centroids(&scorer, vec![1, 1], 3).unwrap();
    assert_eq!(results.iter().map(|r| r.id).collect::<Vec<u64>>(), vec![1, 1, 2]);

    assert_eq!(ivf.search_with_centroids(&scorer, vec![0, 1], 0), Ok(vec![]));
    assert_eq!(ivf.search_with_centroids(&scorer, vec![], 3), Ok(vec![]));
    // A centroid that is not there fails the search, whatever else is found.
    assert_eq!(
        ivf.search_with_centroids(&scorer, vec![1, 2, 0], 3),
        Err(IndexError::IndexOutOfBound)
    );

    let ids = ivf.scan_ids(&[3, 2, 9], &scorer);
    assert_eq!(ids.iter().map(|r| r.id).collect::<Vec<u64>>(), vec![3, 2]);
}

#[test]
fn search_fails_where_a_centroid_cannot_be_read() {
    let whole = sample_index();
    let ivf = Ivf::new(
        FixedFileVectorStorage::new(sample_vectors(), 3, 4).unwrap(),
        FixedIndexFile::new(whole[..108].to_vec()).unwrap(),
        2,
    );
    let scorer = l2_scorer(vec![2.0, 3.0, 4.0]);
    assert_eq!(ivf.search(&scorer, 2, 2), Err(IndexError::OffsetOutOfRange));
    assert_eq!(
        Ivf::find_nearest_centroids(&scorer, &ivf.index_storage, 1),
        Err(IndexError::OffsetOutOfRange)
    );
}

#[test]
fn ties_between_results_go_to_the_lower_id() {
    // Vectors 0 and 1 are equally far from the query.
    let vectors = create_fixed_file_vector_storage(&vec![
        vec![1.0, 0.0],
        vec![-1.0, 0.0],
        vec![0.0, 3.0],
    ]);
    let index = create_fixed_file_index_storage(
        &vec![7, 8, 9],
        &vec![vec![0.0, 0.0]],
        &vec![vec![1, 0, 2]],
    );
    let ivf = Ivf::new(
        FixedFileVectorStorage::new(vectors, 2, 4).unwrap(),
        FixedIndexFile::new(index).unwrap(),
        1,
    );
    let results = ivf.search(&l2_scorer(vec![0.0, 0.0]), 2, 1).unwrap();
    assert_eq!(results.iter().map(|r| r.id).collect::<Vec<u64>>(), vec![0, 1]);
    assert_eq!(results[0].score, results[1].score);
}

#[test]
fn reader_opens_an_index_at_offsets() {
    let mut index_file = vec![0xaa; 16];
    index_file.extend_from_slice(&sample_index());
    let mut vector_file = vec![0xbb; 24];
    vector_file.extend_from_slice(&sample_vectors());

    let reader = IvfReader::new_with_offset("/data/ivf".to_string(), 16, 24);
    assert_eq!(reader.index_path(), "/data/ivf/index");
    assert_eq!(reader.vectors_path(), "/data/ivf/vectors");
    assert_eq!(reader.quantizer_directory(), "/data/ivf/quantizer");
    let ivf = reader.read(&index_file, &vector_file, 4).ok().unwrap();
    assert_eq!(ivf.num_clusters, 2);
    assert_eq!(ivf.vector_storage.num_features(), 3);
    let results = ivf.search(&l2_scorer(vec![2.0, 3.0, 4.0]), 2, 2).unwrap();
    assert_eq!(results[0].id, 3);
    assert_eq!(results[1].id, 0);

    let spann = SpannReader::new_with_offsets("/data".to_string(), 1, 2, 16, 24);
    assert_eq!(spann.posting_list_path(), "/data/ivf");
    assert_eq!(spann.centroid_path(), "/data/centroids");
    assert_eq!(spann.centroid_offsets(), (1, 2));
    assert_eq!(spann.ivf_reader().index_path(), "/data/ivf/index");
    let ivf = spann.read(&index_file, &vector_file, 4).ok().unwrap();
    assert_eq!(ivf.index_storage.get_doc_id(1), Ok(101));

    let plain = SpannReader::new("/data".to_string());
    assert_eq!(plain.centroid_offsets(), (0, 0));
    assert!(plain.read(&sample_index(), &sample_vectors(), 4).is_ok());
}

#[test]
fn reader_reports_what_cannot_be_opened() {
    let reader = IvfReader::new("/data/ivf".to_string());
    assert_eq!(
        reader.read(&[0; 10], &sample_vectors(), 4).err(),
        Some(ReadError::Index(IndexError::HeaderTruncated))
    );
    assert_eq!(
        reader.read(&sample_index(), &[0; 3], 4).err(),
        Some(ReadError::Storage(StorageError::Truncated))
    );
    let far = IvfReader::new_with_offset("/data/ivf".to_string(), 1000, 0);
    assert_eq!(
        far.read(&sample_index(), &sample_vectors(), 4).err(),
        Some(ReadError::IndexOffsetOutOfRange)
    );
    let far = IvfReader::new_with_offset("/data/ivf".to_string(), 0, 1000);
    assert_eq!(
        far.read(&sample_index(), &sample_vectors(), 4).err(),
        Some(ReadError::VectorOffsetOutOfRange)
    );
}

/// Numbers that look random, the same on every run.
struct Numbers(u64);

impl Numbers {
    fn next(&mut self) -> f32 {
        self.0 = self.0.wrapping_mul(6364136223846793005).wrapping_add(1442695040888963407);
        ((self.0 >> 40) as f32) / ((1u64 << 24) as f32)
    }

    fn vector(&mut self, len: usize) -> Vec<f32> {
        (0..len).map(|_| self.next()).collect()
    }
}

#[test]
fn scans_do_not_depend_on_the_codec() {
    let mut numbers = Numbers(7);
    let dataset: Vec<Vec<f32>> = (0..200).map(|_| numbers.vector(4)).collect();
    let ivf = Ivf::new(
        FixedFileVectorStorage::new(create_fixed_file_vector_storage(&dataset), 4, 4).unwrap(),
        FixedIndexFile::new(create_fixed_file_index_storage(
            &(0..200).collect(),
            &vec![vec![0.5; 4]],
            &vec![(0..200).collect()],
        ))
        .unwrap(),
        1,
    );
    let list: Vec<u64> = (0..200).filter(|i| i % 3 != 1).collect();

    let mut ef: EliasFano = IntSeqEncoder::new_encoder(Some(200), list.len());
    IntSeqEncoder::encode(&mut ef, &list).unwrap();
    let mut ef_bytes = Vec::new();
    ef.write(&mut ef_bytes).unwrap();
    let from_ef = EliasFanoDecoder::new_decoder(&ef_bytes).ok().unwrap().decode();

    let mut plain = PlainEncoder::new_encoder(None, list.len());
    plain.encode(&list).unwrap();
    let mut plain_bytes = Vec::new();
    plain.write(&mut plain_bytes).unwrap();
    let from_plain = PlainDecoder::decode(&plain_bytes);

    assert!(ef_bytes.len() < plain_bytes.len());
    for _ in 0..100 {
        let scorer = l2_scorer(numbers.vector(4));
        let a = ivf.scan_ids(&from_ef, &scorer);
        let b = ivf.scan_ids(&from_plain, &scorer);
        assert_eq!(a.len(), list.len());
        assert_eq!(a, b);
    }
}

#[test]
fn probing_every_cluster_finds_the_nearest_vectors() {
    let mut numbers = Numbers(42);
    let num_vectors = 300;
    let num_clusters = 5;
    let dataset: Vec<Vec<f32>> = (0..num_vectors).map(|_| numbers.vector(4)).collect();
    let centroids: Vec<Vec<f32>> = (0..num_clusters).map(|_| numbers.vector(4)).collect();

    // Each vector goes to its nearest centroid.
    let mut builder = IvfBuilder::new(num_clusters, 1);
    for (i, vector) in dataset.iter().enumerate() {
        let scores: Vec<u32> =
            centroids.iter().map(|c| score_key(l2(vector, c).to_bits())).collect();
        let clusters = choose_clusters(&scores, 1, u32::MAX);
        assert_eq!(clusters.len(), 1);
        assert_eq!(builder.add_vector(1000 + i as u64, &clusters), Ok(i as u64));
    }
    let centroid_bytes: Vec<Vec<u8>> = centroids
        .iter()
        .map(|c| c.iter().flat_map(|v| v.to_le_bytes()).collect())
        .collect();
    let index =
        IvfWriter::encode(4, builder.doc_ids(), &centroid_bytes, builder.posting_lists()).unwrap();
    let ivf = Ivf::new(
        FixedFileVectorStorage::new(create_fixed_file_vector_storage(&dataset), 4, 4).unwrap(),
        FixedIndexFile::new(index).unwrap(),
        num_clusters,
    );

    // More results asked for than there are vectors: every vector once.
    let all = ivf
        .search(&l2_scorer(numbers.vector(4)), num_vectors + 7, num_clusters as u32)
        .unwrap();
    assert_eq!(all.len(), num_vectors);
    let mut found: Vec<u64> = all.iter().map(|r| r.id).collect();
    found.sort();
    assert_eq!(found, (0..num_vectors as u64).collect::<Vec<u64>>());
    for pair in all.windows(2) {
        assert!(pair[0].precedes(&pair[1]));
    }

    for _ in 0..50 {
        let query = numbers.vector(4);
        let mut exact: Vec<(u32, u64)> = dataset
            .iter()
            .enumerate()
            .map(|(i, v)| (score_key(l2(v, &query).to_bits()), i as u64))
            .collect();
        exact.sort();
        let results = ivf.search(&l2_scorer(query), 10, num_clusters as u32).unwrap();
        assert_eq!(results.len(), 10);
        for (found, (score, id)) in results.iter().zip(exact.iter()) {
            assert_eq!(found.id, *id);
            assert_eq!(found.score, *score);
            assert_eq!(ivf.index_storage.get_doc_id(found.id as usize), Ok(1000 + id));
        }
    }
}

#[test]
fn indexes_with_either_encoding_give_the_same_results() {
    let mut numbers = Numbers(2024);
    let num_vectors = 1000;
    let num_clusters = 8;
    let dataset: Vec<Vec<f32>> = (0..num_vectors).map(|_| numbers.vector(4)).collect();
    let centroids: Vec<Vec<f32>> = (0..num_clusters).map(|_| numbers.vector(4)).collect();
    let mut builder = IvfBuilder::new(num_clusters, 2);
    for (i, vector) in dataset.iter().enumerate() {
        let scores: Vec<u32> =
            centroids.iter().map(|c| score_key(l2(vector, c).to_bits())).collect();
        let best = *scores.iter().min().unwrap();
        let clusters = choose_clusters(&scores, 2, best + (best >> 6));
        builder.add_vector(i as u64, &clusters).unwrap();
    }
    let centroid_bytes: Vec<Vec<u8>> = centroids
        .iter()
        .map(|c| c.iter().flat_map(|v| v.to_le_bytes()).collect())
        .collect();
    let vectors = create_fixed_file_vector_storage(&dataset);

    let open = |encoding: IntSeqEncodingType| {
        let index = IvfWriter::encode_with(
            4,
            builder.doc_ids(),
            &centroid_bytes,
            builder.posting_lists(),
            encoding,
        )
        .unwrap();
        let size = index.len();
        let ivf = IvfReader::new("/data".to_string())
            .read_encoded(&index, &vectors, 4, encoding)
            .ok()
            .unwrap();
        assert_eq!(ivf.index_storage.encoding(), encoding);
        (ivf, size)
    };
    let (plain, plain_size) = open(IntSeqEncodingType::PlainEncoding);
    let (packed, packed_size) = open(IntSeqEncodingType::EliasFano);
    assert!(packed_size < plain_size);

    for c in 0..num_clusters {
        assert_eq!(
            plain.index_storage.get_posting_list(c),
            Ok(builder.posting_lists()[c].clone())
        );
        assert_eq!(
            packed.index_storage.get_posting_list(c),
            Ok(builder.posting_lists()[c].clone())
        );
    }
    for _ in 0..1000 {
        let scorer = l2_scorer(numbers.vector(4));
        let a = plain.search(&scorer, 3, 2).unwrap();
        let b = packed.search(&scorer, 3, 2).unwrap();
        assert_eq!(a.len(), 3);
        assert_eq!(a, b);
    }
}

#[test]
fn compressed_lists_must_be_in_order() {
    let centroids = vec![vec![0u8; 4], vec![0u8; 4]];
    let doc_ids = vec![7, 8, 9];
    let lists = vec![vec![0, 2], vec![2, 1]];
    assert_eq!(
        IvfWriter::encode_with(1, &doc_ids, &centroids, &lists, IntSeqEncodingType::EliasFano)
            .err(),
        Some(WriteError::NotSorted)
    );
    // A plain file takes the lists as they are.
    let bytes = IvfWriter::encode(1, &doc_ids, &centroids, &lists).unwrap();
    let file = FixedIndexFile::new(bytes).unwrap();
    assert_eq!(file.get_posting_list(1), Ok(vec![2, 1]));
}

#[test]
fn a_file_read_in_the_wrong_encoding_is_malformed() {
    let centroids = vec![vec![0u8; 4]];
    let doc_ids: Vec<u64> = (0..40).collect();
    let lists = vec![(0..40).collect::<Vec<u64>>()];
    let plain = IvfWriter::encode(1, &doc_ids, &centroids, &lists).unwrap();
    let file =
        FixedIndexFile::new_with_encoding(plain, IntSeqEncodingType::EliasFano).unwrap();
    assert_eq!(file.get_posting_list(0), Err(IndexError::PostingListMalformed));
    assert_eq!(IndexError::PostingListMalformed.kind(), ErrorKind::IndexCorrupt);

    let packed =
        IvfWriter::encode_with(1, &doc_ids, &centroids, &lists, IntSeqEncodingType::EliasFano)
            .unwrap();
    let file = FixedIndexFile::new_with_encoding(packed.clone(), IntSeqEncodingType::EliasFano)
        .unwrap();
    assert_eq!(file.get_posting_list(0), Ok(lists[0].clone()));
    // As many values as the universe holds: no lower bits, and 79 upper
    // bits in two words.
    assert_eq!(file.get_posting_list_bytes(0).unwrap().len(), 24 + 16);
    // Read as a plain file, the length of the code counts ids: too many.
    let file = FixedIndexFile::new(packed).unwrap();
    assert_eq!(file.get_posting_list(0), Err(IndexError::OffsetOutOfRange));
}

#[test]
fn empty_lists_can_be_compressed() {
    let centroids = vec![vec![0u8; 8], vec![1u8; 8]];
    let doc_ids = vec![5, 6];
    let lists = vec![vec![], vec![0, 1]];
    let bytes =
        IvfWriter::encode_with(2, &doc_ids, &centroids, &lists, IntSeqEncodingType::EliasFano)
            .unwrap();
    let file = FixedIndexFile::new_with_encoding(bytes, IntSeqEncodingType::EliasFano).unwrap();
    assert_eq!(file.get_posting_list(0), Ok(vec![]));
    assert_eq!(file.get_posting_list(1), Ok(vec![0, 1]));
    assert_eq!(file.get_doc_id(1), Ok(6));
    assert_eq!(file.get_centroid(1).unwrap(), &[1u8; 8][..]);
}

#[test]
fn errors_have_kinds() {
    assert_eq!(StorageError::Truncated.kind(), ErrorKind::IndexCorrupt);
    assert_eq!(StorageError::VectorTooLong.kind(), ErrorKind::ConfigInvalid);
    assert_eq!(ReadError::IndexOffsetOutOfRange.kind(), ErrorKind::IndexCorrupt);
    assert_eq!(
        ReadError::Index(IndexError::HeaderTruncated).kind(),
        ErrorKind::IndexCorrupt
    );
    assert_eq!(
        ReadError::Storage(StorageError::VectorTooLong).kind(),
        ErrorKind::ConfigInvalid
    );
    assert_eq!(
        ReadError::Storage(StorageError::Truncated).kind(),
        ErrorKind::IndexCorrupt
    );
    assert_eq!(WriteError::NotSorted.kind(), ErrorKind::BuildFailed);
    assert_eq!(spann_core::ivf_builder::BuildError::NoCluster.kind(), ErrorKind::BuildFailed);
    assert_eq!(
        spann_core::compression::CodecError::Malformed.kind(),
        ErrorKind::IndexCorrupt
    );
    assert_eq!(
        spann_core::compression::CodecError::NotSorted.kind(),
        ErrorKind::BuildFailed
    );
}

#[test]
fn search_fails_where_a_posting_list_cannot_be_read() {
    // The file ends within the directory: the centroids can be read, the
    // first list lies past the end, the entry of the second is cut off.
    let whole = sample_index();
    let ivf = Ivf::new(
        FixedFileVectorStorage::new(sample_vectors(), 3, 4).unwrap(),
        FixedIndexFile::new(whole[..144].to_vec()).unwrap(),
        2,
    );
    let scorer = l2_scorer(vec![2.0, 3.0, 4.0]);
    assert_eq!(
        Ivf::find_nearest_centroids(&scorer, &ivf.index_storage, 2),
        Ok(vec![0, 1])
    );
    assert_eq!(ivf.scan_posting_list(0, &scorer), Err(IndexError::OffsetOutOfRange));
    assert_eq!(
        ivf.scan_posting_list(1, &scorer),
        Err(IndexError::DirectoryInconsistent)
    );
    // The error is that of the first centroid whose scan fails.
    assert_eq!(ivf.search(&scorer, 2, 2), Err(IndexError::OffsetOutOfRange));
    assert_eq!(ivf.search(&scorer, 2, 1), Err(IndexError::OffsetOutOfRange));
    assert_eq!(
        ivf.search_with_centroids(&scorer, vec![1, 0], 2),
        Err(IndexError::DirectoryInconsistent)
    );
    assert_eq!(ivf.search(&scorer, 2, 0), Ok(vec![]));
    assert_eq!(
        ivf.search(&scorer, 2, 2).err().map(|e| e.kind()),
        Some(ErrorKind::IndexCorrupt)
    );
}

#[test]
fn a_list_that_cannot_be_decoded_gives_no_result() {
    // A plain file opened as a compressed one: the bytes of its lists are
    // found, but are no codes.
    let doc_ids: Vec<u64> = (0..4).collect();
    let centroids = vec![
        vec![1.5f32, 2.5, 3.5].iter().flat_map(|v| v.to_le_bytes()).collect::<Vec<u8>>(),
        vec![5.5f32, 6.5, 7.5].iter().flat_map(|v| v.to_le_bytes()).collect::<Vec<u8>>(),
    ];
    let lists = vec![(0..24).collect::<Vec<u64>>(), vec![1, 2]];
    let mut bytes = IvfWriter::encode(3, &doc_ids, &centroids, &lists).unwrap();
    // The lengths in the directory count bytes in a compressed file.
    let directory = 48 + 40 + 32 + 8;
    bytes[directory..directory + 8].copy_from_slice(&192u64.to_le_bytes());
    bytes[directory + 16..directory + 24].copy_from_slice(&16u64.to_le_bytes());
    let file = FixedIndexFile::new_with_encoding(bytes, IntSeqEncodingType::EliasFano).unwrap();
    assert_eq!(file.get_posting_list(0), Err(IndexError::PostingListMalformed));
    assert_eq!(file.get_posting_list(1), Err(IndexError::PostingListMalformed));
    let ivf = Ivf::new(FixedFileVectorStorage::new(sample_vectors(), 3, 4).unwrap(), file, 2);
    let scorer = l2_scorer(vec![2.0, 3.0, 4.0]);
    assert_eq!(ivf.scan_posting_list(0, &scorer), Ok(vec![]));
    assert_eq!(ivf.search(&scorer, 2, 2), Ok(vec![]));
}
