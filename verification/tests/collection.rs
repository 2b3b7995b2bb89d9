use spann_core::catalog::CollectionCatalog;
use spann_core::collection::{
    parse_version_name, version_file_name, CollectionReader, TableOfContent,
};
use spann_core::multi_spann::{Loaded, Lookup, MultiSpannIndex, UserIndexInfo, DEFAULT_USER};

fn names(list: &[&str]) -> Vec<String> {
    list.iter().map(|s| s.to_string()).collect()
}

#[test]
fn version_names_are_parsed() {
    assert_eq!(parse_version_name(b"version_0"), Some(0));
    assert_eq!(parse_version_name(b"version_1"), Some(1));
    assert_eq!(parse_version_name(b"version_42"), Some(42));
    assert_eq!(parse_version_name(b"version_007"), Some(7));
    assert_eq!(
        parse_version_name(b"version_18446744073709551615"),
        Some(u64::MAX)
    );
}

#[test]
fn other_names_are_no_versions() {
    assert_eq!(parse_version_name(b""), None);
    assert_eq!(parse_version_name(b"version_"), None);
    assert_eq!(parse_version_name(b"version"), None);
    assert_eq!(parse_version_name(b"version_x"), None);
    assert_eq!(parse_version_name(b"version_1x"), None);
    assert_eq!(parse_version_name(b"version_-1"), None);
    assert_eq!(parse_version_name(b"version_+1"), None);
    assert_eq!(parse_version_name(b"version_1 "), None);
    assert_eq!(parse_version_name(b"Version_1"), None);
    assert_eq!(parse_version_name(b"versions_1"), None);
    assert_eq!(parse_version_name(b"segment1"), None);
    assert_eq!(parse_version_name(b"collection_config.json"), None);
    // One more than fits in 64 bits.
    assert_eq!(parse_version_name(b"version_18446744073709551616"), None);
    assert_eq!(parse_version_name(b"version_99999999999999999999999"), None);
}

#[test]
fn latest_version_is_the_highest() {
    // A collection with two segments and two versions.
    let listing = names(&[
        "collection_config.json",
        "segment1",
        "segment2",
        "version_0",
        "version_1",
    ]);
    assert_eq!(CollectionReader::latest_version(&listing), Some(1));

    let listing = names(&["version_10", "version_9", "version_2", "version_x"]);
    assert_eq!(CollectionReader::latest_version(&listing), Some(10));

    let listing = names(&["version_0"]);
    assert_eq!(CollectionReader::latest_version(&listing), Some(0));
}

#[test]
fn an_empty_collection_has_no_version() {
    assert_eq!(CollectionReader::latest_version(&names(&[])), None);
    let listing = names(&["collection_config.json", "segment1", "version_"]);
    assert_eq!(CollectionReader::latest_version(&listing), None);
}

#[test]
fn collection_paths() {
    let reader = CollectionReader::new("/data/books".to_string());
    assert_eq!(reader.config_path(), "/data/books/collection_config.json");
    assert_eq!(reader.entry_path("version_1"), "/data/books/version_1");

    let toc = TableOfContent::new(names(&["segment1", "segment2"]));
    assert_eq!(toc.toc, names(&["segment1", "segment2"]));
    // The snapshot of version 1 has two segments, in the order of the table.
    assert_eq!(
        reader.segment_paths(&toc),
        names(&["/data/books/segment1", "/data/books/segment2"])
    );
    assert!(reader.segment_paths(&TableOfContent::new(vec![])).is_empty());
}

#[test]
fn catalog_adds_and_finds() {
    let mut catalog: CollectionCatalog<u32> = CollectionCatalog::new();
    assert!(!catalog.collection_exists("books"));
    assert_eq!(catalog.get_collection("books"), None);
    assert!(catalog.get_all_collection_names_sorted().is_empty());

    catalog.add_collection("books".to_string(), 1);
    catalog.add_collection("articles".to_string(), 2);
    catalog.add_collection("zines".to_string(), 3);
    catalog.add_collection("Books".to_string(), 4);
    assert!(catalog.collection_exists("books"));
    assert!(catalog.collection_exists("Books"));
    assert!(!catalog.collection_exists("book"));
    assert_eq!(catalog.get_collection("articles"), Some(&2));
    assert_eq!(catalog.get_collection("zines"), Some(&3));
    assert_eq!(catalog.get_collection(""), None);

    // In the order of the bytes: capitals first.
    assert_eq!(
        catalog.get_all_collection_names_sorted(),
        names(&["Books", "articles", "books", "zines"])
    );
}

#[test]
fn catalog_replaces_under_the_same_name() {
    let mut catalog: CollectionCatalog<&str> = CollectionCatalog::new();
    catalog.add_collection("books".to_string(), "first");
    catalog.add_collection("books".to_string(), "second");
    assert_eq!(catalog.get_collection("books"), Some(&"second"));
    assert_eq!(catalog.get_all_collection_names_sorted(), names(&["books"]));
}

#[test]
fn multi_spann_lookup() {
    let index = MultiSpannIndex::new("/data/seg".to_string());
    let info = UserIndexInfo {
        centroid_index_offset: 8,
        centroid_vector_offset: 16,
        ivf_index_offset: 24,
        ivf_vectors_offset: 32,
    };
    assert!(matches!(index.lookup(true, None), Lookup::Open));
    assert!(matches!(index.lookup(true, Some(info)), Lookup::Open));
    assert!(matches!(index.lookup(false, None), Lookup::Unknown));
    match index.lookup(false, Some(info)) {
        Lookup::Load(reader) => {
            assert_eq!(reader.centroid_offsets(), (8, 16));
            assert_eq!(reader.posting_list_path(), "/data/seg/ivf");
            assert_eq!(reader.centroid_path(), "/data/seg/centroids");
            let ivf = reader.ivf_reader();
            assert_eq!(ivf.index_path(), "/data/seg/ivf/index");
        }
        _ => panic!("the index should be loaded"),
    }
    assert_eq!(MultiSpannIndex::loaded(true), Loaded::KeepAndSearch);
    assert_eq!(MultiSpannIndex::loaded(false), Loaded::NoResult);
    assert_eq!(DEFAULT_USER, 0);
}

#[test]
fn user_index_info_checks() {
    let info = UserIndexInfo {
        centroid_index_offset: 8,
        centroid_vector_offset: 16,
        ivf_index_offset: 24,
        ivf_vectors_offset: 32,
    };
    assert!(info.is_aligned());
    assert!(info.is_ordered());
    assert!(info.is_addressable());

    let first = UserIndexInfo {
        centroid_index_offset: 0,
        centroid_vector_offset: 0,
        ivf_index_offset: 0,
        ivf_vectors_offset: 0,
    };
    assert!(first.is_aligned());
    assert!(!first.is_ordered());

    let odd = UserIndexInfo { ivf_index_offset: 25, ..info };
    assert!(!odd.is_aligned());
    assert!(odd.is_ordered());
    let back = UserIndexInfo { ivf_vectors_offset: 24, ..info };
    assert!(!back.is_ordered());
}

#[test]
fn version_files_are_named_by_their_number() {
    assert_eq!(version_file_name(0), "version_0");
    assert_eq!(version_file_name(7), "version_7");
    assert_eq!(version_file_name(10), "version_10");
    assert_eq!(version_file_name(1234567890), "version_1234567890");
    assert_eq!(version_file_name(u64::MAX), "version_18446744073709551615");
    for version in [0, 9, 10, 99, 100, 4096, u64::MAX] {
        assert_eq!(
            parse_version_name(version_file_name(version).as_bytes()),
            Some(version)
        );
    }
    let reader = CollectionReader::new("/data/books".to_string());
    assert_eq!(reader.version_path(12), "/data/books/version_12");
}

#[test]
fn the_next_version_is_a_new_one() {
    assert_eq!(CollectionReader::next_version(&names(&[])), Some(0));
    assert_eq!(
        CollectionReader::next_version(&names(&["segment1", "collection_config.json"])),
        Some(0)
    );
    assert_eq!(CollectionReader::next_version(&names(&["version_0"])), Some(1));
    assert_eq!(
        CollectionReader::next_version(&names(&["version_3", "version_11", "version_9"])),
        Some(12)
    );
    assert_eq!(
        CollectionReader::next_version(&names(&["version_18446744073709551615"])),
        None
    );
}
