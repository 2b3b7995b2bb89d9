//! Writing the index file of an inverted-file index.
//!
//! The layout is the one that [`crate::index_file`] reads. Whatever is
//! written is read back as it was: see
//! [`lemma_index_file_round_trip`].

use vstd::prelude::*;
use vstd::bytes::{
    lemma_auto_spec_u32_to_from_le_bytes, lemma_auto_spec_u64_to_from_le_bytes,
    spec_u32_to_le_bytes, spec_u64_to_le_bytes, u32_to_le_bytes, u64_to_le_bytes,
};
use vstd::slice::slice_to_vec;
use crate::compression::{CodecError, IntSeqEncoder};
use crate::elias_fano::{
    code_bytes, code_of, encodable, is_non_decreasing, lemma_code_of_round_trip, lower_bit_width,
    EliasFano,
};
use crate::index_file::{
    align8, centroid_at, doc_id_at, parse_header, posting_list_at, posting_list_bytes_at, Header,
    IndexError, IntSeqEncodingType, Version,
};
use crate::little_endian::u64_at;
use crate::plain::{
    lemma_plain_encoding_at, lemma_plain_encoding_len, lemma_plain_round_trip, plain_encoding,
};

verus! {

/// Why an index cannot be written.
#[derive(Clone, Copy, Debug, PartialEq, Eq)]
pub enum WriteError {
    /// There is not one posting list for each centroid.
    ClusterCountMismatch,
    /// A centroid does not have four bytes for each feature.
    CentroidLength,
    /// A posting list that is to be compressed is not in order.
    NotSorted,
    /// There are more clusters than a header can say, a posting list is
    /// longer than its code can be, or the file would be longer than can be
    /// addressed.
    TooLarge,
}

/// The byte vectors as sequences.
pub open spec fn byte_views(v: Seq<Vec<u8>>) -> Seq<Seq<u8>> {
    v.map_values(|c: Vec<u8>| c@)
}

/// The lists as sequences.
pub open spec fn list_views(v: Seq<Vec<u64>>) -> Seq<Seq<u64>> {
    v.map_values(|l: Vec<u64>| l@)
}

/// The bytes of a posting list in the given encoding, in an index of
/// `universe` vectors.
pub open spec fn list_code(list: Seq<u64>, universe: nat, encoding: IntSeqEncodingType) -> Seq<
    u8,
> {
    match encoding {
        IntSeqEncodingType::PlainEncoding => plain_encoding(list),
        IntSeqEncodingType::EliasFano => code_bytes(code_of(list, universe)),
    }
}

/// The length of a posting list as the directory gives it: the number of
/// its ids where it is plainly encoded, the number of its bytes where it is
/// compressed.
pub open spec fn list_length(list: Seq<u64>, universe: nat, encoding: IntSeqEncodingType) -> nat {
    match encoding {
        IntSeqEncodingType::PlainEncoding => list.len(),
        IntSeqEncodingType::EliasFano => list_code(list, universe, encoding).len(),
    }
}

/// Whether a posting list can be written in the given encoding, and why
/// not.
pub open spec fn list_writable(
    list: Seq<u64>,
    universe: nat,
    encoding: IntSeqEncodingType,
) -> Result<(), WriteError> {
    match encoding {
        IntSeqEncodingType::PlainEncoding => Ok(()),
        IntSeqEncodingType::EliasFano => match encodable(list, universe) {
            Ok(_) => Ok(()),
            Err(CodecError::NotSorted) => Err(WriteError::NotSorted),
            Err(_) => Err(WriteError::TooLarge),
        },
    }
}

/// Why the first of the first `below` lists that cannot be written cannot be
/// written; `None` where all of them can.
pub open spec fn first_unwritable(
    lists: Seq<Seq<u64>>,
    universe: nat,
    encoding: IntSeqEncodingType,
    below: int,
) -> Option<WriteError>
    decreases below,
{
    if below <= 0 {
        None
    } else {
        match first_unwritable(lists, universe, encoding, below - 1) {
            Some(e) => Some(e),
            None => match list_writable(lists[below - 1], universe, encoding) {
                Err(e) => Some(e),
                Ok(_) => None,
            },
        }
    }
}

/// The entries of the posting-list directory: for each list its length and
/// the offset of its first byte among the bytes of all lists.
pub open spec fn directory_entries(
    lists: Seq<Seq<u64>>,
    universe: nat,
    encoding: IntSeqEncodingType,
) -> Seq<u8>
    decreases lists.len(),
{
    if lists.len() == 0 {
        Seq::empty()
    } else {
        directory_entries(lists.drop_last(), universe, encoding) + spec_u64_to_le_bytes(
            list_length(lists.last(), universe, encoding) as u64,
        ) + spec_u64_to_le_bytes(payload(lists.drop_last(), universe, encoding).len() as u64)
    }
}

/// The bytes of all lists, one list after another.
pub open spec fn payload(
    lists: Seq<Seq<u64>>,
    universe: nat,
    encoding: IntSeqEncodingType,
) -> Seq<u8>
    decreases lists.len(),
{
    if lists.len() == 0 {
        Seq::empty()
    } else {
        payload(lists.drop_last(), universe, encoding) + list_code(
            lists.last(),
            universe,
            encoding,
        )
    }
}

/// `n` zero bytes.
pub open spec fn zero_bytes(n: int) -> Seq<u8> {
    Seq::new(n as nat, |i: int| 0u8)
}

/// The header of the file that holds the given index.
pub open spec fn header_for(
    num_features: u32,
    doc_ids: Seq<u64>,
    centroids: Seq<Seq<u8>>,
    lists: Seq<Seq<u64>>,
    encoding: IntSeqEncodingType,
) -> Header {
    Header {
        version: Version::V0,
        num_features,
        num_clusters: centroids.len() as u32,
        num_vectors: doc_ids.len() as u64,
        doc_id_mapping_len: (8 + 8 * doc_ids.len()) as u64,
        centroids_len: (8 + 4 * num_features * centroids.len()) as u64,
        posting_lists_len: (8 + 16 * lists.len() + payload(lists, doc_ids.len(), encoding).len()) as u64,
    }
}

/// The bytes of a header, with its padding.
pub open spec fn header_bytes(h: Header) -> Seq<u8> {
    seq![0u8] + spec_u32_to_le_bytes(h.num_features) + spec_u32_to_le_bytes(h.num_clusters)
        + spec_u64_to_le_bytes(h.num_vectors) + spec_u64_to_le_bytes(h.doc_id_mapping_len)
        + spec_u64_to_le_bytes(h.centroids_len) + spec_u64_to_le_bytes(h.posting_lists_len)
        + zero_bytes(7)
}

/// The doc-id mapping: the count and the ids.
pub open spec fn doc_id_section(doc_ids: Seq<u64>) -> Seq<u8> {
    spec_u64_to_le_bytes(doc_ids.len() as u64) + plain_encoding(doc_ids)
}

/// The centroids: the count and the bytes of each centroid, padded to a
/// multiple of 8.
pub open spec fn centroid_section(centroids: Seq<Seq<u8>>) -> Seq<u8> {
    let body = spec_u64_to_le_bytes(centroids.len() as u64) + centroids.flatten();
    body + zero_bytes(align8(body.len() as int) - body.len())
}

/// The posting lists: the count, the directory and the bytes of the lists.
pub open spec fn posting_list_section(
    lists: Seq<Seq<u64>>,
    universe: nat,
    encoding: IntSeqEncodingType,
) -> Seq<u8> {
    spec_u64_to_le_bytes(lists.len() as u64) + directory_entries(lists, universe, encoding)
        + payload(lists, universe, encoding)
}

/// The length of the file that holds the given index.
pub open spec fn index_file_len(
    num_features: u32,
    doc_ids: Seq<u64>,
    centroids: Seq<Seq<u8>>,
    lists: Seq<Seq<u64>>,
    encoding: IntSeqEncodingType,
) -> int {
    48 + (8 + 8 * doc_ids.len()) + align8(8 + 4 * num_features * centroids.len()) + (8 + 16
        * lists.len() + payload(lists, doc_ids.len(), encoding).len())
}

/// The file that holds the given index.
pub open spec fn index_file_bytes(
    num_features: u32,
    doc_ids: Seq<u64>,
    centroids: Seq<Seq<u8>>,
    lists: Seq<Seq<u64>>,
    encoding: IntSeqEncodingType,
) -> Seq<u8> {
    header_bytes(header_for(num_features, doc_ids, centroids, lists, encoding)) + doc_id_section(
        doc_ids,
    ) + centroid_section(centroids) + posting_list_section(lists, doc_ids.len(), encoding)
}

/// Whether the given index can be written, and why not.
pub open spec fn writable(
    num_features: u32,
    doc_ids: Seq<u64>,
    centroids: Seq<Seq<u8>>,
    lists: Seq<Seq<u64>>,
    encoding: IntSeqEncodingType,
) -> Result<(), WriteError> {
    if centroids.len() != lists.len() {
        Err(WriteError::ClusterCountMismatch)
    } else if exists|c: int| 0 <= c < centroids.len() && (#[trigger] centroids[c]).len() != 4
        * num_features {
        Err(WriteError::CentroidLength)
    } else if centroids.len() > u32::MAX {
        Err(WriteError::TooLarge)
    } else if first_unwritable(lists, doc_ids.len(), encoding, lists.len() as int) is Some {
        Err(first_unwritable(lists, doc_ids.len(), encoding, lists.len() as int)->Some_0)
    } else if index_file_len(num_features, doc_ids, centroids, lists, encoding) > usize::MAX {
        Err(WriteError::TooLarge)
    } else {
        Ok(())
    }
}

/// Where all of the first `below` lists can be written, each of them can.
proof fn lemma_all_writable(
    lists: Seq<Seq<u64>>,
    universe: nat,
    encoding: IntSeqEncodingType,
    below: int,
    c: int,
)
    requires
        0 <= c < below,
        first_unwritable(lists, universe, encoding, below) is None,
    ensures
        list_writable(lists[c], universe, encoding) is Ok,
    decreases below,
{
    if c < below - 1 {
        lemma_all_writable(lists, universe, encoding, below - 1, c);
    }
}

/// Once a list cannot be written, the first such list stays the same however
/// many more are looked at.
proof fn lemma_first_unwritable_stays(
    lists: Seq<Seq<u64>>,
    universe: nat,
    encoding: IntSeqEncodingType,
    from: int,
    to: int,
)
    requires
        0 < from <= to,
        first_unwritable(lists, universe, encoding, from) is Some,
    ensures
        first_unwritable(lists, universe, encoding, to) == first_unwritable(
            lists,
            universe,
            encoding,
            from,
        ),
    decreases to - from,
{
    if from < to {
        lemma_first_unwritable_stays(lists, universe, encoding, from, to - 1);
    }
}

/// The bytes of the first `i` lists are no more than those of all, and one
/// more list adds its code.
proof fn lemma_payload_take(
    lists: Seq<Seq<u64>>,
    universe: nat,
    encoding: IntSeqEncodingType,
    i: int,
)
    requires
        0 <= i <= lists.len(),
    ensures
        payload(lists.take(i), universe, encoding).len() <= payload(lists, universe, encoding).len(),
        i < lists.len() ==> payload(lists.take(i + 1), universe, encoding) == payload(
            lists.take(i),
            universe,
            encoding,
        ) + list_code(lists[i], universe, encoding),
        i < lists.len() ==> payload(lists.take(i), universe, encoding).len() + list_code(
            lists[i],
            universe,
            encoding,
        ).len() <= payload(lists, universe, encoding).len(),
    decreases lists.len() - i,
{
    if i == lists.len() {
        assert(lists.take(i) =~= lists);
    } else {
        lemma_payload_take(lists, universe, encoding, i + 1);
        assert(lists.take(i + 1).drop_last() =~= lists.take(i));
        assert(lists.take(i + 1).last() == lists[i]);
    }
}

/// The directory has 16 bytes for each list.
pub proof fn lemma_directory_len(
    lists: Seq<Seq<u64>>,
    universe: nat,
    encoding: IntSeqEncodingType,
)
    ensures
        directory_entries(lists, universe, encoding).len() == 16 * lists.len(),
    decreases lists.len(),
{
    lemma_auto_spec_u64_to_from_le_bytes();
    if lists.len() > 0 {
        lemma_directory_len(lists.drop_last(), universe, encoding);
    }
}

/// Centroids of one length, one after another, take that length each.
pub proof fn lemma_flatten_len(centroids: Seq<Seq<u8>>, width: nat)
    requires
        forall|c: int| 0 <= c < centroids.len() ==> (#[trigger] centroids[c]).len() == width,
    ensures
        centroids.flatten().len() == centroids.len() * width,
    decreases centroids.len(),
{
    if centroids.len() == 0 {
    } else {
        let before = centroids.drop_last();
        lemma_flatten_len(before, width);
        assert(centroids =~= before.push(centroids.last()));
        before.lemma_flatten_push(centroids.last());
        assert(centroids.len() * width == before.len() * width + width) by (nonlinear_arith)
            requires
                centroids.len() == before.len() + 1,
        ;
    }
}

/// The first `i` byte strings, one after another, are no longer than all of
/// them.
proof fn lemma_flatten_take(parts: Seq<Seq<u8>>, i: int)
    requires
        0 <= i <= parts.len(),
    ensures
        parts.take(i).flatten().len() <= parts.flatten().len(),
    decreases parts.len() - i,
{
    if i == parts.len() {
        assert(parts.take(i) =~= parts);
    } else {
        lemma_flatten_take(parts, i + 1);
        assert(parts.take(i + 1) =~= parts.take(i).push(parts[i]));
        parts.take(i).lemma_flatten_push(parts[i]);
    }
}

/// Centroid `i` stands at its place among the centroids.
proof fn lemma_flatten_at(centroids: Seq<Seq<u8>>, width: nat, i: int)
    requires
        forall|c: int| 0 <= c < centroids.len() ==> (#[trigger] centroids[c]).len() == width,
        0 <= i < centroids.len(),
    ensures
        0 <= i * width,
        i * width + width <= centroids.flatten().len(),
        centroids.flatten().subrange(i * width, i * width + width) == centroids[i],
    decreases centroids.len(),
{
    let before = centroids.drop_last();
    lemma_flatten_len(before, width);
    lemma_flatten_len(centroids, width);
    assert(centroids =~= before.push(centroids.last()));
    before.lemma_flatten_push(centroids.last());
    assert(0 <= i * width && i * width + width <= centroids.len() * width) by (nonlinear_arith)
        requires
            0 <= i < centroids.len(),
    ;
    if i < before.len() {
        lemma_flatten_at(before, width, i);
        assert((before.flatten() + centroids.last()).subrange(i * width, i * width + width)
            =~= before.flatten().subrange(i * width, i * width + width));
    } else {
        assert(i * width == before.len() * width);
        assert((before.flatten() + centroids.last()).subrange(i * width, i * width + width)
            =~= centroids.last());
    }
}

/// Entry `i` of the directory holds the length of list `i` and the offset of
/// its bytes.
proof fn lemma_directory_at(
    lists: Seq<Seq<u64>>,
    universe: nat,
    encoding: IntSeqEncodingType,
    i: int,
)
    requires
        0 <= i < lists.len(),
    ensures
        directory_entries(lists, universe, encoding).len() == 16 * lists.len(),
        directory_entries(lists, universe, encoding).subrange(16 * i, 16 * i + 8)
            == spec_u64_to_le_bytes(list_length(lists[i], universe, encoding) as u64),
        directory_entries(lists, universe, encoding).subrange(16 * i + 8, 16 * i + 16)
            == spec_u64_to_le_bytes(payload(lists.take(i), universe, encoding).len() as u64),
    decreases lists.len(),
{
    lemma_auto_spec_u64_to_from_le_bytes();
    lemma_directory_len(lists, universe, encoding);
    let before = lists.drop_last();
    lemma_directory_len(before, universe, encoding);
    let head = directory_entries(before, universe, encoding);
    let a = spec_u64_to_le_bytes(list_length(lists.last(), universe, encoding) as u64);
    let b = spec_u64_to_le_bytes(payload(before, universe, encoding).len() as u64);
    assert(directory_entries(lists, universe, encoding) == head + a + b);
    if i < before.len() {
        lemma_directory_at(before, universe, encoding, i);
        assert(before.take(i) =~= lists.take(i));
        assert((head + a + b).subrange(16 * i, 16 * i + 8) =~= head.subrange(16 * i, 16 * i + 8));
        assert((head + a + b).subrange(16 * i + 8, 16 * i + 16) =~= head.subrange(
            16 * i + 8,
            16 * i + 16,
        ));
    } else {
        assert(lists.take(i) =~= before);
        assert((head + a + b).subrange(16 * i, 16 * i + 8) =~= a);
        assert((head + a + b).subrange(16 * i + 8, 16 * i + 16) =~= b);
    }
}

/// The bytes of list `i` stand at its offset among the bytes of all lists.
proof fn lemma_payload_at(
    lists: Seq<Seq<u64>>,
    universe: nat,
    encoding: IntSeqEncodingType,
    i: int,
)
    requires
        0 <= i < lists.len(),
    ensures
        payload(lists.take(i), universe, encoding).len() + list_code(
            lists[i],
            universe,
            encoding,
        ).len() <= payload(lists, universe, encoding).len(),
        payload(lists, universe, encoding).subrange(
            payload(lists.take(i), universe, encoding).len() as int,
            (payload(lists.take(i), universe, encoding).len() + list_code(
                lists[i],
                universe,
                encoding,
            ).len()) as int,
        ) == list_code(lists[i], universe, encoding),
    decreases lists.len(),
{
    lemma_payload_take(lists, universe, encoding, i);
    let before = lists.drop_last();
    let head = payload(before, universe, encoding);
    let tail = list_code(lists.last(), universe, encoding);
    let at: int = payload(lists.take(i), universe, encoding).len() as int;
    let size: int = list_code(lists[i], universe, encoding).len() as int;
    if i < before.len() {
        lemma_payload_at(before, universe, encoding, i);
        assert(before.take(i) =~= lists.take(i));
        assert((head + tail).subrange(at, at + size) =~= head.subrange(at, at + size));
    } else {
        assert(lists.take(i) =~= before);
        assert((head + tail).subrange(at, at + size) =~= tail);
    }
}

/// The lengths of the sections of a file that can be written.
proof fn lemma_file_lens(
    num_features: u32,
    doc_ids: Seq<u64>,
    centroids: Seq<Seq<u8>>,
    lists: Seq<Seq<u64>>,
    encoding: IntSeqEncodingType,
)
    requires
        writable(num_features, doc_ids, centroids, lists, encoding) is Ok,
    ensures
        header_bytes(header_for(num_features, doc_ids, centroids, lists, encoding)).len() == 48,
        doc_id_section(doc_ids).len() == 8 + 8 * doc_ids.len(),
        centroids.flatten().len() == 4 * num_features * centroids.len(),
        centroid_section(centroids).len() == align8(8 + 4 * num_features * centroids.len()),
        posting_list_section(lists, doc_ids.len(), encoding).len() == 8 + 16 * lists.len()
            + payload(lists, doc_ids.len(), encoding).len(),
        index_file_bytes(num_features, doc_ids, centroids, lists, encoding).len()
            == index_file_len(num_features, doc_ids, centroids, lists, encoding),
        0 <= 4 * num_features * centroids.len(),
        8 + 4 * num_features * centroids.len() <= align8(8 + 4 * num_features * centroids.len())
            < 8 + 4 * num_features * centroids.len() + 8,
{
    lemma_auto_spec_u32_to_from_le_bytes();
    lemma_auto_spec_u64_to_from_le_bytes();
    lemma_plain_encoding_len(doc_ids);
    lemma_directory_len(lists, doc_ids.len(), encoding);
    let width = (4 * num_features) as nat;
    assert forall|c: int| 0 <= c < centroids.len() implies (#[trigger] centroids[c]).len()
        == width by {}
    lemma_flatten_len(centroids, width);
    assert(centroids.len() * width == 4 * num_features * centroids.len()) by (nonlinear_arith)
        requires
            width == 4 * num_features,
    ;
    assert(0 <= 4 * num_features * centroids.len()) by (nonlinear_arith);
}

/// The code of a list that can be written is read back as the list, and
/// has the length that the directory and the reader take it to have.
proof fn lemma_list_round_trip(list: Seq<u64>, universe: nat, encoding: IntSeqEncodingType)
    requires
        universe <= usize::MAX,
        list.len() <= usize::MAX,
        list_code(list, universe, encoding).len() <= usize::MAX,
        list_writable(list, universe, encoding) is Ok,
    ensures
        crate::index_file::decoded_list(list_code(list, universe, encoding), encoding) == Ok::<
            Seq<u64>,
            IndexError,
        >(list),
        list_code(list, universe, encoding).len() == (match encoding {
            IntSeqEncodingType::PlainEncoding => 8 * list_length(list, universe, encoding),
            IntSeqEncodingType::EliasFano => list_length(list, universe, encoding),
        }),
{
    match encoding {
        IntSeqEncodingType::PlainEncoding => {
            lemma_plain_round_trip(list);
            lemma_plain_encoding_len(list);
        },
        IntSeqEncodingType::EliasFano => {
            lemma_code_of_round_trip(list, universe);
        },
    }
}

/// The header of a file that was written is read back as it was.
proof fn lemma_round_trip_header(
    num_features: u32,
    doc_ids: Seq<u64>,
    centroids: Seq<Seq<u8>>,
    lists: Seq<Seq<u64>>,
    encoding: IntSeqEncodingType,
)
    requires
        writable(num_features, doc_ids, centroids, lists, encoding) is Ok,
    ensures
        parse_header(index_file_bytes(num_features, doc_ids, centroids, lists, encoding)) == Ok::<
            Header,
            IndexError,
        >(header_for(num_features, doc_ids, centroids, lists, encoding)),
{
    lemma_auto_spec_u32_to_from_le_bytes();
    lemma_auto_spec_u64_to_from_le_bytes();
    lemma_file_lens(num_features, doc_ids, centroids, lists, encoding);
    let bytes = index_file_bytes(num_features, doc_ids, centroids, lists, encoding);
    let h = header_for(num_features, doc_ids, centroids, lists, encoding);
    let head = header_bytes(h);
    assert(head.len() == 48);
    assert(bytes.subrange(0, 48) =~= head);
    assert(bytes[0] == head[0]);
    assert(head[0] == 0);
    assert(bytes.subrange(1, 5) =~= head.subrange(1, 5));
    assert(bytes.subrange(5, 9) =~= head.subrange(5, 9));
    assert(bytes.subrange(9, 17) =~= head.subrange(9, 17));
    assert(bytes.subrange(17, 25) =~= head.subrange(17, 25));
    assert(bytes.subrange(25, 33) =~= head.subrange(25, 33));
    assert(bytes.subrange(33, 41) =~= head.subrange(33, 41));
    assert(head.subrange(1, 5) =~= spec_u32_to_le_bytes(h.num_features));
    assert(head.subrange(5, 9) =~= spec_u32_to_le_bytes(h.num_clusters));
    assert(head.subrange(9, 17) =~= spec_u64_to_le_bytes(h.num_vectors));
    assert(head.subrange(17, 25) =~= spec_u64_to_le_bytes(h.doc_id_mapping_len));
    assert(head.subrange(25, 33) =~= spec_u64_to_le_bytes(h.centroids_len));
    assert(head.subrange(33, 41) =~= spec_u64_to_le_bytes(h.posting_lists_len));
}

/// A doc id of a file that was written is read back as it was.
proof fn lemma_round_trip_doc_id(
    num_features: u32,
    doc_ids: Seq<u64>,
    centroids: Seq<Seq<u8>>,
    lists: Seq<Seq<u64>>,
    encoding: IntSeqEncodingType,
    i: int,
)
    requires
        writable(num_features, doc_ids, centroids, lists, encoding) is Ok,
        0 <= i < doc_ids.len(),
    ensures
        doc_id_at(
            index_file_bytes(num_features, doc_ids, centroids, lists, encoding),
            header_for(num_features, doc_ids, centroids, lists, encoding),
            i,
        ) == Ok::<u64, IndexError>(doc_ids[i]),
{
    lemma_auto_spec_u64_to_from_le_bytes();
    lemma_file_lens(num_features, doc_ids, centroids, lists, encoding);
    let bytes = index_file_bytes(num_features, doc_ids, centroids, lists, encoding);
    lemma_plain_encoding_at(doc_ids, i);
    let at = 48 + 8 + 8 * i;
    assert(bytes.subrange(at, at + 8) =~= plain_encoding(doc_ids).subrange(8 * i, 8 * i + 8));
}

/// A centroid of a file that was written is read back as it was.
proof fn lemma_round_trip_centroid(
    num_features: u32,
    doc_ids: Seq<u64>,
    centroids: Seq<Seq<u8>>,
    lists: Seq<Seq<u64>>,
    encoding: IntSeqEncodingType,
    c: int,
)
    requires
        writable(num_features, doc_ids, centroids, lists, encoding) is Ok,
        0 <= c < centroids.len(),
    ensures
        centroid_at(
            index_file_bytes(num_features, doc_ids, centroids, lists, encoding),
            header_for(num_features, doc_ids, centroids, lists, encoding),
            c,
        ) == Ok::<Seq<u8>, IndexError>(centroids[c]),
{
    lemma_auto_spec_u64_to_from_le_bytes();
    lemma_file_lens(num_features, doc_ids, centroids, lists, encoding);
    let bytes = index_file_bytes(num_features, doc_ids, centroids, lists, encoding);
    let h = header_for(num_features, doc_ids, centroids, lists, encoding);
    let width = 4 * num_features;
    let cstart = 48 + doc_id_section(doc_ids).len();
    assert(h.centroids_start() == cstart);
    assert forall|j: int| 0 <= j < centroids.len() implies (#[trigger] centroids[j]).len()
        == width as nat by {}
    lemma_flatten_at(centroids, width as nat, c);
    let at = cstart + 8 + c * width;
    assert(bytes.subrange(at, at + width) =~= centroids.flatten().subrange(
        c * width,
        c * width + width,
    ));
}

/// A part in the middle of three parts is found at its place.
proof fn lemma_slice_middle(a: Seq<u8>, b: Seq<u8>, c: Seq<u8>, i: int, j: int)
    requires
        0 <= i <= j <= b.len(),
    ensures
        (a + b + c).subrange(a.len() + i, a.len() + j) == b.subrange(i, j),
{
    assert((a + b + c).subrange(a.len() + i, a.len() + j) =~= b.subrange(i, j));
}

/// The length of the code of a list is the one that the directory and the
/// reader take it to have.
proof fn lemma_list_code_len(list: Seq<u64>, universe: nat, encoding: IntSeqEncodingType)
    ensures
        list_code(list, universe, encoding).len() == (match encoding {
            IntSeqEncodingType::PlainEncoding => 8 * list_length(list, universe, encoding),
            IntSeqEncodingType::EliasFano => list_length(list, universe, encoding),
        }),
{
    lemma_plain_encoding_len(list);
}

/// In a file that ends with a directory and the bytes of the lists, the
/// bytes of a list are found where its entry of the directory says.
proof fn lemma_entry_found(
    bytes: Seq<u8>,
    h: Header,
    before: Seq<u8>,
    directory: Seq<u8>,
    pay: Seq<u8>,
    c: int,
    length: u64,
    offset: u64,
    encoding: IntSeqEncodingType,
)
    requires
        bytes == before + directory + pay,
        before.len() == h.directory_start() + 8,
        directory.len() == 16 * h.num_clusters,
        0 <= c < h.num_clusters,
        directory.subrange(16 * c, 16 * c + 8) == spec_u64_to_le_bytes(length),
        directory.subrange(16 * c + 8, 16 * c + 16) == spec_u64_to_le_bytes(offset),
        offset + (match encoding {
            IntSeqEncodingType::PlainEncoding => 8 * length,
            IntSeqEncodingType::EliasFano => length as int,
        }) <= pay.len(),
    ensures
        posting_list_bytes_at(bytes, h, c, encoding) == Ok::<Seq<u8>, IndexError>(
            pay.subrange(
                offset as int,
                offset + (match encoding {
                    IntSeqEncodingType::PlainEncoding => 8 * length,
                    IntSeqEncodingType::EliasFano => length as int,
                }),
            ),
        ),
{
    lemma_auto_spec_u64_to_from_le_bytes();
    let size: int = match encoding {
        IntSeqEncodingType::PlainEncoding => 8 * length,
        IntSeqEncodingType::EliasFano => length as int,
    };
    let entry = h.directory_start() + 8 + 16 * c;
    lemma_slice_middle(before, directory, pay, 16 * c, 16 * c + 8);
    lemma_slice_middle(before, directory, pay, 16 * c + 8, 16 * c + 16);
    assert(bytes =~= (before + directory) + pay + Seq::<u8>::empty());
    lemma_slice_middle(before + directory, pay, Seq::<u8>::empty(), offset as int, offset + size);
    assert(u64_at(bytes, entry) == length);
    assert(u64_at(bytes, entry + 8) == offset);
    assert(h.payload_start() == (before + directory).len());
}

/// The bytes of a posting list of a file are found where the directory says.
proof fn lemma_round_trip_list_bytes(
    num_features: u32,
    doc_ids: Seq<u64>,
    centroids: Seq<Seq<u8>>,
    lists: Seq<Seq<u64>>,
    encoding: IntSeqEncodingType,
    c: int,
)
    requires
        writable(num_features, doc_ids, centroids, lists, encoding) is Ok,
        0 <= c < lists.len(),
    ensures
        posting_list_bytes_at(
            index_file_bytes(num_features, doc_ids, centroids, lists, encoding),
            header_for(num_features, doc_ids, centroids, lists, encoding),
            c,
            encoding,
        ) == Ok::<Seq<u8>, IndexError>(list_code(lists[c], doc_ids.len(), encoding)),
{
    lemma_file_lens(num_features, doc_ids, centroids, lists, encoding);
    let universe = doc_ids.len();
    let bytes = index_file_bytes(num_features, doc_ids, centroids, lists, encoding);
    let h = header_for(num_features, doc_ids, centroids, lists, encoding);
    let directory = directory_entries(lists, universe, encoding);
    let pay = payload(lists, universe, encoding);
    let before = header_bytes(h) + doc_id_section(doc_ids) + centroid_section(centroids)
        + spec_u64_to_le_bytes(lists.len() as u64);
    assert(before.len() == h.directory_start() + 8) by {
        lemma_auto_spec_u64_to_from_le_bytes();
    }
    lemma_directory_at(lists, universe, encoding, c);
    lemma_payload_at(lists, universe, encoding, c);
    lemma_list_code_len(lists[c], universe, encoding);
    assert(bytes =~= before + directory + pay);
    lemma_entry_found(
        bytes,
        h,
        before,
        directory,
        pay,
        c,
        list_length(lists[c], universe, encoding) as u64,
        payload(lists.take(c), universe, encoding).len() as u64,
        encoding,
    );
}

/// A posting list of a file that was written is read back as it was.
proof fn lemma_round_trip_list(
    num_features: u32,
    doc_ids: Seq<u64>,
    centroids: Seq<Seq<u8>>,
    lists: Seq<Seq<u64>>,
    encoding: IntSeqEncodingType,
    c: int,
)
    requires
        writable(num_features, doc_ids, centroids, lists, encoding) is Ok,
        0 <= c < lists.len(),
        lists[c].len() <= usize::MAX,
    ensures
        posting_list_at(
            index_file_bytes(num_features, doc_ids, centroids, lists, encoding),
            header_for(num_features, doc_ids, centroids, lists, encoding),
            c,
            encoding,
        ) == Ok::<Seq<u64>, IndexError>(lists[c]),
{
    let universe = doc_ids.len();
    lemma_round_trip_list_bytes(num_features, doc_ids, centroids, lists, encoding, c);
    lemma_all_writable(lists, universe, encoding, lists.len() as int, c);
    lemma_payload_at(lists, universe, encoding, c);
    lemma_file_lens(num_features, doc_ids, centroids, lists, encoding);
    lemma_list_round_trip(lists[c], universe, encoding);
}

/// A file that was written is read back as it was: its header says what was
/// written, each vector has the doc id it was given, each centroid its bytes
/// and each cluster its posting list.
pub proof fn lemma_index_file_round_trip(
    num_features: u32,
    doc_ids: Seq<u64>,
    centroids: Seq<Seq<u8>>,
    lists: Seq<Seq<u64>>,
    encoding: IntSeqEncodingType,
)
    requires
        writable(num_features, doc_ids, centroids, lists, encoding) is Ok,
        forall|c: int| 0 <= c < lists.len() ==> (#[trigger] lists[c]).len() <= usize::MAX,
    ensures
        ({
            let bytes = index_file_bytes(num_features, doc_ids, centroids, lists, encoding);
            let h = header_for(num_features, doc_ids, centroids, lists, encoding);
            &&& parse_header(bytes) == Ok::<Header, IndexError>(h)
            &&& h.num_vectors == doc_ids.len()
            &&& h.num_clusters == centroids.len()
            &&& forall|i: int|
                0 <= i < doc_ids.len() ==> #[trigger] doc_id_at(bytes, h, i) == Ok::<
                    u64,
                    IndexError,
                >(doc_ids[i])
            &&& forall|c: int|
                0 <= c < centroids.len() ==> #[trigger] centroid_at(bytes, h, c) == Ok::<
                    Seq<u8>,
                    IndexError,
                >(centroids[c])
            &&& forall|c: int|
                0 <= c < lists.len() ==> #[trigger] posting_list_at(bytes, h, c, encoding) == Ok::<
                    Seq<u64>,
                    IndexError,
                >(lists[c])
        }),
{
    let bytes = index_file_bytes(num_features, doc_ids, centroids, lists, encoding);
    let h = header_for(num_features, doc_ids, centroids, lists, encoding);
    lemma_file_lens(num_features, doc_ids, centroids, lists, encoding);
    lemma_round_trip_header(num_features, doc_ids, centroids, lists, encoding);
    assert forall|i: int| 0 <= i < doc_ids.len() implies #[trigger] doc_id_at(bytes, h, i) == Ok::<
        u64,
        IndexError,
    >(doc_ids[i]) by {
        lemma_round_trip_doc_id(num_features, doc_ids, centroids, lists, encoding, i);
    }
    assert forall|c: int| 0 <= c < centroids.len() implies #[trigger] centroid_at(bytes, h, c)
        == Ok::<Seq<u8>, IndexError>(centroids[c]) by {
        lemma_round_trip_centroid(num_features, doc_ids, centroids, lists, encoding, c);
    }
    assert forall|c: int| 0 <= c < lists.len() implies #[trigger] posting_list_at(
        bytes,
        h,
        c,
        encoding,
    ) == Ok::<Seq<u64>, IndexError>(lists[c]) by {
        lemma_round_trip_list(num_features, doc_ids, centroids, lists, encoding, c);
    }
}

/// The encodings agree: the files that hold one index with plainly encoded
/// and with compressed posting lists give the same doc ids, the same
/// centroids and the same posting lists.
pub proof fn lemma_encodings_agree(
    num_features: u32,
    doc_ids: Seq<u64>,
    centroids: Seq<Seq<u8>>,
    lists: Seq<Seq<u64>>,
)
    requires
        writable(
            num_features,
            doc_ids,
            centroids,
            lists,
            IntSeqEncodingType::PlainEncoding,
        ) is Ok,
        writable(num_features, doc_ids, centroids, lists, IntSeqEncodingType::EliasFano) is Ok,
        forall|c: int| 0 <= c < lists.len() ==> (#[trigger] lists[c]).len() <= usize::MAX,
    ensures
        ({
            let plain = IntSeqEncodingType::PlainEncoding;
            let packed = IntSeqEncodingType::EliasFano;
            let a = index_file_bytes(num_features, doc_ids, centroids, lists, plain);
            let b = index_file_bytes(num_features, doc_ids, centroids, lists, packed);
            let ha = header_for(num_features, doc_ids, centroids, lists, plain);
            let hb = header_for(num_features, doc_ids, centroids, lists, packed);
            &&& forall|i: int|
                0 <= i < doc_ids.len() ==> #[trigger] doc_id_at(a, ha, i) == doc_id_at(b, hb, i)
            &&& forall|c: int|
                0 <= c < centroids.len() ==> #[trigger] centroid_at(a, ha, c) == centroid_at(
                    b,
                    hb,
                    c,
                )
            &&& forall|c: int|
                0 <= c < lists.len() ==> #[trigger] posting_list_at(a, ha, c, plain)
                    == posting_list_at(b, hb, c, packed)
        }),
{
    lemma_index_file_round_trip(
        num_features,
        doc_ids,
        centroids,
        lists,
        IntSeqEncodingType::PlainEncoding,
    );
    lemma_index_file_round_trip(
        num_features,
        doc_ids,
        centroids,
        lists,
        IntSeqEncodingType::EliasFano,
    );
}

/// The writer of index files.
pub struct IvfWriter {}

impl IvfWriter {
    /// The code of one posting list.
    fn encode_list(list: &Vec<u64>, universe: usize, encoding: IntSeqEncodingType) -> (r: Result<
        Vec<u8>,
        WriteError,
    >)
        ensures
            match r {
                Ok(code) => list_writable(list@, universe as nat, encoding) is Ok && code@
                    == list_code(list@, universe as nat, encoding),
                Err(e) => list_writable(list@, universe as nat, encoding) == Err::<
                    (),
                    WriteError,
                >(e),
            },
    {
        let mut code: Vec<u8> = Vec::new();
        match encoding {
            IntSeqEncodingType::PlainEncoding => {
                let mut j: usize = 0;
                proof {
                    assert(list@.take(0) =~= Seq::<u64>::empty());
                    assert(code@ =~= plain_encoding(list@.take(0)));
                }
                while j < list.len()
                    invariant
                        j <= list@.len(),
                        code@ == plain_encoding(list@.take(j as int)),
                    decreases list@.len() - j,
                {
                    let mut word = u64_to_le_bytes(list[j]);
                    proof {
                        let next = list@.take(j as int + 1);
                        assert(next.drop_last() =~= list@.take(j as int));
                        assert(next.last() == list@[j as int]);
                    }
                    code.append(&mut word);
                    proof {
                        assert(code@ =~= plain_encoding(list@.take(j as int + 1)));
                    }
                    j += 1;
                }
                proof {
                    assert(list@.take(j as int) =~= list@);
                }
                Ok(code)
            },
            IntSeqEncodingType::EliasFano => {
                if !is_non_decreasing(list.as_slice()) {
                    return Err(WriteError::NotSorted);
                }
                let n = list.len();
                let width = lower_bit_width(universe, n);
                let limit = usize::MAX / 8;
                proof {
                    assert(n * width <= usize::MAX * 63) by (nonlinear_arith)
                        requires
                            n <= usize::MAX,
                            width <= 63,
                    ;
                }
                if (n as u128) * (width as u128) > limit as u128 || 2 * (n as u128)
                    > limit as u128 {
                    return Err(WriteError::TooLarge);
                }
                if n > 0 {
                    let high = list[n - 1] >> (width as u64);
                    if high > limit as u64 || n as u64 > limit as u64 - high {
                        return Err(WriteError::TooLarge);
                    }
                }
                let mut ef = EliasFano::new(
                    if n == 0 {
                        0
                    } else {
                        universe
                    },
                    n,
                );
                ef.encode(list.as_slice());
                let written = IntSeqEncoder::write(&ef, &mut code);
                proof {
                    assert(ef.parts() == code_of(list@, universe as nat));
                    assert(code@ =~= code_bytes(code_of(list@, universe as nat)));
                }
                Ok(code)
            },
        }
    }

    /// Checks the clusters and encodes the posting lists.
    fn encode_lists(
        num_features: u32,
        doc_ids: &Vec<u64>,
        centroids: &Vec<Vec<u8>>,
        posting_lists: &Vec<Vec<u64>>,
        encoding: IntSeqEncodingType,
    ) -> (r: Result<Vec<Vec<u8>>, WriteError>)
        ensures
            match r {
                Ok(codes) => {
                    &&& writable(
                        num_features,
                        doc_ids@,
                        byte_views(centroids@),
                        list_views(posting_lists@),
                        encoding,
                    ) is Ok
                    &&& codes@.len() == posting_lists@.len()
                    &&& forall|c: int|
                        0 <= c < codes@.len() ==> (#[trigger] codes@[c])@ == list_code(
                            posting_lists@[c]@,
                            doc_ids@.len(),
                            encoding,
                        )
                },
                Err(e) => writable(
                    num_features,
                    doc_ids@,
                    byte_views(centroids@),
                    list_views(posting_lists@),
                    encoding,
                ) == Err::<(), WriteError>(e),
            },
    {
        let ghost cents = byte_views(centroids@);
        let ghost lists = list_views(posting_lists@);
        let ghost universe = doc_ids@.len();
        if centroids.len() != posting_lists.len() {
            return Err(WriteError::ClusterCountMismatch);
        }
        let width = 4 * (num_features as u64);
        let mut c: usize = 0;
        while c < centroids.len()
            invariant
                c <= centroids@.len(),
                centroids@.len() == posting_lists@.len(),
                width == 4 * num_features,
                cents == byte_views(centroids@),
                forall|j: int| 0 <= j < c ==> (#[trigger] cents[j]).len() == width,
            decreases centroids@.len() - c,
        {
            if centroids[c].len() as u64 != width {
                assert(cents[c as int].len() != 4 * num_features);
                return Err(WriteError::CentroidLength);
            }
            c += 1;
        }
        if centroids.len() as u64 > u32::MAX as u64 {
            return Err(WriteError::TooLarge);
        }
        let mut codes: Vec<Vec<u8>> = Vec::new();
        let mut total: u128 = 0;
        let mut i: usize = 0;
        proof {
            assert(lists.take(0) =~= Seq::<Seq<u64>>::empty());
        }
        while i < posting_lists.len()
            invariant
                i <= posting_lists@.len(),
                posting_lists@.len() <= u32::MAX,
                centroids@.len() == posting_lists@.len(),
                cents == byte_views(centroids@),
                lists == list_views(posting_lists@),
                universe == doc_ids@.len(),
                forall|j: int| 0 <= j < cents.len() ==> (#[trigger] cents[j]).len() == 4
                    * num_features,
                first_unwritable(lists, universe, encoding, i as int) is None,
                codes@.len() == i,
                forall|c: int|
                    0 <= c < i ==> (#[trigger] codes@[c])@ == list_code(
                        posting_lists@[c]@,
                        universe,
                        encoding,
                    ),
                total == payload(lists.take(i as int), universe, encoding).len(),
                total <= i * 0x1_0000_0000_0000_0000,
            decreases posting_lists@.len() - i,
        {
            proof {
                lemma_payload_take(lists, universe, encoding, i as int);
                assert(lists[i as int] == posting_lists@[i as int]@);
                assert(i * 0x1_0000_0000_0000_0000 <= 0xffff_ffff * 0x1_0000_0000_0000_0000)
                    by (nonlinear_arith)
                    requires
                        i <= 0xffff_ffff,
                ;
            }
            match Self::encode_list(&posting_lists[i], doc_ids.len(), encoding) {
                Ok(code) => {
                    total = total + code.len() as u128;
                    codes.push(code);
                },
                Err(e) => {
                    proof {
                        assert(first_unwritable(lists, universe, encoding, i as int + 1) == Some(
                            e,
                        ));
                        lemma_first_unwritable_stays(
                            lists,
                            universe,
                            encoding,
                            i as int + 1,
                            lists.len() as int,
                        );
                    }
                    return Err(e);
                },
            }
            i += 1;
        }
        proof {
            assert(lists.take(i as int) =~= lists);
            assert(4 * num_features * cents.len() <= 4 * 0xffff_ffff * 0xffff_ffff)
                by (nonlinear_arith)
                requires
                    num_features <= 0xffff_ffff,
                    cents.len() <= 0xffff_ffff,
            ;
            assert(0 <= 4 * num_features * cents.len()) by (nonlinear_arith);
            assert(4 * (num_features as u128) * (centroids.len() as u128) == 4 * num_features
                * cents.len()) by (nonlinear_arith)
                requires
                    centroids.len() == cents.len(),
            ;
        }
        let centroid_bytes: u128 = 8 + 4 * (num_features as u128) * (centroids.len() as u128);
        let file_len: u128 = 48 + (8 + 8 * (doc_ids.len() as u128)) + (centroid_bytes + 7) / 8 * 8
            + (8 + 16 * (posting_lists.len() as u128) + total);
        if file_len > usize::MAX as u128 {
            return Err(WriteError::TooLarge);
        }
        Ok(codes)
    }

    /// Appends `n` zero bytes.
    fn pad(out: &mut Vec<u8>, n: usize)
        ensures
            final(out)@ == old(out)@ + zero_bytes(n as int),
    {
        let mut i: usize = 0;
        proof {
            assert(out@ =~= old(out)@ + zero_bytes(0));
        }
        while i < n
            invariant
                i <= n,
                out@ == old(out)@ + zero_bytes(i as int),
            decreases n - i,
        {
            out.push(0);
            proof {
                assert(out@ =~= old(out)@ + zero_bytes(i as int + 1));
            }
            i += 1;
        }
    }

    /// The bytes of the index file that holds the given index, with plainly
    /// encoded posting lists: for each vector its doc id, for each cluster
    /// the bytes of its centroid, four for each feature, and its posting
    /// list.
    pub fn encode(
        num_features: u32,
        doc_ids: &Vec<u64>,
        centroids: &Vec<Vec<u8>>,
        posting_lists: &Vec<Vec<u64>>,
    ) -> (r: Result<Vec<u8>, WriteError>)
        ensures
            match r {
                Ok(bytes) => writable(
                    num_features,
                    doc_ids@,
                    byte_views(centroids@),
                    list_views(posting_lists@),
                    IntSeqEncodingType::PlainEncoding,
                ) is Ok && bytes@ == index_file_bytes(
                    num_features,
                    doc_ids@,
                    byte_views(centroids@),
                    list_views(posting_lists@),
                    IntSeqEncodingType::PlainEncoding,
                ),
                Err(e) => writable(
                    num_features,
                    doc_ids@,
                    byte_views(centroids@),
                    list_views(posting_lists@),
                    IntSeqEncodingType::PlainEncoding,
                ) == Err::<(), WriteError>(e),
            },
    {
        Self::encode_with(
            num_features,
            doc_ids,
            centroids,
            posting_lists,
            IntSeqEncodingType::PlainEncoding,
        )
    }

    /// Appends the doc-id mapping.
    fn write_doc_ids(out: &mut Vec<u8>, doc_ids: &Vec<u64>)
        requires
            doc_ids@.len() <= u64::MAX,
        ensures
            final(out)@ == old(out)@ + doc_id_section(doc_ids@),
    {
        let num_vectors = doc_ids.len();
        let mut field = u64_to_le_bytes(num_vectors as u64);
        out.append(&mut field);
        let ghost base = out@;
        let mut i: usize = 0;
        proof {
            assert(doc_ids@.take(0) =~= Seq::<u64>::empty());
            assert(out@ =~= base + plain_encoding(doc_ids@.take(0)));
        }
        while i < num_vectors
            invariant
                i <= num_vectors,
                num_vectors == doc_ids@.len(),
                out@ == base + plain_encoding(doc_ids@.take(i as int)),
            decreases num_vectors - i,
        {
            let mut word = u64_to_le_bytes(doc_ids[i]);
            proof {
                let next = doc_ids@.take(i as int + 1);
                assert(next.drop_last() =~= doc_ids@.take(i as int));
                assert(next.last() == doc_ids@[i as int]);
            }
            out.append(&mut word);
            proof {
                assert(out@ =~= base + plain_encoding(doc_ids@.take(i as int + 1)));
            }
            i += 1;
        }
        proof {
            assert(doc_ids@.take(i as int) =~= doc_ids@);
            assert(out@ =~= old(out)@ + doc_id_section(doc_ids@));
        }
    }

    /// Appends the centroids, padded.
    fn write_centroids(out: &mut Vec<u8>, centroids: &Vec<Vec<u8>>)
        requires
            8 + byte_views(centroids@).flatten().len() + 8 <= usize::MAX,
        ensures
            final(out)@ == old(out)@ + centroid_section(byte_views(centroids@)),
    {
        let ghost cents = byte_views(centroids@);
        let num_clusters = centroids.len();
        let mut field = u64_to_le_bytes(num_clusters as u64);
        out.append(&mut field);
        let ghost base = out@;
        let mut len: usize = 8;
        let mut c: usize = 0;
        proof {
            lemma_auto_spec_u64_to_from_le_bytes();
            assert(cents.take(0) =~= Seq::<Seq<u8>>::empty());
            assert(out@ =~= base + cents.take(0).flatten());
        }
        while c < num_clusters
            invariant
                c <= num_clusters,
                num_clusters == centroids@.len(),
                cents == byte_views(centroids@),
                out@ == base + cents.take(c as int).flatten(),
                len == 8 + cents.take(c as int).flatten().len(),
                8 + cents.flatten().len() + 8 <= usize::MAX,
                cents.take(c as int).flatten().len() <= cents.flatten().len(),
            decreases num_clusters - c,
        {
            let mut centroid = slice_to_vec(centroids[c].as_slice());
            proof {
                assert(cents.take(c as int + 1) =~= cents.take(c as int).push(cents[c as int]));
                cents.take(c as int).lemma_flatten_push(cents[c as int]);
                assert(centroid@ == cents[c as int]);
                lemma_flatten_take(cents, c as int + 1);
            }
            len = len + centroid.len();
            out.append(&mut centroid);
            proof {
                assert(out@ =~= base + cents.take(c as int + 1).flatten());
            }
            c += 1;
        }
        proof {
            assert(cents.take(c as int) =~= cents);
        }
        let padded = (len + 7) / 8 * 8;
        Self::pad(out, padded - len);
        proof {
            assert(out@ =~= old(out)@ + centroid_section(cents));
        }
    }

    /// Appends the directory of the posting lists, with its count.
    fn write_directory(
        out: &mut Vec<u8>,
        posting_lists: &Vec<Vec<u64>>,
        codes: &Vec<Vec<u8>>,
        universe: Ghost<nat>,
        encoding: IntSeqEncodingType,
    )
        requires
            codes@.len() == posting_lists@.len(),
            forall|c: int|
                0 <= c < codes@.len() ==> (#[trigger] codes@[c])@ == list_code(
                    posting_lists@[c]@,
                    universe@,
                    encoding,
                ),
            payload(list_views(posting_lists@), universe@, encoding).len() <= usize::MAX,
        ensures
            final(out)@ == old(out)@ + spec_u64_to_le_bytes(posting_lists@.len() as u64)
                + directory_entries(list_views(posting_lists@), universe@, encoding),
    {
        let ghost lists = list_views(posting_lists@);
        let num_clusters = posting_lists.len();
        let mut field = u64_to_le_bytes(num_clusters as u64);
        out.append(&mut field);
        let ghost base = out@;
        let mut offset: usize = 0;
        let mut i: usize = 0;
        proof {
            assert(lists.take(0) =~= Seq::<Seq<u64>>::empty());
            assert(out@ =~= base + directory_entries(lists.take(0), universe@, encoding));
        }
        while i < num_clusters
            invariant
                i <= num_clusters,
                num_clusters == posting_lists@.len(),
                codes@.len() == num_clusters,
                lists == list_views(posting_lists@),
                forall|c: int|
                    0 <= c < codes@.len() ==> (#[trigger] codes@[c])@ == list_code(
                        posting_lists@[c]@,
                        universe@,
                        encoding,
                    ),
                offset == payload(lists.take(i as int), universe@, encoding).len(),
                payload(lists, universe@, encoding).len() <= usize::MAX,
                out@ == base + directory_entries(lists.take(i as int), universe@, encoding),
            decreases num_clusters - i,
        {
            proof {
                lemma_payload_take(lists, universe@, encoding, i as int);
                assert(lists[i as int] == posting_lists@[i as int]@);
                let next = lists.take(i as int + 1);
                assert(next.drop_last() =~= lists.take(i as int));
                assert(next.last() == lists[i as int]);
            }
            let length = match encoding {
                IntSeqEncodingType::PlainEncoding => posting_lists[i].len(),
                IntSeqEncodingType::EliasFano => codes[i].len(),
            };
            let mut field = u64_to_le_bytes(length as u64);
            out.append(&mut field);
            let mut field = u64_to_le_bytes(offset as u64);
            out.append(&mut field);
            proof {
                assert(out@ =~= base + directory_entries(
                    lists.take(i as int + 1),
                    universe@,
                    encoding,
                ));
            }
            offset = offset + codes[i].len();
            i += 1;
        }
        proof {
            assert(lists.take(i as int) =~= lists);
        }
    }

    /// Appends the codes of the posting lists.
    fn write_payload(
        out: &mut Vec<u8>,
        posting_lists: &Vec<Vec<u64>>,
        codes: &Vec<Vec<u8>>,
        universe: Ghost<nat>,
        encoding: IntSeqEncodingType,
    ) -> (total: usize)
        requires
            codes@.len() == posting_lists@.len(),
            forall|c: int|
                0 <= c < codes@.len() ==> (#[trigger] codes@[c])@ == list_code(
                    posting_lists@[c]@,
                    universe@,
                    encoding,
                ),
            payload(list_views(posting_lists@), universe@, encoding).len() <= usize::MAX,
        ensures
            final(out)@ == old(out)@ + payload(list_views(posting_lists@), universe@, encoding),
            total == payload(list_views(posting_lists@), universe@, encoding).len(),
    {
        let ghost lists = list_views(posting_lists@);
        let num_clusters = posting_lists.len();
        let mut total: usize = 0;
        let mut i: usize = 0;
        proof {
            assert(lists.take(0) =~= Seq::<Seq<u64>>::empty());
            assert(out@ =~= old(out)@ + payload(lists.take(0), universe@, encoding));
        }
        while i < num_clusters
            invariant
                i <= num_clusters,
                num_clusters == posting_lists@.len(),
                codes@.len() == num_clusters,
                lists == list_views(posting_lists@),
                forall|c: int|
                    0 <= c < codes@.len() ==> (#[trigger] codes@[c])@ == list_code(
                        posting_lists@[c]@,
                        universe@,
                        encoding,
                    ),
                payload(lists, universe@, encoding).len() <= usize::MAX,
                total == payload(lists.take(i as int), universe@, encoding).len(),
                out@ == old(out)@ + payload(lists.take(i as int), universe@, encoding),
            decreases num_clusters - i,
        {
            let mut code = slice_to_vec(codes[i].as_slice());
            proof {
                lemma_payload_take(lists, universe@, encoding, i as int);
                assert(lists[i as int] == posting_lists@[i as int]@);
            }
            total = total + code.len();
            out.append(&mut code);
            proof {
                assert(out@ =~= old(out)@ + payload(lists.take(i as int + 1), universe@, encoding));
            }
            i += 1;
        }
        proof {
            assert(lists.take(i as int) =~= lists);
        }
        total
    }

    /// The header of the file, with its padding.
    fn header(h: &Header) -> (out: Vec<u8>)
        ensures
            out@ == header_bytes(*h),
    {
        let mut out: Vec<u8> = Vec::new();
        out.push(0);
        let mut field = u32_to_le_bytes(h.num_features);
        out.append(&mut field);
        let mut field = u32_to_le_bytes(h.num_clusters);
        out.append(&mut field);
        let mut field = u64_to_le_bytes(h.num_vectors);
        out.append(&mut field);
        let mut field = u64_to_le_bytes(h.doc_id_mapping_len);
        out.append(&mut field);
        let mut field = u64_to_le_bytes(h.centroids_len);
        out.append(&mut field);
        let mut field = u64_to_le_bytes(h.posting_lists_len);
        out.append(&mut field);
        Self::pad(&mut out, 7);
        proof {
            assert(out@ =~= header_bytes(*h));
        }
        out
    }

    /// The bytes of the index file that holds the given index, with posting
    /// lists in the given encoding.
    pub fn encode_with(
        num_features: u32,
        doc_ids: &Vec<u64>,
        centroids: &Vec<Vec<u8>>,
        posting_lists: &Vec<Vec<u64>>,
        encoding: IntSeqEncodingType,
    ) -> (r: Result<Vec<u8>, WriteError>)
        ensures
            match r {
                Ok(bytes) => writable(
                    num_features,
                    doc_ids@,
                    byte_views(centroids@),
                    list_views(posting_lists@),
                    encoding,
                ) is Ok && bytes@ == index_file_bytes(
                    num_features,
                    doc_ids@,
                    byte_views(centroids@),
                    list_views(posting_lists@),
                    encoding,
                ),
                Err(e) => writable(
                    num_features,
                    doc_ids@,
                    byte_views(centroids@),
                    list_views(posting_lists@),
                    encoding,
                ) == Err::<(), WriteError>(e),
            },
    {
        let codes = match Self::encode_lists(
            num_features,
            doc_ids,
            centroids,
            posting_lists,
            encoding,
        ) {
            Err(e) => {
                return Err(e);
            },
            Ok(codes) => codes,
        };
        let ghost cents = byte_views(centroids@);
        let ghost lists = list_views(posting_lists@);
        let ghost universe = doc_ids@.len();
        proof {
            lemma_file_lens(num_features, doc_ids@, cents, lists, encoding);
        }
        let num_clusters = centroids.len();
        let num_vectors = doc_ids.len();

        // The posting lists come last, but the header has their length.
        let mut lists_section: Vec<u8> = Vec::new();
        Self::write_directory(&mut lists_section, posting_lists, &codes, Ghost(universe), encoding);
        let total = Self::write_payload(
            &mut lists_section,
            posting_lists,
            &codes,
            Ghost(universe),
            encoding,
        );
        proof {
            assert(lists_section@ =~= posting_list_section(lists, universe, encoding));
            assert(4 * (num_features as u128) * (num_clusters as u128) == 4 * num_features
                * cents.len()) by (nonlinear_arith)
                requires
                    num_clusters == cents.len(),
            ;
        }
        let h = Header {
            version: Version::V0,
            num_features,
            num_clusters: num_clusters as u32,
            num_vectors: num_vectors as u64,
            doc_id_mapping_len: (8 + 8 * num_vectors) as u64,
            centroids_len: (8 + 4 * (num_features as u128) * (num_clusters as u128)) as u64,
            posting_lists_len: (8 + 16 * num_clusters + total) as u64,
        };
        proof {
            assert(h == header_for(num_features, doc_ids@, cents, lists, encoding));
        }
        let mut out = Self::header(&h);
        Self::write_doc_ids(&mut out, doc_ids);
        Self::write_centroids(&mut out, centroids);
        out.append(&mut lists_section);
        proof {
            assert(out@ =~= index_file_bytes(num_features, doc_ids@, cents, lists, encoding));
        }
        Ok(out)
    }
}

} // verus!
