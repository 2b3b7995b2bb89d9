//! The index file of an inverted-file index, read from its bytes.
//!
//! The file holds, in this order: a header of 41 bytes, padded to 48; the
//! doc-id mapping, a count and one 64-bit id for each vector; the centroids,
//! a count and the coordinates of each centroid, four bytes for each
//! coordinate, padded to a multiple of 8; the posting-list directory, a
//! count and a length and an offset for each centroid; and the posting
//! lists, each in the encoding of the file. All integers are little-endian.
//!
//! The length of a posting list in the directory counts its ids where the
//! lists are plainly encoded, and the bytes of its code where they are
//! Elias–Fano codes. The offset counts bytes from the start of the lists.

use vstd::prelude::*;
use vstd::bytes::{u32_from_le_bytes, u64_from_le_bytes};
use vstd::slice::slice_subrange;
use crate::elias_fano::{code_values, EliasFanoDecoder};
use crate::little_endian::{u32_at, u64_at};
use crate::plain::{plain_decoding, PlainDecoder};

verus! {

/// The length of the header, before its padding.
pub const HEADER_LEN: usize = 41;

/// Where the doc-id mapping starts: at the end of the padded header.
pub const DOC_ID_MAPPING_OFFSET: usize = 48;

/// The version of the file layout.
#[derive(Clone, Copy, Debug, PartialEq, Eq)]
pub enum Version {
    V0,
}

/// How the posting lists of an index file are encoded.
#[derive(Clone, Copy, Debug, PartialEq, Eq)]
pub enum IntSeqEncodingType {
    /// Each id as eight bytes.
    PlainEncoding,
    /// Each list as an Elias–Fano code.
    EliasFano,
}

/// The header of an index file.
#[derive(Clone, Copy, Debug, PartialEq, Eq)]
pub struct Header {
    pub version: Version,
    pub num_features: u32,
    pub num_clusters: u32,
    pub num_vectors: u64,
    pub doc_id_mapping_len: u64,
    pub centroids_len: u64,
    pub posting_lists_len: u64,
}

/// What is wrong with an index file, or with a request to it.
#[derive(Clone, Copy, Debug, PartialEq, Eq)]
pub enum IndexError {
    /// The file is shorter than a header.
    HeaderTruncated,
    /// The version tag is not a known one.
    VersionMismatch,
    /// The index asked for is not below the number of entries.
    IndexOutOfBound,
    /// The doc-id mapping ends before the id asked for.
    DocIdMappingTruncated,
    /// A centroid or a posting list would lie past the end of the file.
    OffsetOutOfRange,
    /// The posting-list directory ends before the entry asked for.
    DirectoryInconsistent,
    /// The bytes of a posting list are no code of a list.
    PostingListMalformed,
}

/// `n` rounded up to a multiple of 8.
pub open spec fn align8(n: int) -> int {
    (n + 7) / 8 * 8
}

/// The header that `bytes` start with.
pub open spec fn parse_header(bytes: Seq<u8>) -> Result<Header, IndexError> {
    if bytes.len() < HEADER_LEN {
        Err(IndexError::HeaderTruncated)
    } else if bytes[0] != 0 {
        Err(IndexError::VersionMismatch)
    } else {
        Ok(
            Header {
                version: Version::V0,
                num_features: u32_at(bytes, 1),
                num_clusters: u32_at(bytes, 5),
                num_vectors: u64_at(bytes, 9),
                doc_id_mapping_len: u64_at(bytes, 17),
                centroids_len: u64_at(bytes, 25),
                posting_lists_len: u64_at(bytes, 33),
            },
        )
    }
}

impl Header {
    /// Where the centroids start: where the doc-id mapping ends.
    pub open spec fn centroids_start(&self) -> int {
        DOC_ID_MAPPING_OFFSET + self.doc_id_mapping_len
    }

    /// The number of bytes of one centroid.
    pub open spec fn centroid_len(&self) -> int {
        4 * self.num_features
    }

    /// Where the posting-list directory starts: at the end of the padded
    /// centroids.
    pub open spec fn directory_start(&self) -> int {
        align8(self.centroids_start() + self.centroids_len)
    }

    /// Where the posting lists start: where the directory ends.
    pub open spec fn payload_start(&self) -> int {
        self.directory_start() + 8 + 16 * self.num_clusters
    }
}

/// The doc id of vector `index` in a file with the header `h`.
pub open spec fn doc_id_at(bytes: Seq<u8>, h: Header, index: int) -> Result<u64, IndexError> {
    let at = DOC_ID_MAPPING_OFFSET + 8 + 8 * index;
    if index >= h.num_vectors {
        Err(IndexError::IndexOutOfBound)
    } else if at + 8 > bytes.len() {
        Err(IndexError::DocIdMappingTruncated)
    } else {
        Ok(u64_at(bytes, at))
    }
}

/// The bytes of centroid `index` in a file with the header `h`.
pub open spec fn centroid_at(bytes: Seq<u8>, h: Header, index: int) -> Result<Seq<u8>, IndexError> {
    let at = h.centroids_start() + 8 + index * h.centroid_len();
    if index >= h.num_clusters {
        Err(IndexError::IndexOutOfBound)
    } else if at + h.centroid_len() > bytes.len() {
        Err(IndexError::OffsetOutOfRange)
    } else {
        Ok(bytes.subrange(at, at + h.centroid_len()))
    }
}

/// The bytes of the posting list of centroid `index` in a file with the
/// header `h`.
pub open spec fn posting_list_bytes_at(
    bytes: Seq<u8>,
    h: Header,
    index: int,
    encoding: IntSeqEncodingType,
) -> Result<Seq<u8>, IndexError> {
    let entry = h.directory_start() + 8 + 16 * index;
    if index >= h.num_clusters {
        Err(IndexError::IndexOutOfBound)
    } else if entry + 16 > bytes.len() {
        Err(IndexError::DirectoryInconsistent)
    } else {
        let at = h.payload_start() + u64_at(bytes, entry + 8);
        let size = match encoding {
            IntSeqEncodingType::PlainEncoding => 8 * u64_at(bytes, entry),
            IntSeqEncodingType::EliasFano => u64_at(bytes, entry) as int,
        };
        if at + size > bytes.len() {
            Err(IndexError::OffsetOutOfRange)
        } else {
            Ok(bytes.subrange(at, at + size))
        }
    }
}

/// The ids that the bytes of a posting list hold.
pub open spec fn decoded_list(code: Seq<u8>, encoding: IntSeqEncodingType) -> Result<
    Seq<u64>,
    IndexError,
> {
    match encoding {
        IntSeqEncodingType::PlainEncoding => Ok(plain_decoding(code)),
        IntSeqEncodingType::EliasFano => match code_values(code) {
            Some(list) => Ok(list),
            None => Err(IndexError::PostingListMalformed),
        },
    }
}

/// The posting list of centroid `index` in a file with the header `h`.
pub open spec fn posting_list_at(
    bytes: Seq<u8>,
    h: Header,
    index: int,
    encoding: IntSeqEncodingType,
) -> Result<Seq<u64>, IndexError> {
    match posting_list_bytes_at(bytes, h, index, encoding) {
        Err(e) => Err(e),
        Ok(code) => decoded_list(code, encoding),
    }
}

/// An index file held in memory.
pub struct FixedIndexFile {
    data: Vec<u8>,
    header: Header,
    encoding: IntSeqEncodingType,
}

impl FixedIndexFile {
    /// The bytes of the file.
    pub closed spec fn bytes(&self) -> Seq<u8> {
        self.data@
    }

    /// The header of the file.
    pub closed spec fn spec_header(&self) -> Header {
        self.header
    }

    /// The encoding of the posting lists.
    pub closed spec fn spec_encoding(&self) -> IntSeqEncodingType {
        self.encoding
    }

    /// The invariant: the header held is the one the bytes start with.
    pub closed spec fn wf(&self) -> bool {
        parse_header(self.data@) == Ok::<Header, IndexError>(self.header)
    }

    /// The doc id of vector `index`.
    pub open spec fn doc_id(&self, index: int) -> Result<u64, IndexError> {
        doc_id_at(self.bytes(), self.spec_header(), index)
    }

    /// The bytes of centroid `index`.
    pub open spec fn centroid(&self, index: int) -> Result<Seq<u8>, IndexError> {
        centroid_at(self.bytes(), self.spec_header(), index)
    }

    /// The posting list of centroid `index`.
    pub open spec fn posting_list(&self, index: int) -> Result<Seq<u64>, IndexError> {
        posting_list_at(self.bytes(), self.spec_header(), index, self.spec_encoding())
    }

    /// Reads the header of `data` and takes the file over. The posting
    /// lists are plainly encoded.
    pub fn new(data: Vec<u8>) -> (r: Result<Self, IndexError>)
        ensures
            match r {
                Ok(file) => file.wf() && file.bytes() == data@ && parse_header(data@) == Ok::<
                    Header,
                    IndexError,
                >(file.spec_header()) && file.spec_encoding()
                    == IntSeqEncodingType::PlainEncoding,
                Err(e) => parse_header(data@) == Err::<Header, IndexError>(e),
            },
    {
        Self::new_with_encoding(data, IntSeqEncodingType::PlainEncoding)
    }

    /// Reads the header of `data` and takes the file over. The posting
    /// lists are in the given encoding.
    pub fn new_with_encoding(data: Vec<u8>, encoding: IntSeqEncodingType) -> (r: Result<
        Self,
        IndexError,
    >)
        ensures
            match r {
                Ok(file) => file.wf() && file.bytes() == data@ && parse_header(data@) == Ok::<
                    Header,
                    IndexError,
                >(file.spec_header()) && file.spec_encoding() == encoding,
                Err(e) => parse_header(data@) == Err::<Header, IndexError>(e),
            },
    {
        if data.len() < HEADER_LEN {
            return Err(IndexError::HeaderTruncated);
        }
        if data[0] != 0 {
            return Err(IndexError::VersionMismatch);
        }
        let bytes = data.as_slice();
        let header = Header {
            version: Version::V0,
            num_features: u32_from_le_bytes(slice_subrange(bytes, 1, 5)),
            num_clusters: u32_from_le_bytes(slice_subrange(bytes, 5, 9)),
            num_vectors: u64_from_le_bytes(slice_subrange(bytes, 9, 17)),
            doc_id_mapping_len: u64_from_le_bytes(slice_subrange(bytes, 17, 25)),
            centroids_len: u64_from_le_bytes(slice_subrange(bytes, 25, 33)),
            posting_lists_len: u64_from_le_bytes(slice_subrange(bytes, 33, 41)),
        };
        Ok(FixedIndexFile { data, header, encoding })
    }

    /// The header of the file.
    pub fn header(&self) -> (h: &Header)
        ensures
            *h == self.spec_header(),
    {
        &self.header
    }

    /// The encoding of the posting lists.
    pub fn encoding(&self) -> (e: IntSeqEncodingType)
        ensures
            e == self.spec_encoding(),
    {
        self.encoding
    }

    /// The doc id of vector `index`.
    pub fn get_doc_id(&self, index: usize) -> (r: Result<u64, IndexError>)
        requires
            self.wf(),
        ensures
            r == self.doc_id(index as int),
    {
        if index as u128 >= self.header.num_vectors as u128 {
            return Err(IndexError::IndexOutOfBound);
        }
        let at: u128 = 56 + 8 * (index as u128);
        if at + 8 > self.data.len() as u128 {
            return Err(IndexError::DocIdMappingTruncated);
        }
        let start = at as usize;
        Ok(u64_from_le_bytes(slice_subrange(self.data.as_slice(), start, start + 8)))
    }

    /// The bytes of centroid `index`: four for each coordinate.
    pub fn get_centroid(&self, index: usize) -> (r: Result<&[u8], IndexError>)
        requires
            self.wf(),
        ensures
            match r {
                Ok(c) => self.centroid(index as int) == Ok::<Seq<u8>, IndexError>(c@),
                Err(e) => self.centroid(index as int) == Err::<Seq<u8>, IndexError>(e),
            },
    {
        if index as u128 >= self.header.num_clusters as u128 {
            return Err(IndexError::IndexOutOfBound);
        }
        let width: u128 = 4 * (self.header.num_features as u128);
        proof {
            assert((index as u128) * width <= 0xffff_ffff * 0x4_0000_0000) by (nonlinear_arith)
                requires
                    index < 0x1_0000_0000,
                    width <= 0x4_0000_0000,
            ;
        }
        let at: u128 = 48 + (self.header.doc_id_mapping_len as u128) + 8 + (index as u128) * width;
        if at + width > self.data.len() as u128 {
            return Err(IndexError::OffsetOutOfRange);
        }
        Ok(slice_subrange(self.data.as_slice(), at as usize, (at + width) as usize))
    }

    /// The bytes of the posting list of centroid `index`.
    pub fn get_posting_list_bytes(&self, index: usize) -> (r: Result<&[u8], IndexError>)
        requires
            self.wf(),
        ensures
            match r {
                Ok(code) => posting_list_bytes_at(
                    self.bytes(),
                    self.spec_header(),
                    index as int,
                    self.spec_encoding(),
                ) == Ok::<Seq<u8>, IndexError>(code@),
                Err(e) => posting_list_bytes_at(
                    self.bytes(),
                    self.spec_header(),
                    index as int,
                    self.spec_encoding(),
                ) == Err::<Seq<u8>, IndexError>(e),
            },
    {
        if index as u128 >= self.header.num_clusters as u128 {
            return Err(IndexError::IndexOutOfBound);
        }
        let len = self.data.len() as u128;
        let centroids_end: u128 = 48 + (self.header.doc_id_mapping_len as u128) + (
        self.header.centroids_len as u128);
        let directory: u128 = (centroids_end + 7) / 8 * 8;
        let entry: u128 = directory + 8 + 16 * (index as u128);
        if entry + 16 > len {
            return Err(IndexError::DirectoryInconsistent);
        }
        let bytes = self.data.as_slice();
        let at = entry as usize;
        let count = u64_from_le_bytes(slice_subrange(bytes, at, at + 8));
        let offset = u64_from_le_bytes(slice_subrange(bytes, at + 8, at + 16));
        let start: u128 = directory + 8 + 16 * (self.header.num_clusters as u128) + (
        offset as u128);
        let size: u128 = match self.encoding {
            IntSeqEncodingType::PlainEncoding => 8 * (count as u128),
            IntSeqEncodingType::EliasFano => count as u128,
        };
        let end: u128 = start + size;
        if end > len {
            return Err(IndexError::OffsetOutOfRange);
        }
        Ok(slice_subrange(bytes, start as usize, end as usize))
    }

    /// The posting list of centroid `index`.
    pub fn get_posting_list(&self, index: usize) -> (r: Result<Vec<u64>, IndexError>)
        requires
            self.wf(),
        ensures
            match r {
                Ok(list) => self.posting_list(index as int) == Ok::<Seq<u64>, IndexError>(list@),
                Err(e) => self.posting_list(index as int) == Err::<Seq<u64>, IndexError>(e),
            },
    {
        let code = match self.get_posting_list_bytes(index) {
            Ok(code) => code,
            Err(e) => {
                return Err(e);
            },
        };
        match self.encoding {
            IntSeqEncodingType::PlainEncoding => Ok(PlainDecoder::decode(code)),
            IntSeqEncodingType::EliasFano => match EliasFanoDecoder::new_decoder(code) {
                Ok(decoder) => Ok(decoder.decode()),
                Err(_) => Err(IndexError::PostingListMalformed),
            },
        }
    }
}

} // verus!
