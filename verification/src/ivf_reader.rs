//! Opening an inverted-file index from the bytes of its files.

use vstd::prelude::*;
use vstd::slice::{slice_subrange, slice_to_vec};
use vstd::string::StringExecFns;
use crate::index_file::{
    parse_header, FixedIndexFile, Header, IndexError, IntSeqEncodingType,
};
use crate::ivf::Ivf;
use crate::vector_storage::{FixedFileVectorStorage, StorageError};

verus! {

/// Why an index could not be opened.
#[derive(Clone, Copy, Debug, PartialEq, Eq)]
pub enum ReadError {
    /// The index starts past the end of its file.
    IndexOffsetOutOfRange,
    /// The vectors start past the end of their file.
    VectorOffsetOutOfRange,
    /// The index file is corrupt.
    Index(IndexError),
    /// The vector file cannot be used.
    Storage(StorageError),
}

/// The reader of an inverted-file index. The index and its vectors may
/// start at an offset into their files, where the files are shared with
/// other indexes.
pub struct IvfReader {
    base_directory: String,
    index_offset: usize,
    vector_offset: usize,
}

/// What opening an index gives, from the bytes of its files from the offsets
/// on and the number of bytes of one value of a vector.
pub open spec fn opened(index: Seq<u8>, vectors: Seq<u8>, value_width: nat) -> Result<
    (),
    ReadError,
> {
    match parse_header(index) {
        Err(e) => Err(ReadError::Index(e)),
        Ok(h) => if vectors.len() < 8 {
            Err(ReadError::Storage(StorageError::Truncated))
        } else if h.num_features * value_width > usize::MAX {
            Err(ReadError::Storage(StorageError::VectorTooLong))
        } else {
            Ok(())
        },
    }
}

/// `r` is what reading gives for an index that starts at `index_offset` in
/// the file `index_file` and whose vectors start at `vector_offset` in the
/// file `vector_file`: an error where an offset lies past the end of its
/// file or where the bytes from the offsets on cannot be opened, and else
/// the index over those bytes, with the number of clusters and of features
/// that the header gives and with posting lists in the given encoding.
pub open spec fn is_read(
    index_offset: nat,
    vector_offset: nat,
    index_file: Seq<u8>,
    vector_file: Seq<u8>,
    value_width: nat,
    encoding: IntSeqEncodingType,
    r: Result<Ivf, ReadError>,
) -> bool {
    if index_offset > index_file.len() {
        r is Err && r->Err_0 == ReadError::IndexOffsetOutOfRange
    } else if vector_offset > vector_file.len() {
        r is Err && r->Err_0 == ReadError::VectorOffsetOutOfRange
    } else {
        let index = index_file.subrange(index_offset as int, index_file.len() as int);
        let vectors = vector_file.subrange(vector_offset as int, vector_file.len() as int);
        match r {
            Ok(ivf) => {
                &&& opened(index, vectors, value_width) is Ok
                &&& ivf.wf()
                &&& ivf.index_storage.bytes() == index
                &&& ivf.index_storage.spec_encoding() == encoding
                &&& ivf.vector_storage.bytes() == vectors
                &&& parse_header(index) == Ok::<Header, IndexError>(ivf.index_storage.spec_header())
                &&& ivf.num_clusters == ivf.index_storage.spec_header().num_clusters
                &&& ivf.vector_storage.features() == ivf.index_storage.spec_header().num_features
                &&& ivf.vector_storage.vector_len() == ivf.index_storage.spec_header().num_features
                    * value_width
            },
            Err(e) => opened(index, vectors, value_width) == Err::<(), ReadError>(e),
        }
    }
}

impl IvfReader {
    /// The directory of the index.
    pub closed spec fn base_directory(&self) -> Seq<char> {
        self.base_directory@
    }

    /// Where the index starts in its file.
    pub closed spec fn index_offset(&self) -> nat {
        self.index_offset as nat
    }

    /// Where the vectors start in their file.
    pub closed spec fn vector_offset(&self) -> nat {
        self.vector_offset as nat
    }

    /// A reader of the index in `base_directory`, whose files hold nothing
    /// else.
    pub fn new(base_directory: String) -> (reader: Self)
        ensures
            reader.base_directory() == base_directory@,
            reader.index_offset() == 0,
            reader.vector_offset() == 0,
    {
        Self { base_directory, index_offset: 0, vector_offset: 0 }
    }

    /// A reader of the index in `base_directory` that starts at the given
    /// offsets into its files.
    pub fn new_with_offset(base_directory: String, index_offset: usize, vector_offset: usize) -> (reader:
        Self)
        ensures
            reader.base_directory() == base_directory@,
            reader.index_offset() == index_offset,
            reader.vector_offset() == vector_offset,
    {
        Self { base_directory, index_offset, vector_offset }
    }

    /// The path of the index file.
    pub fn index_path(&self) -> (p: String)
        ensures
            p@ == self.base_directory() + "/index"@,
    {
        self.base_directory.clone().concat("/index")
    }

    /// The path of the vector file.
    pub fn vectors_path(&self) -> (p: String)
        ensures
            p@ == self.base_directory() + "/vectors"@,
    {
        self.base_directory.clone().concat("/vectors")
    }

    /// The path of the directory of the quantizer.
    pub fn quantizer_directory(&self) -> (p: String)
        ensures
            p@ == self.base_directory() + "/quantizer"@,
    {
        self.base_directory.clone().concat("/quantizer")
    }

    /// Opens the index from the bytes of its two files. The values of a
    /// vector take `value_width` bytes each, and the posting lists are
    /// plainly encoded.
    pub fn read(&self, index_file: &[u8], vector_file: &[u8], value_width: usize) -> (r: Result<
        Ivf,
        ReadError,
    >)
        ensures
            is_read(
                self.index_offset(),
                self.vector_offset(),
                index_file@,
                vector_file@,
                value_width as nat,
                IntSeqEncodingType::PlainEncoding,
                r,
            ),
    {
        self.read_encoded(
            index_file,
            vector_file,
            value_width,
            IntSeqEncodingType::PlainEncoding,
        )
    }

    /// Opens the index from the bytes of its two files. The values of a
    /// vector take `value_width` bytes each, and the posting lists are in
    /// the given encoding.
    pub fn read_encoded(
        &self,
        index_file: &[u8],
        vector_file: &[u8],
        value_width: usize,
        encoding: IntSeqEncodingType,
    ) -> (r: Result<Ivf, ReadError>)
        ensures
            is_read(
                self.index_offset(),
                self.vector_offset(),
                index_file@,
                vector_file@,
                value_width as nat,
                encoding,
                r,
            ),
    {
        if self.index_offset > index_file.len() {
            return Err(ReadError::IndexOffsetOutOfRange);
        }
        if self.vector_offset > vector_file.len() {
            return Err(ReadError::VectorOffsetOutOfRange);
        }
        let index_bytes = slice_to_vec(
            slice_subrange(index_file, self.index_offset, index_file.len()),
        );
        let index_storage = match FixedIndexFile::new_with_encoding(index_bytes, encoding) {
            Ok(file) => file,
            Err(e) => {
                return Err(ReadError::Index(e));
            },
        };
        let num_features = index_storage.header().num_features as usize;
        let num_clusters = index_storage.header().num_clusters as usize;
        let vector_bytes = slice_to_vec(
            slice_subrange(vector_file, self.vector_offset, vector_file.len()),
        );
        let vector_storage = match FixedFileVectorStorage::new(
            vector_bytes,
            num_features,
            value_width,
        ) {
            Ok(storage) => storage,
            Err(e) => {
                return Err(ReadError::Storage(e));
            },
        };
        Ok(Ivf::new(vector_storage, index_storage, num_clusters))
    }
}

} // verus!
