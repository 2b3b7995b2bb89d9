//! Opening an index that pairs a navigator over the centroids with an
//! inverted file.

use vstd::prelude::*;
use vstd::string::StringExecFns;
use crate::index_file::IntSeqEncodingType;
use crate::ivf::Ivf;
use crate::ivf_reader::{is_read, IvfReader, ReadError};

verus! {

/// The reader of such an index. Its four parts may each start at an offset
/// into a file that is shared with other indexes: the navigator's graph, the
/// navigator's vectors, the inverted file's index and the inverted file's
/// vectors.
pub struct SpannReader {
    base_directory: String,
    centroids_index_offset: usize,
    centroids_vector_offset: usize,
    ivf_index_offset: usize,
    ivf_vector_offset: usize,
}

impl SpannReader {
    /// The directory of the index.
    pub closed spec fn base_directory(&self) -> Seq<char> {
        self.base_directory@
    }

    /// The offsets of the four parts, in the order: graph, navigator's
    /// vectors, inverted file's index, inverted file's vectors.
    pub closed spec fn offsets(&self) -> (nat, nat, nat, nat) {
        (
            self.centroids_index_offset as nat,
            self.centroids_vector_offset as nat,
            self.ivf_index_offset as nat,
            self.ivf_vector_offset as nat,
        )
    }

    /// A reader of the index in `base_directory`, whose files hold nothing
    /// else.
    pub fn new(base_directory: String) -> (reader: Self)
        ensures
            reader.base_directory() == base_directory@,
            reader.offsets() == (0nat, 0nat, 0nat, 0nat),
    {
        Self {
            base_directory,
            centroids_index_offset: 0,
            centroids_vector_offset: 0,
            ivf_index_offset: 0,
            ivf_vector_offset: 0,
        }
    }

    /// A reader of the index in `base_directory` whose parts start at the
    /// given offsets.
    pub fn new_with_offsets(
        base_directory: String,
        centroids_index_offset: usize,
        centroids_vector_offset: usize,
        ivf_index_offset: usize,
        ivf_vector_offset: usize,
    ) -> (reader: Self)
        ensures
            reader.base_directory() == base_directory@,
            reader.offsets() == (
                centroids_index_offset as nat,
                centroids_vector_offset as nat,
                ivf_index_offset as nat,
                ivf_vector_offset as nat,
            ),
    {
        Self {
            base_directory,
            centroids_index_offset,
            centroids_vector_offset,
            ivf_index_offset,
            ivf_vector_offset,
        }
    }

    /// The directory of the inverted file.
    pub fn posting_list_path(&self) -> (p: String)
        ensures
            p@ == self.base_directory() + "/ivf"@,
    {
        self.base_directory.clone().concat("/ivf")
    }

    /// The directory of the navigator over the centroids.
    pub fn centroid_path(&self) -> (p: String)
        ensures
            p@ == self.base_directory() + "/centroids"@,
    {
        self.base_directory.clone().concat("/centroids")
    }

    /// The offsets of the navigator's graph and of its vectors.
    pub fn centroid_offsets(&self) -> (r: (usize, usize))
        ensures
            r.0 == self.offsets().0,
            r.1 == self.offsets().1,
    {
        (self.centroids_index_offset, self.centroids_vector_offset)
    }

    /// The reader of the inverted file: in its directory, at its offsets.
    pub fn ivf_reader(&self) -> (reader: IvfReader)
        ensures
            reader.base_directory() == self.base_directory() + "/ivf"@,
            reader.index_offset() == self.offsets().2,
            reader.vector_offset() == self.offsets().3,
    {
        IvfReader::new_with_offset(
            self.posting_list_path(),
            self.ivf_index_offset,
            self.ivf_vector_offset,
        )
    }

    /// Opens the inverted file of the index from the bytes of its two files.
    /// Its posting lists are plainly encoded.
    pub fn read(&self, index_file: &[u8], vector_file: &[u8], value_width: usize) -> (r: Result<
        Ivf,
        ReadError,
    >)
        ensures
            is_read(
                self.offsets().2,
                self.offsets().3,
                index_file@,
                vector_file@,
                value_width as nat,
                IntSeqEncodingType::PlainEncoding,
                r,
            ),
    {
        self.ivf_reader().read(index_file, vector_file, value_width)
    }
}

} // verus!
