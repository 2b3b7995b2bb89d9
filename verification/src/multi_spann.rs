//! Many indexes in one set of files, one for each user.
//!
//! A table maps the id of a user to the offsets at which the four parts of
//! the user's index start in the shared files. An index is opened when its
//! user is first asked for, and kept.

use vstd::prelude::*;
use vstd::bytes::{
    lemma_auto_spec_u64_to_from_le_bytes, spec_u64_from_le_bytes, spec_u64_to_le_bytes,
    u64_from_le_bytes, u64_to_le_bytes,
};
use vstd::slice::slice_subrange;
use crate::spann_reader::SpannReader;

verus! {

/// Where the parts of one user's index start in the shared files.
#[derive(Clone, Copy, Debug, PartialEq, Eq)]
pub struct UserIndexInfo {
    pub centroid_index_offset: u64,
    pub centroid_vector_offset: u64,
    pub ivf_index_offset: u64,
    pub ivf_vectors_offset: u64,
}

/// The entry of the table for the offsets `info`: the four offsets in their
/// order, eight bytes each, little-endian.
pub open spec fn info_bytes(info: UserIndexInfo) -> Seq<u8> {
    spec_u64_to_le_bytes(info.centroid_index_offset) + spec_u64_to_le_bytes(
        info.centroid_vector_offset,
    ) + spec_u64_to_le_bytes(info.ivf_index_offset) + spec_u64_to_le_bytes(
        info.ivf_vectors_offset,
    )
}

/// The offsets that an entry of the table holds; `None` where the entry
/// does not have 32 bytes.
pub open spec fn info_of_bytes(bytes: Seq<u8>) -> Option<UserIndexInfo> {
    if bytes.len() != 32 {
        None
    } else {
        Some(
            UserIndexInfo {
                centroid_index_offset: spec_u64_from_le_bytes(bytes.subrange(0, 8)),
                centroid_vector_offset: spec_u64_from_le_bytes(bytes.subrange(8, 16)),
                ivf_index_offset: spec_u64_from_le_bytes(bytes.subrange(16, 24)),
                ivf_vectors_offset: spec_u64_from_le_bytes(bytes.subrange(24, 32)),
            },
        )
    }
}

/// An entry that was written is read back as it was.
pub proof fn lemma_info_round_trip(info: UserIndexInfo)
    ensures
        info_bytes(info).len() == 32,
        info_of_bytes(info_bytes(info)) == Some(info),
{
    lemma_auto_spec_u64_to_from_le_bytes();
    let bytes = info_bytes(info);
    assert(bytes.subrange(0, 8) =~= spec_u64_to_le_bytes(info.centroid_index_offset));
    assert(bytes.subrange(8, 16) =~= spec_u64_to_le_bytes(info.centroid_vector_offset));
    assert(bytes.subrange(16, 24) =~= spec_u64_to_le_bytes(info.ivf_index_offset));
    assert(bytes.subrange(24, 32) =~= spec_u64_to_le_bytes(info.ivf_vectors_offset));
}

impl UserIndexInfo {
    /// The entry of the table for these offsets.
    pub fn to_bytes(&self) -> (bytes: Vec<u8>)
        ensures
            bytes@ == info_bytes(*self),
            bytes@.len() == 32,
    {
        proof {
            lemma_auto_spec_u64_to_from_le_bytes();
        }
        let mut bytes = u64_to_le_bytes(self.centroid_index_offset);
        let mut field = u64_to_le_bytes(self.centroid_vector_offset);
        bytes.append(&mut field);
        let mut field = u64_to_le_bytes(self.ivf_index_offset);
        bytes.append(&mut field);
        let mut field = u64_to_le_bytes(self.ivf_vectors_offset);
        bytes.append(&mut field);
        bytes
    }

    /// The offsets that an entry of the table holds.
    pub fn from_bytes(bytes: &[u8]) -> (r: Option<Self>)
        ensures
            r == info_of_bytes(bytes@),
    {
        if bytes.len() != 32 {
            return None;
        }
        Some(
            UserIndexInfo {
                centroid_index_offset: u64_from_le_bytes(slice_subrange(bytes, 0, 8)),
                centroid_vector_offset: u64_from_le_bytes(slice_subrange(bytes, 8, 16)),
                ivf_index_offset: u64_from_le_bytes(slice_subrange(bytes, 16, 24)),
                ivf_vectors_offset: u64_from_le_bytes(slice_subrange(bytes, 24, 32)),
            },
        )
    }

    /// Each offset is a multiple of 8.
    pub open spec fn spec_is_aligned(&self) -> bool {
        &&& self.centroid_index_offset % 8 == 0
        &&& self.centroid_vector_offset % 8 == 0
        &&& self.ivf_index_offset % 8 == 0
        &&& self.ivf_vectors_offset % 8 == 0
    }

    /// The offsets increase from part to part.
    pub open spec fn spec_is_ordered(&self) -> bool {
        self.centroid_index_offset < self.centroid_vector_offset < self.ivf_index_offset
            < self.ivf_vectors_offset
    }

    /// Whether each offset is a multiple of 8.
    pub fn is_aligned(&self) -> (r: bool)
        ensures
            r == self.spec_is_aligned(),
    {
        self.centroid_index_offset % 8 == 0 && self.centroid_vector_offset % 8 == 0
            && self.ivf_index_offset % 8 == 0 && self.ivf_vectors_offset % 8 == 0
    }

    /// Whether the offsets increase from part to part, as they do where the
    /// four parts lie in one address space.
    pub fn is_ordered(&self) -> (r: bool)
        ensures
            r == self.spec_is_ordered(),
    {
        self.centroid_index_offset < self.centroid_vector_offset && self.centroid_vector_offset
            < self.ivf_index_offset && self.ivf_index_offset < self.ivf_vectors_offset
    }

    /// Whether the offsets can be used on this machine: each fits in the
    /// size of an address.
    pub fn is_addressable(&self) -> (r: bool)
        ensures
            r == (self.centroid_index_offset <= usize::MAX && self.centroid_vector_offset
                <= usize::MAX && self.ivf_index_offset <= usize::MAX && self.ivf_vectors_offset
                <= usize::MAX),
    {
        self.centroid_index_offset <= usize::MAX as u64 && self.centroid_vector_offset
            <= usize::MAX as u64 && self.ivf_index_offset <= usize::MAX as u64
            && self.ivf_vectors_offset <= usize::MAX as u64
    }
}

/// What to do for a search on behalf of a user.
pub enum Lookup {
    /// The user's index is open: search it.
    Open,
    /// The user's index is not open yet: open it with this reader, keep it,
    /// and search it.
    Load(SpannReader),
    /// There is no index for the user: the search has no result.
    Unknown,
    /// The table holds offsets for the user that cannot be addressed on this
    /// machine: the table is corrupt.
    Corrupt,
}

/// What to do once a user's index has been read.
#[derive(Clone, Copy, Debug, PartialEq, Eq)]
pub enum Loaded {
    /// Keep the index, unless one was kept for the user meanwhile, and search
    /// the one that is kept.
    KeepAndSearch,
    /// The search has no result.
    NoResult,
}

/// The user a search is for where none is named.
pub const DEFAULT_USER: u128 = 0;

/// The directory of the indexes and the decisions of a search by user.
pub struct MultiSpannIndex {
    base_directory: String,
}

impl MultiSpannIndex {
    /// The directory of the indexes.
    pub closed spec fn base_directory(&self) -> Seq<char> {
        self.base_directory@
    }

    /// The indexes in `base_directory`.
    pub fn new(base_directory: String) -> (index: Self)
        ensures
            index.base_directory() == base_directory@,
    {
        Self { base_directory }
    }

    /// The reader of the index whose parts start at the offsets of `info`.
    pub fn reader_for(&self, info: &UserIndexInfo) -> (reader: SpannReader)
        requires
            info.centroid_index_offset <= usize::MAX,
            info.centroid_vector_offset <= usize::MAX,
            info.ivf_index_offset <= usize::MAX,
            info.ivf_vectors_offset <= usize::MAX,
        ensures
            reader.base_directory() == self.base_directory(),
            reader.offsets() == (
                info.centroid_index_offset as nat,
                info.centroid_vector_offset as nat,
                info.ivf_index_offset as nat,
                info.ivf_vectors_offset as nat,
            ),
    {
        SpannReader::new_with_offsets(
            self.base_directory.clone(),
            info.centroid_index_offset as usize,
            info.centroid_vector_offset as usize,
            info.ivf_index_offset as usize,
            info.ivf_vectors_offset as usize,
        )
    }

    /// Decides what a search for a user does first, from whether the user's
    /// index is open and from what the table holds for the user. The table
    /// is not asked where the index is open.
    pub fn lookup(&self, open: bool, info: Option<UserIndexInfo>) -> (r: Lookup)
        ensures
            open ==> r is Open,
            !open && info is None ==> r is Unknown,
            !open && info is Some && !addressable(info->Some_0) ==> r is Corrupt,
            !open && info is Some && addressable(info->Some_0) ==> r is Load
                && r->Load_0.base_directory() == self.base_directory() && r->Load_0.offsets() == (
                info->Some_0.centroid_index_offset as nat,
                info->Some_0.centroid_vector_offset as nat,
                info->Some_0.ivf_index_offset as nat,
                info->Some_0.ivf_vectors_offset as nat,
            ),
    {
        if open {
            return Lookup::Open;
        }
        match info {
            None => Lookup::Unknown,
            Some(index_info) => {
                if index_info.is_addressable() {
                    Lookup::Load(self.reader_for(&index_info))
                } else {
                    Lookup::Corrupt
                }
            },
        }
    }

    /// Decides what a search does once the user's index has been read:
    /// `read_ok` says whether reading it succeeded.
    pub fn loaded(read_ok: bool) -> (r: Loaded)
        ensures
            r == (if read_ok {
                Loaded::KeepAndSearch
            } else {
                Loaded::NoResult
            }),
    {
        if read_ok {
            Loaded::KeepAndSearch
        } else {
            Loaded::NoResult
        }
    }
}

/// Each offset of `info` fits in the size of an address.
pub open spec fn addressable(info: UserIndexInfo) -> bool {
    &&& info.centroid_index_offset <= usize::MAX
    &&& info.centroid_vector_offset <= usize::MAX
    &&& info.ivf_index_offset <= usize::MAX
    &&& info.ivf_vectors_offset <= usize::MAX
}

} // verus!
