//! The vector file of an index, read from its bytes: a 64-bit count,
//! little-endian, then the vectors one after another, each as many values as
//! the index has features, each value of one fixed width.

use vstd::prelude::*;
use vstd::bytes::u64_from_le_bytes;
use vstd::slice::slice_subrange;
use crate::little_endian::u64_at;

verus! {

/// Why a vector file cannot be used.
#[derive(Clone, Copy, Debug, PartialEq, Eq)]
pub enum StorageError {
    /// The file is shorter than its count.
    Truncated,
    /// A vector would take more bytes than can be addressed.
    VectorTooLong,
}

/// The number of vectors that a vector file declares.
pub open spec fn declared_vectors(bytes: Seq<u8>) -> u64 {
    u64_at(bytes, 0)
}

/// The bytes of vector `index` in a file whose vectors take `vector_len`
/// bytes each; `None` where the file declares or holds no such vector.
pub open spec fn vector_at(bytes: Seq<u8>, vector_len: int, index: int) -> Option<Seq<u8>> {
    let at = 8 + index * vector_len;
    if index >= declared_vectors(bytes) || at + vector_len > bytes.len() {
        None
    } else {
        Some(bytes.subrange(at, at + vector_len))
    }
}

/// A vector file held in memory.
pub struct FixedFileVectorStorage {
    data: Vec<u8>,
    num_vectors: u64,
    num_features: usize,
    vector_len: usize,
}

impl FixedFileVectorStorage {
    /// The bytes of the file.
    pub closed spec fn bytes(&self) -> Seq<u8> {
        self.data@
    }

    /// The number of values in a vector.
    pub closed spec fn features(&self) -> nat {
        self.num_features as nat
    }

    /// The number of bytes of a vector.
    pub closed spec fn vector_len(&self) -> nat {
        self.vector_len as nat
    }

    /// The invariant: the file holds its count, which is the one kept.
    pub closed spec fn wf(&self) -> bool {
        &&& self.data@.len() >= 8
        &&& self.num_vectors == declared_vectors(self.data@)
    }

    /// The bytes of vector `index`.
    pub open spec fn vector(&self, index: int) -> Option<Seq<u8>> {
        vector_at(self.bytes(), self.vector_len() as int, index)
    }

    /// Takes over a vector file whose vectors have `num_features` values of
    /// `value_width` bytes each.
    pub fn new(data: Vec<u8>, num_features: usize, value_width: usize) -> (r: Result<
        Self,
        StorageError,
    >)
        ensures
            data@.len() < 8 ==> r == Err::<Self, StorageError>(StorageError::Truncated),
            data@.len() >= 8 && num_features * value_width > usize::MAX ==> r == Err::<
                Self,
                StorageError,
            >(StorageError::VectorTooLong),
            data@.len() >= 8 && num_features * value_width <= usize::MAX ==> r is Ok
                && r->Ok_0.wf() && r->Ok_0.bytes() == data@ && r->Ok_0.features() == num_features
                && r->Ok_0.vector_len() == num_features * value_width,
    {
        if data.len() < 8 {
            return Err(StorageError::Truncated);
        }
        let vector_len = match num_features.checked_mul(value_width) {
            Some(n) => n,
            None => {
                return Err(StorageError::VectorTooLong);
            },
        };
        let num_vectors = u64_from_le_bytes(slice_subrange(data.as_slice(), 0, 8));
        Ok(FixedFileVectorStorage { data, num_vectors, num_features, vector_len })
    }

    /// The number of vectors that the file declares.
    pub fn num_vectors(&self) -> (n: u64)
        requires
            self.wf(),
        ensures
            n == declared_vectors(self.bytes()),
    {
        self.num_vectors
    }

    /// The number of values in a vector.
    pub fn num_features(&self) -> (n: usize)
        ensures
            n == self.features(),
    {
        self.num_features
    }

    /// The bytes of vector `index`, where the file holds it.
    pub fn get(&self, index: usize) -> (r: Option<&[u8]>)
        requires
            self.wf(),
        ensures
            match r {
                Some(v) => self.vector(index as int) == Some(v@),
                None => self.vector(index as int) is None,
            },
    {
        if index as u128 >= self.num_vectors as u128 {
            return None;
        }
        let width = self.vector_len as u128;
        proof {
            assert((index as u128) * width <= 0xffff_ffff_ffff_ffff * 0xffff_ffff_ffff_ffff)
                by (nonlinear_arith)
                requires
                    index <= 0xffff_ffff_ffff_ffff,
                    width <= 0xffff_ffff_ffff_ffff,
            ;
        }
        let at: u128 = 8 + (index as u128) * width;
        if at + width > self.data.len() as u128 {
            return None;
        }
        Some(slice_subrange(self.data.as_slice(), at as usize, (at + width) as usize))
    }
}

} // verus!
