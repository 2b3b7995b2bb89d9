//! The core of an approximate nearest-neighbour search engine for vectors
//! on disk, verified with Verus.
//!
//! An index partitions its vectors by their nearest centroids and keeps, for
//! each centroid, the posting list of the vectors that belong to it. A search
//! ranks the centroids, scans the posting lists of the nearest ones and keeps
//! the best results.
//!
//! - [`plain`], [`elias_fano`] and [`compression`]: the codecs of posting
//!   lists, over the bit-vectors of [`bits`] and [`bit_packing`].
//! - [`index_file`] and [`vector_storage`]: the files of an index, read from
//!   their bytes; [`ivf_writer`] and [`ivf_builder`]: how they are made.
//! - [`ranking`], [`ivf`] and [`exhaustive`]: scores, the selection of the
//!   best results, the search, and what a search of all clusters finds.
//! - [`ivf_reader`], [`spann_reader`], [`multi_spann`], [`collection`] and
//!   [`catalog`]: indexes in their directories, by user, by version and by
//!   name.
//! - [`config`], [`index_writer`] and [`distance`]: the options of a build,
//!   its layout on disk, and the runs in which the distance calculators take
//!   the coordinates of a vector.
//! - [`errors`]: the kinds of failure.
//!
//! The library reads and writes no file and computes no distance: it works
//! on bytes and on the keys of distances, which its callers provide.

pub mod bit_packing;
pub mod bits;
pub mod catalog;
pub mod collection;
pub mod compression;
pub mod config;
pub mod distance;
pub mod elias_fano;
pub mod errors;
pub mod exhaustive;
pub mod index_file;
pub mod index_writer;
pub mod ivf;
pub mod ivf_builder;
pub mod ivf_reader;
pub mod ivf_writer;
pub mod little_endian;
pub mod multi_spann;
pub mod plain;
pub mod random;
pub mod ranking;
pub mod sorting;
pub mod spann_reader;
pub mod vector_storage;
