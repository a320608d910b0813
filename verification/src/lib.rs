//! Content-defined chunking.
//!
//! A stream of bytes is divided into chunks at positions that are chosen from
//! the content itself, so that inserting or removing a few bytes changes only
//! the chunks around the edit. This is what deduplicating backups and
//! synchronization tools need: splitting every n bytes would change every
//! chunk after an edit.
//!
//! A [`Chunker`] is made from a strategy, a way of finding chunk boundaries
//! that implements [`ChunkerImpl`]: a rolling hash such as [`ZPAQ`] or
//! [`GearChunker`], or a rule on the bytes themselves such as [`AEChunker`].
//! The chunker then gives the chunks in one of these ways:
//!
//! - `slices` iterates on the chunks of a buffer in memory, as slices of it;
//! - `whole_chunks` iterates on the chunks of a [`Reader`], each in a vector
//!   of its own, and `all_chunks` collects them all;
//! - `stream` hands out the data of the chunks from a buffer that it uses
//!   again and again, without allocating: a chunk may come in several parts;
//! - `chunks` gives the offset and the length of each chunk, without the data.
//!
//! A strategy is described by a mathematical state and functions on it, and
//! every way of getting the chunks is specified over those. For a strategy
//! that is seam invariant all ways give the same chunks, however the reader
//! hands out the input; the module [`laws`] holds this and what else holds
//! of every run.

pub mod adapters;
pub mod ae;
pub mod bfbc;
pub mod bytewise;
pub mod chunker;
pub mod fsc;
pub mod gear;
pub mod laws;
pub mod limit;
pub mod mii;
pub mod pci;
pub mod ram;
pub mod reader;
pub mod strategy;
pub mod stream;
pub mod tttd;
pub mod zpaq;

pub use crate::adapters::{ChunkInfo, ChunkInfoStream, Slices, WholeChunks};
pub use crate::ae::AEChunker;
pub use crate::bfbc::BFBCChunker;
pub use crate::chunker::Chunker;
pub use crate::fsc::FixedSizeChunker;
pub use crate::gear::{GearChunker, NormalizedChunkingGearChunker};
pub use crate::limit::SizeLimited;
pub use crate::mii::MIIChunker;
pub use crate::pci::{PCIChunker, PCIChunkerNonConst};
pub use crate::ram::{MaybeOptimizedRAMChunker, RAMChunker};
pub use crate::reader::{Reader, SliceReader};
pub use crate::strategy::ChunkerImpl;
pub use crate::stream::{ChunkInput, ChunkStream};
pub use crate::tttd::TTTDChunker;
pub use crate::zpaq::ZPAQ;
