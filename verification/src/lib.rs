//! Host-side logic of a GPU-accelerated delimiter counter and CSV column
//! extractor: chunked streaming of a byte source through a bounded pool of
//! reusable buffers, three chained per-chunk compute stages (delimiter
//! counting, position compaction, field parsing), and the accumulation of
//! their results.
//!
//! The compute stages are specified and implemented here as data-parallel
//! algorithms over explicit thread partitions, proved equal to a sequential
//! scan of the same bytes; the device submission, readback and thread
//! plumbing that surround them live outside the library.

pub mod bindings;
pub mod bytes;
pub mod charpos;
pub mod count;
pub mod csv;
pub mod dispatch;
pub mod error;
pub mod parse;
pub mod pipeline;
pub mod pool;
