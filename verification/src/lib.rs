//! An append-only event log with offset-addressable text segmentation.
//!
//! Callers append timestamped, sourced pieces of text. Content above a size
//! threshold is split by the segmenter into bounded segments that carry their
//! offsets within the original content, so each can be stored and searched on
//! its own while its position in the whole stays reconstructible. The
//! segmenter's behaviour is stated against a mathematical model in
//! [`segment`]; storage itself is an external collaborator of this crate.
use vstd::prelude::*;

pub mod chunk;
pub mod log;
pub mod segment;
pub mod view;

pub use chunk::{chunk_content, chunk_records, Chunk};
pub use log::{event_record, segments_for_event, CHUNK_THRESHOLD, INGEST_CHUNK_SIZE};
pub use view::{like_pattern, Event};

verus! {

} // verus!
