//! The ingestion side: when content is appended, decide what is segmented.
use vstd::prelude::*;

use crate::chunk::{chunk_content, fresh_id, seg_views};
use crate::segment::{
    lemma_nonempty_segments, lemma_segmentation_span, para_segments, segmentation, span_sum,
    SegModel,
};
use crate::view::Event;

verus! {

/// Content strictly longer than this is segmented at ingestion.
pub const CHUNK_THRESHOLD: usize = 2000;

/// The target segment size used at ingestion.
pub const INGEST_CHUNK_SIZE: usize = 1500;

/// What ingestion stores for `content`: nothing at or below the threshold,
/// the bounded segmentation above it.
pub open spec fn ingest_segments_spec(s: Seq<char>) -> Seq<SegModel> {
    if s.len() > CHUNK_THRESHOLD {
        segmentation(s, INGEST_CHUNK_SIZE as int)
    } else {
        Seq::<SegModel>::empty()
    }
}

/// The segments ingestion stores for `content`.
pub fn segments_for_event(content: &str) -> (r: Vec<(usize, usize, String)>)
    requires
        2 * content@.len() + 4 <= usize::MAX,
    ensures
        seg_views(r@) == ingest_segments_spec(content@),
{
    let n: usize = content.unicode_len();
    if n > CHUNK_THRESHOLD {
        chunk_content(content, INGEST_CHUNK_SIZE)
    } else {
        let r: Vec<(usize, usize, String)> = Vec::new();
        proof {
            assert(seg_views(r@) =~= Seq::<SegModel>::empty());
        }
        r
    }
}

/// The event row that an append stores: a fresh id, the timestamp captured
/// once by the caller, and the caller's source, content and metadata.
pub fn event_record(source: &str, content: &str, meta: Option<&str>, timestamp: i64) -> (r: Event)
    ensures
        r.id@.len() == 36,
        r.timestamp == timestamp,
        r.source@ == source@,
        r.content@ == content@,
        r.meta is Some <==> meta is Some,
        meta is Some ==> r.meta->0@ == meta->0@,
{
    let m: Option<String> = match meta {
        Some(text) => Some(String::from_str(text)),
        None => None,
    };
    Event {
        id: fresh_id(),
        timestamp,
        source: String::from_str(source),
        content: String::from_str(content),
        meta: m,
    }
}

/// Ingestion stores no segments for content within the threshold. Above it,
/// it stores at least one, and the segments' spans add up to at most
/// `len(content) + 2` offset units, exactly `len(content)` when the window
/// fallback produced them.
pub proof fn lemma_ingest_roundtrip(s: Seq<char>)
    ensures
        s.len() <= CHUNK_THRESHOLD ==> ingest_segments_spec(s).len() == 0,
        s.len() > CHUNK_THRESHOLD ==> ingest_segments_spec(s).len() >= 1,
        0 <= span_sum(ingest_segments_spec(s)) <= s.len() + 2,
        s.len() > CHUNK_THRESHOLD && para_segments(s, INGEST_CHUNK_SIZE as int).len() == 0
            ==> span_sum(ingest_segments_spec(s)) == s.len(),
{
    if s.len() > CHUNK_THRESHOLD {
        lemma_nonempty_segments(s, INGEST_CHUNK_SIZE as int);
        lemma_segmentation_span(s, INGEST_CHUNK_SIZE as int);
    }
}

} // verus!
