//! The segmenter: split text content into bounded, offset-addressable segments.
use vstd::prelude::*;
use vstd::string::*;

use crate::segment::{
    fallback_segments, first_sep, has_sep, is_space, lemma_first_sep, lemma_first_sep_is,
    lemma_first_sep_none, lemma_paras_units, lemma_paras_units_elem, lemma_paras_units_take_le,
    lemma_paras_units_take_snoc, lemma_seg_run_snoc, lemma_segmentation_count,
    lemma_segmentation_offsets, para_segments, paragraphs, paras_units, seg_init, seg_run,
    seg_step, segmentation, sep_at, sep_seq, trim_end_spec, trim_spec, trim_start_spec, SegModel,
};

verus! {

/// A stored segment row: owning event, position in sequence, text and the
/// offsets of the segment within the original content.
#[derive(Debug)]
pub struct Chunk {
    pub id: String,
    pub event_id: String,
    pub chunk_index: i64,
    pub content: String,
    pub start_offset: i64,
    pub end_offset: i64,
}

/// Relies on uuid: `Uuid::new_v4().to_string()` is the 36-character hyphenated
/// form of a fresh random id. Nothing more is assumed of a random value.
#[verifier::external_body]
pub(crate) fn fresh_id() -> (r: String)
    ensures
        r@.len() == 36,
{
    uuid::Uuid::new_v4().to_string()
}

/// The views of a vector of owned paragraph strings.
pub open spec fn para_views(v: Seq<String>) -> Seq<Seq<char>> {
    v.map_values(|p: String| p@)
}

/// The model of a vector of produced segments.
pub open spec fn seg_views(v: Seq<(usize, usize, String)>) -> Seq<SegModel> {
    v.map_values(|t: (usize, usize, String)| (t.0 as int, t.1 as int, t.2@))
}

fn is_space_char(c: char) -> (r: bool)
    ensures
        r == is_space(c),
{
    c == ' ' || c == '\t' || c == '\n' || c == '\r'
}

/// Index of the first paragraph separator at or after `from`, or `n` if there
/// is none.
fn find_sep(content: &str, from: usize, n: usize) -> (r: usize)
    requires
        n == content@.len(),
        from <= n,
    ensures
        from <= r <= n,
        r - from == first_sep(content@.skip(from as int)),
{
    let ghost t = content@.skip(from as int);
    let mut j: usize = from;
    while j < n && n - j >= 2
        invariant
            n == content@.len(),
            from <= j,
            j <= n,
            t == content@.skip(from as int),
            forall|m: int| 0 <= m < j - from ==> !sep_at(t, m),
        decreases n - j,
    {
        if content.get_char(j) == '\n' && content.get_char(j + 1) == '\n' {
            proof {
                assert(t[j - from] == content@[j as int]);
                assert(t[j - from + 1] == content@[j + 1]);
                assert(sep_at(t, j - from));
                lemma_first_sep_is(t, j - from);
            }
            return j;
        }
        proof {
            assert(t[j - from] == content@[j as int]);
            assert(t[j - from + 1] == content@[j + 1]);
            assert(!sep_at(t, j - from));
        }
        j = j + 1;
    }
    proof {
        assert forall|m: int| !sep_at(t, m) by {
            if 0 <= m && m + 2 <= t.len() {
                assert(m < j - from);
            }
        }
        assert(!has_sep(t));
        lemma_first_sep_none(t);
    }
    n
}

/// Split content on the two-newline separator into its ordered paragraphs.
fn split_paragraphs(content: &str) -> (paras: Vec<String>)
    ensures
        para_views(paras@) == paragraphs(content@),
{
    let ghost s = content@;
    let n: usize = content.unicode_len();
    let mut paras: Vec<String> = Vec::new();
    let mut cursor: usize = 0;
    proof {
        assert(s.skip(0) =~= s);
        assert(para_views(paras@) =~= Seq::<Seq<char>>::empty());
        assert(Seq::<Seq<char>>::empty() + paragraphs(s) =~= paragraphs(s));
    }
    loop
        invariant_except_break
            n == s.len(),
            s == content@,
            cursor <= n,
            para_views(paras@) + paragraphs(s.skip(cursor as int)) == paragraphs(s),
        ensures
            para_views(paras@) == paragraphs(s),
        decreases n - cursor,
    {
        let ghost suffix = s.skip(cursor as int);
        let i = find_sep(content, cursor, n);
        proof {
            lemma_first_sep(suffix);
        }
        if i == n {
            let p = String::from_str(content.substring_char(cursor, n));
            proof {
                assert(first_sep(suffix) == suffix.len());
                assert(paragraphs(suffix) == seq![suffix]);
                assert(p@ =~= suffix);
                assert(para_views(paras@.push(p)) =~= para_views(paras@).push(suffix));
                assert(para_views(paras@).push(suffix) + Seq::<Seq<char>>::empty() =~= para_views(
                    paras@,
                ) + seq![suffix]);
                assert(para_views(paras@) + paragraphs(suffix) =~= paragraphs(s));
                assert(para_views(paras@.push(p)) =~= paragraphs(s));
            }
            paras.push(p);
            break ;
        } else {
            let p = String::from_str(content.substring_char(cursor, i));
            proof {
                let f: int = first_sep(suffix);
                assert(f == i - cursor);
                assert(f < suffix.len());
                assert(paragraphs(suffix) == seq![suffix.subrange(0, f)] + paragraphs(
                    suffix.subrange(f + 2, suffix.len() as int),
                ));
                assert(p@ =~= suffix.subrange(0, f));
                assert(suffix.subrange(f + 2, suffix.len() as int) =~= s.skip(i + 2));
                assert(para_views(paras@.push(p)) =~= para_views(paras@).push(p@));
                assert(para_views(paras@).push(p@) + paragraphs(s.skip(i + 2)) =~= para_views(
                    paras@,
                ) + paragraphs(suffix));
            }
            paras.push(p);
            cursor = i + 2;
        }
    }
    paras
}

proof fn lemma_trim_start_from(s: Seq<char>, i: int)
    requires
        0 <= i <= s.len(),
        forall|j: int| 0 <= j < i ==> is_space(s[j]),
    ensures
        trim_start_spec(s) == trim_start_spec(s.skip(i)),
    decreases i,
{
    if i == 0 {
        assert(s.skip(0) =~= s);
    } else {
        assert(is_space(s[0]));
        let t = s.drop_first();
        assert(forall|j: int| 0 <= j < i - 1 ==> is_space(#[trigger] t[j]));
        lemma_trim_start_from(t, i - 1);
        assert(t.skip(i - 1) =~= s.skip(i));
    }
}

/// Remove leading and trailing whitespace, as the model's trim does.
fn trim_str(s: &str) -> (r: String)
    ensures
        r@ == trim_spec(s@),
{
    let n: usize = s.unicode_len();
    let mut i: usize = 0;
    while i < n && is_space_char(s.get_char(i))
        invariant
            i <= n,
            n == s@.len(),
            forall|j: int| 0 <= j < i ==> is_space(s@[j]),
        decreases n - i,
    {
        i = i + 1;
    }
    proof {
        lemma_trim_start_from(s@, i as int);
        let t = s@.skip(i as int);
        if t.len() > 0 {
            assert(t[0] == s@[i as int]);
            assert(!is_space(t[0]));
        }
        assert(trim_start_spec(t) == t);
        assert(t =~= s@.subrange(i as int, n as int));
    }
    let mut j: usize = n;
    while j > i && is_space_char(s.get_char(j - 1))
        invariant
            i <= j <= n,
            n == s@.len(),
            trim_end_spec(s@.subrange(i as int, n as int)) == trim_end_spec(
                s@.subrange(i as int, j as int),
            ),
        decreases j,
    {
        proof {
            let t = s@.subrange(i as int, j as int);
            assert(t[t.len() - 1] == s@[j - 1]);
            assert(is_space(t[t.len() - 1]));
            assert(t.drop_last() =~= s@.subrange(i as int, j - 1));
        }
        j = j - 1;
    }
    proof {
        let t = s@.subrange(i as int, j as int);
        if t.len() > 0 {
            assert(t[t.len() - 1] == s@[j - 1]);
            assert(!is_space(t[t.len() - 1]));
        }
        assert(trim_end_spec(t) == t);
    }
    String::from_str(s.substring_char(i, j))
}

proof fn lemma_seg_views_push(v: Seq<(usize, usize, String)>, t: (usize, usize, String))
    ensures
        seg_views(v.push(t)) == seg_views(v).push((t.0 as int, t.1 as int, t.2@)),
{
    assert(seg_views(v.push(t)) =~= seg_views(v).push((t.0 as int, t.1 as int, t.2@)));
}

/// Split content into segments: paragraphs are accumulated into segments of at
/// most `max_chunk_size` characters (closing a segment only when the next
/// paragraph would overflow it, so a single oversized paragraph stands alone),
/// with trimmed text and position-counter offsets; content on which that pass
/// emits nothing falls back to exact windows of `max_chunk_size` characters.
pub fn chunk_content(content: &str, max_chunk_size: usize) -> (r: Vec<(usize, usize, String)>)
    requires
        max_chunk_size >= 1,
        2 * content@.len() + 4 <= usize::MAX,
    ensures
        seg_views(r@) == segmentation(content@, max_chunk_size as int),
{
    let ghost s = content@;
    let ghost max = max_chunk_size as int;
    let n: usize = content.unicode_len();
    let paras = split_paragraphs(content);
    let ghost ps = paragraphs(s);
    proof {
        lemma_paras_units(s);
        assert(ps.take(0) =~= Seq::<Seq<char>>::empty());
        assert(seg_views(Seq::<(usize, usize, String)>::empty()) =~= Seq::<SegModel>::empty());
    }
    let mut chunks: Vec<(usize, usize, String)> = Vec::new();
    let mut current_chunk: String = String::new();
    let mut cur_len: usize = 0;
    let mut chunk_start: usize = 0;
    let mut current_pos: usize = 0;
    let mut k: usize = 0;
    while k < paras.len()
        invariant
            s == content@,
            max == max_chunk_size as int,
            max >= 1,
            2 * s.len() + 4 <= usize::MAX,
            ps == paragraphs(s),
            para_views(paras@) == ps,
            paras@.len() == ps.len(),
            paras_units(ps) == s.len() + 2,
            k <= paras.len(),
            cur_len == current_chunk@.len(),
            current_pos == paras_units(ps.take(k as int)),
            cur_len <= current_pos,
            seg_run(ps.take(k as int), seg_init(), max).0 == current_chunk@,
            seg_run(ps.take(k as int), seg_init(), max).1 == chunk_start as int,
            seg_run(ps.take(k as int), seg_init(), max).2 == current_pos as int,
            seg_run(ps.take(k as int), seg_init(), max).3 == seg_views(chunks@),
        decreases paras.len() - k,
    {
        let ghost buf0 = current_chunk@;
        let ghost pos0 = current_pos as int;
        let ghost start0 = chunk_start as int;
        let ghost acc0 = seg_views(chunks@);
        let ghost rk = seg_run(ps.take(k as int), seg_init(), max);
        let para: &String = &paras[k];
        let pl: usize = para.as_str().unicode_len();
        proof {
            assert(para_views(paras@)[k as int] == paras@[k as int]@);
            assert(pl == ps[k as int].len());
            lemma_paras_units_elem(ps, k as int);
            lemma_paras_units_take_snoc(ps, k as int);
            lemma_paras_units_take_le(ps, k as int);
            lemma_paras_units_take_le(ps, k as int + 1);
        }
        let para_len: usize = pl + 2;
        if cur_len > 0 && cur_len + para_len > max_chunk_size {
            let ghost chunksv0 = chunks@;
            let text = trim_str(current_chunk.as_str());
            proof {
                assert(text@ == trim_spec(buf0));
            }
            chunks.push((chunk_start, current_pos, text));
            proof {
                lemma_seg_views_push(
                    chunksv0,
                    (chunk_start, current_pos, (chunks@[chunks@.len() - 1]).2),
                );
                assert(chunks@[chunks@.len() - 1].2@ == trim_spec(buf0));
                assert(chunks@ =~= chunksv0.push(chunks@[chunks@.len() - 1]));
                assert(seg_views(chunks@) == acc0.push((start0, pos0, trim_spec(buf0))));
            }
            current_chunk = String::new();
            cur_len = 0;
            chunk_start = current_pos;
        }
        if cur_len > 0 {
            proof {
                reveal_strlit("\n\n");
                assert("\n\n"@ =~= sep_seq());
            }
            current_chunk.append("\n\n");
            cur_len = cur_len + 2;
        }
        current_chunk.append(para.as_str());
        cur_len = cur_len + pl;
        current_pos = current_pos + para_len;
        proof {
            lemma_seg_run_snoc(ps, k as int, seg_init(), max);
            let st1 = seg_step(rk, ps[k as int], max);
            assert(seg_run(ps.take(k as int + 1), seg_init(), max) == st1);
            if buf0.len() > 0 && buf0.len() + ps[k as int].len() + 2 > max {
                assert(current_chunk@ =~= ps[k as int]);
                assert(st1.0 == ps[k as int]);
            } else if buf0.len() > 0 {
                assert(current_chunk@ =~= buf0 + sep_seq() + ps[k as int]);
            } else {
                assert(current_chunk@ =~= ps[k as int]);
            }
            assert(st1.0 == current_chunk@);
            assert(st1.1 == chunk_start as int);
            assert(st1.2 == current_pos as int);
            assert(st1.3 == seg_views(chunks@));
        }
        k = k + 1;
    }
    proof {
        assert(ps.take(ps.len() as int) =~= ps);
    }
    if cur_len > 0 {
        let ghost buf0 = current_chunk@;
        let ghost chunksv0 = chunks@;
        let ghost acc0 = seg_views(chunks@);
        let text = trim_str(current_chunk.as_str());
        chunks.push((chunk_start, current_pos, text));
        proof {
            assert(chunks@ =~= chunksv0.push(chunks@[chunks@.len() - 1]));
            lemma_seg_views_push(
                chunksv0,
                (chunk_start, current_pos, (chunks@[chunks@.len() - 1]).2),
            );
            assert(seg_views(chunks@) == acc0.push(
                (chunk_start as int, current_pos as int, trim_spec(buf0)),
            ));
            assert(seg_views(chunks@) == para_segments(s, max));
        }
    } else {
        proof {
            assert(seg_views(chunks@) == para_segments(s, max));
        }
    }
    if chunks.len() == 0 && n > 0 {
        proof {
            assert(para_segments(s, max).len() == 0);
            assert(segmentation(s, max) == fallback_segments(s, 0, max));
            assert(seg_views(chunks@) + fallback_segments(s, 0, max) =~= fallback_segments(
                s,
                0,
                max,
            ));
        }
        let mut start: usize = 0;
        while start < n
            invariant
                s == content@,
                n == s.len(),
                max == max_chunk_size as int,
                max >= 1,
                start <= n,
                seg_views(chunks@) + fallback_segments(s, start as int, max) == fallback_segments(
                    s,
                    0,
                    max,
                ),
            decreases n - start,
        {
            let end: usize = if max_chunk_size >= n - start {
                n
            } else {
                start + max_chunk_size
            };
            let ghost chunksv0 = chunks@;
            let ghost acc0 = seg_views(chunks@);
            let text = String::from_str(content.substring_char(start, end));
            proof {
                assert(text@ == s.subrange(start as int, end as int));
            }
            chunks.push((start, end, text));
            proof {
                assert(chunks@ =~= chunksv0.push(chunks@[chunks@.len() - 1]));
                lemma_seg_views_push(chunksv0, (start, end, (chunks@[chunks@.len() - 1]).2));
                assert(fallback_segments(s, start as int, max) == seq![
                    (start as int, end as int, s.subrange(start as int, end as int)),
                ] + fallback_segments(s, end as int, max));
                assert(seg_views(chunks@) =~= acc0.push(
                    (start as int, end as int, s.subrange(start as int, end as int)),
                ));
                assert(seg_views(chunks@) + fallback_segments(s, end as int, max)
                    =~= acc0 + fallback_segments(s, start as int, max));
            }
            start = end;
        }
        proof {
            assert(fallback_segments(s, start as int, max) == Seq::<SegModel>::empty());
            assert(seg_views(chunks@) + Seq::<SegModel>::empty() =~= seg_views(chunks@));
        }
    } else {
        proof {
            if s.len() > 0 {
                assert(para_segments(s, max).len() > 0);
            }
            assert(segmentation(s, max) == para_segments(s, max));
        }
    }
    chunks
}

/// The rows to store for an event's content: one per segment, tagged with the
/// owning event's id, numbered in segment order, each under a fresh id.
pub fn chunk_records(event_id: &str, content: &str, max_chunk_size: usize) -> (r: Vec<Chunk>)
    requires
        max_chunk_size >= 1,
        2 * content@.len() + 4 <= usize::MAX,
        content@.len() + 2 <= i64::MAX,
    ensures
        r@.len() == segmentation(content@, max_chunk_size as int).len(),
        forall|i: int|
            0 <= i < r@.len() ==> {
                let w = #[trigger] r@[i];
                let m = segmentation(content@, max_chunk_size as int)[i];
                w.event_id@ == event_id@ && w.chunk_index == i && w.content@ == m.2
                    && w.start_offset == m.0 && w.end_offset == m.1 && w.id@.len() == 36
            },
{
    let ghost s = content@;
    let ghost max = max_chunk_size as int;
    let segs = chunk_content(content, max_chunk_size);
    proof {
        lemma_segmentation_offsets(s, max);
        lemma_segmentation_count(s, max);
    }
    let mut out: Vec<Chunk> = Vec::new();
    let mut idx: usize = 0;
    while idx < segs.len()
        invariant
            s == content@,
            max == max_chunk_size as int,
            s.len() + 2 <= i64::MAX,
            seg_views(segs@) == segmentation(s, max),
            segs@.len() == segmentation(s, max).len(),
            segmentation(s, max).len() <= s.len() + 2,
            forall|i: int|
                0 <= i < segmentation(s, max).len() ==> 0 <= (#[trigger] segmentation(s, max)[
                i]).0 && segmentation(s, max)[i].0 <= segmentation(s, max)[i].1 && segmentation(
                    s,
                    max,
                )[i].1 <= s.len() + 2,
            idx <= segs.len(),
            out@.len() == idx,
            forall|i: int|
                0 <= i < idx ==> {
                    let w = #[trigger] out@[i];
                    let m = segmentation(s, max)[i];
                    w.event_id@ == event_id@ && w.chunk_index == i && w.content@ == m.2
                        && w.start_offset == m.0 && w.end_offset == m.1 && w.id@.len() == 36
                },
        decreases segs.len() - idx,
    {
        proof {
            assert(seg_views(segs@)[idx as int] == segmentation(s, max)[idx as int]);
        }
        let start = segs[idx].0;
        let end = segs[idx].1;
        let text = segs[idx].2.clone();
        out.push(
            Chunk {
                id: fresh_id(),
                event_id: String::from_str(event_id),
                chunk_index: idx as i64,
                content: text,
                start_offset: start as i64,
                end_offset: end as i64,
            },
        );
        idx = idx + 1;
    }
    out
}

} // verus!
