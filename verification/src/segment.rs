//! Mathematical model of the segmenter.
//!
//! Content is split on the two-newline paragraph separator, paragraphs are
//! accumulated into segments of bounded size, and a sliding window of exact
//! offsets serves as fallback when the paragraph pass yields nothing.
use vstd::prelude::*;

verus! {

/// A segment at the specification level: start offset, end offset (exclusive),
/// and the segment's text.
pub type SegModel = (int, int, Seq<char>);

/// Characters treated as whitespace when a paragraph-built segment is trimmed.
pub open spec fn is_space(c: char) -> bool {
    c == ' ' || c == '\t' || c == '\n' || c == '\r'
}

/// The two-character paragraph separator.
pub open spec fn sep_seq() -> Seq<char> {
    seq!['\n', '\n']
}

/// `s` has a paragraph separator starting at index `i`.
pub open spec fn sep_at(s: Seq<char>, i: int) -> bool {
    0 <= i && i + 2 <= s.len() && s[i] == '\n' && s[i + 1] == '\n'
}

/// `s` contains a paragraph separator somewhere.
pub open spec fn has_sep(s: Seq<char>) -> bool {
    exists|i: int| sep_at(s, i)
}

/// Index of the leftmost paragraph separator in `s`, or `s.len()` if there is none.
pub open spec fn first_sep(s: Seq<char>) -> int
    decreases s.len(),
{
    if s.len() < 2 {
        s.len() as int
    } else if s[0] == '\n' && s[1] == '\n' {
        0
    } else {
        1 + first_sep(s.drop_first())
    }
}

pub proof fn lemma_first_sep(s: Seq<char>)
    ensures
        0 <= first_sep(s) <= s.len(),
        first_sep(s) < s.len() ==> sep_at(s, first_sep(s)),
        forall|j: int| 0 <= j < first_sep(s) ==> !sep_at(s, j),
    decreases s.len(),
{
    if s.len() < 2 {
    } else if s[0] == '\n' && s[1] == '\n' {
    } else {
        let t = s.drop_first();
        lemma_first_sep(t);
        let f: int = first_sep(s);
        assert(forall|m: int| 0 <= m < t.len() ==> t[m] == s[m + 1]);
        if f < s.len() {
            assert(sep_at(t, f - 1));
            assert(sep_at(s, f));
        }
        assert forall|j: int| 0 <= j < f implies !sep_at(s, j) by {
            if j == 0 {
                assert(!(s[0] == '\n' && s[1] == '\n'));
            } else {
                assert(!sep_at(t, j - 1));
            }
        }
    }
}

/// The leftmost separator is the unique index that is a separator with none before it.
pub proof fn lemma_first_sep_is(s: Seq<char>, k: int)
    requires
        sep_at(s, k),
        forall|j: int| 0 <= j < k ==> !sep_at(s, j),
    ensures
        first_sep(s) == k,
{
    lemma_first_sep(s);
    let f: int = first_sep(s);
    if f < k {
        assert(f < s.len());
        assert(sep_at(s, f));
        assert(false);
    }
    if k < f {
        assert(!sep_at(s, k));
        assert(false);
    }
}

/// If `s` has no separator at all, the sentinel `s.len()` comes back.
pub proof fn lemma_first_sep_none(s: Seq<char>)
    requires
        !has_sep(s),
    ensures
        first_sep(s) == s.len(),
{
    lemma_first_sep(s);
    if first_sep(s) < s.len() {
        assert(sep_at(s, first_sep(s)));
        assert(false);
    }
}

/// The ordered paragraphs of `s`: maximal pieces between paragraph separators.
/// Content without a separator is a single paragraph; every content, the empty
/// one included, has at least one paragraph.
pub open spec fn paragraphs(s: Seq<char>) -> Seq<Seq<char>>
    decreases s.len(),
    via paragraphs_decreases
{
    let f: int = first_sep(s);
    if f == s.len() {
        seq![s]
    } else {
        seq![s.subrange(0, f)] + paragraphs(s.subrange(f + 2, s.len() as int))
    }
}

#[via_fn]
proof fn paragraphs_decreases(s: Seq<char>) {
    lemma_first_sep(s);
}

/// Sum over the paragraphs of `len(paragraph) + 2`: the units by which the
/// running position advances, counting a separator after every paragraph.
pub open spec fn paras_units(ps: Seq<Seq<char>>) -> int
    decreases ps.len(),
{
    if ps.len() == 0 {
        0
    } else {
        ps[0].len() + 2 + paras_units(ps.drop_first())
    }
}

pub proof fn lemma_paragraphs_len(s: Seq<char>)
    ensures
        paragraphs(s).len() >= 1,
    decreases s.len(),
{
    lemma_first_sep(s);
}

/// The position counter over all paragraphs overshoots the content length by
/// exactly one separator: splitting removes two characters per separator, the
/// counter adds two back per paragraph, and there is one paragraph more than
/// there are separators.
pub proof fn lemma_paras_units(s: Seq<char>)
    ensures
        paras_units(paragraphs(s)) == s.len() + 2,
    decreases s.len(),
{
    lemma_first_sep(s);
    let f: int = first_sep(s);
    if f == s.len() {
        assert(paragraphs(s) == seq![s]);
        assert(seq![s].drop_first() =~= Seq::<Seq<char>>::empty());
        assert(paras_units(Seq::<Seq<char>>::empty()) == 0);
        assert(paras_units(seq![s]) == s.len() + 2);
    } else {
        let rest = s.subrange(f + 2, s.len() as int);
        lemma_paras_units(rest);
        let ps = paragraphs(s);
        assert(ps == seq![s.subrange(0, f)] + paragraphs(rest));
        assert(ps.drop_first() =~= paragraphs(rest));
        assert(ps[0] == s.subrange(0, f));
        assert(ps.len() > 0);
        assert(paras_units(ps) == ps[0].len() + 2 + paras_units(ps.drop_first()));
        assert(s.subrange(0, f).len() == f);
        assert(rest.len() == s.len() - f - 2);
    }
}

pub proof fn lemma_paras_units_nonneg(ps: Seq<Seq<char>>)
    ensures
        paras_units(ps) >= 0,
    decreases ps.len(),
{
    if ps.len() > 0 {
        lemma_paras_units_nonneg(ps.drop_first());
    }
}

/// Consuming one more paragraph advances the position sum by its units.
pub proof fn lemma_paras_units_take_snoc(ps: Seq<Seq<char>>, k: int)
    requires
        0 <= k < ps.len(),
    ensures
        paras_units(ps.take(k + 1)) == paras_units(ps.take(k)) + ps[k].len() + 2,
    decreases k,
{
    if k == 0 {
        assert(ps.take(1).len() == 1);
        assert(ps.take(1)[0] == ps[0]);
        assert(ps.take(1).drop_first() =~= Seq::<Seq<char>>::empty());
        assert(ps.take(0) =~= Seq::<Seq<char>>::empty());
        assert(paras_units(Seq::<Seq<char>>::empty()) == 0);
    } else {
        let t = ps.drop_first();
        lemma_paras_units_take_snoc(t, k - 1);
        assert(ps.take(k + 1).len() == k + 1);
        assert(ps.take(k + 1)[0] == ps[0]);
        assert(ps.take(k + 1).drop_first() =~= t.take(k));
        assert(ps.take(k).len() == k);
        assert(ps.take(k)[0] == ps[0]);
        assert(ps.take(k).drop_first() =~= t.take(k - 1));
        assert(t[k - 1] == ps[k]);
    }
}

/// A prefix of the paragraphs accounts for at most the whole position sum.
pub proof fn lemma_paras_units_take_le(ps: Seq<Seq<char>>, k: int)
    requires
        0 <= k <= ps.len(),
    ensures
        0 <= paras_units(ps.take(k)) <= paras_units(ps),
    decreases ps.len() - k,
{
    lemma_paras_units_nonneg(ps.take(k));
    if k == ps.len() {
        assert(ps.take(k) =~= ps);
    } else {
        lemma_paras_units_take_snoc(ps, k);
        lemma_paras_units_take_le(ps, k + 1);
    }
}

/// Each single paragraph accounts for at most the whole position sum.
pub proof fn lemma_paras_units_elem(ps: Seq<Seq<char>>, i: int)
    requires
        0 <= i < ps.len(),
    ensures
        ps[i].len() + 2 <= paras_units(ps),
    decreases i,
{
    if i == 0 {
        lemma_paras_units_nonneg(ps.drop_first());
    } else {
        lemma_paras_units_elem(ps.drop_first(), i - 1);
    }
}

/// Strip leading whitespace.
pub open spec fn trim_start_spec(s: Seq<char>) -> Seq<char>
    decreases s.len(),
{
    if s.len() > 0 && is_space(s[0]) {
        trim_start_spec(s.drop_first())
    } else {
        s
    }
}

/// Strip trailing whitespace.
pub open spec fn trim_end_spec(s: Seq<char>) -> Seq<char>
    decreases s.len(),
{
    if s.len() > 0 && is_space(s[s.len() - 1]) {
        trim_end_spec(s.drop_last())
    } else {
        s
    }
}

/// Strip whitespace from both ends.
pub open spec fn trim_spec(s: Seq<char>) -> Seq<char> {
    trim_end_spec(trim_start_spec(s))
}

pub proof fn lemma_trim_start_len(s: Seq<char>)
    ensures
        trim_start_spec(s).len() <= s.len(),
    decreases s.len(),
{
    if s.len() > 0 && is_space(s[0]) {
        lemma_trim_start_len(s.drop_first());
    }
}

pub proof fn lemma_trim_end_len(s: Seq<char>)
    ensures
        trim_end_spec(s).len() <= s.len(),
    decreases s.len(),
{
    if s.len() > 0 && is_space(s[s.len() - 1]) {
        lemma_trim_end_len(s.drop_last());
    }
}

/// Trimming never lengthens a segment's text.
pub proof fn lemma_trim_len(s: Seq<char>)
    ensures
        trim_spec(s).len() <= s.len(),
{
    lemma_trim_start_len(s);
    lemma_trim_end_len(trim_start_spec(s));
}

/// One step of the paragraph accumulation: close the buffer first when adding
/// the paragraph would overflow a non-empty buffer, then append the paragraph,
/// then advance the position by `len(paragraph) + 2`.
pub open spec fn seg_step(
    st: (Seq<char>, int, int, Seq<SegModel>),
    p: Seq<char>,
    max: int,
) -> (Seq<char>, int, int, Seq<SegModel>) {
    let (buf, start, pos, acc) = st;
    let plen: int = p.len() as int + 2;
    if buf.len() > 0 && buf.len() + plen > max {
        (p, pos, pos + plen, acc.push((start, pos, trim_spec(buf))))
    } else if buf.len() > 0 {
        (buf + sep_seq() + p, start, pos + plen, acc)
    } else {
        (p, start, pos + plen, acc)
    }
}

/// The accumulation, folded over a sequence of paragraphs.
pub open spec fn seg_run(
    ps: Seq<Seq<char>>,
    st: (Seq<char>, int, int, Seq<SegModel>),
    max: int,
) -> (Seq<char>, int, int, Seq<SegModel>)
    decreases ps.len(),
{
    if ps.len() == 0 {
        st
    } else {
        seg_run(ps.drop_first(), seg_step(st, ps[0], max), max)
    }
}

/// The fold consumes a prefix one paragraph at a time.
pub proof fn lemma_seg_run_snoc(
    ps: Seq<Seq<char>>,
    k: int,
    st: (Seq<char>, int, int, Seq<SegModel>),
    max: int,
)
    requires
        0 <= k < ps.len(),
    ensures
        seg_run(ps.take(k + 1), st, max) == seg_step(seg_run(ps.take(k), st, max), ps[k], max),
    decreases k,
{
    let st1 = seg_step(st, ps[0], max);
    if k == 0 {
        assert(ps.take(1).len() == 1);
        assert(ps.take(1)[0] == ps[0]);
        assert(ps.take(1).drop_first() =~= Seq::<Seq<char>>::empty());
        assert(seg_run(ps.take(1), st, max) == seg_run(ps.take(1).drop_first(), st1, max));
        assert(seg_run(Seq::<Seq<char>>::empty(), st1, max) == st1);
        assert(ps.take(0) =~= Seq::<Seq<char>>::empty());
        assert(seg_run(ps.take(0), st, max) == st);
    } else {
        let t = ps.drop_first();
        lemma_seg_run_snoc(t, k - 1, st1, max);
        assert(seg_run(t.take(k), st1, max) == seg_step(seg_run(t.take(k - 1), st1, max), t[k - 1], max));
        assert(ps.take(k + 1).len() == k + 1);
        assert(ps.take(k + 1)[0] == ps[0]);
        assert(ps.take(k + 1).drop_first() =~= t.take(k));
        assert(seg_run(ps.take(k + 1), st, max) == seg_run(t.take(k), st1, max));
        assert(ps.take(k).len() == k);
        assert(ps.take(k)[0] == ps[0]);
        assert(ps.take(k).drop_first() =~= t.take(k - 1));
        assert(seg_run(ps.take(k), st, max) == seg_run(t.take(k - 1), st1, max));
        assert(t[k - 1] == ps[k]);
    }
}

/// The initial accumulation state: empty buffer, offsets at zero, nothing emitted.
pub open spec fn seg_init() -> (Seq<char>, int, int, Seq<SegModel>) {
    (Seq::<char>::empty(), 0, 0, Seq::<SegModel>::empty())
}

/// The segments of the paragraph pass: fold over all paragraphs, then close a
/// final non-empty buffer.
pub open spec fn para_segments(s: Seq<char>, max: int) -> Seq<SegModel> {
    let (buf, start, pos, acc) = seg_run(paragraphs(s), seg_init(), max);
    if buf.len() > 0 {
        acc.push((start, pos, trim_spec(buf)))
    } else {
        acc
    }
}

/// The fallback: consecutive windows of exactly `max` characters (the last one
/// possibly shorter), with exact untrimmed text and exact offsets.
pub open spec fn fallback_segments(s: Seq<char>, start: int, max: int) -> Seq<SegModel>
    decreases s.len() - start when 0 <= start && max >= 1
{
    if start >= s.len() {
        Seq::<SegModel>::empty()
    } else {
        let end: int = if start + max <= s.len() {
            start + max
        } else {
            s.len() as int
        };
        seq![(start, end, s.subrange(start, end))] + fallback_segments(s, end, max)
    }
}

/// What `chunk_content` returns, at the specification level: the paragraph
/// pass, or the fallback windows when that pass emitted nothing for non-empty
/// content. Empty content yields no segments.
pub open spec fn segmentation(s: Seq<char>, max: int) -> Seq<SegModel> {
    let ps = para_segments(s, max);
    if ps.len() == 0 && s.len() > 0 {
        fallback_segments(s, 0, max)
    } else {
        ps
    }
}

/// The sum of the segments' offset spans, `end - start` each.
pub open spec fn span_sum(segs: Seq<SegModel>) -> int
    decreases segs.len(),
{
    if segs.len() == 0 {
        0
    } else {
        segs[0].1 - segs[0].0 + span_sum(segs.drop_first())
    }
}

/// The segments' offset ranges abut: each begins where the one before it
/// ended, the first begins at `lo`, the last ends at `hi`.
pub open spec fn chained(acc: Seq<SegModel>, lo: int, hi: int) -> bool {
    &&& (acc.len() == 0 ==> lo == hi)
    &&& (acc.len() > 0 ==> acc[0].0 == lo && acc[acc.len() - 1].1 == hi)
    &&& (forall|i: int| 0 <= i < acc.len() - 1 ==> (#[trigger] acc[i]).1 == acc[i + 1].0)
    &&& (forall|i: int| 0 <= i < acc.len() ==> (#[trigger] acc[i]).0 <= acc[i].1)
}

proof fn lemma_chained_push(acc: Seq<SegModel>, lo: int, hi: int, pos: int, t: Seq<char>)
    requires
        chained(acc, lo, hi),
        hi <= pos,
    ensures
        chained(acc.push((hi, pos, t)), lo, pos),
{
    let a2 = acc.push((hi, pos, t));
    assert forall|i: int| 0 <= i < a2.len() - 1 implies (#[trigger] a2[i]).1 == a2[i + 1].0 by {
        if i < acc.len() - 1 {
            assert(acc[i].1 == acc[i + 1].0);
        }
    }
}

/// Abutting ranges sum their spans to the whole distance they cover.
pub proof fn lemma_chained_span(acc: Seq<SegModel>, lo: int, hi: int)
    requires
        chained(acc, lo, hi),
    ensures
        span_sum(acc) == hi - lo,
    decreases acc.len(),
{
    if acc.len() == 0 {
    } else {
        let t = acc.drop_first();
        if acc.len() == 1 {
            assert(t =~= Seq::<SegModel>::empty());
            assert(span_sum(t) == 0);
        } else {
            assert(chained(t, acc[0].1, hi)) by {
                assert(acc[0].1 == acc[1].0);
                assert(t[t.len() - 1] == acc[acc.len() - 1]);
                assert(forall|i: int|
                    0 <= i < t.len() - 1 ==> (#[trigger] t[i]).1 == t[i + 1].0 && t[i] == acc[i
                        + 1]);
            }
            lemma_chained_span(t, acc[0].1, hi);
        }
    }
}

/// Abutting ranges all lie between their common bounds.
pub proof fn lemma_chained_bounds(acc: Seq<SegModel>, lo: int, hi: int)
    requires
        chained(acc, lo, hi),
    ensures
        forall|i: int|
            0 <= i < acc.len() ==> lo <= (#[trigger] acc[i]).0 && acc[i].0 <= acc[i].1 && acc[i].1
                <= hi,
    decreases acc.len(),
{
    if acc.len() > 0 {
        let t = acc.drop_first();
        if acc.len() == 1 {
        } else {
            assert(chained(t, acc[0].1, hi)) by {
                assert(acc[0].1 == acc[1].0);
                assert(t[t.len() - 1] == acc[acc.len() - 1]);
                assert(forall|i: int|
                    0 <= i < t.len() - 1 ==> (#[trigger] t[i]).1 == t[i + 1].0 && t[i] == acc[i
                        + 1]);
            }
            lemma_chained_bounds(t, acc[0].1, hi);
            assert(forall|i: int| 1 <= i < acc.len() ==> acc[i] == t[i - 1]);
        }
    }
}

/// Every segment covers at least one offset unit.
pub open spec fn spans_positive(acc: Seq<SegModel>) -> bool {
    forall|i: int| 0 <= i < acc.len() ==> (#[trigger] acc[i]).1 - acc[i].0 >= 1
}

/// The accumulation keeps its emitted segments abutting from offset zero up to
/// the open segment's start, which never passes the position counter; each
/// emitted segment covers at least one unit.
proof fn lemma_seg_run_chain(
    ps: Seq<Seq<char>>,
    buf: Seq<char>,
    start: int,
    pos: int,
    acc: Seq<SegModel>,
    max: int,
)
    requires
        0 <= start <= pos,
        chained(acc, 0, start),
        spans_positive(acc),
        buf.len() > 0 ==> start + 1 <= pos,
    ensures
        seg_run(ps, (buf, start, pos, acc), max).2 == pos + paras_units(ps),
        0 <= seg_run(ps, (buf, start, pos, acc), max).1,
        seg_run(ps, (buf, start, pos, acc), max).1 <= seg_run(ps, (buf, start, pos, acc), max).2,
        chained(
            seg_run(ps, (buf, start, pos, acc), max).3,
            0,
            seg_run(ps, (buf, start, pos, acc), max).1,
        ),
        spans_positive(seg_run(ps, (buf, start, pos, acc), max).3),
        seg_run(ps, (buf, start, pos, acc), max).0.len() > 0 ==> seg_run(
            ps,
            (buf, start, pos, acc),
            max,
        ).1 + 1 <= seg_run(ps, (buf, start, pos, acc), max).2,
    decreases ps.len(),
{
    if ps.len() == 0 {
    } else {
        let p = ps[0];
        let plen: int = p.len() as int + 2;
        let st1 = seg_step((buf, start, pos, acc), p, max);
        if buf.len() > 0 && buf.len() + plen > max {
            lemma_chained_push(acc, 0, start, pos, trim_spec(buf));
            assert(spans_positive(st1.3)) by {
                assert(forall|i: int| 0 <= i < acc.len() ==> st1.3[i] == acc[i]);
                assert(st1.3[acc.len() as int].1 - st1.3[acc.len() as int].0 >= 1);
            }
        }
        lemma_seg_run_chain(ps.drop_first(), st1.0, st1.1, st1.2, st1.3, max);
        assert(seg_run(ps, (buf, start, pos, acc), max) == seg_run(ps.drop_first(), st1, max));
        assert(st1 == (st1.0, st1.1, st1.2, st1.3));
    }
}

/// The paragraph pass emits abutting segments from offset zero to an end that
/// never exceeds the position counter's total, `len(content) + 2`.
pub proof fn lemma_para_segments_chain(s: Seq<char>, max: int)
    ensures
        exists|e: int|
            0 <= e <= s.len() + 2 && #[trigger] chained(para_segments(s, max), 0, e),
        spans_positive(para_segments(s, max)),
{
    lemma_paras_units(s);
    let r = seg_run(paragraphs(s), seg_init(), max);
    lemma_seg_run_chain(paragraphs(s), Seq::<char>::empty(), 0, 0, Seq::<SegModel>::empty(), max);
    assert(seg_init() == (Seq::<char>::empty(), 0int, 0int, Seq::<SegModel>::empty()));
    assert(r.2 == s.len() + 2);
    if r.0.len() > 0 {
        lemma_chained_push(r.3, 0, r.1, r.2, trim_spec(r.0));
        assert(chained(para_segments(s, max), 0, r.2));
        assert(spans_positive(para_segments(s, max))) by {
            assert(forall|i: int| 0 <= i < r.3.len() ==> para_segments(s, max)[i] == r.3[i]);
            assert(para_segments(s, max)[r.3.len() as int].1 - para_segments(s, max)[
                r.3.len() as int].0 >= 1);
        }
    } else {
        assert(chained(para_segments(s, max), 0, r.1));
    }
}

proof fn lemma_spans_count(acc: Seq<SegModel>)
    requires
        spans_positive(acc),
    ensures
        span_sum(acc) >= acc.len(),
    decreases acc.len(),
{
    if acc.len() > 0 {
        let t = acc.drop_first();
        assert(forall|i: int| 0 <= i < t.len() ==> t[i] == acc[i + 1]);
        lemma_spans_count(t);
    }
}

/// There are never more segments than offset units: at most `len(content) + 2`.
pub proof fn lemma_segmentation_count(s: Seq<char>, max: int)
    requires
        max >= 1,
    ensures
        segmentation(s, max).len() <= s.len() + 2,
{
    if para_segments(s, max).len() == 0 && s.len() > 0 {
        lemma_fallback_tiling(s, 0, max);
        let fb = fallback_segments(s, 0, max);
        assert(spans_positive(fb));
        lemma_spans_count(fb);
    } else {
        lemma_para_segments_chain(s, max);
        let e = choose|e: int|
            0 <= e <= s.len() + 2 && #[trigger] chained(para_segments(s, max), 0, e);
        lemma_chained_span(para_segments(s, max), 0, e);
        lemma_spans_count(para_segments(s, max));
    }
}

/// With a non-empty buffer and only paragraphs that are non-empty and smaller
/// than the bound, the accumulation keeps the buffer non-empty and bounded,
/// only appends segments whose text is bounded, and leaves the whole input in
/// the buffer when it closes nothing.
proof fn lemma_seg_run_closes(
    ps: Seq<Seq<char>>,
    buf: Seq<char>,
    start: int,
    pos: int,
    acc: Seq<SegModel>,
    max: int,
)
    requires
        max >= 1,
        0 < buf.len() <= max,
        forall|i: int| 0 <= i < ps.len() ==> 0 < (#[trigger] ps[i]).len() < max,
    ensures
        0 < seg_run(ps, (buf, start, pos, acc), max).0.len() <= max,
        seg_run(ps, (buf, start, pos, acc), max).3.len() >= acc.len(),
        seg_run(ps, (buf, start, pos, acc), max).3.len() == acc.len() ==> seg_run(
            ps,
            (buf, start, pos, acc),
            max,
        ).0.len() == buf.len() + paras_units(ps),
        forall|i: int|
            0 <= i < acc.len() ==> #[trigger] seg_run(ps, (buf, start, pos, acc), max).3[i]
                == acc[i],
        forall|i: int|
            acc.len() <= i < seg_run(ps, (buf, start, pos, acc), max).3.len()
                ==> #[trigger] seg_run(ps, (buf, start, pos, acc), max).3[i].2.len() <= max,
    decreases ps.len(),
{
    if ps.len() == 0 {
    } else {
        let p = ps[0];
        let plen: int = p.len() as int + 2;
        assert(0 < p.len() < max);
        let st1 = seg_step((buf, start, pos, acc), p, max);
        if buf.len() + plen > max {
            lemma_trim_len(buf);
            assert(st1.3 == acc.push((start, pos, trim_spec(buf))));
            assert(st1.0 == p);
        } else {
            assert(st1.0 == buf + sep_seq() + p);
            assert(st1.0.len() == buf.len() + 2 + p.len());
        }
        assert(forall|i: int|
            0 <= i < ps.drop_first().len() ==> 0 < (#[trigger] ps.drop_first()[i]).len() < max);
        lemma_seg_run_closes(ps.drop_first(), st1.0, st1.1, st1.2, st1.3, max);
        assert(seg_run(ps, (buf, start, pos, acc), max) == seg_run(ps.drop_first(), st1, max));
        assert(st1 == (st1.0, st1.1, st1.2, st1.3));
        if seg_run(ps, (buf, start, pos, acc), max).3.len() == acc.len() {
            assert(st1.3.len() == acc.len());
            assert(!(buf.len() + plen > max));
            assert(seg_run(ps, (buf, start, pos, acc), max).0.len() == buf.len() + 2 + p.len()
                + paras_units(ps.drop_first()));
        }
    }
}

/// The fallback windows tile the content exactly: consecutive ranges with no
/// gap and no overlap, from offset zero to the content's length, each of
/// exactly the bound's width but for the last, each carrying the exact
/// untrimmed substring of the content.
pub proof fn lemma_fallback_tiling(s: Seq<char>, start: int, max: int)
    requires
        max >= 1,
        0 <= start <= s.len(),
    ensures
        fallback_segments(s, start, max).len() == 0 <==> start == s.len(),
        fallback_segments(s, start, max).len() > 0 ==> fallback_segments(s, start, max)[0].0
            == start,
        fallback_segments(s, start, max).len() > 0 ==> fallback_segments(s, start, max)[
            fallback_segments(s, start, max).len() - 1].1 == s.len(),
        forall|i: int|
            0 <= i < fallback_segments(s, start, max).len() ==> {
                let w = #[trigger] fallback_segments(s, start, max)[i];
                start <= w.0 && w.0 < w.1 <= s.len() && w.1 - w.0 <= max && w.2 == s.subrange(
                    w.0,
                    w.1,
                )
            },
        forall|i: int|
            0 <= i < fallback_segments(s, start, max).len() - 1
                ==> (#[trigger] fallback_segments(s, start, max)[i]).1 == fallback_segments(
                s,
                start,
                max,
            )[i + 1].0 && fallback_segments(s, start, max)[i].1 - fallback_segments(s, start, max)[
                i].0 == max,
        span_sum(fallback_segments(s, start, max)) == s.len() - start,
    decreases s.len() - start,
{
    let fb = fallback_segments(s, start, max);
    if start >= s.len() {
        assert(fb.len() == 0);
    } else {
        let end: int = if start + max <= s.len() {
            start + max
        } else {
            s.len() as int
        };
        let rest = fallback_segments(s, end, max);
        lemma_fallback_tiling(s, end, max);
        assert(fb == seq![(start, end, s.subrange(start, end))] + rest);
        assert(fb[0] == (start, end, s.subrange(start, end)));
        assert(forall|i: int| 1 <= i < fb.len() ==> fb[i] == rest[i - 1]);
        assert(fb.drop_first() =~= rest);
        assert(span_sum(fb) == end - start + span_sum(rest));
        if end < s.len() {
            assert(rest.len() > 0);
            assert(rest[0].0 == end);
            assert(end - start == max);
        }
    }
}

/// Non-empty content with no paragraph separator, fitting within the bound,
/// yields exactly one segment: its trimmed text, start offset zero, and an end
/// offset of the content's length plus the two units counted for a separator
/// after the final paragraph.
pub proof fn lemma_single_paragraph(s: Seq<char>, max: int)
    requires
        max >= 1,
        0 < s.len() <= max,
        !has_sep(s),
    ensures
        segmentation(s, max) == seq![(0int, s.len() + 2 as int, trim_spec(s))],
{
    lemma_first_sep_none(s);
    assert(paragraphs(s) == seq![s]);
    let st1 = seg_step(seg_init(), s, max);
    assert(st1 == (s, 0int, s.len() + 2 as int, Seq::<SegModel>::empty()));
    assert(seq![s].len() == 1);
    assert(seq![s][0] == s);
    assert(seq![s].drop_first() =~= Seq::<Seq<char>>::empty());
    assert(seg_run(Seq::<Seq<char>>::empty(), st1, max) == st1);
    assert(seg_run(seq![s], seg_init(), max) == st1);
    assert(para_segments(s, max) == Seq::<SegModel>::empty().push(
        (0int, s.len() + 2 as int, trim_spec(s)),
    ));
    assert(para_segments(s, max) =~= seq![(0int, s.len() + 2 as int, trim_spec(s))]);
}

/// Non-empty content always yields at least one segment.
pub proof fn lemma_nonempty_segments(s: Seq<char>, max: int)
    requires
        max >= 1,
        s.len() > 0,
    ensures
        segmentation(s, max).len() >= 1,
{
    if para_segments(s, max).len() == 0 {
        assert(fallback_segments(s, 0, max).len() >= 1);
    }
}

/// Content longer than the bound whose paragraphs are all non-empty and
/// smaller than the bound splits into at least two segments, none of whose
/// trimmed text exceeds the bound.
pub proof fn lemma_multi_paragraph(s: Seq<char>, max: int)
    requires
        max >= 1,
        s.len() > max,
        forall|i: int|
            0 <= i < paragraphs(s).len() ==> 0 < (#[trigger] paragraphs(s)[i]).len() < max,
    ensures
        segmentation(s, max).len() >= 2,
        forall|i: int|
            0 <= i < segmentation(s, max).len() ==> (#[trigger] segmentation(s, max)[i]).2.len()
                <= max,
{
    let ps = paragraphs(s);
    lemma_paras_units(s);
    lemma_paragraphs_len(s);
    let p0 = ps[0];
    assert(0 < p0.len() < max);
    if ps.len() == 1 {
        assert(paras_units(ps) == p0.len() + 2 + paras_units(ps.drop_first()));
        assert(ps.drop_first() =~= Seq::<Seq<char>>::empty());
        assert(p0.len() == s.len());
        assert(false);
    }
    let st1 = seg_step(seg_init(), p0, max);
    assert(st1 == (p0, 0int, p0.len() + 2 as int, Seq::<SegModel>::empty()));
    assert(seg_run(ps, seg_init(), max) == seg_run(ps.drop_first(), st1, max));
    let t = ps.drop_first();
    assert(forall|i: int| 0 <= i < t.len() ==> 0 < (#[trigger] t[i]).len() < max);
    lemma_seg_run_closes(t, p0, 0, p0.len() + 2 as int, Seq::<SegModel>::empty(), max);
    let r = seg_run(t, st1, max);
    assert(paras_units(ps) == p0.len() + 2 + paras_units(t));
    if r.3.len() == 0 {
        assert(r.0.len() == p0.len() + paras_units(t));
        assert(r.0.len() == s.len() - 2 + 2);
        assert(r.0.len() <= max);
        assert(false);
    }
    assert(r.0.len() > 0);
    lemma_trim_len(r.0);
    assert(para_segments(s, max) == r.3.push((r.1, r.2, trim_spec(r.0))));
    assert(segmentation(s, max) == para_segments(s, max));
    assert(forall|i: int|
        0 <= i < r.3.len() ==> (#[trigger] segmentation(s, max)[i]).2.len() <= max);
    assert(segmentation(s, max)[segmentation(s, max).len() - 1].2.len() <= max);
}

/// The segments' spans cover at most the position counter's total; when the
/// fallback ran, they cover the content's length exactly.
pub proof fn lemma_segmentation_span(s: Seq<char>, max: int)
    requires
        max >= 1,
    ensures
        0 <= span_sum(segmentation(s, max)) <= s.len() + 2,
        para_segments(s, max).len() == 0 && s.len() > 0 ==> span_sum(segmentation(s, max))
            == s.len(),
{
    if para_segments(s, max).len() == 0 && s.len() > 0 {
        lemma_fallback_tiling(s, 0, max);
        assert(segmentation(s, max) == fallback_segments(s, 0, max));
    } else {
        lemma_para_segments_chain(s, max);
        let e = choose|e: int|
            0 <= e <= s.len() + 2 && #[trigger] chained(para_segments(s, max), 0, e);
        lemma_chained_span(para_segments(s, max), 0, e);
        assert(segmentation(s, max) == para_segments(s, max));
    }
}

/// Every segment's offsets are ordered and lie within the position counter's
/// total, `len(content) + 2`.
pub proof fn lemma_segmentation_offsets(s: Seq<char>, max: int)
    requires
        max >= 1,
    ensures
        forall|i: int|
            0 <= i < segmentation(s, max).len() ==> 0 <= (#[trigger] segmentation(s, max)[i]).0
                && segmentation(s, max)[i].0 <= segmentation(s, max)[i].1 && segmentation(s, max)[
                i].1 <= s.len() + 2,
{
    let segs = segmentation(s, max);
    if para_segments(s, max).len() == 0 && s.len() > 0 {
        lemma_fallback_tiling(s, 0, max);
        assert(segs == fallback_segments(s, 0, max));
        assert forall|i: int| 0 <= i < segs.len() implies 0 <= (#[trigger] segs[i]).0 && segs[i].0
            <= segs[i].1 && segs[i].1 <= s.len() + 2 by {
            assert(0 <= segs[i].0 && segs[i].0 < segs[i].1 && segs[i].1 <= s.len());
        }
    } else {
        lemma_para_segments_chain(s, max);
        let e = choose|e: int|
            0 <= e <= s.len() + 2 && #[trigger] chained(para_segments(s, max), 0, e);
        lemma_chained_bounds(para_segments(s, max), 0, e);
        assert(segs == para_segments(s, max));
    }
}

} // verus!
