use mirror_log::chunk_content;
use mirror_log::segments_for_event;

#[test]
fn empty_content_yields_no_segments() {
    let segs = chunk_content("", 100);
    assert!(segs.is_empty());
}

#[test]
fn single_short_paragraph() {
    // No separator and within the bound: one trimmed segment, start 0,
    // end = len + 2 from the position counter's final separator allowance.
    let segs = chunk_content("hello world", 100);
    assert_eq!(segs.len(), 1);
    assert_eq!(segs[0], (0, 13, "hello world".to_string()));
}

#[test]
fn nonempty_content_never_yields_empty() {
    let segs = chunk_content("a", 1);
    assert_eq!(segs.len(), 1);
    assert_eq!(segs[0], (0, 3, "a".to_string()));
}

#[test]
fn two_paragraphs_fit_third_spills() {
    let content = "para one.\n\npara two.\n\npara three.";
    let segs = chunk_content(content, 25);
    assert_eq!(segs.len(), 2);
    assert_eq!(segs[0], (0, 22, "para one.\n\npara two.".to_string()));
    assert_eq!(segs[1], (22, 35, "para three.".to_string()));
}

#[test]
fn paragraph_segments_are_trimmed() {
    let segs = chunk_content(" padded \n\nnext ", 5);
    assert_eq!(segs.len(), 2);
    assert_eq!(segs[0], (0, 10, "padded".to_string()));
    assert_eq!(segs[1], (10, 17, "next".to_string()));
}

#[test]
fn small_paragraphs_over_bound_split_under_bound() {
    // Three paragraphs, each smaller than the bound, total above it:
    // at least two segments, none longer than the bound.
    let segs = chunk_content("aaaa\n\nbbbb\n\ncccc", 10);
    assert_eq!(segs.len(), 2);
    assert_eq!(segs[0], (0, 12, "aaaa\n\nbbbb".to_string()));
    assert_eq!(segs[1], (12, 18, "cccc".to_string()));
    for (_, _, text) in &segs {
        assert!(text.len() <= 10);
    }
}

#[test]
fn long_unbroken_line_is_one_paragraph_segment() {
    // A single huge paragraph is never closed against itself: the paragraph
    // pass emits it whole, so the fallback does not run.
    let content = "x".repeat(5000);
    let segs = chunk_content(&content, 1500);
    assert_eq!(segs.len(), 1);
    assert_eq!(segs[0].0, 0);
    assert_eq!(segs[0].1, 5002);
    assert_eq!(segs[0].2, content);
}

#[test]
fn fallback_windows_exact_offsets() {
    // Content whose paragraphs are all empty makes the paragraph pass emit
    // nothing, so the window fallback runs: exact, abutting offsets, the
    // first windows exactly the bound wide, the last shorter, text untrimmed.
    let content = "\n".repeat(5000);
    let segs = chunk_content(&content, 1500);
    assert_eq!(segs.len(), 4);
    assert_eq!(segs[0].0, 0);
    assert_eq!(segs[0].1, 1500);
    assert_eq!(segs[1].0, 1500);
    assert_eq!(segs[1].1, 3000);
    assert_eq!(segs[2].0, 3000);
    assert_eq!(segs[2].1, 4500);
    assert_eq!(segs[3].0, 4500);
    assert_eq!(segs[3].1, 5000);
    assert_eq!(segs[0].2, "\n".repeat(1500));
    assert_eq!(segs[3].2, "\n".repeat(500));
}

#[test]
fn fallback_covers_all_offsets_without_gaps() {
    let content = "\n".repeat(46);
    let segs = chunk_content(&content, 10);
    assert_eq!(segs.len(), 5);
    assert_eq!(segs[0].0, 0);
    assert_eq!(segs[segs.len() - 1].1, 46);
    for w in segs.windows(2) {
        assert_eq!(w[0].1, w[1].0);
    }
    let total: usize = segs.iter().map(|(s, e, _)| e - s).sum();
    assert_eq!(total, 46);
}

#[test]
fn separator_only_content_uses_fallback() {
    let segs = chunk_content("\n\n", 5);
    assert_eq!(segs.len(), 1);
    assert_eq!(segs[0], (0, 2, "\n\n".to_string()));
}

#[test]
fn offsets_count_characters_not_bytes() {
    let segs = chunk_content("é\n\nü", 1);
    assert_eq!(segs.len(), 2);
    assert_eq!(segs[0], (0, 3, "é".to_string()));
    assert_eq!(segs[1], (3, 6, "ü".to_string()));
}

#[test]
fn ingest_below_threshold_stores_nothing() {
    let content = "x".repeat(2000);
    assert!(segments_for_event(&content).is_empty());
}

#[test]
fn ingest_above_threshold_stores_segments() {
    let content = "y".repeat(2001);
    let segs = segments_for_event(&content);
    assert_eq!(segs.len(), 1);
    let span: usize = segs.iter().map(|(s, e, _)| e - s).sum();
    assert_eq!(span, 2003);
}

#[test]
fn ingest_splits_paragraphs_above_threshold() {
    let mut content = String::new();
    content.push_str(&"z".repeat(1000));
    content.push_str("\n\n");
    content.push_str(&"z".repeat(1000));
    content.push_str("\n\n");
    let segs = segments_for_event(&content);
    assert_eq!(segs.len(), 2);
    assert_eq!(segs[0], (0, 1002, "z".repeat(1000)));
    assert_eq!(segs[1], (1002, 2006, "z".repeat(1000)));
}
