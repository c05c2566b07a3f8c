use markup_diff::cache::DigestCache;
use markup_diff::digests::HashKind;
use markup_diff::linediff::{line_diff, ChangeKind};
use markup_diff::pipeline::{
    compare_with_line_diffs, compare_with_method, document_digests, normalize_markup,
    PerformanceConfig,
};
use markup_diff::token::tokenize;

fn config() -> PerformanceConfig {
    PerformanceConfig { use_parallel_hashing: false, hash_kind: HashKind::Fast }
}

#[test]
fn added_paragraph_is_detected_and_located() {
    let a = "<div><h1>Hi</h1></div>";
    let b = "<div><h1>Hi</h1><p>New</p></div>";
    let mut cache = DigestCache::new();
    let (report, diffs) = compare_with_line_diffs(a, b, 1, false, &config(), &mut cache);
    assert_eq!(tokenize(a).len(), 5);
    assert_eq!(tokenize(b).len(), 8);
    assert_eq!(report.total_distinct_a, 5);
    assert_eq!(report.total_distinct_b, 8);
    assert_eq!(report.common, 5);
    assert_eq!(report.different, 3);
    assert!(report.percent_different() > 0);
    // exactly one added entry, covering the three new tokens on line 1
    assert_eq!(diffs.len(), 1);
    assert_eq!(diffs[0].change, ChangeKind::Added);
    assert_eq!(diffs[0].line_range, "L1");
    assert!(diffs[0].content_preview.starts_with("+ TAG:<p>"));
    assert_eq!(diffs[0].content_preview, "+ TAG:<p>, TEXT:New ... (1 more)");
}

#[test]
fn identical_documents_yield_no_line_diffs() {
    let doc = "<html>\n<body>\n<p>Same content</p>\n</body>\n</html>";
    let mut cache = DigestCache::new();
    let (report, diffs) = compare_with_line_diffs(doc, doc, 2, false, &config(), &mut cache);
    assert_eq!(diffs.len(), 0);
    assert_eq!(report.different, 0);
    assert_eq!(report.percent_different(), 0);
}

#[test]
fn removed_tokens_come_after_added_ones() {
    let a = "<div><old/></div>";
    let b = "<div><new/></div>";
    let ta = tokenize(a);
    let tb = tokenize(b);
    let diffs = line_diff(&ta, &tb);
    assert_eq!(diffs.len(), 2);
    assert_eq!(diffs[0].change, ChangeKind::Added);
    assert_eq!(diffs[0].content_preview, "+ TAG:<new/>");
    assert_eq!(diffs[1].change, ChangeKind::Removed);
    assert_eq!(diffs[1].content_preview, "- TAG:<old/>");
}

#[test]
fn consecutive_added_lines_group_into_one_range() {
    let a = "<a>";
    let b = "<a>\n<new1>\n<new2>";
    let diffs = line_diff(&tokenize(a), &tokenize(b));
    assert_eq!(diffs.len(), 1);
    assert_eq!(diffs[0].line_range, "L2-L3");
    assert_eq!(diffs[0].content_preview, "+ TAG:<new1>, TAG:<new2>");
}

#[test]
fn separated_added_lines_stay_separate_entries() {
    let a = "<a>";
    let b = "<a>\n<new1>\n\n\n<new2>";
    let diffs = line_diff(&tokenize(a), &tokenize(b));
    assert_eq!(diffs.len(), 2);
    assert_eq!(diffs[0].line_range, "L2");
    assert_eq!(diffs[1].line_range, "L5");
}

#[test]
fn line_ranges_render_multi_digit_numbers() {
    let a = "<keep>";
    // nine blank lines push the new tokens down to lines 10 through 12
    let b = format!("<keep>{}<n1>\n<n2>\n<n3>", "\n".repeat(9));
    let diffs = line_diff(&tokenize(a), &tokenize(&b));
    assert_eq!(diffs.len(), 1);
    assert_eq!(diffs[0].line_range, "L10-L12");
    assert_eq!(diffs[0].content_preview, "+ TAG:<n1>, TAG:<n2> ... (1 more)");
}

#[test]
fn token_moved_to_another_line_is_invisible() {
    let a = "<x><y>";
    let b = "<x>\n<y>";
    let diffs = line_diff(&tokenize(a), &tokenize(b));
    assert_eq!(diffs.len(), 0);
}

#[test]
fn preview_is_truncated_to_one_hundred_characters() {
    let long_text = "x".repeat(150);
    let a = "<a>";
    let b = format!("<a>{}", long_text);
    let diffs = line_diff(&tokenize(a), &tokenize(&b));
    assert_eq!(diffs.len(), 1);
    let preview = &diffs[0].content_preview;
    // "+ " plus the first hundred characters of "TEXT:xxx..."
    assert_eq!(preview.chars().count(), 102);
    assert!(preview.starts_with("+ TEXT:xxxxx"));
}

#[test]
fn compare_with_method_agrees_across_methods() {
    let a = "<div><h1>Title</h1><p>One</p></div>";
    let b = "<div><h1>Title</h1><p>Two</p></div>";
    let mut cache = DigestCache::new();
    let (chunks_a, _) = normalize_markup(a, 2);
    let (chunks_b, _) = normalize_markup(b, 2);
    let flat = compare_with_method(&chunks_a, &chunks_b, false, &config(), &mut cache);
    let tree = compare_with_method(&chunks_a, &chunks_b, true, &config(), &mut cache);
    assert_eq!(flat, tree);
    assert!(flat.different > 0);
}

#[test]
fn document_digests_depend_only_on_content() {
    let doc = "<div><p>stable</p></div>";
    let mut cache = DigestCache::new();
    let first = document_digests(doc, 1, &config(), &mut cache);
    let second = document_digests(doc, 1, &config(), &mut cache);
    assert_eq!(first, second);
    assert_eq!(first.len(), tokenize(doc).len());
}

#[test]
fn hash_kinds_both_run_through_the_pipeline() {
    let a = "<div>one</div>";
    let b = "<div>two</div>";
    let mut cache = DigestCache::new();
    for kind in [HashKind::Fast, HashKind::Cryptographic] {
        let cfg = PerformanceConfig { use_parallel_hashing: false, hash_kind: kind };
        let (report, _) = compare_with_line_diffs(a, b, 1, false, &cfg, &mut cache);
        assert_eq!(report.common, 2);
        assert_eq!(report.different, 2);
        assert_eq!(report.total, 4);
        assert_eq!(report.percent_different(), 50);
    }
}
