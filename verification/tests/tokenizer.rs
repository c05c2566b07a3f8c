use markup_diff::chunking::chunk;
use markup_diff::token::{tokenize, TokenKind};

fn labels(markup: &str) -> Vec<String> {
    tokenize(markup).iter().map(|t| t.label()).collect()
}

#[test]
fn tokenize_simple_document() {
    let toks = tokenize("<div><h1>Hi</h1></div>");
    assert_eq!(toks.len(), 5);
    assert_eq!(
        labels("<div><h1>Hi</h1></div>"),
        vec!["TAG:<div>", "TAG:<h1>", "TEXT:Hi", "TAG:</h1>", "TAG:</div>"]
    );
    assert!(toks.iter().all(|t| t.line == 1));
    assert_eq!(toks[0].kind, TokenKind::Tag);
    assert_eq!(toks[2].kind, TokenKind::Text);
    assert_eq!(toks[2].content, "Hi");
}

#[test]
fn tokenize_empty_and_whitespace_only() {
    assert_eq!(tokenize("").len(), 0);
    assert_eq!(tokenize("   \n\t  ").len(), 0);
}

#[test]
fn tokenize_trims_text_and_drops_whitespace_runs() {
    let toks = tokenize("<p>  hello world  </p>");
    assert_eq!(toks.len(), 3);
    assert_eq!(toks[1].content, "hello world");
}

#[test]
fn tokenize_collapses_tag_whitespace() {
    let toks = tokenize("<div   class='a'\n id='b'>x</div>");
    assert_eq!(toks[0].label(), "TAG:<div class='a' id='b'>");
}

#[test]
fn tokenize_unmatched_brackets_fall_through_as_text() {
    // no closing '>' anywhere: everything is text
    let toks = tokenize("a < b");
    assert_eq!(toks.len(), 1);
    assert_eq!(toks[0].label(), "TEXT:a < b");
    // an empty pair matches nothing and passes through
    let toks = tokenize("<>");
    assert_eq!(toks.len(), 1);
    assert_eq!(toks[0].label(), "TEXT:<>");
    // a '<' inside a tag run is allowed by the tag pattern
    let toks = tokenize("<a<b>");
    assert_eq!(toks.len(), 1);
    assert_eq!(toks[0].label(), "TAG:<a<b>");
}

#[test]
fn tokenize_line_numbers_follow_newlines() {
    let toks = tokenize("<div>\n<p>hi</p>\n</div>");
    let lines: Vec<usize> = toks.iter().map(|t| t.line).collect();
    assert_eq!(lines, vec![1, 2, 2, 2, 3]);
}

#[test]
fn text_line_is_its_own_start_not_the_next_tag() {
    // the text sits on line 1; the tag that follows it starts on line 2
    let toks = tokenize("Hi\n<p>x</p>");
    assert_eq!(toks[0].label(), "TEXT:Hi");
    assert_eq!(toks[0].line, 1);
    assert_eq!(toks[1].label(), "TAG:<p>");
    assert_eq!(toks[1].line, 2);
    assert_eq!(toks[2].line, 2);
}

#[test]
fn trailing_text_line_is_where_it_starts() {
    // the tail text starts on line 1, whatever trails after it
    let toks = tokenize("<p>Tail\n\n");
    assert_eq!(toks[1].label(), "TEXT:Tail");
    assert_eq!(toks[1].line, 1);
    // leading whitespace moves the start down to its first real character
    let toks = tokenize("<p>\n\nTail");
    assert_eq!(toks[1].label(), "TEXT:Tail");
    assert_eq!(toks[1].line, 3);
}

#[test]
fn chunk_size_one_is_identity_on_labels() {
    let toks = tokenize("<div><h1>Hi</h1></div>");
    let chunks = chunk(&toks, 1);
    assert_eq!(chunks, labels("<div><h1>Hi</h1></div>"));
    // a chunk size of zero behaves the same way
    assert_eq!(chunk(&toks, 0), chunks);
}

#[test]
fn chunk_groups_of_two_join_with_delimiter() {
    // five tokens, chunk size two: three chunks of sizes 2, 2, 1
    let toks = tokenize("<div><h1>Hi</h1></div>");
    let chunks = chunk(&toks, 2);
    assert_eq!(chunks.len(), 3);
    assert_eq!(chunks[0], "TAG:<div>|TAG:<h1>");
    assert_eq!(chunks[1], "TEXT:Hi|TAG:</h1>");
    assert_eq!(chunks[2], "TAG:</div>");
}

#[test]
fn chunk_count_is_ceiling_of_token_count() {
    let toks = tokenize("<div><h1>Hi</h1></div>");
    assert_eq!(toks.len(), 5);
    assert_eq!(chunk(&toks, 1).len(), 5);
    assert_eq!(chunk(&toks, 2).len(), 3);
    assert_eq!(chunk(&toks, 3).len(), 2);
    assert_eq!(chunk(&toks, 5).len(), 1);
    assert_eq!(chunk(&toks, 9).len(), 1);
}

#[test]
fn chunk_concatenation_covers_every_token_once() {
    let toks = tokenize("<div><h1>Hi</h1></div>");
    for k in 1..7 {
        let chunks = chunk(&toks, k);
        let rejoined: Vec<String> =
            chunks.iter().flat_map(|c| c.split('|').map(|s| s.to_string())).collect();
        assert_eq!(rejoined, labels("<div><h1>Hi</h1></div>"));
    }
}
