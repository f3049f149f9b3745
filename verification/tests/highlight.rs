use lcs_editor::highlight::{get_end_of_line_utf16, highlight_line, highlight_lrc, is_timestamp, HighlightKind};
use lcs_editor::highlight::HighlightKind::{
    Bracket, Invalid, Lyric, MetadataColon, MetadataKey, MetadataValue, Timestamp, WordTimestamp,
};

fn kinds(line: &str) -> Vec<(HighlightKind, String)> {
    highlight_line(line).into_iter().map(|s| (s.kind, s.text)).collect()
}

fn k(kind: HighlightKind, text: &str) -> (HighlightKind, String) {
    (kind, text.to_string())
}

#[test]
fn timed_line_with_word_times() {
    assert_eq!(
        kinds("[00:12.34]Hello <00:13.00>world"),
        vec![
            k(Bracket, "["),
            k(Timestamp, "00:12.34"),
            k(Bracket, "]"),
            k(Lyric, "Hello "),
            k(Bracket, "<"),
            k(WordTimestamp, "00:13.00"),
            k(Bracket, ">"),
            k(Lyric, "world"),
        ]
    );
}

#[test]
fn metadata_line() {
    assert_eq!(
        kinds("[ti:My Song]"),
        vec![k(Bracket, "["), k(MetadataKey, "ti"), k(MetadataColon, ":"), k(MetadataValue, "My Song"), k(Bracket, "]")]
    );
}

#[test]
fn invalid_pieces() {
    assert_eq!(kinds("[oops"), vec![k(Invalid, "[oops")]);
    assert_eq!(
        kinds("[abc]x <bad"),
        vec![k(Bracket, "["), k(Invalid, "abc"), k(Bracket, "]"), k(Lyric, "x "), k(Invalid, "<bad")]
    );
    assert_eq!(kinds("<x>"), vec![k(Bracket, "<"), k(Invalid, "x"), k(Bracket, ">")]);
    assert!(kinds("").is_empty());
}

#[test]
fn spans_give_back_the_line() {
    for line in ["[00:01.00][ar:x]a <1>b <c", "plain", "[a:b:c]<<>>", "[x]]", "  [00:01.00]"] {
        let joined: String = highlight_line(line).into_iter().map(|s| s.text).collect();
        assert_eq!(joined, line);
    }
}

#[test]
fn lines_and_selection() {
    let lines = highlight_lrc("a\n\nb", Some(1));
    assert_eq!(lines.len(), 3);
    assert_eq!(lines[0].spans.len(), 1);
    assert_eq!(lines[0].spans[0].kind, HighlightKind::Lyric);
    assert!(!lines[0].selected);
    assert_eq!(lines[1].spans[0].kind, HighlightKind::Filler);
    assert_eq!(lines[1].spans[0].text, "\u{200b}");
    assert!(lines[1].selected);
    assert_eq!(lines[2].spans[0].text, "b");
    assert_eq!(highlight_lrc("x\n", None).len(), 2);
    assert_eq!(HighlightKind::Timestamp.css_class(), "hl-timestamp");
    assert_eq!(HighlightKind::WordTimestamp.css_class(), "hl-timestamp-word");
}

#[test]
fn caret_offsets_in_utf16() {
    let text = "ab\ncde\n";
    assert_eq!(get_end_of_line_utf16(text, 0), Some(2));
    assert_eq!(get_end_of_line_utf16(text, 1), Some(6));
    assert_eq!(get_end_of_line_utf16(text, 2), Some(7));
    assert_eq!(get_end_of_line_utf16(text, 3), None);
    assert_eq!(get_end_of_line_utf16("\u{1F600}\nx", 0), Some(2));
    assert_eq!(get_end_of_line_utf16("\u{1F600}\nx", 1), Some(4));
}

#[test]
fn timestamp_tags_start_with_a_digit() {
    assert!(is_timestamp("12:00"));
    assert!(!is_timestamp("ti"));
    assert!(!is_timestamp(""));
}
