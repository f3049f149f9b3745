use lcs_editor::parser::{ParseErrorKind, SourceLine};
use lcs_editor::{LrcDocument, LrcParser, TimeMs};

fn parse(src: &str) -> LrcDocument {
    LrcParser::new(src).parse().expect("source should parse")
}

fn error(src: &str) -> (usize, ParseErrorKind, String) {
    let e = LrcParser::new(src).parse().expect_err("source should be rejected");
    (e.line_index(), e.kind(), e.prefixed_message())
}

#[test]
fn parses_metadata_and_entries_in_time_order() {
    let doc = parse("[ti:Song]\n[ar:Me]\n\n[00:12.34]Hello world\n[00:05.00][00:20.5] Twice \n");
    let meta = doc.metadata();
    assert_eq!(meta.len(), 2);
    assert_eq!((meta[0].key(), meta[0].value()), ("ti", "Song"));
    assert_eq!((meta[1].key(), meta[1].value()), ("ar", "Me"));
    assert_eq!(doc.line_count(), 6);

    let e = doc.entries();
    assert_eq!(e.len(), 3);
    assert_eq!(e.iter().map(|x| x.time_ms()).collect::<Vec<_>>(), vec![TimeMs(5000), TimeMs(12340), TimeMs(20500)]);
    assert_eq!(e.iter().map(|x| x.id()).collect::<Vec<_>>(), vec![0, 1, 2]);
    assert_eq!(e[0].text(), " Twice ");
    assert_eq!(e[0].display_text(), "Twice");
    assert_eq!(e[1].text(), "Hello world");
    assert_eq!(e[0].timestamp(), "00:05.00");
    assert_eq!(e[1].timestamp(), "00:12.34");
    assert_eq!(e[2].timestamp(), "00:20.50");
    assert_eq!(e[1].source_line, SourceLine(3));
    assert_eq!(e[0].source_line, SourceLine(4));
    assert_eq!(e[2].source_line, SourceLine(4));
    assert_eq!((e[1].lyric_start_utf16(), e[1].lyric_end_utf16()), (29, 40));
    assert_eq!((e[0].lyric_start_utf16(), e[0].lyric_end_utf16()), (60, 67));
    assert_eq!((e[2].lyric_start_utf16(), e[2].lyric_end_utf16()), (60, 67));
}

#[test]
fn fractions_of_one_two_or_three_digits() {
    assert_eq!(parse("[01:02.5]a").entries()[0].time_ms(), TimeMs(62_500));
    assert_eq!(parse("[01:02.05]a").entries()[0].time_ms(), TimeMs(62_050));
    assert_eq!(parse("[01:02.123]a").entries()[0].time_ms(), TimeMs(62_123));
    assert_eq!(parse("[01:02]a").entries()[0].time_ms(), TimeMs(62_000));
    assert_eq!(parse("[12:34]").entries()[0].time_ms(), TimeMs(754_000));
}

#[test]
fn empty_and_blank_sources() {
    let doc = parse("");
    assert!(doc.entries().is_empty());
    assert_eq!(doc.line_count(), 0);
    let doc = parse("   \n[00:01.00]a");
    assert_eq!(doc.entries()[0].source_line, SourceLine(1));
    assert_eq!(doc.line_count(), 2);
}

#[test]
fn carriage_returns_are_dropped() {
    let doc = parse("[00:01.00]a\r\n[00:02.00]b\r\n");
    assert_eq!(doc.entries()[0].text(), "a");
    assert_eq!(doc.entries()[1].text(), "b");
}

#[test]
fn unknown_tag_after_times_stays_in_the_text() {
    let doc = parse("[00:01.00][ab:cd]x");
    assert_eq!(doc.entries().len(), 1);
    assert_eq!(doc.entries()[0].text(), "[ab:cd]x");
}

#[test]
fn line_must_start_with_a_tag() {
    let (line, kind, message) = error("hello");
    assert_eq!(line, 0);
    assert_eq!(kind, ParseErrorKind::LineStart);
    assert_eq!(message, "Line 1: non-empty LRC lines must start with a timestamp or metadata tag");
}

#[test]
fn unknown_tags_are_rejected() {
    let (_, kind, message) = error("[hello]");
    assert_eq!(kind, ParseErrorKind::UnknownTag);
    assert_eq!(message, "Line 1: expected a timestamp like [00:12.34] or metadata like [ti:Song]");
    assert_eq!(error("[ti:Song] extra").1, ParseErrorKind::UnknownTag);
    assert_eq!(error("[hello world]").1, ParseErrorKind::UnknownTag);
    assert_eq!(parse("[12a:Song]").metadata()[0].key(), "12a");
}

#[test]
fn each_timestamp_error() {
    assert_eq!(error("[00:01.00").1, ParseErrorKind::MissingClosingBracket);
    assert_eq!(error("[:01.00]x").1, ParseErrorKind::MinutesMissing);
    assert_eq!(error("[00:1.00]x").1, ParseErrorKind::SecondsDigits);
    assert_eq!(error("[00:5]x").1, ParseErrorKind::SecondsDigits);
    assert_eq!(error("[12:ab]").1, ParseErrorKind::SecondsDigits);
    assert_eq!(error("[00:01,00]x").1, ParseErrorKind::FractionPeriod);
    assert_eq!(error("[00:01.]x").1, ParseErrorKind::FractionLength);
    assert_eq!(error("[00:01.1234]x").1, ParseErrorKind::FractionLength);
    assert_eq!(error("[00:01.a]x").1, ParseErrorKind::FractionDigits);
    assert_eq!(error("[99999999999:00.00]x").1, ParseErrorKind::MinutesTooLarge);
    assert_eq!(error("[00:61.00]x").1, ParseErrorKind::SecondsRange);
    assert_eq!(error("[71582:47.296]x").1, ParseErrorKind::TimeTooLarge);
    assert_eq!(parse("[71582:47.295]x").entries()[0].time_ms(), TimeMs(u32::MAX));
}

#[test]
fn error_messages_name_the_line() {
    let (line, kind, message) = error("[00:01.00]a\n[00:61.00]b");
    assert_eq!(line, 1);
    assert_eq!(kind, ParseErrorKind::SecondsRange);
    assert_eq!(message, "Line 2: timestamp seconds must be below 60");
    assert_eq!(ParseErrorKind::MissingClosingBracket.message(), "missing closing bracket");
    assert_eq!(error("[00:01.00").2, "Line 1: missing closing bracket");
}

#[test]
fn timestamps_are_written_in_centiseconds() {
    assert_eq!(TimeMs(0).as_timestamp(), "00:00.00");
    assert_eq!(TimeMs(61_234).as_timestamp(), "01:01.23");
    assert_eq!(TimeMs(6_000_000).as_timestamp(), "100:00.00");
    assert_eq!(TimeMs(61_234).as_u32(), 61_234);
}

#[test]
fn written_timestamp_reads_back_to_the_centisecond() {
    for t in [0u32, 9, 10, 61_234, 599_999, 3_600_005, u32::MAX] {
        let src = format!("[{}]x", TimeMs(t).as_timestamp());
        assert_eq!(parse(&src).entries()[0].time_ms(), TimeMs(t - t % 10));
    }
}

#[test]
fn written_document_reads_back() {
    let doc = parse("[ti:Song]\n[ar:Me]\n[00:12.345]Hello [x]\n[00:05.00][00:20.5] Twice \n\n[01:00.00]\n");
    let again = parse(&doc.to_source_text());
    assert_eq!(again.metadata().len(), doc.metadata().len());
    for (a, b) in again.metadata().iter().zip(doc.metadata()) {
        assert_eq!((a.key(), a.value()), (b.key(), b.value()));
    }
    assert_eq!(again.entries().len(), doc.entries().len());
    for (a, b) in again.entries().iter().zip(doc.entries()) {
        assert_eq!(a.time_ms().as_u32(), b.time_ms().as_u32() - b.time_ms().as_u32() % 10);
        assert_eq!(a.text(), b.text());
    }
    assert_eq!(again.entries()[1].time_ms(), TimeMs(12_340));
}

#[test]
fn transport_clock_shows_milliseconds() {
    assert_eq!(TimeMs(0).as_timecode(), "00:00.000");
    assert_eq!(TimeMs(61_234).as_timecode(), "01:01.234");
    assert_eq!(TimeMs(5_007).as_timecode(), "00:05.007");
    assert_eq!(TimeMs(6_000_050).as_timecode(), "100:00.050");
}

#[test]
fn writing_again_gives_the_same_text() {
    let doc = parse("[ti:Song]\n[00:12.345]Hello [x]\n[00:05.00][00:20.5] Twice \n[01:00.009]\n");
    let t = doc.to_source_text();
    assert_eq!(parse(&t).to_source_text(), t);
}
