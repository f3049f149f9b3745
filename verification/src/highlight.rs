//! Syntax highlighting of LRC source text, and caret positions in it.
//!
//! A line is cut into spans, each with the kind of token it is; drawn one after
//! the other the spans give back the line, so the highlighted copy lines up
//! with the text being edited.
use vstd::prelude::*;

use crate::text::{
    chars_of, first_index, is_digit, is_digit_char, lemma_first_index_some, string_of_range, utf16_count,
    utf16_len,
};

verus! {

/// The kind of token a span of source text is.
#[derive(Clone, Copy, Debug, PartialEq, Eq, Structural)]
pub enum HighlightKind {
    /// `[`, `]`, `<` or `>`.
    Bracket,
    /// The time inside a line's `[..]` tag.
    Timestamp,
    /// The time inside a word's `<..>` tag.
    WordTimestamp,
    MetadataKey,
    MetadataColon,
    MetadataValue,
    Lyric,
    Invalid,
    /// Stands in for an empty line so that it keeps its height.
    Filler,
}

/// The style class of a kind of token.
pub open spec fn kind_class(kind: HighlightKind) -> Seq<char> {
    match kind {
        HighlightKind::Bracket => "hl-bracket"@,
        HighlightKind::Timestamp => "hl-timestamp"@,
        HighlightKind::WordTimestamp => "hl-timestamp-word"@,
        HighlightKind::MetadataKey => "hl-metadata-key"@,
        HighlightKind::MetadataColon => "hl-metadata-colon"@,
        HighlightKind::MetadataValue => "hl-metadata-value"@,
        HighlightKind::Lyric => "hl-lyric"@,
        HighlightKind::Invalid => "hl-invalid"@,
        HighlightKind::Filler => ""@,
    }
}

impl HighlightKind {
    /// The style class of the kind.
    pub fn css_class(self) -> (r: &'static str)
        ensures
            r@ == kind_class(self),
    {
        match self {
            HighlightKind::Bracket => "hl-bracket",
            HighlightKind::Timestamp => "hl-timestamp",
            HighlightKind::WordTimestamp => "hl-timestamp-word",
            HighlightKind::MetadataKey => "hl-metadata-key",
            HighlightKind::MetadataColon => "hl-metadata-colon",
            HighlightKind::MetadataValue => "hl-metadata-value",
            HighlightKind::Lyric => "hl-lyric",
            HighlightKind::Invalid => "hl-invalid",
            HighlightKind::Filler => "",
        }
    }
}

/// A run of source text of one kind.
#[derive(Debug)]
pub struct HighlightSpan {
    pub kind: HighlightKind,
    pub text: String,
}

/// A highlighted line of source text.
#[derive(Debug)]
pub struct HighlightedLine {
    pub spans: Vec<HighlightSpan>,
    /// Whether the line holds the selected lyric.
    pub selected: bool,
}

pub struct SpanModel {
    pub kind: HighlightKind,
    pub text: Seq<char>,
}

pub open spec fn span(kind: HighlightKind, text: Seq<char>) -> SpanModel {
    SpanModel { kind, text }
}

pub open spec fn span_model(s: HighlightSpan) -> SpanModel {
    SpanModel { kind: s.kind, text: s.text@ }
}

pub open spec fn span_models(s: Seq<HighlightSpan>) -> Seq<SpanModel> {
    s.map_values(|x: HighlightSpan| span_model(x))
}

/// The text of the spans, one after the other.
pub open spec fn spans_text(s: Seq<SpanModel>) -> Seq<char>
    decreases s.len(),
{
    if s.len() == 0 {
        Seq::empty()
    } else {
        spans_text(s.drop_last()) + s.last().text
    }
}

/// A tag whose content starts with a digit holds a time.
pub open spec fn is_timestamp_tag(s: Seq<char>) -> bool {
    s.len() > 0 && is_digit(s[0])
}

/// The spans of what stands between `[` and `]`: a time, `key:value`, or
/// anything else, which is invalid.
pub open spec fn tag_content_spans(c: Seq<char>) -> Seq<SpanModel> {
    if is_timestamp_tag(c) {
        seq![span(HighlightKind::Timestamp, c)]
    } else {
        match first_index(c, ':') {
            Some(k) => seq![
                span(HighlightKind::MetadataKey, c.take(k)),
                span(HighlightKind::MetadataColon, seq![':']),
                span(HighlightKind::MetadataValue, c.skip(k + 1)),
            ],
            None => seq![span(HighlightKind::Invalid, c)],
        }
    }
}

/// The spans of the `[..]` tags at the start of `rest`, and what follows them.
/// A `[` without a closing `]` makes the rest of the line invalid.
pub open spec fn tag_spans(rest: Seq<char>) -> (Seq<SpanModel>, Seq<char>)
    decreases rest.len(),
{
    if rest.len() > 0 && rest[0] == '[' {
        match first_index(rest, ']') {
            Some(k) => {
                proof {
                    lemma_first_index_some(rest, ']');
                }
                let (more, tail) = tag_spans(rest.skip(k + 1));
                (
                    seq![span(HighlightKind::Bracket, seq!['['])] + tag_content_spans(rest.subrange(1, k))
                        + seq![span(HighlightKind::Bracket, seq![']'])] + more,
                    tail,
                )
            },
            None => (seq![span(HighlightKind::Invalid, rest)], Seq::empty()),
        }
    } else {
        (Seq::empty(), rest)
    }
}

/// The spans of lyric text with `<..>` word times in it. A `<` without a
/// closing `>` makes the rest of the line invalid.
pub open spec fn word_spans(rest: Seq<char>) -> Seq<SpanModel>
    decreases rest.len(),
{
    if rest.len() == 0 {
        Seq::empty()
    } else {
        match first_index(rest, '<') {
            None => seq![span(HighlightKind::Lyric, rest)],
            Some(o) => {
                proof {
                    lemma_first_index_some(rest, '<');
                }
                let pre = if o > 0 {
                    seq![span(HighlightKind::Lyric, rest.take(o))]
                } else {
                    Seq::empty()
                };
                let br = rest.skip(o);
                match first_index(br, '>') {
                    Some(c) => {
                        proof {
                            lemma_first_index_some(br, '>');
                        }
                        let content = br.subrange(1, c);
                        let kind = if is_timestamp_tag(content) {
                            HighlightKind::WordTimestamp
                        } else {
                            HighlightKind::Invalid
                        };
                        pre + seq![
                            span(HighlightKind::Bracket, seq!['<']),
                            span(kind, content),
                            span(HighlightKind::Bracket, seq!['>']),
                        ] + word_spans(br.skip(c + 1))
                    },
                    None => pre + seq![span(HighlightKind::Invalid, br)],
                }
            },
        }
    }
}

/// The spans of a source line: its leading tags, then its lyric text.
pub open spec fn line_spans(line: Seq<char>) -> Seq<SpanModel> {
    tag_spans(line).0 + word_spans(tag_spans(line).1)
}

/// `str::split('\n')`: the pieces between newlines, an empty one included
/// after a final newline.
pub open spec fn split_lines(s: Seq<char>) -> Seq<Seq<char>>
    decreases s.len(),
{
    match first_index(s, '\n') {
        None => seq![s],
        Some(k) => {
            proof {
                lemma_first_index_some(s, '\n');
            }
            seq![s.take(k)] + split_lines(s.skip(k + 1))
        },
    }
}

/// The spans shown for a line: a filler where there is nothing to show.
pub open spec fn shown_spans(line: Seq<char>) -> Seq<SpanModel> {
    if line_spans(line).len() == 0 {
        seq![span(HighlightKind::Filler, seq!['\u{200b}'])]
    } else {
        line_spans(line)
    }
}

pub struct LineModel {
    pub spans: Seq<SpanModel>,
    pub selected: bool,
}

pub open spec fn line_model(l: HighlightedLine) -> LineModel {
    LineModel { spans: span_models(l.spans@), selected: l.selected }
}

/// The highlighted lines of `text`, the line numbered `selected` (from zero)
/// marked.
pub open spec fn highlighted(text: Seq<char>, selected: Option<usize>) -> Seq<LineModel> {
    let ls = split_lines(text);
    Seq::new(ls.len(), |i: int| LineModel { spans: shown_spans(ls[i]), selected: selected == Some(i as usize) })
}

/// UTF-16 length of the first `n` lines, each with its newline.
pub open spec fn utf16_lines_prefix(ls: Seq<Seq<char>>, n: int) -> int
    decreases n,
{
    if n <= 0 {
        0
    } else {
        utf16_lines_prefix(ls, n - 1) + utf16_len(ls[n - 1]) + 1
    }
}

/// The UTF-16 offset of the end of line `idx` of `text`, if it has that line.
pub open spec fn end_of_line_utf16(text: Seq<char>, idx: int) -> Option<int> {
    let ls = split_lines(text);
    if 0 <= idx < ls.len() {
        Some(utf16_lines_prefix(ls, idx) + utf16_len(ls[idx]))
    } else {
        None
    }
}

// ---------------------------------------------------------------------------
// Laws
// ---------------------------------------------------------------------------

pub proof fn lemma_spans_text_append(a: Seq<SpanModel>, b: Seq<SpanModel>)
    ensures
        spans_text(a + b) == spans_text(a) + spans_text(b),
    decreases b.len(),
{
    if b.len() == 0 {
        assert(a + b =~= a);
        assert(spans_text(a) + spans_text(b) =~= spans_text(a));
    } else {
        lemma_spans_text_append(a, b.drop_last());
        assert((a + b).drop_last() =~= a + b.drop_last());
        assert(spans_text(a + b) =~= spans_text(a) + spans_text(b));
    }
}

proof fn lemma_spans_text_one(x: SpanModel)
    ensures
        spans_text(seq![x]) == x.text,
{
    let s = seq![x];
    assert(s.drop_last() =~= Seq::<SpanModel>::empty());
    assert(s.last() == x);
    assert(spans_text(s) == spans_text(Seq::<SpanModel>::empty()) + x.text);
    assert(Seq::<char>::empty() + x.text =~= x.text);
}

proof fn lemma_spans_text_of_three(x: SpanModel, y: SpanModel, z: SpanModel)
    ensures
        spans_text(seq![x, y, z]) == x.text + y.text + z.text,
{
    assert(seq![x, y, z] =~= seq![x] + seq![y] + seq![z]);
    lemma_spans_text_append(seq![x] + seq![y], seq![z]);
    lemma_spans_text_append(seq![x], seq![y]);
    lemma_spans_text_one(x);
    lemma_spans_text_one(y);
    lemma_spans_text_one(z);
}

proof fn lemma_tag_content_text(c: Seq<char>)
    ensures
        spans_text(tag_content_spans(c)) == c,
{
    if is_timestamp_tag(c) {
        lemma_spans_text_one(span(HighlightKind::Timestamp, c));
    } else {
        lemma_first_index_some(c, ':');
        match first_index(c, ':') {
            Some(k) => {
                lemma_spans_text_of_three(
                    span(HighlightKind::MetadataKey, c.take(k)),
                    span(HighlightKind::MetadataColon, seq![':']),
                    span(HighlightKind::MetadataValue, c.skip(k + 1)),
                );
                assert(c.take(k) + seq![':'] + c.skip(k + 1) =~= c);
            },
            None => {
                lemma_spans_text_one(span(HighlightKind::Invalid, c));
            },
        }
    }
}

proof fn lemma_tag_spans_text(rest: Seq<char>)
    ensures
        spans_text(tag_spans(rest).0) + tag_spans(rest).1 == rest,
    decreases rest.len(),
{
    if rest.len() > 0 && rest[0] == '[' {
        lemma_first_index_some(rest, ']');
        match first_index(rest, ']') {
            Some(k) => {
                let after = rest.skip(k + 1);
                lemma_tag_spans_text(after);
                let open = seq![span(HighlightKind::Bracket, seq!['['])];
                let inner = tag_content_spans(rest.subrange(1, k));
                let close = seq![span(HighlightKind::Bracket, seq![']'])];
                let more = tag_spans(after).0;
                lemma_spans_text_append(open + inner + close, more);
                lemma_spans_text_append(open + inner, close);
                lemma_spans_text_append(open, inner);
                lemma_spans_text_one(span(HighlightKind::Bracket, seq!['[']));
                lemma_spans_text_one(span(HighlightKind::Bracket, seq![']']));
                lemma_tag_content_text(rest.subrange(1, k));
                assert(seq!['['] + rest.subrange(1, k) + seq![']'] + after =~= rest);
            },
            None => {
                lemma_spans_text_one(span(HighlightKind::Invalid, rest));
                assert(rest + Seq::<char>::empty() =~= rest);
            },
        }
    } else {
        assert(Seq::<char>::empty() + rest =~= rest);
    }
}

/// The text of the spans of a word tag `<..>` closed at `c` in `br`.
proof fn lemma_word_tag_text(br: Seq<char>, c: int)
    requires
        1 <= c < br.len(),
    ensures
        ({
            let content = br.subrange(1, c);
            let kind = if is_timestamp_tag(content) {
                HighlightKind::WordTimestamp
            } else {
                HighlightKind::Invalid
            };
            spans_text(
                seq![
                    span(HighlightKind::Bracket, seq!['<']),
                    span(kind, content),
                    span(HighlightKind::Bracket, seq!['>']),
                ],
            ) == seq!['<'] + content + seq!['>']
        }),
{
    let content = br.subrange(1, c);
    let kind = if is_timestamp_tag(content) {
        HighlightKind::WordTimestamp
    } else {
        HighlightKind::Invalid
    };
    lemma_spans_text_of_three(
        span(HighlightKind::Bracket, seq!['<']),
        span(kind, content),
        span(HighlightKind::Bracket, seq!['>']),
    );
}

#[verifier::rlimit(30)]
proof fn lemma_word_spans_text(rest: Seq<char>)
    ensures
        spans_text(word_spans(rest)) == rest,
    decreases rest.len(),
{
    if rest.len() == 0 {
    } else {
        lemma_first_index_some(rest, '<');
        match first_index(rest, '<') {
            None => {
                lemma_spans_text_one(span(HighlightKind::Lyric, rest));
            },
            Some(o) => {
                let pre = if o > 0 {
                    seq![span(HighlightKind::Lyric, rest.take(o))]
                } else {
                    Seq::empty()
                };
                if o > 0 {
                    lemma_spans_text_one(span(HighlightKind::Lyric, rest.take(o)));
                } else {
                    assert(rest.take(o) =~= Seq::<char>::empty());
                }
                assert(spans_text(pre) == rest.take(o));
                let br = rest.skip(o);
                assert(br[0] == '<');
                lemma_first_index_some(br, '>');
                match first_index(br, '>') {
                    Some(c) => {
                        let content = br.subrange(1, c);
                        let kind = if is_timestamp_tag(content) {
                            HighlightKind::WordTimestamp
                        } else {
                            HighlightKind::Invalid
                        };
                        let mid = seq![
                            span(HighlightKind::Bracket, seq!['<']),
                            span(kind, content),
                            span(HighlightKind::Bracket, seq!['>']),
                        ];
                        let after = br.skip(c + 1);
                        lemma_word_spans_text(after);
                        lemma_word_tag_text(br, c);
                        lemma_spans_text_append(pre + mid, word_spans(after));
                        lemma_spans_text_append(pre, mid);
                        assert(word_spans(rest) == pre + mid + word_spans(after));
                        assert(rest.take(o) + (seq!['<'] + content + seq!['>']) + after =~= rest);
                    },
                    None => {
                        lemma_spans_text_one(span(HighlightKind::Invalid, br));
                        lemma_spans_text_append(pre, seq![span(HighlightKind::Invalid, br)]);
                        assert(rest.take(o) + br =~= rest);
                    },
                }
            },
        }
    }
}

/// Highlighting loses and adds nothing: the spans of a line, drawn in order,
/// give back the line.
pub proof fn lemma_line_spans_text(line: Seq<char>)
    ensures
        spans_text(line_spans(line)) == line,
{
    lemma_tag_spans_text(line);
    lemma_word_spans_text(tag_spans(line).1);
    lemma_spans_text_append(tag_spans(line).0, word_spans(tag_spans(line).1));
}

/// Every leading `[..]` tag of a line is highlighted as a tag: a line that
/// starts with a tag `[c]` (with no `]` inside `c`) is highlighted as that
/// tag's bracket, content and bracket, followed by exactly the highlighting of
/// the rest of the line, which therefore goes on with its own leading tags.
pub proof fn lemma_leading_tag(c: Seq<char>, rest: Seq<char>)
    requires
        forall|i: int| 0 <= i < c.len() ==> c[i] != ']',
    ensures
        line_spans(seq!['['] + c + seq![']'] + rest) == seq![span(HighlightKind::Bracket, seq!['['])]
            + tag_content_spans(c) + seq![span(HighlightKind::Bracket, seq![']'])] + line_spans(rest),
{
    let line = seq!['['] + c + seq![']'] + rest;
    let k: int = c.len() as int + 1;
    assert(line[0] == '[');
    assert(line[k] == ']');
    assert forall|j: int| 0 <= j < k implies line[j] != ']' by {
        if j > 0 {
            assert(line[j] == c[j - 1]);
        }
    }
    assert(crate::text::is_first_index(line, ']', k));
    crate::text::lemma_first_index_of(line, ']', k);
    assert(line.subrange(1, k) =~= c);
    assert(line.skip(k + 1) =~= rest);
    let open = seq![span(HighlightKind::Bracket, seq!['['])];
    let close = seq![span(HighlightKind::Bracket, seq![']'])];
    let (more, tail) = tag_spans(rest);
    assert(tag_spans(line).0 == open + tag_content_spans(c) + close + more);
    assert(tag_spans(line).1 == tail);
    assert(open + tag_content_spans(c) + close + more + word_spans(tail) =~= open + tag_content_spans(c)
        + close + (more + word_spans(tail)));
}


// ---------------------------------------------------------------------------
// Executable highlighting
// ---------------------------------------------------------------------------

fn push_span(out: &mut Vec<HighlightSpan>, kind: HighlightKind, v: &Vec<char>, lo: usize, hi: usize)
    requires
        lo <= hi <= v@.len(),
    ensures
        span_models(final(out)@) == span_models(old(out)@).push(span(kind, v@.subrange(lo as int, hi as int))),
{
    let text = string_of_range(v, lo, hi);
    out.push(HighlightSpan { kind, text });
    assert(span_models(out@) =~= span_models(old(out)@).push(span(kind, v@.subrange(lo as int, hi as int))));
}

fn push_char_span(out: &mut Vec<HighlightSpan>, kind: HighlightKind, ch: char)
    ensures
        span_models(final(out)@) == span_models(old(out)@).push(span(kind, seq![ch])),
{
    let mut text = String::new();
    text.push(ch);
    assert(text@ =~= seq![ch]);
    out.push(HighlightSpan { kind, text });
    assert(span_models(out@) =~= span_models(old(out)@).push(span(kind, seq![ch])));
}

fn is_timestamp_at(v: &Vec<char>, lo: usize, hi: usize) -> (r: bool)
    requires
        lo <= hi <= v@.len(),
    ensures
        r == is_timestamp_tag(v@.subrange(lo as int, hi as int)),
{
    lo < hi && is_digit_char(v[lo])
}

/// Whether a tag's content is a time: it starts with a digit.
pub fn is_timestamp(tag: &str) -> (r: bool)
    ensures
        r == is_timestamp_tag(tag@),
{
    let v = chars_of(tag);
    v.len() > 0 && is_digit_char(v[0])
}

fn push_tag_content(out: &mut Vec<HighlightSpan>, v: &Vec<char>, lo: usize, hi: usize)
    requires
        lo <= hi <= v@.len(),
    ensures
        span_models(final(out)@) == span_models(old(out)@) + tag_content_spans(v@.subrange(lo as int, hi as int)),
{
    let ghost c = v@.subrange(lo as int, hi as int);
    let ghost before = span_models(out@);
    if is_timestamp_at(v, lo, hi) {
        push_span(out, HighlightKind::Timestamp, v, lo, hi);
        assert(span_models(out@) =~= before + tag_content_spans(c));
    } else {
        match crate::text::find_char(v, lo, hi, ':') {
            Some(k) => {
                push_span(out, HighlightKind::MetadataKey, v, lo, k);
                push_char_span(out, HighlightKind::MetadataColon, ':');
                push_span(out, HighlightKind::MetadataValue, v, k + 1, hi);
                assert(c.take(k - lo) =~= v@.subrange(lo as int, k as int));
                assert(c.skip(k - lo + 1) =~= v@.subrange(k + 1, hi as int));
                assert(span_models(out@) =~= before + tag_content_spans(c));
            },
            None => {
                push_span(out, HighlightKind::Invalid, v, lo, hi);
                assert(span_models(out@) =~= before + tag_content_spans(c));
            },
        }
    }
}

/// Cuts one source line into highlighted spans: leading `[..]` tags (times,
/// `key:value` metadata, or invalid), then lyric text with `<..>` word times.
#[verifier::rlimit(40)]
pub fn highlight_line(line: &str) -> (r: Vec<HighlightSpan>)
    ensures
        span_models(r@) == line_spans(line@),
{
    let v = chars_of(line);
    let n = v.len();
    let mut out: Vec<HighlightSpan> = Vec::new();
    let mut pos: usize = 0;
    assert(v@.skip(0) =~= v@);
    assert(span_models(out@) =~= Seq::<SpanModel>::empty());
    assert(span_models(out@) + tag_spans(v@.skip(0)).0 =~= tag_spans(v@).0);
    while pos < n && v[pos] == '['
        invariant
            pos <= n == v@.len(),
            span_models(out@) + tag_spans(v@.skip(pos as int)).0 == tag_spans(v@).0,
            tag_spans(v@.skip(pos as int)).1 == tag_spans(v@).1,
        decreases n - pos,
    {
        let ghost rest = v@.skip(pos as int);
        let ghost before = span_models(out@);
        assert(rest =~= v@.subrange(pos as int, n as int));
        assert(rest[0] == '[');
        match crate::text::find_char(&v, pos, n, ']') {
            Some(k) => {
                push_char_span(&mut out, HighlightKind::Bracket, '[');
                push_tag_content(&mut out, &v, pos + 1, k);
                push_char_span(&mut out, HighlightKind::Bracket, ']');
                proof {
                    assert(rest.subrange(1, k - pos) =~= v@.subrange(pos + 1, k as int));
                    assert(rest.skip(k - pos + 1) =~= v@.skip(k + 1));
                    let (more, tail) = tag_spans(v@.skip(k + 1));
                    assert(tag_spans(rest).0 == seq![span(HighlightKind::Bracket, seq!['['])]
                        + tag_content_spans(rest.subrange(1, k - pos)) + seq![
                        span(HighlightKind::Bracket, seq![']']),
                    ] + more);
                    assert(span_models(out@) + more =~= before + tag_spans(rest).0);
                }
                pos = k + 1;
            },
            None => {
                push_span(&mut out, HighlightKind::Invalid, &v, pos, n);
                proof {
                    assert(v@.skip(n as int) =~= Seq::<char>::empty());
                    assert(span_models(out@) + tag_spans(v@.skip(n as int)).0 =~= before + tag_spans(rest).0);
                }
                pos = n;
            },
        }
    }
    assert(span_models(out@) =~= tag_spans(v@).0);
    assert(v@.skip(pos as int) == tag_spans(v@).1);
    assert(span_models(out@) + word_spans(v@.skip(pos as int)) == line_spans(v@));
    while pos < n
        invariant
            pos <= n == v@.len(),
            span_models(out@) + word_spans(v@.skip(pos as int)) == line_spans(v@),
        decreases n - pos,
    {
        let ghost rest = v@.skip(pos as int);
        let ghost before = span_models(out@);
        assert(rest =~= v@.subrange(pos as int, n as int));
        match crate::text::find_char(&v, pos, n, '<') {
            None => {
                push_span(&mut out, HighlightKind::Lyric, &v, pos, n);
                proof {
                    assert(v@.skip(n as int) =~= Seq::<char>::empty());
                    assert(span_models(out@) + word_spans(v@.skip(n as int)) =~= before + word_spans(rest));
                }
                pos = n;
            },
            Some(o) => {
                if o > pos {
                    push_span(&mut out, HighlightKind::Lyric, &v, pos, o);
                }
                let ghost pre = if o > pos {
                    seq![span(HighlightKind::Lyric, rest.take(o - pos))]
                } else {
                    Seq::<SpanModel>::empty()
                };
                assert(rest.take(o - pos) =~= v@.subrange(pos as int, o as int));
                assert(span_models(out@) =~= before + pre);
                let ghost br = rest.skip(o - pos);
                assert(br =~= v@.subrange(o as int, n as int));
                match crate::text::find_char(&v, o, n, '>') {
                    Some(c) => {
                        assert(br[0] == '<');
                        push_char_span(&mut out, HighlightKind::Bracket, '<');
                        let kind = if is_timestamp_at(&v, o + 1, c) {
                            HighlightKind::WordTimestamp
                        } else {
                            HighlightKind::Invalid
                        };
                        push_span(&mut out, kind, &v, o + 1, c);
                        push_char_span(&mut out, HighlightKind::Bracket, '>');
                        proof {
                            assert(br.subrange(1, c - o) =~= v@.subrange(o + 1, c as int));
                            assert(br.skip(c - o + 1) =~= v@.skip(c + 1));
                            assert(span_models(out@) + word_spans(v@.skip(c + 1)) =~= before + word_spans(
                                rest,
                            ));
                        }
                        pos = c + 1;
                    },
                    None => {
                        push_span(&mut out, HighlightKind::Invalid, &v, o, n);
                        proof {
                            assert(v@.skip(n as int) =~= Seq::<char>::empty());
                            assert(span_models(out@) + word_spans(v@.skip(n as int)) =~= before + word_spans(
                                rest,
                            ));
                        }
                        pos = n;
                    },
                }
            },
        }
    }
    assert(v@.skip(pos as int) =~= Seq::<char>::empty());
    assert(span_models(out@) =~= line_spans(v@));
    out
}


/// The spans shown for `line`.
fn shown_line(line: &str) -> (r: Vec<HighlightSpan>)
    ensures
        span_models(r@) == shown_spans(line@),
{
    let mut spans = highlight_line(line);
    if spans.len() == 0 {
        push_char_span(&mut spans, HighlightKind::Filler, '\u{200b}');
        assert(span_models(spans@) =~= seq![span(HighlightKind::Filler, seq!['\u{200b}'])]);
    }
    spans
}

/// Highlights every line of `text` (split at `\n`), marking line
/// `selected_line_idx`.
pub fn highlight_lrc(text: &str, selected_line_idx: Option<usize>) -> (r: Vec<HighlightedLine>)
    ensures
        r@.len() == highlighted(text@, selected_line_idx).len(),
        forall|i: int| 0 <= i < r@.len() ==> line_model(#[trigger] r@[i]) == highlighted(text@, selected_line_idx)[i],
{
    let v = chars_of(text);
    let n = v.len();
    let ghost ls = split_lines(v@);
    let ghost mut done: Seq<Seq<char>> = Seq::empty();
    let mut out: Vec<HighlightedLine> = Vec::new();
    let mut pos: usize = 0;
    let mut finished = false;
    assert(v@.skip(0) =~= v@);
    assert(ls =~= done + split_lines(v@.skip(0)));
    while !finished
        invariant
            pos <= n == v@.len(),
            ls == split_lines(v@),
            !finished ==> ls == done + split_lines(v@.skip(pos as int)),
            finished ==> ls == done,
            out@.len() == done.len(),
            forall|j: int|
                0 <= j < out@.len() ==> line_model(#[trigger] out@[j]) == (LineModel {
                    spans: shown_spans(ls[j]),
                    selected: selected_line_idx == Some(j as usize),
                }),
        decreases n - pos + (if finished {
            0int
        } else {
            1int
        }),
    {
        let ghost rest = v@.skip(pos as int);
        assert(rest =~= v@.subrange(pos as int, n as int));
        let index = out.len();
        let (end, next) = match crate::text::find_char(&v, pos, n, '\n') {
            Some(k) => (k, Some(k + 1)),
            None => (n, None),
        };
        let line = string_of_range(&v, pos, end);
        let spans = shown_line(line.as_str());
        let selected = match selected_line_idx {
            Some(s) => s == index,
            None => false,
        };
        out.push(HighlightedLine { spans, selected });
        proof {
            lemma_first_index_some(rest, '\n');
            let piece = v@.subrange(pos as int, end as int);
            match next {
                Some(k1) => {
                    assert(rest.take(end - pos) =~= piece);
                    assert(rest.skip(end - pos + 1) =~= v@.skip(k1 as int));
                    assert(split_lines(rest) == seq![piece] + split_lines(v@.skip(k1 as int)));
                    done = done.push(piece);
                    assert(ls =~= done + split_lines(v@.skip(k1 as int)));
                },
                None => {
                    assert(rest =~= piece);
                    assert(split_lines(rest) == seq![piece]);
                    done = done.push(piece);
                    assert(ls =~= done);
                },
            }
            assert(ls[index as int] == piece);
        }
        match next {
            Some(k1) => {
                pos = k1;
            },
            None => {
                finished = true;
            },
        }
    }
    assert forall|i: int| 0 <= i < out@.len() implies line_model(#[trigger] out@[i]) == highlighted(
        text@,
        selected_line_idx,
    )[i] by {}
    out
}

/// The UTF-16 offset of the end of line `target_line_idx` (counted from zero,
/// lines split at `\n`), where a caret placed after that line's text goes.
pub fn get_end_of_line_utf16(source_text: &str, target_line_idx: usize) -> (r: Option<usize>)
    requires
        2 * source_text@.len() <= usize::MAX,
    ensures
        match end_of_line_utf16(source_text@, target_line_idx as int) {
            Some(e) => r == Some(e as usize),
            None => r is None,
        },
{
    let v = chars_of(source_text);
    let n = v.len();
    let ghost ls = split_lines(v@);
    let ghost mut done: Seq<Seq<char>> = Seq::empty();
    let mut offset: usize = 0;
    let mut line: usize = 0;
    let mut pos: usize = 0;
    assert(v@.skip(0) =~= v@);
    assert(ls =~= done + split_lines(v@.skip(0)));
    assert(v@.take(0) =~= Seq::<char>::empty());
    loop
        invariant
            pos <= n == v@.len(),
            v@ == source_text@,
            2 * n <= usize::MAX,
            ls == split_lines(v@),
            ls == done + split_lines(v@.skip(pos as int)),
            line == done.len(),
            line <= target_line_idx,
            offset == utf16_lines_prefix(ls, line as int),
            offset == utf16_len(v@.take(pos as int)),
        decreases n - pos,
    {
        let ghost rest = v@.skip(pos as int);
        assert(rest =~= v@.subrange(pos as int, n as int));
        proof {
            lemma_first_index_some(rest, '\n');
        }
        let found = crate::text::find_char(&v, pos, n, '\n');
        let end = match found {
            Some(k) => k,
            None => n,
        };
        let ghost piece = v@.subrange(pos as int, end as int);
        proof {
            match found {
                Some(k) => {
                    assert(rest.take(end - pos) =~= piece);
                    assert(split_lines(rest) == seq![piece] + split_lines(rest.skip(end - pos + 1)));
                    assert((done + split_lines(rest))[line as int] == piece);
                },
                None => {
                    assert(rest =~= piece);
                    assert(split_lines(rest) == seq![piece]);
                    assert((done + split_lines(rest))[line as int] == piece);
                },
            }
            crate::text::lemma_utf16_len_concat(v@.take(pos as int), piece);
            assert(v@.take(pos as int) + piece =~= v@.take(end as int));
            crate::text::lemma_utf16_len_bound(v@.take(end as int));
        }
        let width = utf16_count(&v, pos, end);
        assert(ls.len() > line && ls[line as int] == piece);
        if line == target_line_idx {
            return Some(offset + width);
        }
        match found {
            Some(k) => {
                proof {
                    assert(rest.skip(end - pos + 1) =~= v@.skip(k + 1));
                    let nl = v@.subrange(k as int, k + 1);
                    assert(nl =~= seq!['\n']);
                    crate::text::lemma_utf16_len_concat(v@.take(end as int), nl);
                    assert(v@.take(end as int) + nl =~= v@.take(k + 1));
                    assert(utf16_len(nl) == 1) by {
                        reveal_with_fuel(utf16_len, 2);
                        assert(nl.drop_last() =~= Seq::<char>::empty());
                        assert(nl.last() == '\n');
                        assert(('\n' as u32) < 0x10000);
                    }
                    crate::text::lemma_utf16_len_bound(v@.take(k + 1));
                    done = done.push(piece);
                    assert(ls =~= done + split_lines(v@.skip(k + 1)));
                }
                offset = offset + width + 1;
                line = line + 1;
                pos = k + 1;
            },
            None => {
                proof {
                    assert(ls.len() == line + 1);
                }
                return None;
            },
        }
    }
}

} // verus!
