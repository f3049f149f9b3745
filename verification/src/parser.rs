//! The LRC grammar: source lines, bracket tags and parse errors.
use vstd::prelude::*;

use crate::document::{entries_wf, LrcDocument, LrcDocumentView};
use crate::entry::{entry_consistent, LyricEntry};
use crate::metadata::{spec_metadata, MetadataTag};
use crate::text::{
    chars_of, decimal_digits, find_char, first_index, is_first_index, lemma_first_index_of,
    lemma_first_index_some, lemma_utf16_len_bound, lemma_utf16_len_concat, push_decimal, push_text,
    string_of_range, trim, trim_bounds, utf16_count, utf16_len,
};
use crate::time::{spec_parse_time, spec_parse_time_at, spec_timestamp, TimeMs};

verus! {

/// Zero-based source line number.
#[derive(Clone, Copy, Debug, PartialEq, Eq, Structural, PartialOrd, Ord)]
pub struct SourceLine(pub usize);

impl SourceLine {
    pub(crate) fn as_display_number(self) -> (n: u128)
        ensures
            n == self.0 + 1,
    {
        self.0 as u128 + 1
    }

    pub(crate) fn as_zero_based(self) -> (n: usize)
        ensures
            n == self.0,
    {
        self.0
    }
}

/// Why a source line was rejected.
#[derive(Clone, Copy, Debug, PartialEq, Eq, Structural)]
pub enum ParseErrorKind {
    /// A non-blank line that does not start with `[`.
    LineStart,
    /// A bracketed line that is neither a timestamp nor metadata.
    UnknownTag,
    /// A `[` without a later `]`.
    MissingClosingBracket,
    /// `[:...]`.
    MinutesMissing,
    /// Seconds are not two ASCII digits.
    SecondsDigits,
    /// Something other than `.` follows the seconds.
    FractionPeriod,
    /// The fraction is empty or longer than three bytes.
    FractionLength,
    /// The fraction holds a character that is not an ASCII digit.
    FractionDigits,
    /// The minutes do not fit in `u32`.
    MinutesTooLarge,
    /// Seconds of 60 or more.
    SecondsRange,
    /// The total number of milliseconds does not fit in `u32`.
    TimeTooLarge,
}

/// The user-facing message of an error kind.
pub open spec fn kind_message(kind: ParseErrorKind) -> Seq<char> {
    match kind {
        ParseErrorKind::LineStart => "non-empty LRC lines must start with a timestamp or metadata tag"@,
        ParseErrorKind::UnknownTag => "expected a timestamp like [00:12.34] or metadata like [ti:Song]"@,
        ParseErrorKind::MissingClosingBracket => "missing closing bracket"@,
        ParseErrorKind::MinutesMissing => "timestamp minutes are missing"@,
        ParseErrorKind::SecondsDigits => "timestamp seconds must use two digits"@,
        ParseErrorKind::FractionPeriod => "timestamp fraction must start with a period"@,
        ParseErrorKind::FractionLength => "timestamp fraction must use one to three digits"@,
        ParseErrorKind::FractionDigits => "timestamp fraction must only contain digits"@,
        ParseErrorKind::MinutesTooLarge => "timestamp minutes are too large"@,
        ParseErrorKind::SecondsRange => "timestamp seconds must be below 60"@,
        ParseErrorKind::TimeTooLarge => "timestamp is too large"@,
    }
}

impl ParseErrorKind {
    /// The user-facing message.
    pub fn message(self) -> (s: &'static str)
        ensures
            s@ == kind_message(self),
    {
        match self {
            ParseErrorKind::LineStart => "non-empty LRC lines must start with a timestamp or metadata tag",
            ParseErrorKind::UnknownTag => "expected a timestamp like [00:12.34] or metadata like [ti:Song]",
            ParseErrorKind::MissingClosingBracket => "missing closing bracket",
            ParseErrorKind::MinutesMissing => "timestamp minutes are missing",
            ParseErrorKind::SecondsDigits => "timestamp seconds must use two digits",
            ParseErrorKind::FractionPeriod => "timestamp fraction must start with a period",
            ParseErrorKind::FractionLength => "timestamp fraction must use one to three digits",
            ParseErrorKind::FractionDigits => "timestamp fraction must only contain digits",
            ParseErrorKind::MinutesTooLarge => "timestamp minutes are too large",
            ParseErrorKind::SecondsRange => "timestamp seconds must be below 60",
            ParseErrorKind::TimeTooLarge => "timestamp is too large",
        }
    }
}

/// Human-readable parse failure with source location.
#[derive(Clone, Copy, Debug, PartialEq, Eq, Structural)]
pub struct ParseError {
    pub line: SourceLine,
    pub kind: ParseErrorKind,
}

/// `format!("Line {}: {}", line + 1, message)`.
pub open spec fn spec_prefixed_message(e: ParseError) -> Seq<char> {
    "Line "@ + decimal_digits((e.line.0 + 1) as nat) + ": "@ + kind_message(e.kind)
}

impl ParseError {
    pub(crate) fn new(line: SourceLine, kind: ParseErrorKind) -> (e: ParseError)
        ensures
            e == (ParseError { line, kind }),
    {
        ParseError { line, kind }
    }

    /// User-facing error message.
    pub fn prefixed_message(&self) -> (s: String)
        ensures
            s@ == spec_prefixed_message(*self),
    {
        let mut s = String::new();
        push_text(&mut s, "Line ");
        push_decimal(&mut s, self.line.as_display_number());
        push_text(&mut s, ": ");
        push_text(&mut s, self.kind.message());
        assert(s@ =~= spec_prefixed_message(*self));
        s
    }

    /// Zero-based source line index.
    pub fn line_index(&self) -> (n: usize)
        ensures
            n == self.line.0,
    {
        self.line.as_zero_based()
    }

    /// What went wrong.
    pub fn kind(&self) -> (k: ParseErrorKind)
        ensures
            k == self.kind,
    {
        self.kind
    }
}

// ---------------------------------------------------------------------------
// The grammar as a specification
// ---------------------------------------------------------------------------

/// `s` without one trailing carriage return.
pub open spec fn strip_cr(s: Seq<char>) -> Seq<char> {
    if s.len() > 0 && s.last() == '\r' {
        s.drop_last()
    } else {
        s
    }
}

/// `str::lines`: split at `\n`, drop a `\r` before it, and yield no empty
/// line after a final `\n`.
pub open spec fn spec_lines(s: Seq<char>) -> Seq<Seq<char>>
    decreases s.len(),
{
    match first_index(s, '\n') {
        None => if s.len() == 0 {
            Seq::empty()
        } else {
            seq![s]
        },
        Some(k) => seq![strip_cr(s.take(k))] + spec_lines(s.skip(k + 1)),
    }
}

/// Timestamps read from consecutive bracket tags of `line`, starting at `pos`,
/// and the position after the last one.
pub open spec fn scan_times(line: Seq<char>, pos: nat) -> Result<(Seq<u32>, nat), ParseErrorKind>
    decreases line.len() - pos,
{
    if pos >= line.len() || line[pos as int] != '[' {
        Ok((Seq::empty(), pos))
    } else {
        match first_index(line.skip(pos as int), ']') {
            None => Err(ParseErrorKind::MissingClosingBracket),
            Some(k) => match spec_parse_time(line.subrange(pos + 1 as int, pos + k)) {
                Err(e) => Err(e),
                Ok(None) => Ok((Seq::empty(), pos)),
                Ok(Some(t)) => match scan_times(line, (pos + k + 1) as nat) {
                    Err(e) => Err(e),
                    Ok((ts, n)) => Ok((seq![t] + ts, n)),
                },
            },
        }
    }
}

/// What a non-blank line holds.
pub enum LineModel {
    /// A metadata tag with key and value.
    Meta(Seq<char>, Seq<char>),
    /// Timestamps and the position where the lyric text starts.
    Timed(Seq<u32>, nat),
}

/// The meaning of a non-blank line.
pub open spec fn spec_parse_line(line: Seq<char>) -> Result<LineModel, ParseErrorKind> {
    if line.len() == 0 || line[0] != '[' {
        Err(ParseErrorKind::LineStart)
    } else {
        match scan_times(line, 0) {
            Err(e) => Err(e),
            Ok((times, n)) => if times.len() == 0 {
                match spec_metadata(line) {
                    Some((key, value)) => Ok(LineModel::Meta(key, value)),
                    None => Err(ParseErrorKind::UnknownTag),
                }
            } else {
                Ok(LineModel::Timed(times, n))
            },
        }
    }
}

/// A timed entry as the parser produces it, before sorting.
pub struct EntryModel {
    pub time: u32,
    pub text: Seq<char>,
    pub source_line: nat,
    pub source_order: nat,
    pub start: nat,
    pub end: nat,
}

/// A metadata tag as the parser produces it.
pub struct MetaModel {
    pub key: Seq<char>,
    pub value: Seq<char>,
    pub source_line: nat,
}

/// What the parser has gathered after some lines.
#[verifier::ext_equal]
pub struct ParseAcc {
    /// Entries in the order they were read.
    pub raw: Seq<EntryModel>,
    pub meta: Seq<MetaModel>,
    /// UTF-16 offset of the next line.
    pub offset: nat,
}

/// The gathered state in model form.
pub open spec fn acc_of(raw: Seq<LyricEntry>, meta: Seq<MetadataTag>, offset: nat) -> ParseAcc {
    ParseAcc {
        raw: raw.map_values(|e: LyricEntry| model_of(e)),
        meta: meta.map_values(|t: MetadataTag| meta_model_of(t)),
        offset,
    }
}

pub open spec fn parse_step(acc: ParseAcc, line: Seq<char>, idx: nat) -> Result<ParseAcc, ParseError> {
    let offset = acc.offset + utf16_len(line) + 1;
    if trim(line).len() == 0 {
        Ok(ParseAcc { raw: acc.raw, meta: acc.meta, offset })
    } else {
        match spec_parse_line(line) {
            Err(kind) => Err(ParseError { line: SourceLine(idx as usize), kind }),
            Ok(LineModel::Meta(key, value)) => Ok(
                ParseAcc {
                    raw: acc.raw,
                    meta: acc.meta.push(MetaModel { key, value, source_line: idx }),
                    offset,
                },
            ),
            Ok(LineModel::Timed(times, n)) => {
                let text = line.skip(n as int);
                let start = acc.offset + utf16_len(line.take(n as int));
                Ok(
                    ParseAcc {
                        raw: acc.raw + Seq::new(
                            times.len(),
                            |j: int|
                                EntryModel {
                                    time: times[j],
                                    text,
                                    source_line: idx,
                                    source_order: (acc.raw.len() + j) as nat,
                                    start,
                                    end: start + utf16_len(text),
                                },
                        ),
                        meta: acc.meta,
                        offset,
                    },
                )
            },
        }
    }
}

/// Reads the lines in order; the first failing line decides the error.
pub open spec fn parse_lines(lines: Seq<Seq<char>>) -> Result<ParseAcc, ParseError>
    decreases lines.len(),
{
    if lines.len() == 0 {
        Ok(ParseAcc { raw: Seq::empty(), meta: Seq::empty(), offset: 0 })
    } else {
        match parse_lines(lines.drop_last()) {
            Err(e) => Err(e),
            Ok(acc) => parse_step(acc, lines.last(), (lines.len() - 1) as nat),
        }
    }
}

/// Places `x` before the first entry that is not earlier than it.
pub open spec fn insert_by_time(s: Seq<EntryModel>, x: EntryModel) -> Seq<EntryModel>
    decreases s.len(),
{
    if s.len() == 0 {
        seq![x]
    } else if x.time <= s[0].time {
        seq![x] + s
    } else {
        seq![s[0]] + insert_by_time(s.drop_first(), x)
    }
}

/// Stable sort by time.
pub open spec fn sort_by_time(s: Seq<EntryModel>) -> Seq<EntryModel>
    decreases s.len(),
{
    if s.len() == 0 {
        s
    } else {
        insert_by_time(sort_by_time(s.drop_first()), s[0])
    }
}

/// A parsed document in model form.
pub struct DocModel {
    /// Entries ordered by time, ties in reading order.
    pub entries: Seq<EntryModel>,
    pub meta: Seq<MetaModel>,
    pub line_count: nat,
}

/// The meaning of an LRC source text.
pub open spec fn spec_parse(src: Seq<char>) -> Result<DocModel, ParseError> {
    let lines = spec_lines(src);
    match parse_lines(lines) {
        Err(e) => Err(e),
        Ok(acc) => Ok(
            DocModel {
                entries: sort_by_time(acc.raw),
                meta: acc.meta,
                line_count: lines.len() + if src.len() > 0 && src.last() == '\n' {
                    1nat
                } else {
                    0nat
                },
            },
        ),
    }
}

pub open spec fn model_of(e: LyricEntry) -> EntryModel {
    EntryModel {
        time: e.time.0,
        text: e.text@,
        source_line: e.source_line.0 as nat,
        source_order: e.source_order as nat,
        start: e.lyric_start_utf16 as nat,
        end: e.lyric_end_utf16 as nat,
    }
}

pub open spec fn meta_model_of(m: MetadataTag) -> MetaModel {
    MetaModel { key: m.key@, value: m.value@, source_line: m.source_line.0 as nat }
}

/// A document holds exactly the parsed model, numbered by position.
pub open spec fn doc_matches(v: LrcDocumentView, m: DocModel) -> bool {
    &&& v.line_count == m.line_count
    &&& v.metadata.map_values(|t: MetadataTag| meta_model_of(t)) == m.meta
    &&& v.entries.map_values(|e: LyricEntry| model_of(e)) == m.entries
    &&& forall|i: int|
        0 <= i < v.entries.len() ==> {
            &&& (#[trigger] v.entries[i]).id == i
            &&& v.entries[i].uid == i
            &&& v.entries[i].color_index == 0
            &&& entry_consistent(v.entries[i])
        }
}

// ---------------------------------------------------------------------------
// Lemmas
// ---------------------------------------------------------------------------

pub proof fn lemma_insert_by_time_at(s: Seq<EntryModel>, x: EntryModel, p: int)
    requires
        0 <= p <= s.len(),
        forall|i: int| 0 <= i < p ==> (#[trigger] s[i]).time < x.time,
        p < s.len() ==> x.time <= s[p].time,
    ensures
        insert_by_time(s, x) == s.take(p) + seq![x] + s.skip(p),
    decreases s.len(),
{
    if s.len() == 0 {
        assert(s.take(p) + seq![x] + s.skip(p) =~= seq![x]);
    } else if x.time <= s[0].time {
        assert(p == 0) by {
            if p > 0 {
                assert(s[0].time < x.time);
            }
        }
        assert(s.take(p) + seq![x] + s.skip(p) =~= seq![x] + s);
    } else {
        assert(p > 0);
        let t = s.drop_first();
        assert forall|i: int| 0 <= i < p - 1 implies (#[trigger] t[i]).time < x.time by {
            assert(t[i] == s[i + 1]);
        }
        if p - 1 < t.len() {
            assert(t[p - 1] == s[p]);
        }
        lemma_insert_by_time_at(t, x, p - 1);
        assert(s.take(p) + seq![x] + s.skip(p) =~= seq![s[0]] + (t.take(p - 1) + seq![x] + t.skip(
            p - 1,
        )));
    }
}

pub open spec fn sorted_by_time(s: Seq<EntryModel>) -> bool {
    forall|i: int, j: int| 0 <= i <= j < s.len() ==> (#[trigger] s[i]).time <= (#[trigger] s[j]).time
}

pub proof fn lemma_insert_by_time_sorted(s: Seq<EntryModel>, x: EntryModel)
    requires
        sorted_by_time(s),
    ensures
        sorted_by_time(insert_by_time(s, x)),
        insert_by_time(s, x).len() == s.len() + 1,
        insert_by_time(s, x).to_multiset() == s.to_multiset().insert(x),
    decreases s.len(),
{
    broadcast use vstd::seq_lib::group_to_multiset_ensures;

    if s.len() == 0 {
        assert(insert_by_time(s, x) =~= seq![x]);
        assert(s =~= Seq::<EntryModel>::empty());
        assert(seq![x] =~= Seq::<EntryModel>::empty().push(x));
    } else if x.time <= s[0].time {
        let r = seq![x] + s;
        assert forall|i: int, j: int| 0 <= i <= j < r.len() implies (#[trigger] r[i]).time <= (
        #[trigger] r[j]).time by {
            if i > 0 {
                assert(r[i] == s[i - 1]);
                assert(r[j] == s[j - 1]);
            } else if j > 0 {
                assert(r[j] == s[j - 1]);
                assert(s[0].time <= s[j - 1].time);
            }
        }
        vstd::seq_lib::lemma_multiset_commutative(seq![x], s);
        assert(seq![x] =~= Seq::<EntryModel>::empty().push(x));
        assert(s.to_multiset().insert(x) =~= s.to_multiset().add(vstd::multiset::Multiset::singleton(x)));
    } else {
        let t = s.drop_first();
        assert(sorted_by_time(t)) by {
            assert forall|i: int, j: int| 0 <= i <= j < t.len() implies (#[trigger] t[i]).time <= (
            #[trigger] t[j]).time by {
                assert(t[i] == s[i + 1]);
                assert(t[j] == s[j + 1]);
            }
        }
        lemma_insert_by_time_sorted(t, x);
        let u = insert_by_time(t, x);
        let r = seq![s[0]] + u;
        assert forall|i: int| 0 <= i < u.len() implies s[0].time <= (#[trigger] u[i]).time by {
            assert(u.to_multiset().count(u[i]) > 0);
            assert(t.to_multiset().insert(x).count(u[i]) > 0);
            if u[i] != x {
                assert(t.to_multiset().count(u[i]) > 0);
                assert(t.contains(u[i]));
                let k = choose|k: int| 0 <= k < t.len() && t[k] == u[i];
                assert(t[k] == s[k + 1]);
            }
        }
        assert forall|i: int, j: int| 0 <= i <= j < r.len() implies (#[trigger] r[i]).time <= (
        #[trigger] r[j]).time by {
            if i > 0 {
                assert(r[i] == u[i - 1]);
                assert(r[j] == u[j - 1]);
            } else if j > 0 {
                assert(r[j] == u[j - 1]);
            }
        }
        vstd::seq_lib::lemma_multiset_commutative(seq![s[0]], u);
        vstd::seq_lib::lemma_multiset_commutative(seq![s[0]], t);
        assert(seq![s[0]] + t =~= s);
        assert(r.to_multiset() =~= s.to_multiset().insert(x));
    }
}

/// The stable sort orders entries by time and keeps every entry.
pub proof fn lemma_sort_by_time(s: Seq<EntryModel>)
    ensures
        sorted_by_time(sort_by_time(s)),
        sort_by_time(s).len() == s.len(),
        sort_by_time(s).to_multiset() == s.to_multiset(),
    decreases s.len(),
{
    broadcast use vstd::seq_lib::group_to_multiset_ensures;

    if s.len() > 0 {
        lemma_sort_by_time(s.drop_first());
        lemma_insert_by_time_sorted(sort_by_time(s.drop_first()), s[0]);
        vstd::seq_lib::lemma_multiset_commutative(seq![s[0]], s.drop_first());
        assert(seq![s[0]] + s.drop_first() =~= s);
        assert(seq![s[0]] =~= Seq::<EntryModel>::empty().push(s[0]));
        assert(s.to_multiset() =~= s.drop_first().to_multiset().insert(s[0]));
    }
}

proof fn lemma_parse_lines_err_prefix(lines: Seq<Seq<char>>, k: int, e: ParseError)
    requires
        0 <= k <= lines.len(),
        parse_lines(lines.take(k)) == Err::<ParseAcc, ParseError>(e),
    ensures
        parse_lines(lines) == Err::<ParseAcc, ParseError>(e),
    decreases lines.len(),
{
    if k < lines.len() {
        assert(lines.drop_last().take(k) =~= lines.take(k));
        lemma_parse_lines_err_prefix(lines.drop_last(), k, e);
    } else {
        assert(lines.take(k) =~= lines);
    }
}

// ---------------------------------------------------------------------------
// The parser
// ---------------------------------------------------------------------------

/// Stateful parser for a single LRC source string.
pub struct LrcParser<'source> {
    source: &'source str,
}

impl<'source> LrcParser<'source> {
    /// The source text this parser reads.
    pub closed spec fn source_view(&self) -> Seq<char> {
        self.source@
    }

    /// Create a parser over source text.
    pub fn new(source: &'source str) -> (r: Self)
        ensures
            r.source_view() == source@,
    {
        Self { source }
    }

    /// Parse LRC source into a structured document.
    pub fn parse(&self) -> (r: Result<LrcDocument, ParseError>)
        requires
            4 * self.source_view().len() + 4 <= usize::MAX,
        ensures
            match spec_parse(self.source_view()) {
                Err(e) => r == Err::<LrcDocument, ParseError>(e),
                Ok(m) => r matches Ok(doc) && doc_matches(doc@, m),
            },
    {
        let src = chars_of(self.source);
        let n = src.len();
        let ghost all_lines = spec_lines(src@);
        let mut raw: Vec<LyricEntry> = Vec::new();
        let mut metadata: Vec<MetadataTag> = Vec::new();
        let mut line_count: usize = 0;
        let mut offset: usize = 0;
        let mut pos: usize = 0;
        let ghost mut done: Seq<Seq<char>> = Seq::empty();
        assert(src@.skip(0) =~= src@);
        assert(parse_lines(done) == Ok::<ParseAcc, ParseError>(acc_of(raw@, metadata@, 0))) by {
            assert(acc_of(raw@, metadata@, 0) =~= ParseAcc {
                raw: Seq::empty(),
                meta: Seq::empty(),
                offset: 0,
            });
        }
        while pos < n
            invariant
                n == src@.len(),
                src@ == self.source_view(),
                4 * n + 4 <= usize::MAX,
                pos <= n,
                all_lines == spec_lines(src@),
                all_lines == done + spec_lines(src@.skip(pos as int)),
                line_count == done.len(),
                line_count <= pos,
                offset <= 3 * pos,
                raw@.len() <= pos,
                parse_lines(done) == Ok::<ParseAcc, ParseError>(acc_of(raw@, metadata@, offset as nat)),
                forall|i: int| 0 <= i < raw@.len() ==> entry_consistent(#[trigger] raw@[i]),
            decreases n - pos,
        {
            let (line_end, next) = Self::next_line(&src, pos);
            let ghost line = src@.subrange(pos as int, line_end as int);
            let ghost prev_done = done;
            proof {
                done = done.push(line);
                assert(all_lines =~= done + spec_lines(src@.skip(next as int)));
                assert(done.drop_last() =~= prev_done);
            }
            match Self::read_line(&src, pos, line_end, next, SourceLine(line_count), offset, &mut raw, &mut metadata) {
                Ok(o) => {
                    offset = o;
                },
                Err(e) => {
                    proof {
                        assert(done.last() == line);
                        assert(parse_lines(done) == parse_step(
                            parse_lines(prev_done)->Ok_0,
                            line,
                            prev_done.len(),
                        ));
                        assert(parse_lines(done) == Err::<ParseAcc, ParseError>(e));
                        assert(all_lines.take(done.len() as int) =~= done);
                        lemma_parse_lines_err_prefix(all_lines, done.len() as int, e);
                        assert(parse_lines(spec_lines(src@)) == Err::<ParseAcc, ParseError>(e));
                        assert(spec_parse(src@) == Err::<DocModel, ParseError>(e));
                        assert(self.source_view() == src@);
                    }
                    return Err(e);
                },
            }
            line_count = line_count + 1;
            pos = next;
        }
        proof {
            assert(src@.skip(pos as int) =~= Seq::<char>::empty());
            assert(done =~= all_lines);
        }
        if n > 0 && src[n - 1] == '\n' {
            line_count = line_count + 1;
        }
        let entries = Self::number_entries(Self::sort_entries(&raw));
        Ok(LrcDocument::new(entries, metadata, line_count))
    }

    /// Bounds of the line starting at `pos`: where its text ends (before any
    /// `\r\n` or `\n`) and where the next line starts.
    fn next_line(src: &Vec<char>, pos: usize) -> (r: (usize, usize))
        requires
            pos < src@.len(),
        ensures
            pos <= r.0 <= r.1 <= src@.len(),
            pos < r.1,
            r.0 < r.1 || r.1 == src@.len(),
            spec_lines(src@.skip(pos as int)) == seq![src@.subrange(pos as int, r.0 as int)]
                + spec_lines(src@.skip(r.1 as int)),
    {
        let n = src.len();
        let ghost rest = src@.skip(pos as int);
        assert(rest =~= src@.subrange(pos as int, n as int));
        match find_char(src, pos, n, '\n') {
            Some(k) => {
                proof {
                    let kk = k - pos;
                    assert(rest.take(kk) =~= src@.subrange(pos as int, k as int));
                    assert(rest.skip(kk + 1) =~= src@.skip(k + 1));
                }
                if k > pos && src[k - 1] == '\r' {
                    proof {
                        assert(strip_cr(src@.subrange(pos as int, k as int)) =~= src@.subrange(
                            pos as int,
                            k - 1,
                        ));
                    }
                    (k - 1, k + 1)
                } else {
                    (k, k + 1)
                }
            },
            None => {
                proof {
                    assert(spec_lines(rest) == seq![rest]);
                    assert(src@.skip(n as int) =~= Seq::<char>::empty());
                    assert(spec_lines(src@.skip(n as int)) =~= Seq::<Seq<char>>::empty());
                    assert(seq![rest] + Seq::<Seq<char>>::empty() =~= seq![rest]);
                }
                (n, n)
            },
        }
    }

    /// Reads the line `src[lo..hi]` (the next line starts at `next`), updating the
    /// gathered entries and metadata; returns the UTF-16 offset of the next line.
    fn read_line(
        src: &Vec<char>,
        lo: usize,
        hi: usize,
        next: usize,
        source_line: SourceLine,
        offset: usize,
        raw: &mut Vec<LyricEntry>,
        metadata: &mut Vec<MetadataTag>,
    ) -> (r: Result<usize, ParseError>)
        requires
            lo <= hi <= next <= src@.len(),
            lo < next,
            hi < next || next == src@.len(),
            4 * src@.len() + 4 <= usize::MAX,
            offset <= 3 * lo,
            old(raw)@.len() <= lo,
            forall|i: int| 0 <= i < old(raw)@.len() ==> entry_consistent(#[trigger] old(raw)@[i]),
        ensures
            match parse_step(
                acc_of(old(raw)@, old(metadata)@, offset as nat),
                src@.subrange(lo as int, hi as int),
                source_line.0 as nat,
            ) {
                Err(e) => r == Err::<usize, ParseError>(e),
                Ok(acc) => r matches Ok(o) && acc == acc_of(final(raw)@, final(metadata)@, o as nat)
                    && o <= 3 * next && final(raw)@.len() <= next,
            },
            forall|i: int| 0 <= i < final(raw)@.len() ==> entry_consistent(#[trigger] final(raw)@[i]),
    {
        let ghost line = src@.subrange(lo as int, hi as int);
        let ghost acc = acc_of(raw@, metadata@, offset as nat);
        let ghost old_raw = raw@;
        let ghost old_meta = metadata@;
        let (a, b) = trim_bounds(src, lo, hi);
        if a < b {
            let res = Self::parse_line(src, lo, hi, source_line, offset, raw, metadata);
            proof {
                assert forall|i: int| 0 <= i < raw@.len() implies entry_consistent(
                    #[trigger] raw@[i],
                ) by {
                    if i < old_raw.len() {
                        assert(raw@[i] == old_raw[i]);
                    }
                }
            }
            match res {
                Ok(()) => {},
                Err(e) => {
                    return Err(e);
                },
            }
        }
        let w = utf16_count(src, lo, hi);
        proof {
            lemma_utf16_len_bound(line);
        }
        let o = offset + w + 1;
        proof {
            if a < b {
                match spec_parse_line(line) {
                    Ok(LineModel::Meta(key, value)) => {
                        assert(metadata@ =~= old_meta.push(metadata@.last()));
                        assert(acc_of(raw@, metadata@, o as nat) =~= ParseAcc {
                            raw: acc.raw,
                            meta: acc.meta.push(MetaModel { key, value, source_line: source_line.0 as nat }),
                            offset: o as nat,
                        });
                    },
                    Ok(LineModel::Timed(times, k)) => {
                        let text = line.skip(k as int);
                        let start = acc.offset + utf16_len(line.take(k as int));
                        assert(acc_of(raw@, metadata@, o as nat) =~= ParseAcc {
                            raw: acc.raw + Seq::new(
                                times.len(),
                                |j: int|
                                    EntryModel {
                                        time: times[j],
                                        text,
                                        source_line: source_line.0 as nat,
                                        source_order: (acc.raw.len() + j) as nat,
                                        start,
                                        end: start + utf16_len(text),
                                    },
                            ),
                            meta: acc.meta,
                            offset: o as nat,
                        });
                    },
                    Err(_) => {},
                }
            } else {
                assert(acc_of(raw@, metadata@, o as nat) =~= ParseAcc {
                    raw: acc.raw,
                    meta: acc.meta,
                    offset: o as nat,
                });
            }
        }
        Ok(o)
    }

    /// Numbers entries by position; identities follow the numbering and colours start at zero.
    fn number_entries(entries: Vec<LyricEntry>) -> (r: Vec<LyricEntry>)
        requires
            forall|x: int, y: int|
                0 <= x <= y < entries@.len() ==> (#[trigger] entries@[x]).time.0 <= (
                #[trigger] entries@[y]).time.0,
            forall|j: int| 0 <= j < entries@.len() ==> entry_consistent(#[trigger] entries@[j]),
        ensures
            r@.map_values(|e: LyricEntry| model_of(e)) == entries@.map_values(
                |e: LyricEntry| model_of(e),
            ),
            entries_wf(r@),
            forall|j: int|
                0 <= j < r@.len() ==> {
                    &&& (#[trigger] r@[j]).id == j
                    &&& r@[j].uid == j
                    &&& r@[j].color_index == 0
                },
    {
        let mut entries = entries;
        let ghost sorted = entries@;
        let mut i: usize = 0;
        while i < entries.len()
            invariant
                entries@.len() == sorted.len(),
                i <= entries@.len(),
                forall|j: int|
                    0 <= j < entries@.len() ==> model_of(#[trigger] entries@[j]) == model_of(sorted[j]),
                forall|j: int| 0 <= j < entries@.len() ==> entry_consistent(#[trigger] entries@[j]),
                forall|x: int, y: int|
                    0 <= x <= y < sorted.len() ==> (#[trigger] sorted[x]).time.0 <= (
                    #[trigger] sorted[y]).time.0,
                forall|j: int|
                    0 <= j < i ==> {
                        &&& (#[trigger] entries@[j]).id == j
                        &&& entries@[j].uid == j
                        &&& entries@[j].color_index == 0
                    },
            decreases entries@.len() - i,
        {
            let mut e = entries[i].copy();
            e.id = i;
            e.uid = i;
            e.color_index = 0;
            entries.set(i, e);
            i = i + 1;
        }
        proof {
            assert(entries@.map_values(|e: LyricEntry| model_of(e)) =~= sorted.map_values(
                |e: LyricEntry| model_of(e),
            ));
            assert forall|x: int, y: int| 0 <= x <= y < entries@.len() implies (
            #[trigger] entries@[x]).time.0 <= (#[trigger] entries@[y]).time.0 by {
                assert(model_of(entries@[x]) == model_of(sorted[x]));
                assert(model_of(entries@[y]) == model_of(sorted[y]));
            }
        }
        entries
    }

    /// Sorts parsed entries by time, keeping reading order among equal times.
    fn sort_entries(raw: &Vec<LyricEntry>) -> (r: Vec<LyricEntry>)
        requires
            forall|i: int| 0 <= i < raw@.len() ==> entry_consistent(#[trigger] raw@[i]),
        ensures
            r@.map_values(|e: LyricEntry| model_of(e)) == sort_by_time(
                raw@.map_values(|e: LyricEntry| model_of(e)),
            ),
            forall|i: int| 0 <= i < r@.len() ==> entry_consistent(#[trigger] r@[i]),
            forall|x: int, y: int|
                0 <= x <= y < r@.len() ==> (#[trigger] r@[x]).time.0 <= (#[trigger] r@[y]).time.0,
    {
        let ghost models = raw@.map_values(|e: LyricEntry| model_of(e));
        let mut sorted: Vec<LyricEntry> = Vec::new();
        let mut j = raw.len();
        assert(models.skip(j as int) =~= Seq::<EntryModel>::empty());
        while j > 0
            invariant
                j <= raw@.len(),
                models == raw@.map_values(|e: LyricEntry| model_of(e)),
                sorted@.map_values(|e: LyricEntry| model_of(e)) == sort_by_time(
                    models.skip(j as int),
                ),
                forall|i: int| 0 <= i < raw@.len() ==> entry_consistent(#[trigger] raw@[i]),
                forall|i: int| 0 <= i < sorted@.len() ==> entry_consistent(#[trigger] sorted@[i]),
            decreases j,
        {
            let x = raw[j - 1].copy();
            let ghost s = sorted@.map_values(|e: LyricEntry| model_of(e));
            let mut p: usize = 0;
            while p < sorted.len() && sorted[p].time.0 < x.time.0
                invariant
                    p <= sorted@.len(),
                    s == sorted@.map_values(|e: LyricEntry| model_of(e)),
                    forall|i: int| 0 <= i < p ==> (#[trigger] s[i]).time < x.time.0,
                decreases sorted@.len() - p,
            {
                p = p + 1;
            }
            proof {
                lemma_insert_by_time_at(s, model_of(x), p as int);
                assert(models.skip(j - 1).drop_first() =~= models.skip(j as int));
                assert(models.skip(j - 1)[0] == model_of(raw@[j - 1]));
            }
            let ghost old_sorted = sorted@;
            let ghost xm = x;
            sorted.insert(p, x);
            j = j - 1;
            proof {
                assert(sorted@.map_values(|e: LyricEntry| model_of(e)) =~= s.take(p as int) + seq![
                    model_of(x),
                ] + s.skip(p as int));
                assert forall|i: int| 0 <= i < sorted@.len() implies entry_consistent(
                    #[trigger] sorted@[i],
                ) by {
                    if i < p {
                        assert(sorted@[i] == old_sorted[i]);
                    } else if i > p {
                        assert(sorted@[i] == old_sorted[i - 1]);
                    } else {
                        assert(sorted@[i] == xm);
                    }
                }
            }
        }
        assert(models.skip(0) =~= models);
        proof {
            lemma_sort_by_time(models);
            let ms = sorted@.map_values(|e: LyricEntry| model_of(e));
            assert forall|x: int, y: int| 0 <= x <= y < sorted@.len() implies (
            #[trigger] sorted@[x]).time.0 <= (#[trigger] sorted@[y]).time.0 by {
                assert(ms[x] == model_of(sorted@[x]));
                assert(ms[y] == model_of(sorted@[y]));
            }
        }
        sorted
    }

    /// The position of the `]` closing a bracket tag that starts at `pos`.
    fn take_bracket_tag(src: &Vec<char>, pos: usize, hi: usize, source_line: SourceLine) -> (r:
        Result<Option<usize>, ParseError>)
        requires
            pos <= hi <= src@.len(),
        ensures
            (pos >= hi || src@[pos as int] != '[') ==> r == Ok::<Option<usize>, ParseError>(None),
            (pos < hi && src@[pos as int] == '[') ==> match first_index(
                src@.subrange(pos as int, hi as int),
                ']',
            ) {
                None => r == Err::<Option<usize>, ParseError>(
                    ParseError { line: source_line, kind: ParseErrorKind::MissingClosingBracket },
                ),
                Some(k) => r == Ok::<Option<usize>, ParseError>(Some((pos + k) as usize)),
            },
    {
        if pos >= hi || src[pos] != '[' {
            return Ok(None);
        }
        match find_char(src, pos, hi, ']') {
            None => Err(ParseError::new(source_line, ParseErrorKind::MissingClosingBracket)),
            Some(c) => Ok(Some(c)),
        }
    }

    /// The timestamps of the leading bracket tags of the line `src[lo..hi]` and
    /// the position where its lyric text starts.
    #[verifier::rlimit(40)]
    fn scan_line_times(src: &Vec<char>, lo: usize, hi: usize, source_line: SourceLine) -> (r:
        Result<(Vec<u32>, usize), ParseError>)
        requires
            lo < hi <= src@.len(),
        ensures
            match scan_times(src@.subrange(lo as int, hi as int), 0) {
                Err(kind) => r == Err::<(Vec<u32>, usize), ParseError>(
                    ParseError { line: source_line, kind },
                ),
                Ok((ts, k)) => r matches Ok((v, p)) && v@ == ts && p == lo + k && lo <= p <= hi
                    && v@.len() <= p - lo,
            },
    {
        let ghost line = src@.subrange(lo as int, hi as int);
        let mut pos = lo;
        let mut times: Vec<u32> = Vec::new();
        assert(times@ + Seq::<u32>::empty() =~= times@);
        loop
            invariant_except_break
                lo <= pos <= hi <= src@.len(),
                line == src@.subrange(lo as int, hi as int),
                times@.len() <= pos - lo,
                scan_times(line, 0) == (match scan_times(line, (pos - lo) as nat) {
                    Err(e) => Err(e),
                    Ok((ts, k)) => Ok::<(Seq<u32>, nat), ParseErrorKind>((times@ + ts, k)),
                }),
            ensures
                lo <= pos <= hi <= src@.len(),
                times@.len() <= pos - lo,
                scan_times(line, 0) == Ok::<(Seq<u32>, nat), ParseErrorKind>(
                    (times@, (pos - lo) as nat),
                ),
            decreases hi - pos,
        {
            let ghost rel = (pos - lo) as nat;
            assert(line.skip(rel as int) =~= src@.subrange(pos as int, hi as int));
            let close = match Self::take_bracket_tag(src, pos, hi, source_line) {
                Err(e) => {
                    proof {
                        assert(line[rel as int] == src@[pos as int]);
                    }
                    return Err(e);
                },
                Ok(None) => {
                    proof {
                        if pos < hi {
                            assert(line[rel as int] == src@[pos as int]);
                        }
                        assert(times@ + Seq::<u32>::empty() =~= times@);
                    }
                    break ;
                },
                Ok(Some(c)) => c,
            };
            proof {
                assert(line[rel as int] == src@[pos as int]);
                let k = close - pos;
                lemma_first_index_some(src@.subrange(pos as int, hi as int), ']');
                assert(line.subrange(rel + 1 as int, rel + k) =~= src@.subrange(pos + 1, close as int));
            }
            match TimeMs::parse(src, pos + 1, close, source_line) {
                Err(e) => {
                    return Err(e);
                },
                Ok(None) => {
                    proof {
                        assert(times@ + Seq::<u32>::empty() =~= times@);
                    }
                    break ;
                },
                Ok(Some(t)) => {
                    let ghost old_times = times@;
                    times.push(t.0);
                    pos = close + 1;
                    proof {
                        match scan_times(line, (pos - lo) as nat) {
                            Err(e) => {},
                            Ok((ts, k)) => {
                                assert(old_times + (seq![t.0] + ts) =~= times@ + ts);
                            },
                        }
                    }
                },
            }
        }
        Ok((times, pos))
    }

    /// Reads the non-blank line `src[lo..hi]`, appending its entries or its metadata tag.
    fn parse_line(
        src: &Vec<char>,
        lo: usize,
        hi: usize,
        source_line: SourceLine,
        line_start: usize,
        entries: &mut Vec<LyricEntry>,
        metadata: &mut Vec<MetadataTag>,
    ) -> (r: Result<(), ParseError>)
        requires
            lo < hi <= src@.len(),
            4 * src@.len() + 4 <= usize::MAX,
            line_start <= 3 * lo,
            old(entries)@.len() <= lo,
        ensures
            match spec_parse_line(src@.subrange(lo as int, hi as int)) {
                Err(kind) => {
                    &&& r == Err::<(), ParseError>(ParseError { line: source_line, kind })
                    &&& final(entries)@ == old(entries)@
                    &&& final(metadata)@ == old(metadata)@
                },
                Ok(LineModel::Meta(key, value)) => {
                    &&& r is Ok
                    &&& final(entries)@ == old(entries)@
                    &&& final(metadata)@.len() == old(metadata)@.len() + 1
                    &&& final(metadata)@.drop_last() == old(metadata)@
                    &&& meta_model_of(final(metadata)@.last()) == (MetaModel {
                        key,
                        value,
                        source_line: source_line.0 as nat,
                    })
                },
                Ok(LineModel::Timed(times, n)) => {
                    let line = src@.subrange(lo as int, hi as int);
                    let text = line.skip(n as int);
                    let start = (line_start + utf16_len(line.take(n as int))) as nat;
                    &&& r is Ok
                    &&& final(metadata)@ == old(metadata)@
                    &&& final(entries)@.len() <= hi
                    &&& final(entries)@.map_values(|e: LyricEntry| model_of(e)) == old(
                        entries,
                    )@.map_values(|e: LyricEntry| model_of(e)) + Seq::new(
                        times.len(),
                        |j: int|
                            EntryModel {
                                time: times[j],
                                text,
                                source_line: source_line.0 as nat,
                                source_order: (old(entries)@.len() + j) as nat,
                                start,
                                end: start + utf16_len(text),
                            },
                    )
                },
            },
            forall|i: int|
                0 <= i < old(entries)@.len() && entry_consistent(#[trigger] old(entries)@[i])
                    ==> entry_consistent(final(entries)@[i]),
            forall|i: int|
                old(entries)@.len() <= i < final(entries)@.len() ==> entry_consistent(
                    #[trigger] final(entries)@[i],
                ),
            final(entries)@.len() >= old(entries)@.len(),
            forall|i: int|
                0 <= i < old(entries)@.len() ==> final(entries)@[i] == #[trigger] old(entries)@[i],
    {
        let ghost line = src@.subrange(lo as int, hi as int);
        if src[lo] != '[' {
            return Err(ParseError::new(source_line, ParseErrorKind::LineStart));
        }
        let (times, pos) = match Self::scan_line_times(src, lo, hi, source_line) {
            Ok(x) => x,
            Err(e) => {
                return Err(e);
            },
        };
        if times.len() == 0 {
            match MetadataTag::from_line(src, lo, hi, source_line) {
                Some(tag) => {
                    let ghost old_meta = metadata@;
                    metadata.push(tag);
                    assert(metadata@.drop_last() =~= old_meta);
                    return Ok(());
                },
                None => {
                    return Err(ParseError::new(source_line, ParseErrorKind::UnknownTag));
                },
            }
        }
        let (a, b) = trim_bounds(src, pos, hi);
        let prefix_w = utf16_count(src, lo, pos);
        let text_w = utf16_count(src, pos, hi);
        proof {
            lemma_utf16_len_bound(src@.subrange(lo as int, pos as int));
            lemma_utf16_len_bound(src@.subrange(pos as int, hi as int));
            assert(line.take(pos - lo) =~= src@.subrange(lo as int, pos as int));
            assert(line.skip(pos - lo) =~= src@.subrange(pos as int, hi as int));
        }
        let start = line_start + prefix_w;
        let end = start + text_w;
        let next_order = entries.len();
        let ghost old_entries = entries@;
        let ghost text = src@.subrange(pos as int, hi as int);
        let ghost new_models = Seq::new(
            times@.len(),
            |j: int|
                EntryModel {
                    time: times@[j],
                    text,
                    source_line: source_line.0 as nat,
                    source_order: (old_entries.len() + j) as nat,
                    start: start as nat,
                    end: end as nat,
                },
        );
        let mut j: usize = 0;
        while j < times.len()
            invariant
                j <= times@.len(),
                times@.len() <= pos - lo,
                lo <= pos <= hi <= src@.len(),
                4 * src@.len() + 4 <= usize::MAX,
                next_order == old_entries.len(),
                next_order <= lo,
                entries@.len() == old_entries.len() + j,
                forall|i: int| 0 <= i < old_entries.len() ==> entries@[i] == #[trigger] old_entries[i],
                forall|i: int|
                    old_entries.len() <= i < entries@.len() ==> entry_consistent(
                        #[trigger] entries@[i],
                    ),
                entries@.map_values(|e: LyricEntry| model_of(e)) == old_entries.map_values(
                    |e: LyricEntry| model_of(e),
                ) + new_models.take(j as int),
                trim(text) == src@.subrange(a as int, b as int),
                pos <= a <= b <= hi,
                new_models == Seq::new(
                    times@.len(),
                    |j: int|
                        EntryModel {
                            time: times@[j],
                            text,
                            source_line: source_line.0 as nat,
                            source_order: (old_entries.len() + j) as nat,
                            start: start as nat,
                            end: end as nat,
                        },
                ),
                text == src@.subrange(pos as int, hi as int),
            decreases times@.len() - j,
        {
            let t = TimeMs(times[j]);
            let e = LyricEntry {
                id: 0,
                uid: 0,
                color_index: 0,
                time: t,
                timestamp: t.as_timestamp(),
                text: string_of_range(src, pos, hi),
                display_text: string_of_range(src, a, b),
                source_line,
                source_order: next_order + j,
                lyric_start_utf16: start,
                lyric_end_utf16: end,
            };
            let ghost before = entries@;
            entries.push(e);
            proof {
                assert(entries@.map_values(|e: LyricEntry| model_of(e)) =~= before.map_values(
                    |e: LyricEntry| model_of(e),
                ).push(model_of(e)));
                assert(new_models.take(j + 1) =~= new_models.take(j as int).push(new_models[j as int]));
                assert(model_of(e) == new_models[j as int]);
            }
            j = j + 1;
        }
        proof {
            assert(new_models.take(j as int) =~= new_models);
            assert(start + text_w == end);
        }
        Ok(())
    }
}

} // verus!
