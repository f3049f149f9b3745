//! Reading back what the writer wrote: the LRC text of a document parses to
//! the same metadata and the same lyrics, each time cut to whole centiseconds.
use vstd::prelude::*;

use crate::document::{entries_text, metadata_text, LrcDocumentView};
use crate::entry::LyricEntry;
use crate::metadata::{spec_metadata, MetadataTag};
use crate::parser::{
    parse_lines, parse_step, scan_times, sort_by_time, sorted_by_time, spec_lines, spec_parse,
    spec_parse_line, strip_cr, DocModel, EntryModel, LineModel, ParseAcc,
};
use crate::text::{
    all_digits, first_index, is_digit, is_first_index, is_white, lemma_first_index_of,
    lemma_first_index_some, pad2, trim, trim_end, trim_start,
};
use crate::time::{lemma_timestamp_round_trip, spec_parse_time, spec_timestamp};

verus! {

/// Lines, each followed by a newline.
pub open spec fn joined_lines(ls: Seq<Seq<char>>) -> Seq<char>
    decreases ls.len(),
{
    if ls.len() == 0 {
        Seq::empty()
    } else {
        joined_lines(ls.drop_last()) + ls.last() + seq!['\n']
    }
}

pub open spec fn no_newline(s: Seq<char>) -> bool {
    forall|i: int| 0 <= i < s.len() ==> s[i] != '\n'
}

/// A line that `str::lines` gives back as it is: no newline in it and no
/// carriage return at its end.
pub open spec fn plain_line(s: Seq<char>) -> bool {
    no_newline(s) && !(s.len() > 0 && s.last() == '\r')
}

proof fn lemma_joined_append(a: Seq<Seq<char>>, b: Seq<Seq<char>>)
    ensures
        joined_lines(a + b) == joined_lines(a) + joined_lines(b),
    decreases b.len(),
{
    if b.len() == 0 {
        assert(a + b =~= a);
        assert(joined_lines(a) + joined_lines(b) =~= joined_lines(a));
    } else {
        lemma_joined_append(a, b.drop_last());
        assert((a + b).drop_last() =~= a + b.drop_last());
        assert((a + b).last() == b.last());
        assert(joined_lines(a + b) =~= joined_lines(a) + joined_lines(b));
    }
}

proof fn lemma_joined_front(ls: Seq<Seq<char>>)
    requires
        ls.len() > 0,
    ensures
        joined_lines(ls) == ls[0] + seq!['\n'] + joined_lines(ls.drop_first()),
{
    let head = seq![ls[0]];
    assert(head + ls.drop_first() =~= ls);
    lemma_joined_append(head, ls.drop_first());
    assert(head.drop_last() =~= Seq::<Seq<char>>::empty());
    assert(head.last() == ls[0]);
    assert(joined_lines(Seq::<Seq<char>>::empty()) == Seq::<char>::empty());
    assert(joined_lines(head) == Seq::<char>::empty() + ls[0] + seq!['\n']);
    assert(Seq::<char>::empty() + ls[0] + seq!['\n'] =~= ls[0] + seq!['\n']);
}

/// `str::lines` splits joined plain lines back into those lines.
pub proof fn lemma_lines_of_joined(ls: Seq<Seq<char>>)
    requires
        forall|i: int| 0 <= i < ls.len() ==> plain_line(#[trigger] ls[i]),
    ensures
        crate::parser::spec_lines(joined_lines(ls)) == ls,
    decreases ls.len(),
{
    if ls.len() == 0 {
        let e = joined_lines(ls);
        assert(e =~= Seq::<char>::empty());
        assert(first_index(e, '\n') is None) by {
            crate::text::lemma_first_index_some(e, '\n');
            if first_index(e, '\n') is Some {
                let i = first_index(e, '\n')->0;
                assert(0 <= i < e.len());
            }
        }
        assert(crate::parser::spec_lines(e) =~= ls);
    } else {
        let x = ls[0];
        let rest = ls.drop_first();
        assert forall|i: int| 0 <= i < rest.len() implies plain_line(#[trigger] rest[i]) by {
            assert(rest[i] == ls[i + 1]);
        }
        lemma_lines_of_joined(rest);
        lemma_joined_front(ls);
        let all = joined_lines(ls);
        let k = x.len() as int;
        assert(plain_line(ls[0]));
        assert(is_first_index(all, '\n', k)) by {
            assert(all[k] == '\n');
            assert forall|j: int| 0 <= j < k implies all[j] != '\n' by {
                assert(all[j] == x[j]);
            }
        }
        lemma_first_index_of(all, '\n', k);
        assert(all.take(k) =~= x);
        assert(all.skip(k + 1) =~= joined_lines(rest));
        assert(crate::parser::strip_cr(x) == x);
        assert(seq![x] + rest =~= ls);
    }
}

// ---------------------------------------------------------------------------
// The lines the writer puts down
// ---------------------------------------------------------------------------

/// `[key:value]`.
pub open spec fn meta_body(t: MetadataTag) -> Seq<char> {
    seq!['['] + t.key@ + seq![':'] + t.value@ + seq![']']
}

/// `[mm:ss.cc]text`.
pub open spec fn entry_body(e: LyricEntry) -> Seq<char> {
    seq!['['] + spec_timestamp(e.time.0) + seq![']'] + e.text@
}

pub open spec fn meta_bodies(ms: Seq<MetadataTag>) -> Seq<Seq<char>> {
    ms.map_values(|t: MetadataTag| meta_body(t))
}

pub open spec fn entry_bodies(es: Seq<LyricEntry>) -> Seq<Seq<char>> {
    es.map_values(|e: LyricEntry| entry_body(e))
}

proof fn lemma_metadata_text_joined(ms: Seq<MetadataTag>)
    ensures
        metadata_text(ms) == joined_lines(meta_bodies(ms)),
    decreases ms.len(),
{
    if ms.len() > 0 {
        lemma_metadata_text_joined(ms.drop_last());
        assert(meta_bodies(ms).drop_last() =~= meta_bodies(ms.drop_last()));
        assert(crate::document::metadata_line(ms.last()) =~= meta_body(ms.last()) + seq!['\n']);
        assert(metadata_text(ms) =~= joined_lines(meta_bodies(ms)));
    } else {
        assert(meta_bodies(ms) =~= Seq::<Seq<char>>::empty());
    }
}

proof fn lemma_entries_text_joined(es: Seq<LyricEntry>)
    ensures
        entries_text(es) == joined_lines(entry_bodies(es)),
    decreases es.len(),
{
    if es.len() > 0 {
        lemma_entries_text_joined(es.drop_last());
        assert(entry_bodies(es).drop_last() =~= entry_bodies(es.drop_last()));
        assert(crate::document::entry_line(es.last()) =~= entry_body(es.last()) + seq!['\n']);
        assert(entries_text(es) =~= joined_lines(entry_bodies(es)));
    } else {
        assert(entry_bodies(es) =~= Seq::<Seq<char>>::empty());
    }
}

// ---------------------------------------------------------------------------
// What each line reads as
// ---------------------------------------------------------------------------

/// A metadata tag the writer can put down so that it reads back: a key that is
/// neither empty nor all digits and holds no `:`, and a key and value without
/// `]` or newlines.
pub open spec fn meta_writable(t: MetadataTag) -> bool {
    &&& t.key@.len() > 0
    &&& !all_digits(t.key@)
    &&& forall|i: int| 0 <= i < t.key@.len() ==> t.key@[i] != ':' && t.key@[i] != ']' && t.key@[i] != '\n'
    &&& forall|i: int| 0 <= i < t.value@.len() ==> t.value@[i] != ']' && t.value@[i] != '\n'
}

/// A lyric text that reads back after a timestamp: a plain line that does not
/// start with another timestamp tag (or a tag that fails to read).
pub open spec fn text_writable(text: Seq<char>) -> bool {
    &&& plain_line(text)
    &&& scan_times(text, 0) == Ok::<(Seq<u32>, nat), crate::parser::ParseErrorKind>((Seq::empty(), 0nat))
}

/// A time cut to whole centiseconds.
pub open spec fn centis(t: u32) -> u32 {
    (t - t % 10) as u32
}

pub open spec fn shifted_scan(
    r: Result<(Seq<u32>, nat), crate::parser::ParseErrorKind>,
    d: nat,
) -> Result<(Seq<u32>, nat), crate::parser::ParseErrorKind> {
    match r {
        Ok((ts, n)) => Ok((ts, n + d)),
        Err(e) => Err(e),
    }
}

/// Scanning tags depends only on what follows the position.
proof fn lemma_scan_shift(a: Seq<char>, b: Seq<char>, p: nat)
    ensures
        scan_times(a + b, a.len() + p) == shifted_scan(scan_times(b, p), a.len()),
    decreases b.len() - p,
{
    let line = a + b;
    let pos = (a.len() + p) as nat;
    if p >= b.len() {
    } else {
        assert(line[pos as int] == b[p as int]);
        if b[p as int] == '[' {
            assert(line.skip(pos as int) =~= b.skip(p as int));
            lemma_first_index_some(b.skip(p as int), ']');
            match first_index(b.skip(p as int), ']') {
                None => {},
                Some(k) => {
                    assert(line.subrange(pos + 1 as int, pos + k) =~= b.subrange(p + 1 as int, p + k));
                    lemma_scan_shift(a, b, (p + k + 1) as nat);
                    assert((pos + k + 1) as nat == a.len() + (p + k + 1) as nat);
                },
            }
        }
    }
}

/// A tag scan that succeeds ends where a scan finds no more times.
proof fn lemma_scan_ends(line: Seq<char>, p: nat)
    ensures
        scan_times(line, p) matches Ok((ts, n)) ==> scan_times(line, n) == Ok::<(Seq<u32>, nat), crate::parser::ParseErrorKind>((Seq::empty(), n)),
        scan_times(line, p) matches Ok((ts, n)) ==> p <= n && (p <= line.len() ==> n <= line.len()),
    decreases line.len() - p,
{
    if p < line.len() && line[p as int] == '[' {
        lemma_first_index_some(line.skip(p as int), ']');
        match first_index(line.skip(p as int), ']') {
            None => {},
            Some(k) => {
                match spec_parse_time(line.subrange(p + 1 as int, p + k)) {
                    Ok(Some(t)) => {
                        lemma_scan_ends(line, (p + k + 1) as nat);
                    },
                    _ => {},
                }
            },
        }
    }
}

pub proof fn lemma_trim_keeps_first(s: Seq<char>)
    requires
        s.len() > 0,
        !is_white(s[0]),
    ensures
        trim(s).len() > 0,
{
    assert(trim_start(s) == s);
    lemma_trim_end_keeps_first(s);
}

proof fn lemma_trim_end_keeps_first(s: Seq<char>)
    requires
        s.len() > 0,
        !is_white(s[0]),
    ensures
        trim_end(s).len() > 0,
    decreases s.len(),
{
    if is_white(s.last()) {
        assert(s.len() > 1);
        assert(s.drop_last()[0] == s[0]);
        lemma_trim_end_keeps_first(s.drop_last());
    }
}

proof fn lemma_timestamp_chars(t: u32)
    ensures
        forall|i: int|
            0 <= i < spec_timestamp(t).len() ==> (is_digit(#[trigger] spec_timestamp(t)[i]) || spec_timestamp(t)[i] == ':'
                || spec_timestamp(t)[i] == '.'),
{
    let pm = pad2((t / 60000) as nat);
    let ps = pad2(((t % 60000) / 1000) as nat);
    let pc = pad2(((t % 1000) / 10) as nat);
    crate::text::lemma_pad2((t / 60000) as nat);
    crate::text::lemma_pad2(((t % 60000) / 1000) as nat);
    crate::text::lemma_pad2(((t % 1000) / 10) as nat);
    let ts = spec_timestamp(t);
    assert(ts =~= pm + seq![':'] + ps + seq!['.'] + pc);
    assert forall|i: int| 0 <= i < ts.len() implies (is_digit(#[trigger] ts[i]) || ts[i] == ':' || ts[i] == '.') by {
        if i < pm.len() {
            assert(ts[i] == pm[i]);
        } else if i == pm.len() {
        } else if i < pm.len() + 1 + ps.len() {
            assert(ts[i] == ps[i - pm.len() - 1]);
        } else if i == pm.len() + 1 + ps.len() {
        } else {
            assert(ts[i] == pc[i - pm.len() - 2 - ps.len()]);
        }
    }
}

/// A metadata line reads as that tag.
proof fn lemma_meta_body_reads(t: MetadataTag)
    requires
        meta_writable(t),
    ensures
        plain_line(meta_body(t)),
        trim(meta_body(t)).len() > 0,
        spec_parse_line(meta_body(t)) == Ok::<LineModel, crate::parser::ParseErrorKind>(LineModel::Meta(t.key@, t.value@)),
{
    let k = t.key@;
    let v = t.value@;
    let b = meta_body(t);
    let close = b.len() - 1;
    assert(b[0] == '[');
    lemma_trim_keeps_first(b);
    assert forall|i: int| 0 <= i < b.len() implies b[i] != '\n' by {
        if 1 <= i < 1 + k.len() {
            assert(b[i] == k[i - 1]);
        } else if 1 + k.len() < i < close {
            assert(b[i] == v[i - 2 - k.len()]);
        }
    }
    assert(b.last() == ']');
    // The first `]` closes the line.
    assert(is_first_index(b, ']', close)) by {
        assert forall|j: int| 0 <= j < close implies b[j] != ']' by {
            if 1 <= j < 1 + k.len() {
                assert(b[j] == k[j - 1]);
            } else if 1 + k.len() < j < close {
                assert(b[j] == v[j - 2 - k.len()]);
            }
        }
    }
    lemma_first_index_of(b, ']', close);
    assert(b.skip(0) =~= b);
    let inner = b.subrange(1, close);
    assert(inner =~= k + seq![':'] + v);
    let c = k.len() as int;
    assert(is_first_index(inner, ':', c)) by {
        assert forall|j: int| 0 <= j < c implies inner[j] != ':' by {
            assert(inner[j] == k[j]);
        }
    }
    lemma_first_index_of(inner, ':', c);
    assert(inner.take(c) =~= k);
    assert(inner.skip(c + 1) =~= v);
    assert(spec_parse_time(inner) == Ok::<Option<u32>, crate::parser::ParseErrorKind>(None));
    assert(scan_times(b, 0) == Ok::<(Seq<u32>, nat), crate::parser::ParseErrorKind>((Seq::empty(), 0nat)));
    assert(spec_metadata(b) == Some((k, v)));
}

/// A lyric line reads as one time, cut to centiseconds, and the lyric text.
proof fn lemma_entry_body_reads(e: LyricEntry)
    requires
        text_writable(e.text@),
    ensures
        plain_line(entry_body(e)),
        trim(entry_body(e)).len() > 0,
        spec_parse_line(entry_body(e)) == Ok::<LineModel, crate::parser::ParseErrorKind>(
            LineModel::Timed(seq![centis(e.time.0)], (spec_timestamp(e.time.0).len() + 2) as nat),
        ),
        entry_body(e).skip(spec_timestamp(e.time.0).len() + 2 as int) == e.text@,
{
    let ts = spec_timestamp(e.time.0);
    let text = e.text@;
    let head = seq!['['] + ts + seq![']'];
    let b = entry_body(e);
    assert(b =~= head + text);
    lemma_timestamp_chars(e.time.0);
    lemma_timestamp_round_trip(e.time.0);
    assert(b[0] == '[');
    lemma_trim_keeps_first(b);
    let close = ts.len() + 1 as int;
    assert forall|i: int| 0 <= i < b.len() implies b[i] != '\n' by {
        if 1 <= i < close {
            assert(b[i] == ts[i - 1]);
        } else if i > close {
            assert(b[i] == text[i - close - 1]);
        }
    }
    if b.len() > 0 && b.last() == '\r' {
        if text.len() > 0 {
            assert(b.last() == text.last());
        } else {
            assert(b.last() == ']');
        }
    }
    assert(is_first_index(b.skip(0), ']', close)) by {
        assert(b.skip(0) =~= b);
        assert(b[close] == ']');
        assert forall|j: int| 0 <= j < close implies b[j] != ']' by {
            if 1 <= j {
                assert(b[j] == ts[j - 1]);
            }
        }
    }
    lemma_first_index_of(b.skip(0), ']', close);
    assert(b.subrange(1, close) =~= ts);
    lemma_scan_shift(head, text, 0);
    assert(b.skip(close + 1) =~= text);
    assert(scan_times(b, (close + 1) as nat) == Ok::<(Seq<u32>, nat), crate::parser::ParseErrorKind>((Seq::empty(), (close + 1) as nat)));
    assert(seq![centis(e.time.0)] + Seq::<u32>::empty() =~= seq![centis(e.time.0)]);
}

// ---------------------------------------------------------------------------
// Reading the written lines
// ---------------------------------------------------------------------------

/// After the first `k` written lines the parser holds the first metadata tags
/// and the first lyrics, each read back.
pub open spec fn read_so_far(acc: ParseAcc, ms: Seq<MetadataTag>, es: Seq<LyricEntry>, k: int) -> bool {
    let km = if k <= ms.len() {
        k
    } else {
        ms.len() as int
    };
    let ke = if k <= ms.len() {
        0
    } else {
        k - ms.len()
    };
    &&& acc.meta.len() == km
    &&& forall|i: int|
        0 <= i < km ==> (#[trigger] acc.meta[i]).key == ms[i].key@ && acc.meta[i].value == ms[i].value@
    &&& acc.raw.len() == ke
    &&& forall|j: int|
        0 <= j < ke ==> (#[trigger] acc.raw[j]).time == centis(es[j].time.0) && acc.raw[j].text == es[j].text@
}

pub open spec fn all_writable(ms: Seq<MetadataTag>, es: Seq<LyricEntry>) -> bool {
    &&& forall|i: int| 0 <= i < ms.len() ==> meta_writable(#[trigger] ms[i])
    &&& forall|j: int| 0 <= j < es.len() ==> text_writable((#[trigger] es[j]).text@)
}

#[verifier::rlimit(40)]
proof fn lemma_read_prefix(ms: Seq<MetadataTag>, es: Seq<LyricEntry>, k: int)
    requires
        all_writable(ms, es),
        0 <= k <= ms.len() + es.len(),
    ensures
        parse_lines((meta_bodies(ms) + entry_bodies(es)).take(k)) matches Ok(acc) && read_so_far(acc, ms, es, k),
    decreases k,
{
    let all = meta_bodies(ms) + entry_bodies(es);
    let lines = all.take(k);
    if k == 0 {
        assert(lines =~= Seq::<Seq<char>>::empty());
    } else {
        lemma_read_prefix(ms, es, k - 1);
        assert(lines.drop_last() =~= all.take(k - 1));
        let acc = parse_lines(all.take(k - 1))->Ok_0;
        let line = lines.last();
        assert(line == all[k - 1]);
        if k - 1 < ms.len() {
            let t = ms[k - 1];
            assert(line == meta_body(t));
            lemma_meta_body_reads(t);
            let next = parse_step(acc, line, (k - 1) as nat)->Ok_0;
            assert(next.meta == acc.meta.push(crate::parser::MetaModel { key: t.key@, value: t.value@, source_line: (k - 1) as nat }));
            assert(read_so_far(next, ms, es, k)) by {
                assert forall|i: int| 0 <= i < k implies (#[trigger] next.meta[i]).key == ms[i].key@ && next.meta[i].value == ms[i].value@ by {
                    if i < k - 1 {
                        assert(next.meta[i] == acc.meta[i]);
                    }
                }
            }
        } else {
            let j = k - 1 - ms.len();
            let e = es[j];
            assert(line == entry_body(e));
            lemma_entry_body_reads(e);
            let next = parse_step(acc, line, (k - 1) as nat)->Ok_0;
            assert(next.raw.len() == acc.raw.len() + 1);
            assert(read_so_far(next, ms, es, k)) by {
                assert forall|m: int| 0 <= m < j + 1 implies (#[trigger] next.raw[m]).time == centis(es[m].time.0)
                    && next.raw[m].text == es[m].text@ by {
                    if m < j {
                        assert(next.raw[m] == acc.raw[m]);
                    } else {
                        assert(next.raw[m].time == centis(e.time.0));
                    }
                }
            }
        }
    }
}

/// Entries already in time order stay as they are.
proof fn lemma_sort_sorted(s: Seq<EntryModel>)
    requires
        sorted_by_time(s),
    ensures
        sort_by_time(s) == s,
    decreases s.len(),
{
    if s.len() > 0 {
        let rest = s.drop_first();
        assert(sorted_by_time(rest)) by {
            assert forall|i: int, j: int| 0 <= i <= j < rest.len() implies (#[trigger] rest[i]).time <= (
            #[trigger] rest[j]).time by {
                assert(rest[i] == s[i + 1] && rest[j] == s[j + 1]);
            }
        }
        lemma_sort_sorted(rest);
        if rest.len() > 0 {
            assert(s[0].time <= s[1].time);
            assert(rest[0] == s[1]);
        }
        assert(seq![s[0]] + rest =~= s);
    }
}

proof fn lemma_centis_monotone(a: u32, b: u32)
    requires
        a <= b,
    ensures
        centis(a) <= centis(b),
{
    assert(a - a % 10 <= b - b % 10) by (nonlinear_arith)
        requires
            a <= b,
    {
    }
}

/// The text of a document as the writer puts it down reads back as the same
/// metadata, in order, and the same lyrics, in order, each lyric with its text
/// and with its time cut to whole centiseconds; for metadata and lyric texts
/// that survive being written (`meta_writable`, `text_writable`).
pub proof fn lemma_written_reads_back(v: LrcDocumentView)
    requires
        forall|i: int, j: int|
            0 <= i <= j < v.entries.len() ==> (#[trigger] v.entries[i]).time.0 <= (#[trigger] v.entries[j]).time.0,
        all_writable(v.metadata, v.entries),
    ensures
        spec_parse(metadata_text(v.metadata) + entries_text(v.entries)) matches Ok(m) && reads_back(m, v),
{
    let ms = v.metadata;
    let es = v.entries;
    let all = meta_bodies(ms) + entry_bodies(es);
    lemma_metadata_text_joined(ms);
    lemma_entries_text_joined(es);
    lemma_joined_append(meta_bodies(ms), entry_bodies(es));
    let text = metadata_text(ms) + entries_text(es);
    assert(text == joined_lines(all));
    assert forall|i: int| 0 <= i < all.len() implies plain_line(#[trigger] all[i]) by {
        if i < ms.len() {
            lemma_meta_body_reads(ms[i]);
        } else {
            lemma_entry_body_reads(es[i - ms.len()]);
        }
    }
    lemma_lines_of_joined(all);
    lemma_read_prefix(ms, es, all.len() as int);
    assert(all.take(all.len() as int) =~= all);
    let acc = parse_lines(all)->Ok_0;
    assert(sorted_by_time(acc.raw)) by {
        assert forall|i: int, j: int| 0 <= i <= j < acc.raw.len() implies (#[trigger] acc.raw[i]).time <= (
        #[trigger] acc.raw[j]).time by {
            lemma_centis_monotone(es[i].time.0, es[j].time.0);
        }
    }
    lemma_sort_sorted(acc.raw);
}

/// The parse `m` gives back the metadata and lyrics of `v`.
pub open spec fn reads_back(m: DocModel, v: LrcDocumentView) -> bool {
    &&& m.meta.len() == v.metadata.len()
    &&& forall|i: int|
        0 <= i < m.meta.len() ==> (#[trigger] m.meta[i]).key == v.metadata[i].key@ && m.meta[i].value
            == v.metadata[i].value@
    &&& m.entries.len() == v.entries.len()
    &&& forall|j: int|
        0 <= j < m.entries.len() ==> (#[trigger] m.entries[j]).time == centis(v.entries[j].time.0)
            && m.entries[j].text == v.entries[j].text@
}

// ---------------------------------------------------------------------------
// What the parser reads is writable
// ---------------------------------------------------------------------------

pub open spec fn ends_in_cr(s: Seq<char>) -> bool {
    s.len() > 0 && s.last() == '\r'
}

proof fn lemma_lines_no_newline(s: Seq<char>)
    ensures
        forall|i: int| 0 <= i < spec_lines(s).len() ==> no_newline(#[trigger] spec_lines(s)[i]),
    decreases s.len(),
{
    lemma_first_index_some(s, '\n');
    match first_index(s, '\n') {
        None => {},
        Some(k) => {
            lemma_lines_no_newline(s.skip(k + 1));
            let head = strip_cr(s.take(k));
            assert(no_newline(head)) by {
                assert forall|j: int| 0 <= j < head.len() implies head[j] != '\n' by {
                    assert(head[j] == s[j]);
                }
            }
            let rest = spec_lines(s.skip(k + 1));
            assert forall|i: int| 0 <= i < spec_lines(s).len() implies no_newline(#[trigger] spec_lines(s)[i]) by {
                if i > 0 {
                    assert(spec_lines(s)[i] == rest[i - 1]);
                }
            }
        },
    }
}

/// A lyric text as the parser reads it: no newline, and no timestamp tag at
/// its start.
pub open spec fn read_text_ok(t: Seq<char>) -> bool {
    &&& no_newline(t)
    &&& scan_times(t, 0) == Ok::<(Seq<u32>, nat), crate::parser::ParseErrorKind>((Seq::empty(), 0nat))
}

pub open spec fn read_meta_ok(m: crate::parser::MetaModel) -> bool {
    &&& m.key.len() > 0
    &&& !all_digits(m.key)
    &&& forall|i: int| 0 <= i < m.key.len() ==> m.key[i] != ':' && m.key[i] != ']' && m.key[i] != '\n'
    &&& forall|i: int| 0 <= i < m.value.len() ==> m.value[i] != ']' && m.value[i] != '\n'
}

proof fn lemma_metadata_read_ok(line: Seq<char>)
    requires
        no_newline(line),
        line.len() > 0,
        line[0] == '[',
        spec_metadata(line) is Some,
    ensures
        ({
            let (k, v) = spec_metadata(line)->0;
            read_meta_ok(crate::parser::MetaModel { key: k, value: v, source_line: 0 })
        }),
{
    lemma_first_index_some(line, ']');
    let close = first_index(line, ']')->0;
    assert(is_first_index(line, ']', close));
    assert(close == line.len() - 1);
    assert(close >= 1);
    let inner = line.subrange(1, close);
    lemma_first_index_some(inner, ':');
    let c = first_index(inner, ':')->0;
    assert(is_first_index(inner, ':', c));
    let key = inner.take(c);
    let value = inner.skip(c + 1);
    assert(spec_metadata(line)->0 == (key, value));
    assert forall|i: int| 0 <= i < key.len() implies key[i] != ':' && key[i] != ']' && key[i] != '\n' by {
        assert(key[i] == inner[i]);
        assert(inner[i] == line[i + 1]);
    }
    assert forall|i: int| 0 <= i < value.len() implies value[i] != ']' && value[i] != '\n' by {
        assert(value[i] == inner[i + c + 1]);
        assert(inner[i + c + 1] == line[i + c + 2]);
    }
}

proof fn lemma_timed_text_ok(line: Seq<char>, times: Seq<u32>, n: nat)
    requires
        no_newline(line),
        scan_times(line, 0) == Ok::<(Seq<u32>, nat), crate::parser::ParseErrorKind>((times, n)),
    ensures
        read_text_ok(line.skip(n as int)),
{
    lemma_scan_ends(line, 0);
    let a = line.take(n as int);
    let b = line.skip(n as int);
    assert(a + b =~= line);
    lemma_scan_shift(a, b, 0);
    assert(no_newline(b)) by {
        assert forall|i: int| 0 <= i < b.len() implies b[i] != '\n' by {
            assert(b[i] == line[i + n]);
        }
    }
}

/// Everything the parser has read so far is writable again.
pub open spec fn acc_ok(acc: ParseAcc) -> bool {
    &&& forall|j: int| 0 <= j < acc.raw.len() ==> read_text_ok((#[trigger] acc.raw[j]).text)
    &&& forall|i: int| 0 <= i < acc.meta.len() ==> read_meta_ok(#[trigger] acc.meta[i])
}

proof fn lemma_parse_lines_ok(lines: Seq<Seq<char>>)
    requires
        forall|i: int| 0 <= i < lines.len() ==> no_newline(#[trigger] lines[i]),
    ensures
        parse_lines(lines) matches Ok(acc) ==> acc_ok(acc),
    decreases lines.len(),
{
    if lines.len() > 0 {
        let prev = lines.drop_last();
        assert forall|i: int| 0 <= i < prev.len() implies no_newline(#[trigger] prev[i]) by {
            assert(prev[i] == lines[i]);
        }
        lemma_parse_lines_ok(prev);
        match parse_lines(prev) {
            Err(_) => {},
            Ok(acc) => {
                let line = lines.last();
                assert(no_newline(line)) by {
                    assert(line == lines[lines.len() - 1]);
                }
                let idx = (lines.len() - 1) as nat;
                if !(trim(line).len() == 0) {
                    match spec_parse_line(line) {
                        Err(_) => {},
                        Ok(LineModel::Meta(key, value)) => {
                            lemma_metadata_read_ok(line);
                            let next = parse_step(acc, line, idx)->Ok_0;
                            assert forall|i: int| 0 <= i < next.meta.len() implies read_meta_ok(#[trigger] next.meta[i]) by {
                                if i < acc.meta.len() {
                                    assert(next.meta[i] == acc.meta[i]);
                                }
                            }
                        },
                        Ok(LineModel::Timed(times, n)) => {
                            lemma_timed_text_ok(line, times, n);
                            let next = parse_step(acc, line, idx)->Ok_0;
                            assert forall|j: int| 0 <= j < next.raw.len() implies read_text_ok((#[trigger] next.raw[j]).text) by {
                                if j < acc.raw.len() {
                                    assert(next.raw[j] == acc.raw[j]);
                                }
                            }
                        },
                    }
                }
            },
        }
    }
}

/// A parsed document, written out and read again, gives back its metadata and
/// its lyrics, in order, each lyric with its text and its time cut to whole
/// centiseconds. Lyric texts that end in a carriage return are left out: the
/// reader drops a carriage return before a line break.
pub proof fn lemma_reparse(src: Seq<char>, v: LrcDocumentView)
    requires
        spec_parse(src) matches Ok(m) && crate::parser::doc_matches(v, m),
        forall|j: int| 0 <= j < v.entries.len() ==> !ends_in_cr(#[trigger] v.entries[j].text@),
    ensures
        spec_parse(metadata_text(v.metadata) + entries_text(v.entries)) matches Ok(m2) && reads_back(m2, v),
{
    broadcast use vstd::seq_lib::group_to_multiset_ensures;

    let m = spec_parse(src)->Ok_0;
    let lines = spec_lines(src);
    lemma_lines_no_newline(src);
    lemma_parse_lines_ok(lines);
    let acc = parse_lines(lines)->Ok_0;
    crate::parser::lemma_sort_by_time(acc.raw);
    assert(m.entries == sort_by_time(acc.raw));
    assert(m.meta == acc.meta);
    assert forall|j: int| 0 <= j < v.entries.len() implies text_writable((#[trigger] v.entries[j]).text@) by {
        assert(v.entries.map_values(|e: LyricEntry| crate::parser::model_of(e))[j] == m.entries[j]);
        let x = m.entries[j];
        assert(m.entries.contains(x));
        assert(m.entries.to_multiset().count(x) > 0);
        assert(acc.raw.contains(x));
        let r = choose|r: int| 0 <= r < acc.raw.len() && acc.raw[r] == x;
        assert(read_text_ok(acc.raw[r].text));
    }
    assert forall|i: int| 0 <= i < v.metadata.len() implies meta_writable(#[trigger] v.metadata[i]) by {
        assert(v.metadata.map_values(|t: MetadataTag| crate::parser::meta_model_of(t))[i] == m.meta[i]);
        let mm = acc.meta[i];
        assert(read_meta_ok(mm));
        assert(v.metadata[i].key@ == mm.key);
        assert(v.metadata[i].value@ == mm.value);
    }
    assert forall|i: int, j: int|
        0 <= i <= j < v.entries.len() implies (#[trigger] v.entries[i]).time.0 <= (#[trigger] v.entries[j]).time.0 by {
        assert(v.entries.map_values(|e: LyricEntry| crate::parser::model_of(e))[i] == m.entries[i]);
        assert(v.entries.map_values(|e: LyricEntry| crate::parser::model_of(e))[j] == m.entries[j]);
    }
    lemma_written_reads_back(v);
}

// ---------------------------------------------------------------------------
// Writing again
// ---------------------------------------------------------------------------

/// A time and the same time cut to centiseconds have the same timestamp.
proof fn lemma_timestamp_of_centis(t: u32)
    ensures
        spec_timestamp(centis(t)) == spec_timestamp(t),
{
    lemma_centis_fields(t);
}

/// With `t = 60000 q + 1000 a + 10 e + f`, cutting `t` to centiseconds drops
/// `f` and leaves `q`, `a` and `e` in place.
proof fn lemma_centis_fields(t: u32)
    ensures
        (centis(t) / 60000) as nat == (t / 60000) as nat,
        ((centis(t) % 60000) / 1000) as nat == ((t % 60000) / 1000) as nat,
        ((centis(t) % 1000) / 10) as nat == ((t % 1000) / 10) as nat,
{
    let ti = t as int;
    let q = ti / 60000;
    let r = ti % 60000;
    let a = r / 1000;
    let b = r % 1000;
    let e = b / 10;
    let f = b % 10;
    assert(ti == q * 60000 + r);
    assert(r == a * 1000 + b);
    assert(b == e * 10 + f);
    vstd::arithmetic::div_mod::lemma_fundamental_div_mod_converse(ti, 10, q * 6000 + a * 100 + e, f);
    let c = ti - f;
    assert(c == centis(t) as int);
    vstd::arithmetic::div_mod::lemma_fundamental_div_mod_converse(c, 60000, q, a * 1000 + e * 10);
    let cr = a * 1000 + e * 10;
    vstd::arithmetic::div_mod::lemma_fundamental_div_mod_converse(cr, 1000, a, e * 10);
    vstd::arithmetic::div_mod::lemma_fundamental_div_mod_converse(c, 1000, q * 60 + a, e * 10);
    vstd::arithmetic::div_mod::lemma_fundamental_div_mod_converse(ti, 1000, q * 60 + a, b);
    vstd::arithmetic::div_mod::lemma_fundamental_div_mod_converse(e * 10, 10, e, 0);
}

proof fn lemma_metadata_text_same(a: Seq<MetadataTag>, b: Seq<MetadataTag>)
    requires
        a.len() == b.len(),
        forall|i: int| 0 <= i < a.len() ==> (#[trigger] a[i]).key@ == b[i].key@ && a[i].value@ == b[i].value@,
    ensures
        metadata_text(a) == metadata_text(b),
    decreases a.len(),
{
    if a.len() > 0 {
        lemma_metadata_text_same(a.drop_last(), b.drop_last());
        assert(a.last().key@ == b.last().key@ && a.last().value@ == b.last().value@) by {
            assert(a[a.len() - 1] == a.last());
        }
        assert(crate::document::metadata_line(a.last()) == crate::document::metadata_line(b.last()));
    }
}

proof fn lemma_entries_text_same(a: Seq<LyricEntry>, b: Seq<LyricEntry>)
    requires
        a.len() == b.len(),
        forall|i: int|
            0 <= i < a.len() ==> spec_timestamp((#[trigger] a[i]).time.0) == spec_timestamp(b[i].time.0)
                && a[i].text@ == b[i].text@,
    ensures
        entries_text(a) == entries_text(b),
    decreases a.len(),
{
    if a.len() > 0 {
        lemma_entries_text_same(a.drop_last(), b.drop_last());
        assert(spec_timestamp(a.last().time.0) == spec_timestamp(b.last().time.0) && a.last().text@ == b.last().text@) by {
            assert(a[a.len() - 1] == a.last());
        }
        assert(crate::document::entry_line(a.last()) == crate::document::entry_line(b.last()));
    }
}

/// Writing a parsed document, reading the text back and writing the result
/// again gives the same text (lyric texts that end in a carriage return
/// excepted, as for `lemma_reparse`).
pub proof fn lemma_rewrite_same_text(src: Seq<char>, v: LrcDocumentView, v2: LrcDocumentView)
    requires
        spec_parse(src) matches Ok(m) && crate::parser::doc_matches(v, m),
        forall|j: int| 0 <= j < v.entries.len() ==> !ends_in_cr(#[trigger] v.entries[j].text@),
        spec_parse(metadata_text(v.metadata) + entries_text(v.entries)) matches Ok(m2)
            && crate::parser::doc_matches(v2, m2),
    ensures
        metadata_text(v2.metadata) + entries_text(v2.entries) == metadata_text(v.metadata) + entries_text(v.entries),
{
    lemma_reparse(src, v);
    let m2 = spec_parse(metadata_text(v.metadata) + entries_text(v.entries))->Ok_0;
    assert(v2.metadata.len() == m2.meta.len()) by {
        assert(v2.metadata.map_values(|t: MetadataTag| crate::parser::meta_model_of(t)).len() == v2.metadata.len());
    }
    assert(v2.entries.len() == m2.entries.len()) by {
        assert(v2.entries.map_values(|e: LyricEntry| crate::parser::model_of(e)).len() == v2.entries.len());
    }
    assert forall|i: int| 0 <= i < v2.metadata.len() implies (#[trigger] v2.metadata[i]).key@ == v.metadata[i].key@
        && v2.metadata[i].value@ == v.metadata[i].value@ by {
        assert(v2.metadata.map_values(|t: MetadataTag| crate::parser::meta_model_of(t))[i] == m2.meta[i]);
    }
    assert forall|i: int| 0 <= i < v2.entries.len() implies spec_timestamp((#[trigger] v2.entries[i]).time.0)
        == spec_timestamp(v.entries[i].time.0) && v2.entries[i].text@ == v.entries[i].text@ by {
        assert(v2.entries.map_values(|e: LyricEntry| crate::parser::model_of(e))[i] == m2.entries[i]);
        lemma_timestamp_of_centis(v.entries[i].time.0);
    }
    lemma_metadata_text_same(v2.metadata, v.metadata);
    lemma_entries_text_same(v2.entries, v.entries);
}

} // verus!
