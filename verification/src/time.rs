//! Millisecond positions on the audio timeline and the LRC `mm:ss.xx` tag.
use vstd::prelude::*;

use crate::parser::{ParseError, ParseErrorKind, SourceLine};
use crate::text::{
    all_digits, all_digits_in, decimal_u32, decimal_value, digit_value, find_char, first_index,
    is_digit, is_digit_char, is_first_index, lemma_first_index_of, lemma_pad2, lemma_utf8_len_bound,
    pad2, pad3, push_pad2, push_pad3, utf8_count_capped, utf8_len,
};

verus! {

/// Milliseconds from the beginning of the audio.
#[derive(Clone, Copy, Debug, PartialEq, Eq, Structural, PartialOrd, Ord, Default, Hash)]
pub struct TimeMs(pub u32);

/// `format!("{minutes:02}:{seconds:02}.{centiseconds:02}")` of a millisecond time.
pub open spec fn spec_timestamp(t: u32) -> Seq<char> {
    pad2((t / 60000) as nat) + seq![':'] + pad2(((t % 60000) / 1000) as nat) + seq!['.'] + pad2(
        ((t % 1000) / 10) as nat,
    )
}

/// `format!("{:02}:{:02}.{:03}", minutes, seconds, milliseconds)`: the
/// transport's clock.
pub open spec fn spec_timecode(t: u32) -> Seq<char> {
    pad2((t / 1000 / 60) as nat) + seq![':'] + pad2(((t / 1000) % 60) as nat) + seq!['.'] + pad3(
        (t % 1000) as nat,
    )
}

/// Milliseconds denoted by the fraction digits after the period of a timestamp.
pub open spec fn spec_parse_fraction(f: Seq<char>) -> Result<u32, ParseErrorKind> {
    if f.len() == 0 || utf8_len(f) > 3 {
        Err(ParseErrorKind::FractionLength)
    } else if !all_digits(f) {
        Err(ParseErrorKind::FractionDigits)
    } else {
        let v = decimal_value(f);
        Ok(
            (if f.len() == 1 {
                v * 100
            } else if f.len() == 2 {
                v * 10
            } else {
                v
            }) as u32,
        )
    }
}

/// Meaning of the text inside one bracket tag: `Ok(Some(ms))` for a timestamp,
/// `Ok(None)` for a tag that is not a timestamp, `Err` for a malformed timestamp.
pub open spec fn spec_parse_time(tag: Seq<char>) -> Result<Option<u32>, ParseErrorKind> {
    match first_index(tag, ':') {
        None => Ok(None),
        Some(k) => {
            let minutes = tag.take(k);
            let rest = tag.skip(k + 1);
            if minutes.len() == 0 {
                Err(ParseErrorKind::MinutesMissing)
            } else if !all_digits(minutes) {
                Ok(None)
            } else if !(rest.len() >= 2 && is_digit(rest[0]) && is_digit(rest[1])) {
                Err(ParseErrorKind::SecondsDigits)
            } else {
                let suffix = rest.skip(2);
                let fraction: Result<u32, ParseErrorKind> = if suffix.len() == 0 {
                    Ok(0u32)
                } else if suffix[0] != '.' {
                    Err(ParseErrorKind::FractionPeriod)
                } else {
                    spec_parse_fraction(suffix.skip(1))
                };
                match fraction {
                    Err(e) => Err(e),
                    Ok(f) => {
                        let m = decimal_value(minutes);
                        let s = decimal_value(rest.take(2));
                        if m > u32::MAX {
                            Err(ParseErrorKind::MinutesTooLarge)
                        } else if s >= 60 {
                            Err(ParseErrorKind::SecondsRange)
                        } else if m * 60000 + s * 1000 + f > u32::MAX {
                            Err(ParseErrorKind::TimeTooLarge)
                        } else {
                            Ok(Some((m * 60000 + s * 1000 + f) as u32))
                        }
                    },
                }
            }
        },
    }
}

/// `spec_parse_time` with the error placed on a source line.
pub open spec fn spec_parse_time_at(tag: Seq<char>, line: SourceLine) -> Result<
    Option<TimeMs>,
    ParseError,
> {
    match spec_parse_time(tag) {
        Ok(Some(t)) => Ok(Some(TimeMs(t))),
        Ok(None) => Ok(None),
        Err(kind) => Err(ParseError { line, kind }),
    }
}

impl TimeMs {
    pub fn as_u32(self) -> (r: u32)
        ensures
            r == self.0,
    {
        self.0
    }

    /// LRC timestamp `mm:ss.cc` (minutes take as many digits as they need).
    pub fn as_timestamp(self) -> (s: String)
        ensures
            s@ == spec_timestamp(self.0),
    {
        let mut s = String::new();
        self.push_timestamp(&mut s);
        assert(s@ =~= spec_timestamp(self.0));
        s
    }

    /// The transport clock `mm:ss.mmm`.
    pub fn as_timecode(self) -> (s: String)
        ensures
            s@ == spec_timecode(self.0),
    {
        let mut s = String::new();
        let total_secs = self.0 / 1000;
        push_pad2(&mut s, (total_secs / 60) as u128);
        s.push(':');
        push_pad2(&mut s, (total_secs % 60) as u128);
        s.push('.');
        push_pad3(&mut s, (self.0 % 1000) as u128);
        assert(s@ =~= spec_timecode(self.0));
        s
    }

    /// Appends the LRC timestamp of this time.
    pub(crate) fn push_timestamp(self, s: &mut String)
        ensures
            final(s)@ == old(s)@ + spec_timestamp(self.0),
    {
        let ghost start = s@;
        let t = self.0;
        push_pad2(s, (t / 60000) as u128);
        s.push(':');
        push_pad2(s, ((t % 60000) / 1000) as u128);
        s.push('.');
        push_pad2(s, ((t % 1000) / 10) as u128);
        assert(s@ =~= start + spec_timestamp(t));
    }

    /// Parses the text of a bracket tag `v[lo..hi]` as a timestamp.
    pub(crate) fn parse(v: &Vec<char>, lo: usize, hi: usize, line: SourceLine) -> (r: Result<
        Option<TimeMs>,
        ParseError,
    >)
        requires
            lo <= hi <= v@.len(),
        ensures
            r == spec_parse_time_at(v@.subrange(lo as int, hi as int), line),
    {
        let ghost tag = v@.subrange(lo as int, hi as int);
        let colon = match find_char(v, lo, hi, ':') {
            None => {
                return Ok(None);
            },
            Some(k) => k,
        };
        let ghost minutes = tag.take(colon - lo);
        let ghost rest = tag.skip(colon - lo + 1);
        assert(minutes =~= v@.subrange(lo as int, colon as int));
        assert(rest =~= v@.subrange(colon + 1, hi as int));
        if colon == lo {
            return Err(ParseError::new(line, ParseErrorKind::MinutesMissing));
        }
        if !all_digits_in(v, lo, colon) {
            return Ok(None);
        }
        let sec = colon + 1;
        if !(hi - sec >= 2 && is_digit_char(v[sec]) && is_digit_char(v[sec + 1])) {
            return Err(ParseError::new(line, ParseErrorKind::SecondsDigits));
        }
        let ghost suffix = rest.skip(2);
        assert(suffix =~= v@.subrange(sec + 2, hi as int));
        let fraction_ms: u32 = if sec + 2 == hi {
            0
        } else if v[sec + 2] != '.' {
            return Err(ParseError::new(line, ParseErrorKind::FractionPeriod));
        } else {
            assert(suffix.skip(1) =~= v@.subrange(sec + 3, hi as int));
            match Self::parse_fraction(v, sec + 3, hi, line) {
                Ok(f) => f,
                Err(e) => {
                    return Err(e);
                },
            }
        };
        let minutes_value = match decimal_u32(v, lo, colon) {
            Some(m) => m,
            None => {
                return Err(ParseError::new(line, ParseErrorKind::MinutesTooLarge));
            },
        };
        proof {
            let sd = v@.subrange(sec as int, sec + 2);
            assert(rest.take(2) =~= sd);
            assert(sd.drop_last().drop_last() =~= Seq::<char>::empty());
            assert(sd.drop_last() =~= seq![v@[sec as int]]);
        }
        let seconds_value: u32 = ((v[sec] as u32) - 48) * 10 + ((v[sec + 1] as u32) - 48);
        assert(seconds_value == decimal_value(rest.take(2))) by {
            let sd = v@.subrange(sec as int, sec + 2);
            assert(decimal_value(sd.drop_last()) == 10 * decimal_value(sd.drop_last().drop_last())
                + digit_value(sd.drop_last().last()));
        }
        if seconds_value >= 60 {
            return Err(ParseError::new(line, ParseErrorKind::SecondsRange));
        }
        let total = match minutes_value.checked_mul(60000) {
            None => None,
            Some(a) => match a.checked_add(seconds_value * 1000) {
                None => None,
                Some(b) => b.checked_add(fraction_ms),
            },
        };
        match total {
            Some(t) => Ok(Some(TimeMs(t))),
            None => Err(ParseError::new(line, ParseErrorKind::TimeTooLarge)),
        }
    }

    /// Parses the fraction digits `v[lo..hi]` into milliseconds.
    fn parse_fraction(v: &Vec<char>, lo: usize, hi: usize, line: SourceLine) -> (r: Result<
        u32,
        ParseError,
    >)
        requires
            lo <= hi <= v@.len(),
        ensures
            r == (match spec_parse_fraction(v@.subrange(lo as int, hi as int)) {
                Ok(f) => Ok::<u32, ParseError>(f),
                Err(kind) => Err(ParseError { line, kind }),
            }),
    {
        let ghost f = v@.subrange(lo as int, hi as int);
        if lo == hi || utf8_count_capped(v, lo, hi, 3) > 3 {
            return Err(ParseError::new(line, ParseErrorKind::FractionLength));
        }
        if !all_digits_in(v, lo, hi) {
            return Err(ParseError::new(line, ParseErrorKind::FractionDigits));
        }
        proof {
            lemma_utf8_len_bound(f);
        }
        let value = match decimal_u32(v, lo, hi) {
            Some(x) => x,
            None => {
                proof {
                    lemma_decimal_value_bound(f);
                }
                return Err(ParseError::new(line, ParseErrorKind::FractionDigits));
            },
        };
        proof {
            lemma_decimal_value_bound(f);
        }
        let n = hi - lo;
        if n == 1 {
            Ok(value * 100)
        } else if n == 2 {
            Ok(value * 10)
        } else {
            Ok(value)
        }
    }
}

/// Writing a time as an LRC timestamp and reading the tag back gives the time
/// truncated to whole centiseconds.
#[verifier::spinoff_prover]
#[verifier::rlimit(40)]
pub proof fn lemma_timestamp_round_trip(t: u32)
    ensures
        spec_parse_time(spec_timestamp(t)) == Ok::<Option<u32>, ParseErrorKind>(
            Some((t - t % 10) as u32),
        ),
{
    let m = (t / 60000) as nat;
    let s = ((t % 60000) / 1000) as nat;
    let c = ((t % 1000) / 10) as nat;
    let pm = pad2(m);
    let ps = pad2(s);
    let pc = pad2(c);
    lemma_pad2(m);
    lemma_pad2(s);
    lemma_pad2(c);
    let tag = spec_timestamp(t);
    assert(tag =~= pm + seq![':'] + ps + seq!['.'] + pc);
    let k = pm.len() as int;
    assert(is_first_index(tag, ':', k)) by {
        assert(tag[k] == ':');
        assert forall|j: int| 0 <= j < k implies tag[j] != ':' by {
            assert(tag[j] == pm[j]);
            assert(is_digit(pm[j]));
        }
    }
    lemma_first_index_of(tag, ':', k);
    let minutes = tag.take(k);
    let rest = tag.skip(k + 1);
    assert(minutes =~= pm);
    assert(rest =~= ps + seq!['.'] + pc);
    assert(is_digit(ps[0]) && is_digit(ps[1]));
    assert(rest[0] == ps[0] && rest[1] == ps[1]);
    let suffix = rest.skip(2);
    assert(suffix =~= seq!['.'] + pc);
    assert(suffix.skip(1) =~= pc);
    assert(rest.take(2) =~= ps);
    lemma_utf8_len_bound(pc);
    assert(spec_parse_fraction(pc) == Ok::<u32, ParseErrorKind>((c * 10) as u32));
    assert(t as nat == m * 60000 + s * 1000 + c * 10 + t % 10);
}

pub proof fn lemma_decimal_value_bound(s: Seq<char>)
    requires
        all_digits(s),
    ensures
        s.len() == 1 ==> decimal_value(s) < 10,
        s.len() == 2 ==> decimal_value(s) < 100,
        s.len() == 3 ==> decimal_value(s) < 1000,
    decreases s.len(),
{
    if s.len() > 0 {
        let p = s.drop_last();
        assert(all_digits(p)) by {
            assert forall|i: int| 0 <= i < p.len() implies is_digit(#[trigger] p[i]) by {
                assert(p[i] == s[i]);
            }
        }
        assert(is_digit(s[s.len() - 1]));
        assert(digit_value(s.last()) < 10);
        assert(decimal_value(s) == 10 * decimal_value(p) + digit_value(s.last()));
        lemma_decimal_value_bound(p);
        if s.len() == 1 {
            assert(p =~= Seq::<char>::empty());
        }
    }
}

} // verus!
