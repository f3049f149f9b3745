//! Untimed LRC metadata such as `[ar:Artist]` or `[ti:Title]`.
use vstd::prelude::*;

use crate::parser::SourceLine;
use crate::text::{all_digits, all_digits_in, find_char, first_index, string_of_range};

verus! {

/// Untimed LRC metadata such as `[ar:Artist]` or `[ti:Title]`.
#[derive(Clone, Debug, PartialEq, Eq)]
pub struct MetadataTag {
    pub key: String,
    pub value: String,
    pub source_line: SourceLine,
}

/// Key and value of a metadata line, which starts with `[`: the first `]` must
/// end the line, the key is the text before the first `:` inside the brackets
/// and may be neither empty nor all digits.
pub open spec fn spec_metadata(line: Seq<char>) -> Option<(Seq<char>, Seq<char>)> {
    match first_index(line, ']') {
        None => None,
        Some(close) => {
            if close != line.len() - 1 {
                None
            } else {
                let inner = line.subrange(1, close);
                match first_index(inner, ':') {
                    None => None,
                    Some(k) => {
                        let key = inner.take(k);
                        let value = inner.skip(k + 1);
                        if key.len() == 0 || all_digits(key) {
                            None
                        } else {
                            Some((key, value))
                        }
                    },
                }
            }
        },
    }
}

impl MetadataTag {
    pub fn key(&self) -> (r: &str)
        ensures
            r@ == self.key@,
    {
        self.key.as_str()
    }

    pub fn value(&self) -> (r: &str)
        ensures
            r@ == self.value@,
    {
        self.value.as_str()
    }

    /// A field-by-field copy.
    pub fn copy(&self) -> (r: MetadataTag)
        ensures
            r == *self,
    {
        MetadataTag { key: self.key.clone(), value: self.value.clone(), source_line: self.source_line }
    }

    /// Reads the metadata line `v[lo..hi]`, which starts with `[`.
    pub(crate) fn from_line(v: &Vec<char>, lo: usize, hi: usize, source_line: SourceLine) -> (r:
        Option<MetadataTag>)
        requires
            lo < hi <= v@.len(),
            v@[lo as int] == '[',
        ensures
            match spec_metadata(v@.subrange(lo as int, hi as int)) {
                None => r is None,
                Some((key, value)) => r matches Some(tag) && tag.key@ == key && tag.value@ == value
                    && tag.source_line == source_line,
            },
    {
        let ghost line = v@.subrange(lo as int, hi as int);
        let close = match find_char(v, lo, hi, ']') {
            None => {
                return None;
            },
            Some(c) => c,
        };
        if close != hi - 1 {
            return None;
        }
        assert(close > lo) by {
            assert(line[0] == '[');
        }
        let ghost inner = line.subrange(1, close - lo);
        assert(inner =~= v@.subrange(lo + 1, close as int));
        let colon = match find_char(v, lo + 1, close, ':') {
            None => {
                return None;
            },
            Some(k) => k,
        };
        assert(inner.take(colon - lo - 1) =~= v@.subrange(lo + 1, colon as int));
        assert(inner.skip(colon - lo) =~= v@.subrange(colon + 1, close as int));
        if colon == lo + 1 || all_digits_in(v, lo + 1, colon) {
            return None;
        }
        Some(
            MetadataTag {
                key: string_of_range(v, lo + 1, colon),
                value: string_of_range(v, colon + 1, close),
                source_line,
            },
        )
    }
}

} // verus!
