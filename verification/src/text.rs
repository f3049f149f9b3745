//! Character-level text model shared by the parser and the LRC writers.
//!
//! Text is modelled as `Seq<char>`, the view of `str` and `String`.
use vstd::prelude::*;

verus! {

pub assume_specification[ String::push ](s: &mut String, ch: char)
    ensures
        final(s)@ == old(s)@.push(ch),
;

// ---------------------------------------------------------------------------
// Character classes
// ---------------------------------------------------------------------------

/// `char::is_ascii_digit`.
pub open spec fn is_digit(c: char) -> bool {
    '0' <= c && c <= '9'
}

/// `char::is_whitespace`: the Unicode `White_Space` property.
pub open spec fn is_white(c: char) -> bool {
    ||| ('\u{9}' <= c && c <= '\u{d}')
    ||| c == ' '
    ||| c == '\u{85}'
    ||| c == '\u{a0}'
    ||| c == '\u{1680}'
    ||| ('\u{2000}' <= c && c <= '\u{200a}')
    ||| c == '\u{2028}'
    ||| c == '\u{2029}'
    ||| c == '\u{202f}'
    ||| c == '\u{205f}'
    ||| c == '\u{3000}'
}

pub open spec fn all_digits(s: Seq<char>) -> bool {
    forall|i: int| 0 <= i < s.len() ==> is_digit(#[trigger] s[i])
}

pub open spec fn digit_value(c: char) -> nat {
    ((c as int) - ('0' as int)) as nat
}

/// The number written by a sequence of decimal digits (leading zeros allowed).
pub open spec fn decimal_value(s: Seq<char>) -> nat
    decreases s.len(),
{
    if s.len() == 0 {
        0
    } else {
        10 * decimal_value(s.drop_last()) + digit_value(s.last())
    }
}

pub fn is_digit_char(c: char) -> (b: bool)
    ensures
        b == is_digit(c),
{
    '0' <= c && c <= '9'
}

pub fn is_white_char(c: char) -> (b: bool)
    ensures
        b == is_white(c),
{
    ('\u{9}' <= c && c <= '\u{d}') || c == ' ' || c == '\u{85}' || c == '\u{a0}' || c
        == '\u{1680}' || ('\u{2000}' <= c && c <= '\u{200a}') || c == '\u{2028}' || c
        == '\u{2029}' || c == '\u{202f}' || c == '\u{205f}' || c == '\u{3000}'
}

// ---------------------------------------------------------------------------
// Encoded widths
// ---------------------------------------------------------------------------

/// Number of UTF-16 code units of a character.
pub open spec fn utf16_width(c: char) -> nat {
    if (c as u32) < 0x10000 {
        1
    } else {
        2
    }
}

/// Number of UTF-8 bytes of a character.
pub open spec fn utf8_width(c: char) -> nat {
    if (c as u32) < 0x80 {
        1
    } else if (c as u32) < 0x800 {
        2
    } else if (c as u32) < 0x10000 {
        3
    } else {
        4
    }
}

/// `str::encode_utf16().count()`.
pub open spec fn utf16_len(s: Seq<char>) -> nat
    decreases s.len(),
{
    if s.len() == 0 {
        0
    } else {
        utf16_len(s.drop_last()) + utf16_width(s.last())
    }
}

/// `str::len()`: the UTF-8 byte length.
pub open spec fn utf8_len(s: Seq<char>) -> nat
    decreases s.len(),
{
    if s.len() == 0 {
        0
    } else {
        utf8_len(s.drop_last()) + utf8_width(s.last())
    }
}

pub proof fn lemma_utf16_len_concat(a: Seq<char>, b: Seq<char>)
    ensures
        utf16_len(a + b) == utf16_len(a) + utf16_len(b),
    decreases b.len(),
{
    if b.len() > 0 {
        lemma_utf16_len_concat(a, b.drop_last());
        assert((a + b).drop_last() =~= a + b.drop_last());
    } else {
        assert(a + b =~= a);
    }
}

pub proof fn lemma_utf16_len_bound(s: Seq<char>)
    ensures
        s.len() <= utf16_len(s) <= 2 * s.len(),
    decreases s.len(),
{
    if s.len() > 0 {
        lemma_utf16_len_bound(s.drop_last());
    }
}

pub proof fn lemma_utf8_len_bound(s: Seq<char>)
    ensures
        s.len() <= utf8_len(s),
        all_digits(s) ==> utf8_len(s) == s.len(),
    decreases s.len(),
{
    if s.len() > 0 {
        lemma_utf8_len_bound(s.drop_last());
        if all_digits(s) {
            assert(all_digits(s.drop_last())) by {
                assert forall|i: int| 0 <= i < s.drop_last().len() implies is_digit(
                    #[trigger] s.drop_last()[i],
                ) by {
                    assert(s.drop_last()[i] == s[i]);
                }
            }
            assert(is_digit(s[s.len() - 1]));
        }
    }
}

pub fn utf16_width_of(c: char) -> (w: usize)
    ensures
        w == utf16_width(c),
{
    if (c as u32) < 0x10000 {
        1
    } else {
        2
    }
}

pub fn utf8_width_of(c: char) -> (w: usize)
    ensures
        w == utf8_width(c),
{
    if (c as u32) < 0x80 {
        1
    } else if (c as u32) < 0x800 {
        2
    } else if (c as u32) < 0x10000 {
        3
    } else {
        4
    }
}

/// UTF-16 length of `v[lo..hi]`.
pub fn utf16_count(v: &Vec<char>, lo: usize, hi: usize) -> (n: usize)
    requires
        lo <= hi <= v@.len(),
        2 * v@.len() <= usize::MAX,
    ensures
        n == utf16_len(v@.subrange(lo as int, hi as int)),
{
    let mut n: usize = 0;
    let mut i: usize = lo;
    while i < hi
        invariant
            lo <= i <= hi <= v@.len(),
            2 * v@.len() <= usize::MAX,
            n == utf16_len(v@.subrange(lo as int, i as int)),
            n <= 2 * (i - lo),
        decreases hi - i,
    {
        let w = utf16_width_of(v[i]);
        assert(v@.subrange(lo as int, i + 1).drop_last() =~= v@.subrange(lo as int, i as int));
        n = n + w;
        i = i + 1;
    }
    n
}

/// UTF-8 length of `v[lo..hi]`, exact while it stays at most `cap`, else some value above `cap`.
pub fn utf8_count_capped(v: &Vec<char>, lo: usize, hi: usize, cap: usize) -> (n: usize)
    requires
        lo <= hi <= v@.len(),
        cap < 1000,
    ensures
        n <= cap ==> n == utf8_len(v@.subrange(lo as int, hi as int)),
        n > cap <==> utf8_len(v@.subrange(lo as int, hi as int)) > cap,
{
    let mut n: usize = 0;
    let mut i: usize = lo;
    while i < hi
        invariant
            lo <= i <= hi <= v@.len(),
            cap < 1000,
            n == utf8_len(v@.subrange(lo as int, i as int)),
            n <= cap,
        decreases hi - i,
    {
        let w = utf8_width_of(v[i]);
        assert(v@.subrange(lo as int, i + 1).drop_last() =~= v@.subrange(lo as int, i as int));
        n = n + w;
        i = i + 1;
        if n > cap {
            proof {
                lemma_utf8_len_prefix_monotone(v@.subrange(lo as int, hi as int), (i - lo) as nat);
                assert(v@.subrange(lo as int, hi as int).take((i - lo) as int) =~= v@.subrange(
                    lo as int,
                    i as int,
                ));
            }
            return n;
        }
    }
    n
}

pub proof fn lemma_utf8_len_prefix_monotone(s: Seq<char>, k: nat)
    requires
        k <= s.len(),
    ensures
        utf8_len(s.take(k as int)) <= utf8_len(s),
    decreases s.len(),
{
    if k < s.len() {
        lemma_utf8_len_prefix_monotone(s.drop_last(), k);
        assert(s.drop_last().take(k as int) =~= s.take(k as int));
    } else {
        assert(s.take(k as int) =~= s);
    }
}

// ---------------------------------------------------------------------------
// Trimming
// ---------------------------------------------------------------------------

/// `str::trim_start`.
pub open spec fn trim_start(s: Seq<char>) -> Seq<char>
    decreases s.len(),
{
    if s.len() > 0 && is_white(s[0]) {
        trim_start(s.drop_first())
    } else {
        s
    }
}

/// `str::trim_end`.
pub open spec fn trim_end(s: Seq<char>) -> Seq<char>
    decreases s.len(),
{
    if s.len() > 0 && is_white(s.last()) {
        trim_end(s.drop_last())
    } else {
        s
    }
}

/// `str::trim`.
pub open spec fn trim(s: Seq<char>) -> Seq<char> {
    trim_end(trim_start(s))
}

/// Index of the first character of `v[lo..hi]` that is not white space (or `hi`).
pub fn skip_white_start(v: &Vec<char>, lo: usize, hi: usize) -> (k: usize)
    requires
        lo <= hi <= v@.len(),
    ensures
        lo <= k <= hi,
        trim_start(v@.subrange(lo as int, hi as int)) == v@.subrange(k as int, hi as int),
{
    let mut k = lo;
    while k < hi && is_white_char(v[k])
        invariant
            lo <= k <= hi <= v@.len(),
            trim_start(v@.subrange(lo as int, hi as int)) == trim_start(
                v@.subrange(k as int, hi as int),
            ),
        decreases hi - k,
    {
        assert(v@.subrange(k as int, hi as int).drop_first() =~= v@.subrange(k + 1, hi as int));
        k = k + 1;
    }
    k
}

/// End index of `v[lo..hi]` once trailing white space is removed (at least `lo`).
pub fn skip_white_end(v: &Vec<char>, lo: usize, hi: usize) -> (k: usize)
    requires
        lo <= hi <= v@.len(),
    ensures
        lo <= k <= hi,
        trim_end(v@.subrange(lo as int, hi as int)) == v@.subrange(lo as int, k as int),
{
    let mut k = hi;
    while k > lo && is_white_char(v[k - 1])
        invariant
            lo <= k <= hi <= v@.len(),
            trim_end(v@.subrange(lo as int, hi as int)) == trim_end(
                v@.subrange(lo as int, k as int),
            ),
        decreases k - lo,
    {
        assert(v@.subrange(lo as int, k as int).drop_last() =~= v@.subrange(lo as int, k - 1));
        k = k - 1;
    }
    k
}

/// Bounds of `trim(v[lo..hi])` inside `v`.
pub fn trim_bounds(v: &Vec<char>, lo: usize, hi: usize) -> (r: (usize, usize))
    requires
        lo <= hi <= v@.len(),
    ensures
        lo <= r.0 <= r.1 <= hi,
        trim(v@.subrange(lo as int, hi as int)) == v@.subrange(r.0 as int, r.1 as int),
{
    let a = skip_white_start(v, lo, hi);
    let b = skip_white_end(v, a, hi);
    (a, b)
}

// ---------------------------------------------------------------------------
// Searching
// ---------------------------------------------------------------------------

pub open spec fn is_first_index(s: Seq<char>, c: char, i: int) -> bool {
    &&& 0 <= i < s.len()
    &&& s[i] == c
    &&& forall|j: int| 0 <= j < i ==> s[j] != c
}

/// Position of the first occurrence of `c` in `s` (`str::find`, counted in characters).
pub open spec fn first_index(s: Seq<char>, c: char) -> Option<int> {
    if exists|i: int| is_first_index(s, c, i) {
        Some(choose|i: int| is_first_index(s, c, i))
    } else {
        None
    }
}

pub proof fn lemma_first_index_unique(s: Seq<char>, c: char, i: int, j: int)
    requires
        is_first_index(s, c, i),
        is_first_index(s, c, j),
    ensures
        i == j,
{
    if i < j {
        assert(s[i] != c);
    } else if j < i {
        assert(s[j] != c);
    }
}

pub proof fn lemma_first_index_of(s: Seq<char>, c: char, i: int)
    requires
        is_first_index(s, c, i),
    ensures
        first_index(s, c) == Some(i),
{
    let k = choose|k: int| is_first_index(s, c, k);
    lemma_first_index_unique(s, c, i, k);
}

pub proof fn lemma_first_index_some(s: Seq<char>, c: char)
    ensures
        first_index(s, c) matches Some(i) ==> is_first_index(s, c, i),
        first_index(s, c) is None ==> forall|j: int| 0 <= j < s.len() ==> s[j] != c,
{
    if first_index(s, c) is None {
        assert forall|j: int| 0 <= j < s.len() implies s[j] != c by {
            if s[j] == c {
                // the first occurrence at or before j would be a witness
                lemma_exists_first(s, c, j);
            }
        }
    }
}

proof fn lemma_exists_first(s: Seq<char>, c: char, j: int)
    requires
        0 <= j < s.len(),
        s[j] == c,
    ensures
        exists|i: int| is_first_index(s, c, i),
    decreases j,
{
    if exists|k: int| 0 <= k < j && s[k] == c {
        let k = choose|k: int| 0 <= k < j && s[k] == c;
        lemma_exists_first(s, c, k);
    } else {
        assert(is_first_index(s, c, j));
    }
}

/// Absolute index of the first `c` in `v[lo..hi]`.
pub fn find_char(v: &Vec<char>, lo: usize, hi: usize, c: char) -> (r: Option<usize>)
    requires
        lo <= hi <= v@.len(),
    ensures
        match r {
            Some(k) => lo <= k < hi && first_index(v@.subrange(lo as int, hi as int), c) == Some(
                k - lo,
            ),
            None => first_index(v@.subrange(lo as int, hi as int), c) is None,
        },
{
    let ghost s = v@.subrange(lo as int, hi as int);
    let mut k = lo;
    while k < hi
        invariant
            lo <= k <= hi <= v@.len(),
            s == v@.subrange(lo as int, hi as int),
            forall|j: int| 0 <= j < k - lo ==> s[j] != c,
        decreases hi - k,
    {
        if v[k] == c {
            proof {
                assert(is_first_index(s, c, k - lo));
                lemma_first_index_of(s, c, k - lo);
            }
            return Some(k);
        }
        k = k + 1;
    }
    proof {
        lemma_first_index_some(s, c);
        if first_index(s, c) is Some {
            let i = first_index(s, c)->0;
            assert(s[i] == c);
        }
    }
    None
}

/// Whether every character of `v[lo..hi]` is an ASCII digit.
pub fn all_digits_in(v: &Vec<char>, lo: usize, hi: usize) -> (b: bool)
    requires
        lo <= hi <= v@.len(),
    ensures
        b == all_digits(v@.subrange(lo as int, hi as int)),
{
    let ghost s = v@.subrange(lo as int, hi as int);
    let mut k = lo;
    while k < hi
        invariant
            lo <= k <= hi <= v@.len(),
            s == v@.subrange(lo as int, hi as int),
            forall|j: int| 0 <= j < k - lo ==> is_digit(#[trigger] s[j]),
        decreases hi - k,
    {
        if !is_digit_char(v[k]) {
            assert(!is_digit(s[k - lo]));
            return false;
        }
        k = k + 1;
    }
    true
}

/// Decimal value of the digits `v[lo..hi]`, or `None` when it exceeds `u32::MAX`.
pub fn decimal_u32(v: &Vec<char>, lo: usize, hi: usize) -> (r: Option<u32>)
    requires
        lo <= hi <= v@.len(),
        all_digits(v@.subrange(lo as int, hi as int)),
    ensures
        match r {
            Some(x) => x == decimal_value(v@.subrange(lo as int, hi as int)),
            None => decimal_value(v@.subrange(lo as int, hi as int)) > u32::MAX,
        },
{
    let ghost s = v@.subrange(lo as int, hi as int);
    let mut acc: u32 = 0;
    let mut k = lo;
    while k < hi
        invariant
            lo <= k <= hi <= v@.len(),
            s == v@.subrange(lo as int, hi as int),
            all_digits(s),
            acc == decimal_value(v@.subrange(lo as int, k as int)),
        decreases hi - k,
    {
        let ghost pre = v@.subrange(lo as int, k as int);
        let ghost next = v@.subrange(lo as int, k + 1);
        assert(next.drop_last() =~= pre);
        assert(next.last() == s[k - lo]);
        let d = (v[k] as u32) - ('0' as u32);
        match acc.checked_mul(10) {
            Some(m) => match m.checked_add(d) {
                Some(a) => {
                    acc = a;
                },
                None => {
                    proof {
                        lemma_decimal_value_prefix_monotone(s, (k + 1 - lo) as nat);
                        assert(s.take((k + 1 - lo) as int) =~= next);
                    }
                    return None;
                },
            },
            None => {
                proof {
                    lemma_decimal_value_prefix_monotone(s, (k + 1 - lo) as nat);
                    assert(s.take((k + 1 - lo) as int) =~= next);
                }
                return None;
            },
        }
        k = k + 1;
    }
    assert(v@.subrange(lo as int, hi as int) =~= s);
    Some(acc)
}

pub proof fn lemma_decimal_value_prefix_monotone(s: Seq<char>, k: nat)
    requires
        k <= s.len(),
    ensures
        decimal_value(s.take(k as int)) <= decimal_value(s),
    decreases s.len(),
{
    if k < s.len() {
        lemma_decimal_value_prefix_monotone(s.drop_last(), k);
        assert(s.drop_last().take(k as int) =~= s.take(k as int));
    } else {
        assert(s.take(k as int) =~= s);
    }
}

// ---------------------------------------------------------------------------
// Conversions between `str`/`String` and character vectors
// ---------------------------------------------------------------------------

/// The characters of a string slice, in order.
pub fn chars_of(s: &str) -> (v: Vec<char>)
    ensures
        v@ == s@,
{
    let mut v: Vec<char> = Vec::new();
    for c in it: s.chars()
        invariant
            v@ == it.seq().take(it.index() as int),
            it.seq() == s@,
    {
        v.push(c);
    }
    v
}

/// Appends `v[lo..hi]` to `s`.
pub fn push_range(s: &mut String, v: &Vec<char>, lo: usize, hi: usize)
    requires
        lo <= hi <= v@.len(),
    ensures
        final(s)@ == old(s)@ + v@.subrange(lo as int, hi as int),
{
    let ghost start = s@;
    let mut i = lo;
    while i < hi
        invariant
            lo <= i <= hi <= v@.len(),
            s@ == start + v@.subrange(lo as int, i as int),
        decreases hi - i,
    {
        s.push(v[i]);
        i = i + 1;
        assert(s@ =~= start + v@.subrange(lo as int, i as int));
    }
}

/// A new string holding `v[lo..hi]`.
pub fn string_of_range(v: &Vec<char>, lo: usize, hi: usize) -> (s: String)
    requires
        lo <= hi <= v@.len(),
    ensures
        s@ == v@.subrange(lo as int, hi as int),
{
    let mut s = String::new();
    push_range(&mut s, v, lo, hi);
    assert(s@ =~= v@.subrange(lo as int, hi as int));
    s
}

/// Appends the characters of `t` to `s`.
pub fn push_text(s: &mut String, t: &str)
    ensures
        final(s)@ == old(s)@ + t@,
{
    let v = chars_of(t);
    push_range(s, &v, 0, v.len());
    assert(v@.subrange(0, v@.len() as int) =~= t@);
}

// ---------------------------------------------------------------------------
// Decimal formatting
// ---------------------------------------------------------------------------

pub open spec fn digit_char(d: nat) -> char {
    ((d + ('0' as nat)) as u32) as char
}

/// Decimal digits of `n` without leading zeros (`"0"` for zero).
pub open spec fn decimal_digits(n: nat) -> Seq<char>
    decreases n,
{
    if n < 10 {
        seq![digit_char(n)]
    } else {
        decimal_digits(n / 10).push(digit_char(n % 10))
    }
}

/// `format!("{:02}", n)`.
pub open spec fn pad2(n: nat) -> Seq<char> {
    if n < 10 {
        seq!['0'] + decimal_digits(n)
    } else {
        decimal_digits(n)
    }
}

fn digit_char_of(d: u128) -> (c: char)
    requires
        d < 10,
    ensures
        c == digit_char(d as nat),
{
    let b: u8 = (d as u8) + 48;
    let c = b as char;
    assert(c == digit_char(d as nat)) by {
        assert(c as u32 == b as u32);
    }
    c
}

/// Appends the decimal digits of `n`.
pub fn push_decimal(s: &mut String, n: u128)
    ensures
        final(s)@ == old(s)@ + decimal_digits(n as nat),
    decreases n,
{
    let ghost start = s@;
    if n >= 10 {
        push_decimal(s, n / 10);
    }
    let c = digit_char_of(n % 10);
    s.push(c);
    proof {
        if n >= 10 {
            assert(s@ =~= start + decimal_digits(n as nat));
        } else {
            assert(s@ =~= start + decimal_digits(n as nat));
        }
    }
}

/// Appends `n` with at least two digits.
pub fn push_pad2(s: &mut String, n: u128)
    ensures
        final(s)@ == old(s)@ + pad2(n as nat),
{
    let ghost start = s@;
    if n < 10 {
        s.push('0');
    }
    push_decimal(s, n);
    assert(s@ =~= start + pad2(n as nat));
}

/// `format!("{:03}", n)`.
pub open spec fn pad3(n: nat) -> Seq<char> {
    if n < 10 {
        seq!['0', '0'] + decimal_digits(n)
    } else if n < 100 {
        seq!['0'] + decimal_digits(n)
    } else {
        decimal_digits(n)
    }
}

pub fn push_pad3(s: &mut String, n: u128)
    ensures
        final(s)@ == old(s)@ + pad3(n as nat),
{
    let ghost start = s@;
    if n < 10 {
        s.push('0');
        s.push('0');
    } else if n < 100 {
        s.push('0');
    }
    push_decimal(s, n);
    assert(s@ =~= start + pad3(n as nat));
}

pub proof fn lemma_digit_char(d: nat)
    requires
        d < 10,
    ensures
        is_digit(digit_char(d)),
        digit_value(digit_char(d)) == d,
        digit_char(d) != ':',
        digit_char(d) != '.',
        digit_char(d) != ']',
        (digit_char(d) as u32) < 0x80,
{
}

pub proof fn lemma_decimal_digits(n: nat)
    ensures
        all_digits(decimal_digits(n)),
        decimal_value(decimal_digits(n)) == n,
        decimal_digits(n).len() >= 1,
        n < 10 ==> decimal_digits(n).len() == 1,
        10 <= n < 100 ==> decimal_digits(n).len() == 2,
        n >= 10 ==> decimal_digits(n).len() >= 2,
    decreases n,
{
    lemma_digit_char(n % 10);
    if n >= 10 {
        lemma_decimal_digits(n / 10);
        let d = decimal_digits(n);
        assert(d.drop_last() =~= decimal_digits(n / 10));
        assert(d.last() == digit_char(n % 10));
        assert(decimal_value(d) == 10 * decimal_value(d.drop_last()) + digit_value(d.last()));
        assert forall|i: int| 0 <= i < d.len() implies is_digit(#[trigger] d[i]) by {
            if i < d.len() - 1 {
                assert(d[i] == decimal_digits(n / 10)[i]);
            }
        }
    } else {
        lemma_digit_char(n);
        let d = decimal_digits(n);
        assert(d.drop_last() =~= Seq::<char>::empty());
        assert(decimal_value(d) == 10 * decimal_value(d.drop_last()) + digit_value(d.last()));
    }
}

pub proof fn lemma_decimal_value_leading_zero(x: Seq<char>)
    ensures
        decimal_value(seq!['0'] + x) == decimal_value(x),
    decreases x.len(),
{
    if x.len() > 0 {
        lemma_decimal_value_leading_zero(x.drop_last());
        let y = seq!['0'] + x;
        assert(y.drop_last() =~= seq!['0'] + x.drop_last());
        assert(y.last() == x.last());
        assert(decimal_value(y) == 10 * decimal_value(y.drop_last()) + digit_value(y.last()));
    } else {
        assert(seq!['0'] + x =~= seq!['0']);
        assert(seq!['0'].drop_last() =~= Seq::<char>::empty());
        assert(decimal_value(seq!['0']) == 10 * decimal_value(seq!['0'].drop_last()) + digit_value(
            '0',
        ));
    }
}

pub proof fn lemma_pad2(n: nat)
    ensures
        all_digits(pad2(n)),
        decimal_value(pad2(n)) == n,
        pad2(n).len() >= 2,
        n < 100 ==> pad2(n).len() == 2,
{
    lemma_decimal_digits(n);
    if n < 10 {
        lemma_decimal_value_leading_zero(decimal_digits(n));
        let p = pad2(n);
        assert forall|i: int| 0 <= i < p.len() implies is_digit(#[trigger] p[i]) by {
            if i > 0 {
                assert(p[i] == decimal_digits(n)[i - 1]);
            }
        }
    }
}

} // verus!
