//! Character-level text helpers shared by the formatting and parsing code:
//! decimal numbers, ASCII case folding, Unicode whitespace trimming,
//! substring search, and line splitting.

use vstd::prelude::*;

verus! {

// ---------------------------------------------------------------------------
// Strings and character sequences
// ---------------------------------------------------------------------------

/// Appends one character to a `String` (`String::push`).
#[verifier::external_body]
pub(crate) fn push_char(s: &mut String, c: char)
    ensures
        final(s)@ == old(s)@.push(c),
{
    s.push(c);
}

/// The characters of `s`, in order.
pub fn to_chars(s: &str) -> (r: Vec<char>)
    ensures
        r@ == s@,
{
    let mut r: Vec<char> = Vec::new();
    for c in it: s.chars()
        invariant
            r@ == it.seq().take(it.index() as int),
            it.seq() == s@,
    {
        r.push(c);
    }
    r
}

/// Appends the characters `v[lo..hi]` to `s`.
pub fn push_chars(s: &mut String, v: &[char], lo: usize, hi: usize)
    requires
        lo <= hi <= v@.len(),
    ensures
        final(s)@ == old(s)@ + v@.subrange(lo as int, hi as int),
{
    let ghost start = s@;
    let mut i = lo;
    while i < hi
        invariant
            lo <= i <= hi <= v@.len(),
            s@ == start + v@.subrange(lo as int, i as int),
        decreases hi - i,
    {
        push_char(s, v[i]);
        assert(v@.subrange(lo as int, i + 1) =~= v@.subrange(lo as int, i as int).push(v@[i as int]));
        i += 1;
    }
}

/// A `String` holding the characters of `v`.
pub fn from_chars(v: &[char]) -> (s: String)
    ensures
        s@ == v@,
{
    let mut s = String::new();
    push_chars(&mut s, v, 0, v.len());
    assert(v@.subrange(0, v@.len() as int) =~= v@);
    s
}

/// Appends `t` to `s`.
pub fn push_str(s: &mut String, t: &str)
    ensures
        final(s)@ == old(s)@ + t@,
{
    let v = to_chars(t);
    push_chars(s, v.as_slice(), 0, v.len());
    assert(v@.subrange(0, v@.len() as int) =~= t@);
}

/// Whether two strings hold the same characters.
pub fn str_eq(a: &str, b: &str) -> (r: bool)
    ensures
        r == (a@ == b@),
{
    let va = to_chars(a);
    let vb = to_chars(b);
    chars_eq(va.as_slice(), vb.as_slice())
}

pub fn chars_eq(a: &[char], b: &[char]) -> (r: bool)
    ensures
        r == (a@ == b@),
{
    if a.len() != b.len() {
        return false;
    }
    let mut i: usize = 0;
    while i < a.len()
        invariant
            a@.len() == b@.len(),
            i <= a@.len(),
            forall|k: int| 0 <= k < i ==> a@[k] == b@[k],
        decreases a@.len() - i,
    {
        if a[i] != b[i] {
            return false;
        }
        i += 1;
    }
    assert(a@ =~= b@);
    true
}

// ---------------------------------------------------------------------------
// Decimal numbers
// ---------------------------------------------------------------------------

pub open spec fn digit_char(d: nat) -> char {
    (48 + d) as char
}

/// Decimal digits of `n`, most significant first, without leading zeros.
pub open spec fn dec(n: nat) -> Seq<char>
    decreases n,
{
    if n < 10 {
        seq![digit_char(n)]
    } else {
        dec(n / 10).push(digit_char(n % 10))
    }
}

/// Decimal digits of `n`, padded with a leading zero to at least two.
pub open spec fn dec2(n: nat) -> Seq<char> {
    if n < 10 {
        seq!['0', digit_char(n)]
    } else {
        dec(n)
    }
}

/// Decimal text of a signed number: a minus sign before the magnitude.
pub open spec fn dec_int(n: int) -> Seq<char> {
    if n < 0 {
        seq!['-'] + dec((-n) as nat)
    } else {
        dec(n as nat)
    }
}

fn digit(d: u64) -> (c: char)
    requires
        d < 10,
    ensures
        c == digit_char(d as nat),
{
    let b: u8 = 48 + d as u8;
    b as char
}

/// Appends the decimal digits of `n` to `s`.
pub fn push_dec(s: &mut String, n: u64)
    ensures
        final(s)@ == old(s)@ + dec(n as nat),
    decreases n,
{
    if n < 10 {
        push_char(s, digit(n));
        assert(dec(n as nat) == seq![digit_char(n as nat)]);
    } else {
        let ghost before = s@;
        push_dec(s, n / 10);
        push_char(s, digit(n % 10));
        assert(s@ =~= before + dec((n / 10) as nat).push(digit_char((n % 10) as nat)));
    }
}

/// Appends `n` with at least two digits.
pub fn push_dec2(s: &mut String, n: u64)
    ensures
        final(s)@ == old(s)@ + dec2(n as nat),
{
    if n < 10 {
        push_char(s, '0');
        push_char(s, digit(n));
        assert(final(s)@ =~= old(s)@ + dec2(n as nat)) by {
            assert(s@ =~= old(s)@ + seq!['0', digit_char(n as nat)]);
        }
    } else {
        push_dec(s, n);
    }
}

/// Appends a signed number in decimal.
pub fn push_dec_i64(s: &mut String, n: i64)
    ensures
        final(s)@ == old(s)@ + dec_int(n as int),
{
    if n < 0 {
        let ghost before = s@;
        push_char(s, '-');
        let mag: u64 = if n == i64::MIN {
            0x8000_0000_0000_0000u64
        } else {
            (-n) as u64
        };
        push_dec(s, mag);
        assert(s@ =~= before + (seq!['-'] + dec((-n) as nat)));
    } else {
        push_dec(s, n as u64);
    }
}

// ---------------------------------------------------------------------------
// ASCII case and Unicode whitespace
// ---------------------------------------------------------------------------

pub open spec fn ascii_lower(c: char) -> char {
    if 'A' <= c && c <= 'Z' {
        ((c as u32) + 32) as char
    } else {
        c
    }
}

pub open spec fn ascii_upper(c: char) -> char {
    if 'a' <= c && c <= 'z' {
        ((c as u32) - 32) as char
    } else {
        c
    }
}

pub open spec fn ascii_lower_seq(s: Seq<char>) -> Seq<char> {
    s.map_values(|c: char| ascii_lower(c))
}

pub fn to_ascii_lower(c: char) -> (r: char)
    ensures
        r == ascii_lower(c),
{
    if 'A' <= c && c <= 'Z' {
        let b: u8 = c as u8 + 32;
        b as char
    } else {
        c
    }
}

pub fn to_ascii_upper(c: char) -> (r: char)
    ensures
        r == ascii_upper(c),
{
    if 'a' <= c && c <= 'z' {
        let b: u8 = c as u8 - 32;
        b as char
    } else {
        c
    }
}

/// ASCII-lowercased copy of a character sequence.
pub fn lower_chars(v: &[char]) -> (r: Vec<char>)
    ensures
        r@ == ascii_lower_seq(v@),
{
    let mut r: Vec<char> = Vec::new();
    let mut i: usize = 0;
    while i < v.len()
        invariant
            i <= v@.len(),
            r@ =~= ascii_lower_seq(v@.take(i as int)),
        decreases v@.len() - i,
    {
        r.push(to_ascii_lower(v[i]));
        assert(ascii_lower_seq(v@.take(i + 1)) =~= ascii_lower_seq(v@.take(i as int)).push(
            ascii_lower(v@[i as int]),
        ));
        i += 1;
    }
    assert(v@.take(v@.len() as int) =~= v@);
    r
}

/// The Unicode `White_Space` property, which `char::is_whitespace` (and so
/// `str::trim`) tests.
pub open spec fn is_ws(c: char) -> bool {
    ||| ('\u{9}' <= c && c <= '\u{d}')
    ||| c == ' '
    ||| c == '\u{85}'
    ||| c == '\u{a0}'
    ||| c == '\u{1680}'
    ||| ('\u{2000}' <= c && c <= '\u{200a}')
    ||| c == '\u{2028}'
    ||| c == '\u{2029}'
    ||| c == '\u{202f}'
    ||| c == '\u{205f}'
    ||| c == '\u{3000}'
}

pub fn is_whitespace(c: char) -> (r: bool)
    ensures
        r == is_ws(c),
{
    ('\u{9}' <= c && c <= '\u{d}') || c == ' ' || c == '\u{85}' || c == '\u{a0}' || c
        == '\u{1680}' || ('\u{2000}' <= c && c <= '\u{200a}') || c == '\u{2028}' || c
        == '\u{2029}' || c == '\u{202f}' || c == '\u{205f}' || c == '\u{3000}'
}

/// Start of `s` with leading whitespace skipped.
pub open spec fn trim_start_idx(s: Seq<char>, i: int) -> int
    decreases s.len() - i,
{
    if i >= s.len() || !is_ws(s[i]) {
        i
    } else {
        trim_start_idx(s, i + 1)
    }
}

/// End of `s[lo..]` with trailing whitespace dropped.
pub open spec fn trim_end_idx(s: Seq<char>, lo: int, j: int) -> int
    decreases j - lo,
{
    if j <= lo || !is_ws(s[j - 1]) {
        j
    } else {
        trim_end_idx(s, lo, j - 1)
    }
}

/// `s` without leading and trailing whitespace (`str::trim`).
pub open spec fn trim(s: Seq<char>) -> Seq<char> {
    let lo = trim_start_idx(s, 0);
    s.subrange(lo, trim_end_idx(s, lo, s.len() as int))
}

proof fn lemma_trim_start_bounds(s: Seq<char>, i: int)
    requires
        0 <= i <= s.len(),
    ensures
        i <= trim_start_idx(s, i) <= s.len(),
    decreases s.len() - i,
{
    if i < s.len() && is_ws(s[i]) {
        lemma_trim_start_bounds(s, i + 1);
    }
}

proof fn lemma_trim_end_bounds(s: Seq<char>, lo: int, j: int)
    requires
        0 <= lo <= j <= s.len(),
    ensures
        lo <= trim_end_idx(s, lo, j) <= j,
    decreases j - lo,
{
    if j > lo && is_ws(s[j - 1]) {
        lemma_trim_end_bounds(s, lo, j - 1);
    }
}

/// Bounds `(lo, hi)` of the trimmed part of `v[a..b]`.
pub fn trim_range(v: &[char], a: usize, b: usize) -> (r: (usize, usize))
    requires
        a <= b <= v@.len(),
    ensures
        a <= r.0 <= r.1 <= b,
        v@.subrange(r.0 as int, r.1 as int) == trim(v@.subrange(a as int, b as int)),
{
    let ghost w = v@.subrange(a as int, b as int);
    let mut lo = a;
    while lo < b && is_whitespace(v[lo])
        invariant
            a <= lo <= b <= v@.len(),
            w == v@.subrange(a as int, b as int),
            trim_start_idx(w, 0) == trim_start_idx(w, lo - a),
        decreases b - lo,
    {
        lo += 1;
    }
    let mut hi = b;
    while hi > lo && is_whitespace(v[hi - 1])
        invariant
            a <= lo <= hi <= b <= v@.len(),
            w == v@.subrange(a as int, b as int),
            trim_start_idx(w, 0) == lo - a,
            trim_end_idx(w, lo - a, b - a) == trim_end_idx(w, lo - a, hi - a),
        decreases hi - lo,
    {
        hi -= 1;
    }
    proof {
        assert(trim_end_idx(w, lo - a, hi - a) == hi - a);
        assert(w.subrange(lo - a, hi - a) =~= v@.subrange(lo as int, hi as int));
    }
    (lo, hi)
}

// ---------------------------------------------------------------------------
// Substrings
// ---------------------------------------------------------------------------

pub open spec fn occurs_at(h: Seq<char>, n: Seq<char>, i: int) -> bool {
    0 <= i && i + n.len() <= h.len() && h.subrange(i, i + n.len()) == n
}

/// `n` occurs somewhere in `h`.
pub open spec fn contains_seq(h: Seq<char>, n: Seq<char>) -> bool {
    exists|i: int| #[trigger] occurs_at(h, n, i)
}

pub open spec fn starts_with(h: Seq<char>, n: Seq<char>) -> bool {
    occurs_at(h, n, 0)
}

pub fn occurs_at_exec(h: &[char], n: &[char], i: usize) -> (r: bool)
    ensures
        r == occurs_at(h@, n@, i as int),
{
    if i > h.len() || n.len() > h.len() - i {
        return false;
    }
    let mut k: usize = 0;
    while k < n.len()
        invariant
            i + n@.len() <= h@.len() <= usize::MAX,
            h.len() == h@.len(),
            n.len() == n@.len(),
            k <= n@.len(),
            forall|t: int| 0 <= t < k ==> h@[i + t] == n@[t],
        decreases n@.len() - k,
    {
        if h[i + k] != n[k] {
            proof {
                if occurs_at(h@, n@, i as int) {
                    assert(h@.subrange(i as int, i + n@.len())[k as int] == n@[k as int]);
                }
            }
            return false;
        }
        k += 1;
    }
    assert(h@.subrange(i as int, i + n@.len()) =~= n@);
    true
}

/// Whether `n` occurs in `h`.
pub fn contains_chars(h: &[char], n: &[char]) -> (r: bool)
    ensures
        r == contains_seq(h@, n@),
{
    if n.len() > h.len() {
        proof {
            assert forall|i: int| !occurs_at(h@, n@, i) by {}
        }
        return false;
    }
    let last = h.len() - n.len();
    let mut i: usize = 0;
    while i < last
        invariant
            last == h@.len() - n@.len(),
            i <= last,
            forall|t: int| 0 <= t < i ==> !#[trigger] occurs_at(h@, n@, t),
        decreases last - i,
    {
        if occurs_at_exec(h, n, i) {
            return true;
        }
        i += 1;
    }
    if occurs_at_exec(h, n, last) {
        return true;
    }
    proof {
        assert forall|t: int| !#[trigger] occurs_at(h@, n@, t) by {
            if 0 <= t < i {
            }
        }
    }
    false
}

/// Whether `h` begins with `n`.
pub fn starts_with_chars(h: &[char], n: &[char]) -> (r: bool)
    ensures
        r == starts_with(h@, n@),
{
    occurs_at_exec(h, n, 0)
}

// ---------------------------------------------------------------------------
// Unsigned integers (`u32::from_str`)
// ---------------------------------------------------------------------------

pub open spec fn is_digit(c: char) -> bool {
    '0' <= c && c <= '9'
}

pub open spec fn digits_value(s: Seq<char>) -> nat
    decreases s.len(),
{
    if s.len() == 0 {
        0
    } else {
        digits_value(s.drop_last()) * 10 + ((s.last() as u32) - 48) as nat
    }
}

/// The value of a nonempty run of ASCII digits that fits in 32 bits.
pub open spec fn digits_parse(body: Seq<char>) -> Option<u32> {
    if body.len() > 0 && (forall|i: int| 0 <= i < body.len() ==> is_digit(#[trigger] body[i]))
        && digits_value(body) <= u32::MAX {
        Some(digits_value(body) as u32)
    } else {
        None
    }
}

/// What `u32::from_str` accepts: an optional `+` followed by at least one
/// ASCII digit, with a value that fits in 32 bits.
pub open spec fn parse_u32_spec(s: Seq<char>) -> Option<u32> {
    if s.len() > 0 && s[0] == '+' {
        digits_parse(s.drop_first())
    } else {
        digits_parse(s)
    }
}

/// Parses `v[a..b]` the way `u32::from_str` does.
pub fn parse_u32(v: &[char], a: usize, b: usize) -> (r: Option<u32>)
    requires
        a <= b <= v@.len(),
    ensures
        r == parse_u32_spec(v@.subrange(a as int, b as int)),
{
    let ghost s = v@.subrange(a as int, b as int);
    let start = if a < b && v[a] == '+' {
        a + 1
    } else {
        a
    };
    let ghost body = v@.subrange(start as int, b as int);
    proof {
        if a < b && v@[a as int] == '+' {
            assert(body =~= s.drop_first());
        } else {
            assert(body =~= s);
        }
    }
    if start >= b {
        return None;
    }
    let mut val: u64 = 0;
    let mut i = start;
    while i < b
        invariant
            start <= i <= b <= v@.len(),
            body == v@.subrange(start as int, b as int),
            parse_u32_spec(v@.subrange(a as int, b as int)) == digits_parse(body),
            forall|k: int| start <= k < i ==> is_digit(#[trigger] v@[k]),
            val as nat == digits_value(v@.subrange(start as int, i as int)),
            val <= u32::MAX,
        decreases b - i,
    {
        let c = v[i];
        if !('0' <= c && c <= '9') {
            proof {
                assert(body[i - start] == v@[i as int]);
                assert(!is_digit(body[i - start]));
            }
            return None;
        }
        let ghost prev = v@.subrange(start as int, i as int);
        proof {
            assert(v@.subrange(start as int, i + 1).drop_last() =~= prev);
        }
        let d = (c as u32 - 48) as u64;
        let next = val * 10 + d;
        if next > 0xFFFF_FFFF {
            proof {
                assert(body.subrange(0, i + 1 - start) =~= v@.subrange(start as int, i + 1));
                if forall|k: int| 0 <= k < body.len() ==> is_digit(#[trigger] body[k]) {
                    lemma_digits_prefix_monotone(body, i + 1 - start);
                }
            }
            return None;
        }
        val = next;
        i += 1;
    }
    proof {
        assert(body =~= v@.subrange(start as int, i as int));
        assert forall|k: int| 0 <= k < body.len() implies is_digit(#[trigger] body[k]) by {
            assert(body[k] == v@[start + k]);
        }
    }
    Some(val as u32)
}

proof fn lemma_digits_prefix_monotone(s: Seq<char>, k: int)
    requires
        0 <= k <= s.len(),
        forall|i: int| 0 <= i < s.len() ==> is_digit(#[trigger] s[i]),
    ensures
        digits_value(s.subrange(0, k)) <= digits_value(s),
    decreases s.len() - k,
{
    if k < s.len() {
        lemma_digits_prefix_monotone(s, k + 1);
        assert(s.subrange(0, k + 1).drop_last() =~= s.subrange(0, k));
        assert(is_digit(s[k]));
    } else {
        assert(s.subrange(0, k) =~= s);
    }
}

/// A nonempty run of ASCII digits with value at most `cap`: its value.
pub open spec fn digits_upto(body: Seq<char>, cap: nat) -> Option<nat> {
    if body.len() > 0 && (forall|i: int| 0 <= i < body.len() ==> is_digit(#[trigger] body[i]))
        && digits_value(body) <= cap {
        Some(digits_value(body))
    } else {
        None
    }
}

/// The value of the digits in `v[a..b]` when they are all ASCII digits,
/// there is at least one, and the value is at most `cap`.
pub fn parse_digits_upto(v: &[char], a: usize, b: usize, cap: u64) -> (r: Option<u64>)
    requires
        a <= b <= v@.len(),
    ensures
        match r {
            Some(x) => digits_upto(v@.subrange(a as int, b as int), cap as nat) == Some(x as nat),
            None => digits_upto(v@.subrange(a as int, b as int), cap as nat) is None,
        },
{
    let ghost body = v@.subrange(a as int, b as int);
    if a >= b {
        return None;
    }
    let mut val: u128 = 0;
    let mut i = a;
    while i < b
        invariant
            a <= i <= b <= v@.len(),
            body == v@.subrange(a as int, b as int),
            forall|k: int| a <= k < i ==> is_digit(#[trigger] v@[k]),
            val as nat == digits_value(v@.subrange(a as int, i as int)),
            val <= cap,
        decreases b - i,
    {
        let c = v[i];
        if !('0' <= c && c <= '9') {
            proof {
                assert(body[i - a] == v@[i as int]);
                assert(!is_digit(body[i - a]));
            }
            return None;
        }
        proof {
            assert(v@.subrange(a as int, i + 1).drop_last() =~= v@.subrange(a as int, i as int));
        }
        let d = (c as u32 - 48) as u128;
        let next = val * 10 + d;
        if next > cap as u128 {
            proof {
                assert(body.subrange(0, i + 1 - a) =~= v@.subrange(a as int, i + 1));
                if forall|k: int| 0 <= k < body.len() ==> is_digit(#[trigger] body[k]) {
                    lemma_digits_prefix_monotone(body, i + 1 - a);
                }
            }
            return None;
        }
        val = next;
        i += 1;
    }
    proof {
        assert(body =~= v@.subrange(a as int, i as int));
        assert forall|k: int| 0 <= k < body.len() implies is_digit(#[trigger] body[k]) by {
            assert(body[k] == v@[a + k]);
        }
    }
    Some(val as u64)
}

/// What `i64::from_str` accepts: an optional sign and at least one ASCII
/// digit, the value within 64-bit signed range.
pub open spec fn parse_i64_spec(s: Seq<char>) -> Option<i64> {
    if s.len() > 0 && s[0] == '-' {
        match digits_upto(s.drop_first(), 0x8000_0000_0000_0000) {
            Some(v) => Some((0 - v) as i64),
            None => None,
        }
    } else {
        let body = if s.len() > 0 && s[0] == '+' {
            s.drop_first()
        } else {
            s
        };
        match digits_upto(body, 0x7FFF_FFFF_FFFF_FFFF) {
            Some(v) => Some(v as i64),
            None => None,
        }
    }
}

/// Parses a signed 64-bit number the way `i64::from_str` does.
pub fn parse_i64(s: &str) -> (r: Option<i64>)
    ensures
        r == parse_i64_spec(s@),
{
    let v = to_chars(s);
    let n = v.len();
    if n > 0 && v[0] == '-' {
        assert(v@.subrange(1, n as int) =~= s@.drop_first());
        match parse_digits_upto(v.as_slice(), 1, n, 0x8000_0000_0000_0000) {
            Some(x) => {
                if x == 0x8000_0000_0000_0000 {
                    Some(i64::MIN)
                } else {
                    Some(-(x as i64))
                }
            },
            None => None,
        }
    } else {
        let start: usize = if n > 0 && v[0] == '+' {
            1
        } else {
            0
        };
        proof {
            if n > 0 && s@[0] == '+' {
                assert(v@.subrange(1, n as int) =~= s@.drop_first());
            } else {
                assert(v@.subrange(0, n as int) =~= s@);
            }
        }
        match parse_digits_upto(v.as_slice(), start, n, 0x7FFF_FFFF_FFFF_FFFF) {
            Some(x) => Some(x as i64),
            None => None,
        }
    }
}

// ---------------------------------------------------------------------------
// Lines (`str::lines`)
// ---------------------------------------------------------------------------

/// A line taken from `s[lo..hi)`, where `hi` is just past a `\n` or the end
/// of the text: the `\n`, or `\r\n`, that ends it is dropped.
pub open spec fn line_body(s: Seq<char>, lo: int, hi: int) -> Seq<char> {
    if hi > lo && s[hi - 1] == '\n' {
        if hi - 1 > lo && s[hi - 2] == '\r' {
            s.subrange(lo, hi - 2)
        } else {
            s.subrange(lo, hi - 1)
        }
    } else {
        s.subrange(lo, hi)
    }
}

/// Index just past the first `\n` at or after `i`, or the length of `s`.
pub open spec fn line_end(s: Seq<char>, i: int) -> int
    decreases s.len() - i,
{
    if i >= s.len() {
        s.len() as int
    } else if s[i] == '\n' {
        i + 1
    } else {
        line_end(s, i + 1)
    }
}

/// The lines of `s` from offset `i` on, as `str::lines` gives them: split
/// after each `\n`, line endings removed, no final empty line.
pub open spec fn lines_from(s: Seq<char>, i: int) -> Seq<Seq<char>>
    decreases s.len() - i,
{
    if i >= s.len() || i < 0 {
        Seq::empty()
    } else {
        let e = line_end(s, i);
        if e <= i {
            Seq::empty()
        } else {
            if e > s.len() {
                Seq::empty()
            } else {
                seq![line_body(s, i, e)] + lines_from(s, e)
            }
        }
    }
}

pub open spec fn lines(s: Seq<char>) -> Seq<Seq<char>> {
    lines_from(s, 0)
}

pub proof fn lemma_line_end_bounds(s: Seq<char>, i: int)
    requires
        0 <= i < s.len(),
    ensures
        i < line_end(s, i) <= s.len(),
    decreases s.len() - i,
{
    if s[i] != '\n' {
        if i + 1 < s.len() {
            lemma_line_end_bounds(s, i + 1);
        } else {
            assert(line_end(s, i + 1) == s.len());
        }
    }
}

/// Over a stretch `[i, j)` free of `\n` that ends at a `\n` or the end of
/// the text, the line that starts at `i` ends just past `j`.
pub proof fn lemma_line_end_run(s: Seq<char>, i: int, j: int)
    requires
        0 <= i <= j <= s.len(),
        forall|k: int| i <= k < j ==> #[trigger] s[k] != '\n',
        j == s.len() || s[j] == '\n',
    ensures
        line_end(s, i) == if j == s.len() {
            s.len() as int
        } else {
            j + 1
        },
    decreases j - i,
{
    if i < j {
        lemma_line_end_run(s, i + 1, j);
    }
}

/// Line ends do not depend on text placed before.
pub proof fn lemma_line_end_shift(p: Seq<char>, t: Seq<char>, i: int)
    requires
        0 <= i <= t.len(),
    ensures
        line_end(p + t, p.len() + i) == p.len() + line_end(t, i),
    decreases t.len() - i,
{
    if i < t.len() {
        assert((p + t)[p.len() + i] == t[i]);
        if t[i] != '\n' {
            lemma_line_end_shift(p, t, i + 1);
        }
    }
}

/// The lines after a prefix are the lines of the rest.
pub proof fn lemma_lines_from_shift(p: Seq<char>, t: Seq<char>, i: int)
    requires
        0 <= i <= t.len(),
    ensures
        lines_from(p + t, p.len() + i) == lines_from(t, i),
    decreases t.len() - i,
{
    if i < t.len() {
        let s = p + t;
        lemma_line_end_shift(p, t, i);
        lemma_line_end_bounds(t, i);
        lemma_line_end_bounds(s, p.len() + i);
        let e = line_end(t, i);
        assert(line_body(s, p.len() + i, p.len() + e) =~= line_body(t, i, e)) by {
            if e > i && t[e - 1] == '\n' {
                assert(s[p.len() + e - 1] == t[e - 1]);
                if e - 1 > i {
                    assert(s[p.len() + e - 2] == t[e - 2]);
                }
            } else if e > i {
                assert(s[p.len() + e - 1] == t[e - 1]);
            }
        }
        lemma_lines_from_shift(p, t, e);
    } else {
        assert((p + t).len() == p.len() + t.len());
    }
}

/// Filtering keeps a sequence whose every element passes.
pub proof fn lemma_filter_keeps_all<A>(s: Seq<A>, f: spec_fn(A) -> bool)
    requires
        forall|i: int| 0 <= i < s.len() ==> f(#[trigger] s[i]),
    ensures
        s.filter(f) == s,
    decreases s.len(),
{
    if s.len() == 0 {
        assert(s.filter(f) =~= s) by {
            reveal(Seq::filter);
        }
    } else {
        let d = s.drop_last();
        assert forall|i: int| 0 <= i < d.len() implies f(#[trigger] d[i]) by {
            assert(d[i] == s[i]);
        }
        lemma_filter_keeps_all(d, f);
        d.lemma_filter_push(s.last(), f);
        assert(d.push(s.last()) =~= s);
        assert(f(s[s.len() - 1]));
    }
}

/// A line of text: not empty, and free of line breaks.
pub open spec fn plain_line(x: Seq<char>) -> bool {
    x.len() > 0 && forall|k: int| 0 <= k < x.len() ==> #[trigger] x[k] != '\n' && x[k] != '\r'
}

/// Splitting lines joined with `\n` gives them back.
pub proof fn lemma_lines_of_join(xs: Seq<Seq<char>>)
    requires
        xs.len() >= 1,
        forall|i: int| 0 <= i < xs.len() ==> plain_line(#[trigger] xs[i]),
    ensures
        lines_from(join(xs, seq!['\n']), 0) == xs,
    decreases xs.len(),
{
    let nl = seq!['\n'];
    let x = xs[0];
    assert(plain_line(x));
    if xs.len() == 1 {
        assert(join(xs, nl) == x);
        lemma_line_end_run(x, 0, x.len() as int);
        assert(x[x.len() - 1] != '\n');
        assert(line_body(x, 0, x.len() as int) =~= x);
        assert(lines_from(x, x.len() as int) =~= Seq::<Seq<char>>::empty());
        assert(lines_from(x, 0) =~= xs);
    } else {
        lemma_join_front(xs, nl);
        let rest = xs.drop_first();
        assert forall|i: int| 0 <= i < rest.len() implies plain_line(#[trigger] rest[i]) by {
            assert(rest[i] == xs[i + 1]);
        }
        lemma_lines_of_join(rest);
        let r = join(rest, nl);
        let p = x + nl;
        let s = p + r;
        assert(join(xs, nl) == s);
        assert forall|k: int| 0 <= k < x.len() implies #[trigger] s[k] != '\n' by {
            assert(s[k] == x[k]);
        }
        assert(s[x.len() as int] == '\n');
        lemma_line_end_run(s, 0, x.len() as int);
        assert(s[x.len() - 1] == x[x.len() - 1]);
        assert(line_body(s, 0, x.len() as int + 1) =~= x);
        lemma_lines_from_shift(p, r, 0);
        lemma_line_end_bounds(s, 0);
        assert(lines_from(s, 0) =~= seq![x] + rest);
        assert(seq![x] + rest =~= xs);
    }
}

/// `join` seen from the front.
pub proof fn lemma_join_front(xs: Seq<Seq<char>>, sep: Seq<char>)
    requires
        xs.len() >= 2,
    ensures
        join(xs, sep) == xs[0] + sep + join(xs.drop_first(), sep),
    decreases xs.len(),
{
    if xs.len() == 2 {
        assert(xs.drop_last() =~= seq![xs[0]]);
        assert(xs.drop_first() =~= seq![xs[1]]);
        assert(join(xs.drop_last(), sep) == xs[0]);
        assert(join(xs.drop_first(), sep) == xs[1]);
        assert(xs.last() == xs[1]);
    } else {
        let d = xs.drop_last();
        lemma_join_front(d, sep);
        assert(d.drop_first() =~= xs.drop_first().drop_last());
        assert(xs.drop_first().last() == xs.last());
        assert(join(xs, sep) =~= xs[0] + sep + join(xs.drop_first(), sep));
    }
}

/// Exec counterpart of `line_end`.
pub fn find_line_end(v: &[char], i: usize) -> (r: usize)
    requires
        i < v@.len(),
    ensures
        r as int == line_end(v@, i as int),
        i < r <= v@.len(),
{
    let mut j = i;
    while j < v.len() && v[j] != '\n'
        invariant
            i <= j <= v@.len(),
            line_end(v@, i as int) == line_end(v@, j as int),
        decreases v@.len() - j,
    {
        j += 1;
    }
    proof {
        lemma_line_end_bounds(v@, i as int);
    }
    if j < v.len() {
        j + 1
    } else {
        j
    }
}

/// Exec counterpart of `line_body`: the bounds of the line in `v[lo..hi)`.
pub fn line_body_range(v: &[char], lo: usize, hi: usize) -> (r: (usize, usize))
    requires
        lo <= hi <= v@.len(),
    ensures
        lo <= r.0 <= r.1 <= hi,
        v@.subrange(r.0 as int, r.1 as int) == line_body(v@, lo as int, hi as int),
{
    if hi > lo && v[hi - 1] == '\n' {
        if hi - 1 > lo && v[hi - 2] == '\r' {
            (lo, hi - 2)
        } else {
            (lo, hi - 1)
        }
    } else {
        (lo, hi)
    }
}

// ---------------------------------------------------------------------------
// Joining
// ---------------------------------------------------------------------------

/// The parts written one after another with `sep` between neighbours
/// (`[T]::join`).
pub open spec fn join(parts: Seq<Seq<char>>, sep: Seq<char>) -> Seq<char>
    decreases parts.len(),
{
    if parts.len() == 0 {
        Seq::empty()
    } else if parts.len() == 1 {
        parts[0]
    } else {
        join(parts.drop_last(), sep) + sep + parts.last()
    }
}

pub open spec fn nonempty(p: Seq<char>) -> bool {
    p.len() > 0
}

pub open spec fn nonempty_pred() -> spec_fn(Seq<char>) -> bool {
    |p: Seq<char>| nonempty(p)
}

pub open spec fn string_views(v: Seq<String>) -> Seq<Seq<char>> {
    v.map_values(|s: String| s@)
}

/// Joins the strings with `sep` between neighbours.
pub fn join_strings(parts: &Vec<String>, sep: &str) -> (r: String)
    ensures
        r@ == join(string_views(parts@), sep@),
{
    let mut s = String::new();
    let mut i: usize = 0;
    while i < parts.len()
        invariant
            i <= parts@.len(),
            s@ == join(string_views(parts@).take(i as int), sep@),
        decreases parts@.len() - i,
    {
        if i > 0 {
            s.append(sep);
        }
        s.append(parts[i].as_str());
        proof {
            let vs = string_views(parts@);
            assert(vs.take(i + 1).drop_last() =~= vs.take(i as int));
            assert(vs.take(i + 1).last() == parts@[i as int]@);
            if i == 0 {
                assert(vs.take(1) =~= seq![vs[0]]);
            }
        }
        i += 1;
    }
    assert(string_views(parts@).take(parts@.len() as int) =~= string_views(parts@));
    s
}

/// A `String` holding `t`.
pub fn string_of(t: &str) -> (r: String)
    ensures
        r@ == t@,
{
    let mut s = String::new();
    s.append(t);
    s
}

} // verus!
