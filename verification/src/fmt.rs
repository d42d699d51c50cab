//! Text shown in the interface: sizes, durations, ages, resolutions, track
//! and codec labels, key names.

use vstd::prelude::*;
use crate::clock::now_unix_secs;
use crate::text::{
    ascii_lower_seq, ascii_upper, contains_chars, contains_seq, dec, dec2, dec_int, from_chars,
    join, join_strings, lower_chars, nonempty, nonempty_pred, push_char, push_chars, push_dec, push_dec2, push_dec_i64,
    str_eq, string_of, string_views, to_ascii_upper, to_chars, trim, trim_range,
};

verus! {

// ---------------------------------------------------------------------------
// Upper-casing (std)
// ---------------------------------------------------------------------------

/// What `str::to_uppercase` gives for a text: Unicode's full upper-case
/// mapping applied character by character.
pub uninterp spec fn uppercase(s: Seq<char>) -> Seq<char>;

/// `str::to_uppercase`. Its result depends on the text alone; Unicode's
/// mapping is not restated here, only named.
#[verifier::external_body]
fn to_uppercase(s: &str) -> (r: String)
    ensures
        r@ == uppercase(s@),
{
    s.to_uppercase()
}

// ---------------------------------------------------------------------------
// Shortening
// ---------------------------------------------------------------------------

pub open spec fn trunc_spec(s: Seq<char>, max_chars: int) -> Seq<char> {
    if s.len() <= max_chars {
        s
    } else {
        s.take(if max_chars > 0 { max_chars - 1 } else { 0 }) + seq!['\u{2026}']
    }
}

/// Cuts `s` to at most `max_chars` characters, the last of them an
/// ellipsis when anything was cut.
pub fn trunc(s: &str, max_chars: usize) -> (r: String)
    ensures
        r@ == trunc_spec(s@, max_chars as int),
{
    let v = to_chars(s);
    if v.len() <= max_chars {
        string_of(s)
    } else {
        let keep = if max_chars > 0 {
            max_chars - 1
        } else {
            0
        };
        let mut r = String::new();
        push_chars(&mut r, v.as_slice(), 0, keep);
        push_char(&mut r, '\u{2026}');
        assert(v@.subrange(0, keep as int) =~= s@.take(keep as int));
        r
    }
}

pub open spec fn truncate_spec(s: Seq<char>, max: int) -> Seq<char> {
    if s.len() <= max {
        s
    } else {
        s.take(max) + "..."@
    }
}

/// The first `max` characters of `s`, with `...` added when anything was
/// cut.
pub fn truncate(s: &str, max: usize) -> (r: String)
    ensures
        r@ == truncate_spec(s@, max as int),
{
    let v = to_chars(s);
    if v.len() <= max {
        string_of(s)
    } else {
        let mut r = String::new();
        push_chars(&mut r, v.as_slice(), 0, max);
        r.append("...");
        assert(v@.subrange(0, max as int) =~= s@.take(max as int));
        r
    }
}

// ---------------------------------------------------------------------------
// Numbers with units
// ---------------------------------------------------------------------------

pub open spec fn channels_spec(c: int) -> Seq<char> {
    if c == 0 {
        Seq::empty()
    } else if c == 1 {
        "mono"@
    } else if c == 2 {
        "stereo"@
    } else if c == 6 {
        "5.1"@
    } else if c == 8 {
        "7.1"@
    } else {
        dec_int(c) + "ch"@
    }
}

/// Name of an audio channel layout: `mono`, `stereo`, `5.1`, `7.1`, or the
/// count with `ch`; empty when the count is unknown (zero).
pub fn channels_label(c: i64) -> (r: String)
    ensures
        r@ == channels_spec(c as int),
{
    match c {
        0 => String::new(),
        1 => string_of("mono"),
        2 => string_of("stereo"),
        6 => string_of("5.1"),
        8 => string_of("7.1"),
        n => {
            let mut s = String::new();
            push_dec_i64(&mut s, n);
            s.append("ch");
            s
        },
    }
}

pub open spec fn resolution_label(h: int) -> Seq<char> {
    if h <= 480 {
        "SD"@
    } else if h <= 720 {
        "HD"@
    } else if h <= 1080 {
        "FHD"@
    } else if h <= 1440 {
        "2K"@
    } else if h <= 2160 {
        "4K"@
    } else {
        "8K"@
    }
}

pub open spec fn resolution_spec(w: nat, h: nat) -> Seq<char> {
    dec(w) + seq!['\u{d7}'] + dec(h) + seq![' '] + resolution_label(h as int)
}

/// `W×H` and the common name of the height's class (SD to 8K).
pub fn fmt_resolution(w: u32, h: u32) -> (r: String)
    ensures
        r@ == resolution_spec(w as nat, h as nat),
{
    let label = if h <= 480 {
        "SD"
    } else if h <= 720 {
        "HD"
    } else if h <= 1080 {
        "FHD"
    } else if h <= 1440 {
        "2K"
    } else if h <= 2160 {
        "4K"
    } else {
        "8K"
    };
    let mut s = String::new();
    push_dec(&mut s, w as u64);
    push_char(&mut s, '\u{d7}');
    push_dec(&mut s, h as u64);
    push_char(&mut s, ' ');
    s.append(label);
    s
}

/// `h:mm:ss`, or `m:ss` under an hour.
pub open spec fn duration_spec(secs: nat) -> Seq<char> {
    let h = secs / 3600;
    let m = (secs % 3600) / 60;
    let s = secs % 60;
    if h > 0 {
        dec(h) + seq![':'] + dec2(m) + seq![':'] + dec2(s)
    } else {
        dec(m) + seq![':'] + dec2(s)
    }
}

/// A duration in whole seconds as `h:mm:ss`, or `m:ss` under an hour.
pub fn fmt_duration(secs: u64) -> (r: String)
    ensures
        r@ == duration_spec(secs as nat),
{
    let h = secs / 3600;
    let m = (secs % 3600) / 60;
    let s = secs % 60;
    let mut out = String::new();
    if h > 0 {
        push_dec(&mut out, h);
        push_char(&mut out, ':');
        push_dec2(&mut out, m);
        push_char(&mut out, ':');
        push_dec2(&mut out, s);
    } else {
        push_dec(&mut out, m);
        push_char(&mut out, ':');
        push_dec2(&mut out, s);
    }
    out
}

/// `hh:mm:ss`, or `mm:ss` under an hour, every field two digits at least.
pub open spec fn clock_spec(total: nat) -> Seq<char> {
    let h = total / 3600;
    let m = (total % 3600) / 60;
    let s = total % 60;
    if h > 0 {
        dec2(h) + seq![':'] + dec2(m) + seq![':'] + dec2(s)
    } else {
        dec2(m) + seq![':'] + dec2(s)
    }
}

/// A playback position in whole seconds as the seek bar shows it.
pub fn format_time(total: u64) -> (r: String)
    ensures
        r@ == clock_spec(total as nat),
{
    let h = total / 3600;
    let m = (total % 3600) / 60;
    let s = total % 60;
    let mut out = String::new();
    if h > 0 {
        push_dec2(&mut out, h);
        push_char(&mut out, ':');
    }
    push_dec2(&mut out, m);
    push_char(&mut out, ':');
    push_dec2(&mut out, s);
    out
}

/// A bookmark's label: `h:mm:ss`, or `mm:ss` under an hour.
pub open spec fn bookmark_spec(total: nat) -> Seq<char> {
    if total >= 3600 {
        duration_spec(total)
    } else {
        dec2(total / 60) + seq![':'] + dec2(total % 60)
    }
}

/// The label a bookmark at `total` whole seconds gets.
pub fn bookmark_label(total: u64) -> (r: String)
    ensures
        r@ == bookmark_spec(total as nat),
{
    if total >= 3600 {
        fmt_duration(total)
    } else {
        let mut out = String::new();
        push_dec2(&mut out, total / 60);
        push_char(&mut out, ':');
        push_dec2(&mut out, total % 60);
        out
    }
}

// ---------------------------------------------------------------------------
// Ages
// ---------------------------------------------------------------------------

/// How long ago something happened, `age` seconds back.
pub open spec fn age_text(age: nat) -> Seq<char> {
    if age < 60 {
        "just now"@
    } else if age < 3600 {
        dec(age / 60) + " min ago"@
    } else if age < 86400 {
        dec(age / 3600) + " hr ago"@
    } else if age < 86400 * 7 {
        dec(age / 86400) + " days ago"@
    } else if age < 86400 * 30 {
        dec(age / (86400 * 7)) + " wk ago"@
    } else if age < 86400 * 365 {
        dec(age / (86400 * 30)) + " mo ago"@
    } else {
        dec(age / (86400 * 365)) + " yr ago"@
    }
}

pub open spec fn age_at_spec(unix_secs: u64, now: u64) -> Seq<char> {
    age_text(if now >= unix_secs { (now - unix_secs) as nat } else { 0 })
}

/// `unix_secs` as a relative time seen from `now` (both Unix seconds); a
/// time in the future reads as "just now".
pub fn fmt_age_at(unix_secs: u64, now: u64) -> (r: String)
    ensures
        r@ == age_at_spec(unix_secs, now),
{
    let age = now.saturating_sub(unix_secs);
    if age < 60 {
        return string_of("just now");
    }
    let (n, unit) = if age < 3600 {
        (age / 60, " min ago")
    } else if age < 86400 {
        (age / 3600, " hr ago")
    } else if age < 86400 * 7 {
        (age / 86400, " days ago")
    } else if age < 86400 * 30 {
        (age / (86400 * 7), " wk ago")
    } else if age < 86400 * 365 {
        (age / (86400 * 30), " mo ago")
    } else {
        (age / (86400 * 365), " yr ago")
    };
    let mut s = String::new();
    push_dec(&mut s, n);
    s.append(unit);
    s
}

/// `unix_secs` as a relative time seen from the current clock.
pub fn fmt_age(unix_secs: u64) -> (r: String)
    ensures
        exists|now: u64| r@ == #[trigger] age_at_spec(unix_secs, now),
{
    let now = now_unix_secs();
    fmt_age_at(unix_secs, now)
}

// ---------------------------------------------------------------------------
// Codecs and the info line
// ---------------------------------------------------------------------------

pub open spec fn hdr_spec(primaries: Seq<char>) -> bool {
    let p = ascii_lower_seq(primaries);
    contains_seq(p, "bt.2020"@) || contains_seq(p, "bt2020"@)
}

/// Whether colour primaries name BT.2020, the HDR gamut.
pub fn is_hdr(primaries: &str) -> (r: bool)
    ensures
        r == hdr_spec(primaries@),
{
    let v = to_chars(primaries);
    let p = lower_chars(v.as_slice());
    let a = to_chars("bt.2020");
    let b = to_chars("bt2020");
    contains_chars(p.as_slice(), a.as_slice()) || contains_chars(p.as_slice(), b.as_slice())
}

/// Index of the first `(` or `/` at or after `i`, or the length.
pub open spec fn codec_cut(s: Seq<char>, i: int) -> int
    decreases s.len() - i,
{
    if i >= s.len() || s[i] == '(' || s[i] == '/' {
        i
    } else {
        codec_cut(s, i + 1)
    }
}

/// A codec's short name: the text before any `(` or `/`, trimmed and
/// upper-cased.
pub open spec fn short_codec_spec(codec: Seq<char>) -> Seq<char> {
    uppercase(trim(codec.take(codec_cut(codec, 0))))
}

/// The short, upper-case name of a codec description such as
/// `h264 (High)`.
pub fn short_codec(codec: &str) -> (r: String)
    ensures
        r@ == short_codec_spec(codec@),
{
    let v = to_chars(codec);
    let mut i: usize = 0;
    while i < v.len() && v[i] != '(' && v[i] != '/'
        invariant
            i <= v@.len(),
            v@ == codec@,
            codec_cut(codec@, 0) == codec_cut(codec@, i as int),
        decreases v@.len() - i,
    {
        i += 1;
    }
    let (lo, hi) = trim_range(v.as_slice(), 0, i);
    let mut t = String::new();
    push_chars(&mut t, v.as_slice(), lo, hi);
    proof {
        assert(v@.subrange(0, i as int) =~= codec@.take(i as int));
        assert(t@ =~= v@.subrange(lo as int, hi as int));
    }
    to_uppercase(t.as_str())
}

/// The parts of the info line under the seek bar, in order.
pub open spec fn info_parts(
    width: int,
    height: int,
    video_codec: Seq<char>,
    primaries: Seq<char>,
    audio_codec: Seq<char>,
    audio_channels: int,
    hwdec: Seq<char>,
) -> Seq<Seq<char>> {
    let p1 = if width > 0 && height > 0 {
        seq![dec_int(width) + seq!['\u{d7}'] + dec_int(height)]
    } else {
        Seq::empty()
    };
    let p2 = if video_codec.len() > 0 {
        seq![short_codec_spec(video_codec)]
    } else {
        Seq::empty()
    };
    let p3 = if hdr_spec(primaries) {
        seq!["HDR"@]
    } else {
        Seq::empty()
    };
    let p4 = if audio_codec.len() > 0 {
        if channels_spec(audio_channels).len() == 0 {
            seq![short_codec_spec(audio_codec)]
        } else {
            seq![short_codec_spec(audio_codec) + seq![' '] + channels_spec(audio_channels)]
        }
    } else {
        Seq::empty()
    };
    let p5 = if hwdec.len() > 0 && hwdec != "no"@ {
        seq!["HW "@ + hwdec]
    } else if hwdec.len() > 0 {
        seq!["SW decode"@]
    } else {
        Seq::empty()
    };
    p1 + p2 + p3 + p4 + p5
}

/// The line of stream facts under the seek bar: size, codecs, HDR, audio
/// layout and decoder, separated by middle dots.
pub fn build_info_line(
    width: i64,
    height: i64,
    video_codec: &str,
    primaries: &str,
    audio_codec: &str,
    audio_channels: i64,
    hwdec: &str,
) -> (r: String)
    ensures
        r@ == join(
            info_parts(
                width as int,
                height as int,
                video_codec@,
                primaries@,
                audio_codec@,
                audio_channels as int,
                hwdec@,
            ),
            "  \u{b7}  "@,
        ),
{
    let ghost g1: Seq<Seq<char>> = if width > 0 && height > 0 {
        seq![dec_int(width as int) + seq!['\u{d7}'] + dec_int(height as int)]
    } else {
        Seq::empty()
    };
    let mut parts: Vec<String> = Vec::new();
    if width > 0 && height > 0 {
        let mut s = String::new();
        push_dec_i64(&mut s, width);
        push_char(&mut s, '\u{d7}');
        push_dec_i64(&mut s, height);
        assert(s@ =~= dec_int(width as int) + seq!['\u{d7}'] + dec_int(height as int));
        parts.push(s);
        assert(string_views(parts@) =~= seq![s@]);
    }
    assert(string_views(parts@) =~= g1);
    let ghost g2: Seq<Seq<char>> = g1 + if video_codec@.len() > 0 {
        seq![short_codec_spec(video_codec@)]
    } else {
        Seq::<Seq<char>>::empty()
    };
    if video_codec.unicode_len() > 0 {
        parts.push(short_codec(video_codec));
    }
    assert(string_views(parts@) =~= g2);
    let ghost g3: Seq<Seq<char>> = g2 + if hdr_spec(primaries@) {
        seq!["HDR"@]
    } else {
        Seq::<Seq<char>>::empty()
    };
    if is_hdr(primaries) {
        parts.push(string_of("HDR"));
    }
    assert(string_views(parts@) =~= g3);
    let ghost g4: Seq<Seq<char>> = g3 + if audio_codec@.len() > 0 {
        if channels_spec(audio_channels as int).len() == 0 {
            seq![short_codec_spec(audio_codec@)]
        } else {
            seq![short_codec_spec(audio_codec@) + seq![' '] + channels_spec(audio_channels as int)]
        }
    } else {
        Seq::<Seq<char>>::empty()
    };
    if audio_codec.unicode_len() > 0 {
        let ghost before = string_views(parts@);
        let mut codec = short_codec(audio_codec);
        let ghost sc = codec@;
        let ch = channels_label(audio_channels);
        if ch.unicode_len() > 0 {
            push_char(&mut codec, ' ');
            codec.append(ch.as_str());
            assert(codec@ =~= sc + seq![' '] + ch@);
        }
        let ghost cv = codec@;
        parts.push(codec);
        assert(string_views(parts@) =~= before.push(cv));
    }
    assert(string_views(parts@) =~= g4);
    if hwdec.unicode_len() > 0 && !str_eq(hwdec, "no") {
        let mut s = string_of("HW ");
        s.append(hwdec);
        parts.push(s);
    } else if hwdec.unicode_len() > 0 {
        parts.push(string_of("SW decode"));
    }
    assert(string_views(parts@) =~= info_parts(
        width as int,
        height as int,
        video_codec@,
        primaries@,
        audio_codec@,
        audio_channels as int,
        hwdec@,
    ));
    join_strings(&parts, "  \u{b7}  ")
}

// ---------------------------------------------------------------------------
// Key names
// ---------------------------------------------------------------------------

pub open spec fn display_key_spec(key: Seq<char>) -> Seq<char> {
    if key == "space"@ {
        "Space"@
    } else if key == "left"@ {
        "\u{2190}"@
    } else if key == "right"@ {
        "\u{2192}"@
    } else if key == "up"@ {
        "\u{2191}"@
    } else if key == "down"@ {
        "\u{2193}"@
    } else if key == "pageup"@ {
        "Page Up"@
    } else if key == "pagedown"@ {
        "Page Down"@
    } else if key == "\\"@ {
        "\\"@
    } else if key.len() == 1 && (key[0] as u32) < 128 {
        seq![ascii_upper(key[0])]
    } else if key.len() == 0 {
        key
    } else {
        uppercase(seq![key[0]]) + key.drop_first()
    }
}

/// How a key name is shown in the keyboard settings: named keys spelled
/// out or drawn as arrows, everything else with its first letter in upper
/// case.
pub fn display_key(key: &str) -> (r: String)
    ensures
        r@ == display_key_spec(key@),
{
    if str_eq(key, "space") {
        return string_of("Space");
    }
    if str_eq(key, "left") {
        return string_of("\u{2190}");
    }
    if str_eq(key, "right") {
        return string_of("\u{2192}");
    }
    if str_eq(key, "up") {
        return string_of("\u{2191}");
    }
    if str_eq(key, "down") {
        return string_of("\u{2193}");
    }
    if str_eq(key, "pageup") {
        return string_of("Page Up");
    }
    if str_eq(key, "pagedown") {
        return string_of("Page Down");
    }
    if str_eq(key, "\\") {
        return string_of("\\");
    }
    let v = to_chars(key);
    if v.len() == 1 && (v[0] as u32) < 128 {
        let mut s = String::new();
        push_char(&mut s, to_ascii_upper(v[0]));
        assert(s@ =~= seq![ascii_upper(key@[0])]);
        return s;
    }
    if v.len() == 0 {
        return String::new();
    }
    let first = from_chars(&v.as_slice()[0..1]);
    assert(v@.subrange(0, 1) =~= seq![key@[0]]);
    let mut r = to_uppercase(first.as_str());
    push_chars(&mut r, v.as_slice(), 1, v.len());
    assert(v@.subrange(1, v@.len() as int) =~= key@.drop_first());
    r
}

// ---------------------------------------------------------------------------
// Byte sizes
// ---------------------------------------------------------------------------

pub open spec fn pow2n(k: nat) -> nat
    decreases k,
{
    if k == 0 {
        1
    } else {
        2 * pow2n((k - 1) as nat)
    }
}

/// How many low bits a whole number loses on conversion to `f64`, whose
/// significand holds 53 bits.
pub open spec fn f64_shift(b: nat) -> nat
    decreases b,
{
    if b < 0x20_0000_0000_0000 {
        0
    } else {
        1 + f64_shift(b / 2)
    }
}

/// `b as f64`: the nearest number with a 53-bit significand, ties going
/// to the even one.
pub open spec fn f64_round(b: nat) -> nat {
    let p = pow2n(f64_shift(b));
    let q = b / p;
    let r = b % p;
    if r * 2 > p || (r * 2 == p && q % 2 == 1) {
        (q + 1) * p
    } else {
        q * p
    }
}

/// `n / d` rounded to the nearest whole number, ties to even: how `{:.0}`
/// prints the exact quotient.
pub open spec fn div_round_even(n: nat, d: nat) -> nat {
    let q = n / d;
    let r = n % d;
    if r * 2 > d || (r * 2 == d && q % 2 == 1) {
        q + 1
    } else {
        q
    }
}

/// A byte count as the interface shows it: GB with one decimal, MB and KB
/// as whole numbers, bytes below a kilobyte. GB values go through `f64`
/// first, as the displayed figure does.
pub open spec fn size_spec(bytes: nat) -> Seq<char> {
    if bytes >= 1073741824 {
        let n = div_round_even(f64_round(bytes) * 10, 1073741824);
        dec(n / 10) + seq!['.'] + dec(n % 10) + " GB"@
    } else if bytes >= 1048576 {
        dec(div_round_even(bytes, 1048576)) + " MB"@
    } else if bytes >= 1024 {
        dec(div_round_even(bytes, 1024)) + " KB"@
    } else {
        dec(bytes) + " B"@
    }
}

proof fn lemma_pow2n_pos(k: nat)
    ensures
        pow2n(k) >= 1,
    decreases k,
{
    if k > 0 {
        lemma_pow2n_pos((k - 1) as nat);
    }
}

/// `b as f64`, as a whole number.
fn f64_round_u64(b: u64) -> (m: u128)
    ensures
        m == f64_round(b as nat),
        m <= b + 4096,
{
    let mut q: u64 = b;
    let mut p: u64 = 1;
    let ghost mut k: nat = 0;
    proof {
        vstd::arithmetic::div_mod::lemma_fundamental_div_mod(b as int, 1);
    }
    while q >= 0x20_0000_0000_0000
        invariant
            p == pow2n(k),
            1 <= p <= 4096,
            q == b / p,
            f64_shift(b as nat) == k + f64_shift(q as nat),
        decreases q,
    {
        proof {
            vstd::arithmetic::div_mod::lemma_div_denominator(b as int, p as int, 2);
            vstd::arithmetic::div_mod::lemma_fundamental_div_mod(b as int, p as int);
            assert(b % p >= 0) by {
                vstd::arithmetic::div_mod::lemma_mod_pos_bound(b as int, p as int);
            }
            assert(p * q <= b);
            assert(p <= 2048) by (nonlinear_arith)
                requires
                    p * q <= b,
                    q >= 0x20_0000_0000_0000,
                    b <= 0xFFFF_FFFF_FFFF_FFFF,
                    p >= 1,
            ;
        }
        q = q / 2;
        p = p * 2;
        proof {
            k = k + 1;
        }
    }
    proof {
        vstd::arithmetic::div_mod::lemma_fundamental_div_mod(b as int, p as int);
        vstd::arithmetic::div_mod::lemma_mod_pos_bound(b as int, p as int);
        assert(f64_shift(q as nat) == 0);
    }
    let qp: u128 = (q as u128) * (p as u128);
    let r: u128 = (b as u128) - qp;
    assert(r == b % p);
    assert(pow2n(f64_shift(b as nat)) == p);
    assert((q + 1) * p == q * p + p) by (nonlinear_arith);
    if r * 2 > p as u128 || (r * 2 == p as u128 && q % 2 == 1) {
        qp + p as u128
    } else {
        qp
    }
}

fn div_round_even_u128(n: u128, d: u128) -> (r: u128)
    requires
        2 <= d <= 0x1_0000_0000_0000_0000,
    ensures
        r == div_round_even(n as nat, d as nat),
{
    let q = n / d;
    let rem = n % d;
    assert(q < 0xFFFF_FFFF_FFFF_FFFF_FFFF_FFFF_FFFF_FFFF) by (nonlinear_arith)
        requires
            q == n / d,
            d >= 2,
            n <= 0xFFFF_FFFF_FFFF_FFFF_FFFF_FFFF_FFFF_FFFF,
    ;
    if rem * 2 > d || (rem * 2 == d && q % 2 == 1) {
        q + 1
    } else {
        q
    }
}

/// A byte count as a short size: `1.5 GB`, `700 MB`, `12 KB`, `512 B`.
pub fn fmt_size(bytes: u64) -> (r: String)
    ensures
        r@ == size_spec(bytes as nat),
{
    let mut s = String::new();
    if bytes >= 1073741824 {
        let m = f64_round_u64(bytes);
        let n = div_round_even_u128(m * 10, 1073741824);
        assert(n <= 0x100_0000_0000) by (nonlinear_arith)
            requires
                m <= 0xFFFF_FFFF_FFFF_FFFF + 4096,
                n <= (m * 10) / 1073741824 + 1,
        ;
        push_dec(&mut s, (n / 10) as u64);
        push_char(&mut s, '.');
        push_dec(&mut s, (n % 10) as u64);
        s.append(" GB");
    } else if bytes >= 1048576 {
        let n = div_round_even_u128(bytes as u128, 1048576);
        push_dec(&mut s, n as u64);
        s.append(" MB");
    } else if bytes >= 1024 {
        let n = div_round_even_u128(bytes as u128, 1024);
        push_dec(&mut s, n as u64);
        s.append(" KB");
    } else {
        push_dec(&mut s, bytes);
        s.append(" B");
    }
    s
}

// ---------------------------------------------------------------------------
// The metadata line of a list entry
// ---------------------------------------------------------------------------

pub open spec fn meta_spec(
    size: Option<u64>,
    duration_secs: Option<u64>,
    resolution: Option<(u32, u32)>,
) -> Seq<char> {
    let a = match size {
        Some(b) => size_spec(b as nat),
        None => Seq::empty(),
    };
    let b = match duration_secs {
        Some(d) => duration_spec(d as nat),
        None => Seq::empty(),
    };
    let c = match resolution {
        Some((w, h)) => resolution_spec(w as nat, h as nat),
        None => Seq::empty(),
    };
    join(seq![a, b, c].filter(nonempty_pred()), "  "@)
}

/// The compact line under a file's name: size, duration and resolution,
/// whichever are known, two spaces apart.
pub fn fmt_meta(size: Option<u64>, duration_secs: Option<u64>, resolution: Option<(u32, u32)>) -> (r:
    String)
    ensures
        r@ == meta_spec(size, duration_secs, resolution),
{
    let a = match size {
        Some(b) => fmt_size(b),
        None => String::new(),
    };
    let b = match duration_secs {
        Some(d) => fmt_duration(d),
        None => String::new(),
    };
    let c = match resolution {
        Some((w, h)) => fmt_resolution(w, h),
        None => String::new(),
    };
    let ghost all = seq![a@, b@, c@];
    let ghost f = nonempty_pred();
    proof {
        assert(seq![a@] =~= Seq::<Seq<char>>::empty().push(a@));
        assert(seq![a@, b@] =~= seq![a@].push(b@));
        assert(all =~= seq![a@, b@].push(c@));
        Seq::<Seq<char>>::empty().lemma_filter_push(a@, f);
        seq![a@].lemma_filter_push(b@, f);
        seq![a@, b@].lemma_filter_push(c@, f);
        assert(Seq::<Seq<char>>::empty().filter(f) =~= Seq::<Seq<char>>::empty()) by {
            reveal(Seq::filter);
        }
    }
    let mut parts: Vec<String> = Vec::new();
    if a.unicode_len() > 0 {
        parts.push(a);
    }
    assert(string_views(parts@) =~= seq![a@].filter(f));
    if b.unicode_len() > 0 {
        let ghost before = string_views(parts@);
        let ghost bv = b@;
        parts.push(b);
        assert(string_views(parts@) =~= before.push(bv));
    }
    assert(string_views(parts@) =~= seq![a@, b@].filter(f));
    if c.unicode_len() > 0 {
        let ghost before = string_views(parts@);
        let ghost cv = c@;
        parts.push(c);
        assert(string_views(parts@) =~= before.push(cv));
    }
    assert(string_views(parts@) =~= all.filter(f));
    join_strings(&parts, "  ")
}

} // verus!
