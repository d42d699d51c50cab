//! Container header parsing for the lightweight duration probe.
//!
//! Every function here works on bytes already read from the head (or a
//! window) of a media file: MP4/MOV `moov`/`mvhd` boxes, Matroska EBML
//! elements and cluster timestamps, and the AVI `avih` chunk. The caller
//! turns the integer results into seconds.

use vstd::prelude::*;
use crate::text::str_eq;

verus! {

/// The container families the probe reads.
#[derive(Debug, Clone, Copy, PartialEq, Eq, Structural)]
pub enum Container {
    /// ISO base media (MP4, MOV).
    Mp4,
    /// Matroska and WebM.
    Matroska,
    Avi,
}

pub open spec fn container_spec(ext: Seq<char>) -> Option<Container> {
    if ext == "mp4"@ || ext == "m4v"@ || ext == "mov"@ || ext == "m4a"@ || ext == "mp4v"@ {
        Some(Container::Mp4)
    } else if ext == "mkv"@ || ext == "webm"@ || ext == "mka"@ || ext == "mk3d"@ {
        Some(Container::Matroska)
    } else if ext == "avi"@ {
        Some(Container::Avi)
    } else {
        None
    }
}

/// The container a file's extension (already lower-cased) names, if the
/// probe reads it.
pub fn container_for_ext(ext: &str) -> (r: Option<Container>)
    ensures
        r == container_spec(ext@),
{
    if str_eq(ext, "mp4") || str_eq(ext, "m4v") || str_eq(ext, "mov") || str_eq(ext, "m4a")
        || str_eq(ext, "mp4v") {
        Some(Container::Mp4)
    } else if str_eq(ext, "mkv") || str_eq(ext, "webm") || str_eq(ext, "mka") || str_eq(ext, "mk3d") {
        Some(Container::Matroska)
    } else if str_eq(ext, "avi") {
        Some(Container::Avi)
    } else {
        None
    }
}

/// Big-endian value of a byte sequence.
pub open spec fn be_num(s: Seq<u8>) -> nat
    decreases s.len(),
{
    if s.len() == 0 {
        0
    } else {
        be_num(s.drop_last()) * 256 + s.last() as nat
    }
}

/// Little-endian value of a byte sequence.
pub open spec fn le_num(s: Seq<u8>) -> nat
    decreases s.len(),
{
    if s.len() == 0 {
        0
    } else {
        le_num(s.drop_first()) * 256 + s.first() as nat
    }
}

pub open spec fn pow256(n: nat) -> nat
    decreases n,
{
    if n == 0 {
        1
    } else {
        256 * pow256((n - 1) as nat)
    }
}

pub proof fn lemma_be_num_bound(s: Seq<u8>)
    ensures
        be_num(s) < pow256(s.len()),
    decreases s.len(),
{
    if s.len() > 0 {
        lemma_be_num_bound(s.drop_last());
        assert(be_num(s.drop_last()) * 256 + (s.last() as nat) < pow256(s.drop_last().len()) * 256)
            by (nonlinear_arith)
            requires
                be_num(s.drop_last()) < pow256(s.drop_last().len()),
                s.last() < 256,
        ;
    }
}

pub proof fn lemma_le_num_bound(s: Seq<u8>)
    ensures
        le_num(s) < pow256(s.len()),
    decreases s.len(),
{
    if s.len() > 0 {
        lemma_le_num_bound(s.drop_first());
        assert(le_num(s.drop_first()) * 256 + (s.first() as nat) < pow256(s.drop_first().len())
            * 256) by (nonlinear_arith)
            requires
                le_num(s.drop_first()) < pow256(s.drop_first().len()),
                s.first() < 256,
        ;
    }
}

proof fn lemma_pow256_values()
    ensures
        pow256(4) == 0x1_0000_0000,
        pow256(7) == 0x100_0000_0000_0000,
        pow256(8) == 0x1_0000_0000_0000_0000,
{
    reveal_with_fuel(pow256, 9);
}

proof fn lemma_pow256_mono(a: nat, b: nat)
    requires
        a <= b,
    ensures
        pow256(a) <= pow256(b),
    decreases b,
{
    if a < b {
        lemma_pow256_mono(a, (b - 1) as nat);
    }
}

/// Reads `n <= 8` bytes of `data` at `pos` as a big-endian integer.
pub fn read_be(data: &[u8], pos: usize, n: usize) -> (r: u64)
    requires
        n <= 8,
        pos + n <= data@.len(),
    ensures
        r as nat == be_num(data@.subrange(pos as int, pos + n)),
{
    let mut val: u64 = 0;
    let mut i: usize = 0;
    while i < n
        invariant
            n <= 8,
            i <= n,
            pos + n <= data.len(),
            val as nat == be_num(data@.subrange(pos as int, pos + i)),
        decreases n - i,
    {
        let ghost prev = data@.subrange(pos as int, pos + i);
        let ghost next = data@.subrange(pos as int, pos + i + 1);
        proof {
            assert(next.drop_last() =~= prev);
            lemma_be_num_bound(prev);
            lemma_pow256_mono(i as nat, 7);
            lemma_pow256_values();
            assert(val < 0x100_0000_0000_0000);
        }
        val = val * 256 + data[pos + i] as u64;
        i += 1;
    }
    val
}

/// Reads `n <= 8` bytes of `data` at `pos` as a little-endian integer.
pub fn read_le(data: &[u8], pos: usize, n: usize) -> (r: u64)
    requires
        n <= 8,
        pos + n <= data@.len(),
    ensures
        r as nat == le_num(data@.subrange(pos as int, pos + n)),
{
    let mut val: u64 = 0;
    let mut i: usize = n;
    while i > 0
        invariant
            n <= 8,
            i <= n,
            pos + n <= data.len(),
            val as nat == le_num(data@.subrange(pos + i, pos + n)),
        decreases i,
    {
        let ghost prev = data@.subrange(pos + i, pos + n);
        let ghost next = data@.subrange(pos + i - 1, pos + n);
        proof {
            assert(next.drop_first() =~= prev);
            lemma_le_num_bound(prev);
            lemma_pow256_mono((n - i) as nat, 7);
            lemma_pow256_values();
            assert(val < 0x100_0000_0000_0000);
        }
        val = val * 256 + data[pos + i - 1] as u64;
        i -= 1;
    }
    val
}

// ---------------------------------------------------------------------------
// EBML variable-length integers
// ---------------------------------------------------------------------------

/// Encoded length of an EBML integer whose first byte is `b`: one more than
/// the number of leading zero bits of `b` (`b != 0`).
pub open spec fn vint_len(b: u8) -> nat {
    if b >= 128 {
        1
    } else if b >= 64 {
        2
    } else if b >= 32 {
        3
    } else if b >= 16 {
        4
    } else if b >= 8 {
        5
    } else if b >= 4 {
        6
    } else if b >= 2 {
        7
    } else {
        8
    }
}

/// The length-marker bit that `vint_len` found in the first byte.
pub open spec fn vint_marker(len: nat) -> nat {
    if len == 1 {
        128
    } else if len == 2 {
        64
    } else if len == 3 {
        32
    } else if len == 4 {
        16
    } else if len == 5 {
        8
    } else if len == 6 {
        4
    } else if len == 7 {
        2
    } else {
        1
    }
}

/// Value and byte length of the EBML variable-length integer at the start of
/// `d`, if it is complete.
pub open spec fn spec_ebml_vint(d: Seq<u8>) -> Option<(usize, usize)> {
    if d.len() == 0 || d[0] == 0 {
        None
    } else if d.len() < vint_len(d[0]) {
        None
    } else {
        let len = vint_len(d[0]);
        let first = (d[0] - vint_marker(len)) as u8;
        Some(
            (
                be_num(seq![first] + d.subrange(1, len as int)) as usize,
                len as usize,
            ),
        )
    }
}

/// Decode an EBML variable-length integer. Returns (value, bytes_consumed).
pub fn ebml_vint(data: &[u8]) -> (r: Option<(usize, usize)>)
    ensures
        r == spec_ebml_vint(data@),
{
    if data.len() == 0 {
        return None;
    }
    let first = data[0];
    if first == 0 {
        return None;
    }
    let (len, marker): (usize, u8) = if first >= 128 {
        (1, 128)
    } else if first >= 64 {
        (2, 64)
    } else if first >= 32 {
        (3, 32)
    } else if first >= 16 {
        (4, 16)
    } else if first >= 8 {
        (5, 8)
    } else if first >= 4 {
        (6, 4)
    } else if first >= 2 {
        (7, 2)
    } else {
        (8, 1)
    };
    if data.len() < len {
        return None;
    }
    let ghost d = data@;
    let ghost head: u8 = (first - marker) as u8;
    let mut val: u64 = (first - marker) as u64;
    let mut i: usize = 1;
    proof {
        assert((seq![head] + d.subrange(1, 1)).drop_last() =~= Seq::<u8>::empty());
        reveal_with_fuel(be_num, 2);
    }
    while i < len
        invariant
            1 <= i <= len,
            len == vint_len(first),
            len <= 8,
            len <= d.len(),
            d == data@,
            head < 128,
            head == first - marker,
            marker as nat == vint_marker(len as nat),
            val as nat == be_num(seq![head] + d.subrange(1, i as int)),
        decreases len - i,
    {
        let ghost prev = seq![head] + d.subrange(1, i as int);
        let ghost next = seq![head] + d.subrange(1, i + 1);
        proof {
            assert(next.drop_last() =~= prev);
            assert(next.last() == d[i as int]);
            lemma_be_num_bound(prev);
            lemma_pow256_mono(i as nat, 7);
            lemma_pow256_values();
        }
        val = val * 256 + data[i] as u64;
        i += 1;
    }
    proof {
        lemma_be_num_bound(seq![head] + d.subrange(1, len as int));
    }
    Some((val as usize, len))
}

// ---------------------------------------------------------------------------
// MP4 / MOV (ISO base media file format)
// ---------------------------------------------------------------------------

/// A duration as the exact quotient `num / den` seconds; `den > 0`.
#[derive(Debug, Clone, Copy, PartialEq, Eq)]
pub struct DurationRatio {
    pub num: u64,
    pub den: u64,
}

pub open spec fn fourcc(a: u8, b: u8, c: u8, d: u8) -> Seq<u8> {
    seq![a, b, c, d]
}

pub open spec fn moov() -> Seq<u8> {
    fourcc(0x6d, 0x6f, 0x6f, 0x76)
}

pub open spec fn mvhd() -> Seq<u8> {
    fourcc(0x6d, 0x76, 0x68, 0x64)
}

pub open spec fn trak() -> Seq<u8> {
    fourcc(0x74, 0x72, 0x61, 0x6b)
}

pub open spec fn udta() -> Seq<u8> {
    fourcc(0x75, 0x64, 0x74, 0x61)
}

/// Duration carried by an `mvhd` box body (after the 8-byte box header):
/// version 0 keeps a 32-bit timescale at offset 12 and a 32-bit duration at
/// offset 16; version 1 keeps the timescale at offset 20 and a 64-bit
/// duration at offset 24 (its creation and modification times are 64-bit).
pub open spec fn spec_mvhd_body(b: Seq<u8>) -> Option<DurationRatio> {
    if b.len() >= 20 && b[0] == 0 {
        let ts = be_num(b.subrange(12, 16));
        let dur = be_num(b.subrange(16, 20));
        if ts > 0 {
            Some(DurationRatio { num: dur as u64, den: ts as u64 })
        } else {
            None
        }
    } else if b.len() >= 32 && b[0] == 1 {
        let ts = be_num(b.subrange(20, 24));
        let dur = be_num(b.subrange(24, 32));
        if ts > 0 {
            Some(DurationRatio { num: dur as u64, den: ts as u64 })
        } else {
            None
        }
    } else {
        None
    }
}

/// Walk of the boxes inside `moov`, from offset `pos`, until `mvhd`. The
/// walk gives up at a `trak` or `udta` box, at a box whose size is below 8,
/// or when no further box header fits.
pub open spec fn spec_mvhd_scan(w: Seq<u8>, pos: int) -> Option<DurationRatio>
    decreases w.len() - pos,
{
    if pos + 8 > w.len() {
        None
    } else {
        let size = be_num(w.subrange(pos, pos + 4));
        let name = w.subrange(pos + 4, pos + 8);
        if size < 8 {
            None
        } else if name == mvhd() && pos + 8 < w.len() {
            spec_mvhd_body(w.subrange(pos + 8, w.len() as int))
        } else if name == trak() || name == udta() {
            None
        } else if pos + size <= w.len() {
            spec_mvhd_scan(w, pos + size)
        } else {
            None
        }
    }
}

/// Walk of the top-level boxes from offset `pos` until `moov`, whose content
/// (clipped to the data) is then searched for `mvhd`.
pub open spec fn spec_mp4_scan(d: Seq<u8>, pos: int) -> Option<DurationRatio>
    decreases d.len() - pos,
{
    if pos + 8 > d.len() {
        None
    } else {
        let size = be_num(d.subrange(pos, pos + 4));
        let name = d.subrange(pos + 4, pos + 8);
        if size < 8 {
            None
        } else if name == moov() {
            let end = if pos + size <= d.len() {
                pos + size
            } else {
                d.len() as int
            };
            spec_mvhd_scan(d.subrange(pos + 8, end), 0)
        } else if pos + size <= d.len() {
            spec_mp4_scan(d, pos + size)
        } else {
            None
        }
    }
}

fn fourcc_at(data: &[u8], pos: usize, a: u8, b: u8, c: u8, d: u8) -> (r: bool)
    requires
        pos + 4 <= data@.len(),
    ensures
        r == (data@.subrange(pos as int, pos + 4) == fourcc(a, b, c, d)),
{
    let r = data[pos] == a && data[pos + 1] == b && data[pos + 2] == c && data[pos + 3] == d;
    proof {
        if r {
            assert(data@.subrange(pos as int, pos + 4) =~= fourcc(a, b, c, d));
        } else if data@.subrange(pos as int, pos + 4) == fourcc(a, b, c, d) {
            assert(data@.subrange(pos as int, pos + 4)[0] == a);
            assert(data@.subrange(pos as int, pos + 4)[1] == b);
            assert(data@.subrange(pos as int, pos + 4)[2] == c);
            assert(data@.subrange(pos as int, pos + 4)[3] == d);
        }
    }
    r
}

/// `mvhd` body decoding on the window `data[lo..hi]`.
fn mvhd_body_at(data: &[u8], lo: usize, hi: usize) -> (r: Option<DurationRatio>)
    requires
        lo <= hi <= data@.len(),
    ensures
        r == spec_mvhd_body(data@.subrange(lo as int, hi as int)),
{
    let ghost b = data@.subrange(lo as int, hi as int);
    let len = hi - lo;
    if len >= 20 && data[lo] == 0 {
        let ts = read_be(data, lo + 12, 4);
        let dur = read_be(data, lo + 16, 4);
        proof {
            assert(b.subrange(12, 16) =~= data@.subrange(lo + 12, lo + 16));
            assert(b.subrange(16, 20) =~= data@.subrange(lo + 16, lo + 20));
        }
        if ts > 0 {
            Some(DurationRatio { num: dur, den: ts })
        } else {
            None
        }
    } else if len >= 32 && data[lo] == 1 {
        let ts = read_be(data, lo + 20, 4);
        let dur = read_be(data, lo + 24, 8);
        proof {
            assert(b.subrange(20, 24) =~= data@.subrange(lo + 20, lo + 24));
            assert(b.subrange(24, 32) =~= data@.subrange(lo + 24, lo + 32));
        }
        if ts > 0 {
            Some(DurationRatio { num: dur, den: ts })
        } else {
            None
        }
    } else {
        None
    }
}

/// Search for `mvhd` among the boxes of the window `data[lo..hi]`.
fn find_mvhd_in(data: &[u8], lo: usize, hi: usize) -> (r: Option<DurationRatio>)
    requires
        lo <= hi <= data@.len(),
    ensures
        r == spec_mvhd_scan(data@.subrange(lo as int, hi as int), 0),
{
    let ghost w = data@.subrange(lo as int, hi as int);
    let len = hi - lo;
    let mut pos: usize = 0;
    while len - pos >= 8
        invariant
            lo <= hi <= data@.len(),
            len == hi - lo,
            w == data@.subrange(lo as int, hi as int),
            pos <= len,
            spec_mvhd_scan(w, 0) == spec_mvhd_scan(w, pos as int),
        decreases len - pos,
    {
        let size = read_be(data, lo + pos, 4);
        proof {
            assert(w.subrange(pos as int, pos + 4) =~= data@.subrange(lo + pos, lo + pos + 4));
            assert(w.subrange(pos + 4, pos + 8) =~= data@.subrange(lo + pos + 4, lo + pos + 8));
        }
        if size < 8 {
            return None;
        }
        let is_mvhd = fourcc_at(data, lo + pos + 4, 0x6d, 0x76, 0x68, 0x64);
        if is_mvhd && pos + 8 < len {
            proof {
                assert(w.subrange(pos + 8, w.len() as int) =~= data@.subrange(
                    lo + pos + 8,
                    hi as int,
                ));
            }
            return mvhd_body_at(data, lo + pos + 8, hi);
        }
        let is_trak = fourcc_at(data, lo + pos + 4, 0x74, 0x72, 0x61, 0x6b);
        let is_udta = fourcc_at(data, lo + pos + 4, 0x75, 0x64, 0x74, 0x61);
        if is_trak || is_udta {
            return None;
        }
        if size > (len - pos) as u64 {
            return None;
        }
        pos = pos + size as usize;
    }
    None
}

/// Find the `mvhd` box among the boxes of a `moov` box's content and return
/// the movie duration it records.
pub fn find_mvhd(data: &[u8]) -> (r: Option<DurationRatio>)
    ensures
        r == spec_mvhd_scan(data@, 0),
{
    proof {
        assert(data@.subrange(0, data@.len() as int) =~= data@);
    }
    find_mvhd_in(data, 0, data.len())
}

/// Walk the top-level boxes of an MP4/MOV file head until `moov`, then
/// return the duration recorded in its `mvhd` box.
pub fn probe_mp4(data: &[u8]) -> (r: Option<DurationRatio>)
    ensures
        r == spec_mp4_scan(data@, 0),
{
    let len = data.len();
    let mut pos: usize = 0;
    while len - pos >= 8
        invariant
            len == data@.len(),
            pos <= len,
            spec_mp4_scan(data@, 0) == spec_mp4_scan(data@, pos as int),
        decreases len - pos,
    {
        let size = read_be(data, pos, 4);
        if size < 8 {
            return None;
        }
        if fourcc_at(data, pos + 4, 0x6d, 0x6f, 0x6f, 0x76) {
            let end: usize = if size <= (len - pos) as u64 {
                pos + size as usize
            } else {
                len
            };
            return find_mvhd_in(data, pos + 8, end);
        }
        if size > (len - pos) as u64 {
            return None;
        }
        pos = pos + size as usize;
    }
    None
}

proof fn lemma_mp4_shift(d: Seq<u8>, k: int, p: int)
    requires
        0 <= k <= p,
        k <= d.len(),
    ensures
        spec_mp4_scan(d, p) == spec_mp4_scan(d.subrange(k, d.len() as int), p - k),
    decreases d.len() - p,
{
    let e = d.subrange(k, d.len() as int);
    if p + 8 <= d.len() {
        assert(e.subrange(p - k, p - k + 4) =~= d.subrange(p, p + 4));
        assert(e.subrange(p - k + 4, p - k + 8) =~= d.subrange(p + 4, p + 8));
        let size = be_num(d.subrange(p, p + 4));
        if size >= 8 {
            let end = if p + size <= d.len() {
                p + size
            } else {
                d.len() as int
            };
            assert(e.subrange(p - k + 8, end - k) =~= d.subrange(p + 8, end));
            if p + size <= d.len() {
                lemma_mp4_shift(d, k, p + size);
            }
        }
    }
}

/// Reading an MP4 head: a top-level box other than `moov` that fits in the
/// data is skipped by its size, whatever its name (`ftyp`, `mdat`, `free`,
/// ...), so the duration found is the one found in the data after it.
pub proof fn lemma_mp4_skips_other_boxes(d: Seq<u8>)
    requires
        d.len() >= 8,
        8 <= be_num(d.subrange(0, 4)) <= d.len(),
        d.subrange(4, 8) != seq![0x6du8, 0x6fu8, 0x6fu8, 0x76u8],
    ensures
        spec_mp4_scan(d, 0) == spec_mp4_scan(
            d.subrange(be_num(d.subrange(0, 4)) as int, d.len() as int),
            0,
        ),
{
    let size = be_num(d.subrange(0, 4)) as int;
    assert(moov() =~= seq![0x6du8, 0x6fu8, 0x6fu8, 0x76u8]);
    lemma_mp4_shift(d, size, size);
}

/// Reading an MP4 head that starts with a `moov` box whose first child is
/// a version-0 `mvhd`: the duration is the `mvhd`'s 32-bit duration over
/// its 32-bit timescale (bytes 32..36 over bytes 28..32 of the data), when
/// the timescale is not 0.
pub proof fn lemma_mp4_moov_first(d: Seq<u8>)
    requires
        36 <= be_num(d.subrange(0, 4)) <= d.len(),
        d.subrange(4, 8) == seq![0x6du8, 0x6fu8, 0x6fu8, 0x76u8],
        be_num(d.subrange(8, 12)) >= 8,
        d.subrange(12, 16) == seq![0x6du8, 0x76u8, 0x68u8, 0x64u8],
        d[16] == 0,
        be_num(d.subrange(28, 32)) > 0,
    ensures
        spec_mp4_scan(d, 0) == Some(
            DurationRatio {
                num: be_num(d.subrange(32, 36)) as u64,
                den: be_num(d.subrange(28, 32)) as u64,
            },
        ),
{
    let size = be_num(d.subrange(0, 4)) as int;
    assert(moov() =~= seq![0x6du8, 0x6fu8, 0x6fu8, 0x76u8]);
    assert(mvhd() =~= seq![0x6du8, 0x76u8, 0x68u8, 0x64u8]);
    let w = d.subrange(8, size);
    assert(w.subrange(0, 4) =~= d.subrange(8, 12));
    assert(w.subrange(4, 8) =~= d.subrange(12, 16));
    let b = w.subrange(8, w.len() as int);
    assert(b[0] == d[16]);
    assert(b.subrange(12, 16) =~= d.subrange(28, 32));
    assert(b.subrange(16, 20) =~= d.subrange(32, 36));
}

// ---------------------------------------------------------------------------
// AVI
// ---------------------------------------------------------------------------

pub open spec fn riff() -> Seq<u8> {
    fourcc(0x52, 0x49, 0x46, 0x46)
}

pub open spec fn avi_form() -> Seq<u8> {
    fourcc(0x41, 0x56, 0x49, 0x20)
}

pub open spec fn avih() -> Seq<u8> {
    fourcc(0x61, 0x76, 0x69, 0x68)
}

pub open spec fn list_tag() -> Seq<u8> {
    fourcc(0x4C, 0x49, 0x53, 0x54)
}

/// Walk of the RIFF chunks from offset `i` until `avih`, entering `LIST`
/// chunks (past their 4-byte list type) so the `avih` inside `hdrl` is
/// reached; other chunks are skipped, padded to an even size. The duration
/// is `total_frames * us_per_frame` microseconds, read little-endian at
/// body offsets 16 and 0.
pub open spec fn spec_avi_scan(d: Seq<u8>, i: int) -> Option<DurationRatio>
    decreases d.len() - i,
{
    if i + 8 >= d.len() {
        None
    } else {
        let tag = d.subrange(i, i + 4);
        let size = le_num(d.subrange(i + 4, i + 8));
        if tag == avih() && i + 8 + 24 < d.len() {
            let us = le_num(d.subrange(i + 8, i + 12));
            let frames = le_num(d.subrange(i + 24, i + 28));
            if us > 0 && frames > 0 {
                Some(DurationRatio { num: (frames * us) as u64, den: 1_000_000 })
            } else {
                None
            }
        } else if tag == list_tag() {
            if i + 12 < d.len() {
                spec_avi_scan(d, i + 12)
            } else {
                None
            }
        } else {
            let step = 8 + size + size % 2;
            if i + step < d.len() {
                spec_avi_scan(d, i + step)
            } else {
                None
            }
        }
    }
}

pub open spec fn spec_probe_avi(d: Seq<u8>) -> Option<DurationRatio> {
    if d.len() < 32 || d.subrange(0, 4) != riff() || d.subrange(8, 12) != avi_form() {
        None
    } else {
        spec_avi_scan(d, 12)
    }
}

/// Parse the `avih` main header of an AVI file head.
pub fn probe_avi(data: &[u8]) -> (r: Option<DurationRatio>)
    ensures
        r == spec_probe_avi(data@),
{
    let len = data.len();
    if len < 32 || !fourcc_at(data, 0, 0x52, 0x49, 0x46, 0x46) || !fourcc_at(
        data,
        8,
        0x41,
        0x56,
        0x49,
        0x20,
    ) {
        return None;
    }
    let mut i: usize = 12;
    while len - i > 8
        invariant
            len == data@.len(),
            i <= len,
            spec_probe_avi(data@) == spec_avi_scan(data@, i as int),
        decreases len - i,
    {
        let size = read_le(data, i + 4, 4);
        proof {
            lemma_le_num_bound(data@.subrange(i + 4, i + 8));
            lemma_pow256_values();
        }
        if fourcc_at(data, i, 0x61, 0x76, 0x69, 0x68) && len - i > 32 {
            let us = read_le(data, i + 8, 4);
            let frames = read_le(data, i + 24, 4);
            if us > 0 && frames > 0 {
                proof {
                    lemma_le_num_bound(data@.subrange(i + 8, i + 12));
                    lemma_le_num_bound(data@.subrange(i + 24, i + 28));
                    lemma_pow256_values();
                    assert(frames * us <= 0xFFFF_FFFE_0000_0001) by (nonlinear_arith)
                        requires
                            frames <= 0xFFFF_FFFF,
                            us <= 0xFFFF_FFFF,
                    ;
                }
                return Some(DurationRatio { num: frames * us, den: 1_000_000 });
            }
            return None;
        }
        if fourcc_at(data, i, 0x4C, 0x49, 0x53, 0x54) {
            if len - i <= 20 {
                proof {
                    if i + 12 < len {
                        assert(spec_avi_scan(data@, i + 12) is None);
                    }
                }
                return None;
            }
            i = i + 12;
            continue;
        }
        let step: u64 = 8 + size + size % 2;
        if step >= (len - i) as u64 {
            return None;
        }
        i = i + step as usize;
    }
    None
}


// ---------------------------------------------------------------------------
// MKV / WebM (EBML)
// ---------------------------------------------------------------------------

/// Raw bits of the floating-point `Duration` element, in the width it was
/// stored with.
#[derive(Debug, Clone, Copy, PartialEq, Eq)]
pub enum MkvFloat {
    F64(u64),
    F32(u32),
}

/// What the header scan found: the `TimecodeScale` in nanoseconds per tick
/// (1_000_000 when absent) and the first positive `Duration`, in ticks.
#[derive(Debug, Clone, Copy, PartialEq, Eq)]
pub struct MkvHeader {
    pub timecode_scale: u64,
    pub duration: Option<MkvFloat>,
}

/// An IEEE 754 double with these bits compares greater than zero: positive
/// sign, not zero, not NaN (positive infinity counts).
pub open spec fn f64_bits_positive(b: u64) -> bool {
    0 < b && b <= 0x7FF0_0000_0000_0000
}

/// The same for a single-precision float.
pub open spec fn f32_bits_positive(b: u32) -> bool {
    0 < b && b <= 0x7F80_0000
}

/// Payload range `[start, end)` of the element whose size field starts at
/// `at`: the size is an EBML integer, and the range is clipped to the data.
pub open spec fn payload_range(d: Seq<u8>, at: int) -> Option<(int, int)> {
    match spec_ebml_vint(d.subrange(at, d.len() as int)) {
        None => None,
        Some((size, skip)) => {
            let start = at + skip;
            let end = if start + size <= d.len() {
                start + size
            } else {
                d.len() as int
            };
            Some((start, end))
        },
    }
}

/// `TimecodeScale` after looking at offset `i` (element ID 2A D7 B1).
pub open spec fn tcs_at(d: Seq<u8>, i: int, cur: u64) -> u64 {
    if i + 7 < d.len() && d[i] == 0x2A && d[i + 1] == 0xD7 && d[i + 2] == 0xB1 {
        match payload_range(d, i + 3) {
            Some((s, e)) => if e - s == 8 || e - s == 4 {
                be_num(d.subrange(s, e)) as u64
            } else {
                cur
            },
            None => cur,
        }
    } else {
        cur
    }
}

/// Positive `Duration` found at offset `i` (element ID 44 89), if any.
pub open spec fn dur_at(d: Seq<u8>, i: int) -> Option<MkvFloat> {
    if d[i] == 0x44 && d[i + 1] == 0x89 {
        match payload_range(d, i + 2) {
            Some((s, e)) => if e - s == 8 && f64_bits_positive(be_num(d.subrange(s, e)) as u64) {
                Some(MkvFloat::F64(be_num(d.subrange(s, e)) as u64))
            } else if e - s == 4 && f32_bits_positive(be_num(d.subrange(s, e)) as u32) {
                Some(MkvFloat::F32(be_num(d.subrange(s, e)) as u32))
            } else {
                None
            },
            None => None,
        }
    } else {
        None
    }
}

/// Byte-by-byte scan from offset `i` with the scale found so far; it stops
/// at the first positive `Duration`.
pub open spec fn spec_mkv_scan(d: Seq<u8>, i: int, tcs: u64) -> MkvHeader
    decreases d.len() - i,
{
    if i + 4 >= d.len() {
        MkvHeader { timecode_scale: tcs, duration: None }
    } else {
        let t = tcs_at(d, i, tcs);
        let du = dur_at(d, i);
        if du is Some {
            MkvHeader { timecode_scale: t, duration: du }
        } else {
            spec_mkv_scan(d, i + 1, t)
        }
    }
}

pub open spec fn spec_scan_mkv_header(d: Seq<u8>) -> MkvHeader {
    spec_mkv_scan(d, 0, 1_000_000)
}

fn payload_range_at(data: &[u8], at: usize) -> (r: Option<(usize, usize)>)
    requires
        at <= data@.len(),
    ensures
        match payload_range(data@, at as int) {
            None => r is None,
            Some((s, e)) => r == Some((s as usize, e as usize)) && at <= s <= e <= data@.len(),
        },
{
    let len = data.len();
    let tail = vstd::slice::slice_subrange(data, at, len);
    match ebml_vint(tail) {
        None => None,
        Some((size, skip)) => {
            let start = at + skip;
            let end = if size <= len - start {
                start + size
            } else {
                len
            };
            Some((start, end))
        },
    }
}

/// Scan the head of a Matroska/WebM file for `TimecodeScale` and the first
/// positive `Duration` element.
pub fn scan_mkv_header(data: &[u8]) -> (r: MkvHeader)
    ensures
        r == spec_scan_mkv_header(data@),
{
    let len = data.len();
    let mut tcs: u64 = 1_000_000;
    let mut i: usize = 0;
    while i < len && len - i > 4
        invariant
            len == data@.len(),
            i <= len,
            spec_scan_mkv_header(data@) == spec_mkv_scan(data@, i as int, tcs),
        decreases len - i,
    {
        let ghost d = data@;
        let ghost t_spec = tcs_at(d, i as int, tcs);
        if len - i > 7 && data[i] == 0x2A && data[i + 1] == 0xD7 && data[i + 2] == 0xB1 {
            match payload_range_at(data, i + 3) {
                Some((s, e)) => {
                    if e - s == 8 || e - s == 4 {
                        tcs = read_be(data, s, e - s);
                    }
                },
                None => {},
            }
        }
        assert(tcs == t_spec);
        if data[i] == 0x44 && data[i + 1] == 0x89 {
            match payload_range_at(data, i + 2) {
                Some((s, e)) => {
                    if e - s == 8 {
                        let b = read_be(data, s, 8);
                        if 0 < b && b <= 0x7FF0_0000_0000_0000 {
                            return MkvHeader { timecode_scale: tcs, duration: Some(MkvFloat::F64(b)) };
                        }
                    } else if e - s == 4 {
                        let b = read_be(data, s, 4);
                        proof {
                            lemma_be_num_bound(d.subrange(s as int, e as int));
                            lemma_pow256_values();
                        }
                        let b32 = b as u32;
                        if 0 < b32 && b32 <= 0x7F80_0000 {
                            return MkvHeader { timecode_scale: tcs, duration: Some(MkvFloat::F32(b32)) };
                        }
                    }
                },
                None => {},
            }
        }
        i += 1;
    }
    MkvHeader { timecode_scale: tcs, duration: None }
}

/// Cluster boundaries (element ID 1F 43 B6 75) in a window of the file that
/// starts at absolute offset `start`, with the cluster `Timecode` (element
/// ID E7, at most 8 bytes) found within 128 bytes after the cluster's size
/// field: each entry is (absolute offset of the cluster ID, timecode).
pub open spec fn cluster_at(b: Seq<u8>, i: int) -> bool {
    b[i] == 0x1F && b[i + 1] == 0x43 && b[i + 2] == 0xB6 && b[i + 3] == 0x75
}

/// Offset just past the cluster's size field.
pub open spec fn cluster_body(b: Seq<u8>, i: int) -> int {
    match spec_ebml_vint(b.subrange(i + 4, b.len() as int)) {
        Some((_, skip)) => i + 4 + skip,
        None => i + 4,
    }
}

/// Search for the timecode element from `j` up to `limit`; `None` when no
/// E7 byte is found, `Some(None)` when the first E7 byte does not start a
/// usable element, `Some(Some(v))` for a timecode `v`.
pub open spec fn timecode_search(b: Seq<u8>, j: int, limit: int) -> Option<Option<u64>>
    decreases limit - j,
{
    if j + 2 >= limit {
        None
    } else if b[j] == 0xE7 {
        match payload_range(b, j + 1) {
            Some((s, e)) => {
                let sz = (spec_ebml_vint(b.subrange(j + 1, b.len() as int))->Some_0).0;
                if sz <= 8 && e > s {
                    Some(Some(be_num(b.subrange(s, e)) as u64))
                } else {
                    Some(None)
                }
            },
            None => Some(None),
        }
    } else {
        timecode_search(b, j + 1, limit)
    }
}

pub open spec fn cluster_entry(b: Seq<u8>, start: u64, i: int) -> Option<(u64, u64)> {
    let j = cluster_body(b, i);
    let limit = if j + 128 <= b.len() {
        j + 128
    } else {
        b.len() as int
    };
    match timecode_search(b, j, limit) {
        Some(Some(v)) => Some(((start + i) as u64, v)),
        _ => None,
    }
}

pub open spec fn spec_scan_clusters(b: Seq<u8>, start: u64, i: int) -> Seq<(u64, u64)>
    decreases b.len() - i,
{
    if i + 4 >= b.len() || i < 0 {
        Seq::empty()
    } else {
        let here = if cluster_at(b, i) {
            match cluster_entry(b, start, i) {
                Some(e) => seq![e],
                None => Seq::empty(),
            }
        } else {
            Seq::empty()
        };
        here + spec_scan_clusters(b, start, i + 1)
    }
}


fn timecode_search_exec(buf: &[u8], j0: usize, limit: usize) -> (r: Option<Option<u64>>)
    requires
        j0 <= limit <= buf@.len(),
    ensures
        r == timecode_search(buf@, j0 as int, limit as int),
{
    let mut j = j0;
    while j < limit && limit - j > 2
        invariant
            j0 <= j <= limit <= buf@.len(),
            timecode_search(buf@, j0 as int, limit as int) == timecode_search(
                buf@,
                j as int,
                limit as int,
            ),
        decreases limit - j,
    {
        if buf[j] == 0xE7 {
            let tail = vstd::slice::slice_subrange(buf, j + 1, buf.len());
            let vi = ebml_vint(tail);
            match payload_range_at(buf, j + 1) {
                Some((s, e)) => {
                    let sz = vi.unwrap().0;
                    if sz <= 8 && e > s {
                        let n = e - s;
                        let v = if n <= 8 {
                            read_be(buf, s, n)
                        } else {
                            0
                        };
                        return Some(Some(v));
                    }
                    return Some(None);
                },
                None => {
                    return Some(None);
                },
            }
        }
        j += 1;
    }
    None
}

/// Cluster boundaries with their timecodes in a window of the file that
/// begins at absolute offset `start`.
pub fn scan_clusters(buf: &[u8], start: u64) -> (r: Vec<(u64, u64)>)
    requires
        start + buf@.len() <= u64::MAX,
    ensures
        r@ == spec_scan_clusters(buf@, start, 0),
{
    let len = buf.len();
    let mut out: Vec<(u64, u64)> = Vec::new();
    let mut i: usize = 0;
    while i < len && len - i > 4
        invariant
            len == buf@.len(),
            i <= len,
            start + len <= u64::MAX,
            out@ + spec_scan_clusters(buf@, start, i as int) == spec_scan_clusters(buf@, start, 0),
        decreases len - i,
    {
        let ghost b = buf@;
        let ghost before = out@;
        if buf[i] == 0x1F && buf[i + 1] == 0x43 && buf[i + 2] == 0xB6 && buf[i + 3] == 0x75 {
            let tail = vstd::slice::slice_subrange(buf, i + 4, len);
            let j = match ebml_vint(tail) {
                Some((_, skip)) => i + 4 + skip,
                None => i + 4,
            };
            let limit = if len - j >= 128 {
                j + 128
            } else {
                len
            };
            match timecode_search_exec(buf, j, limit) {
                Some(Some(v)) => {
                    out.push((start + i as u64, v));
                    proof {
                        assert(cluster_entry(b, start, i as int) == Some(((start + i) as u64, v)));
                    }
                },
                _ => {},
            }
        }
        proof {
            let here = if cluster_at(b, i as int) {
                match cluster_entry(b, start, i as int) {
                    Some(e) => seq![e],
                    None => Seq::<(u64, u64)>::empty(),
                }
            } else {
                Seq::<(u64, u64)>::empty()
            };
            assert(spec_scan_clusters(b, start, i as int) == here + spec_scan_clusters(
                b,
                start,
                i + 1,
            ));
            assert(out@ =~= before + here);
            assert(before + spec_scan_clusters(b, start, i as int) =~= out@ + spec_scan_clusters(
                b,
                start,
                i + 1,
            ));
        }
        i += 1;
    }
    proof {
        assert(spec_scan_clusters(buf@, start, i as int) =~= Seq::<(u64, u64)>::empty());
        assert(out@ + Seq::<(u64, u64)>::empty() =~= out@);
    }
    out
}


/// `k` is the first position holding the smallest timecode.
pub open spec fn is_first_min(s: Seq<(u64, u64)>, k: int) -> bool {
    &&& 0 <= k < s.len()
    &&& forall|j: int| 0 <= j < s.len() ==> s[k].1 <= #[trigger] s[j].1
    &&& forall|j: int| 0 <= j < k ==> s[k].1 < #[trigger] s[j].1
}

/// `k` is the last position holding the largest timecode.
pub open spec fn is_last_max(s: Seq<(u64, u64)>, k: int) -> bool {
    &&& 0 <= k < s.len()
    &&& forall|j: int| 0 <= j < s.len() ==> #[trigger] s[j].1 <= s[k].1
    &&& forall|j: int| k < j < s.len() ==> #[trigger] s[j].1 < s[k].1
}

/// The span that the byte-rate estimate uses: the earliest and the latest
/// cluster by timecode (ties resolved as a stable sort by timecode would:
/// the first of the smallest, the last of the largest). `None` with fewer
/// than two clusters, or when the latest is not strictly after the earliest
/// in both offset and timecode.
pub fn cluster_span(clusters: &Vec<(u64, u64)>) -> (r: Option<((u64, u64), (u64, u64))>)
    ensures
        clusters@.len() < 2 ==> r is None,
        clusters@.len() >= 2 ==> exists|k1: int, k2: int|
            #![trigger is_first_min(clusters@, k1), is_last_max(clusters@, k2)]
            is_first_min(clusters@, k1) && is_last_max(clusters@, k2) && r == (if clusters@[k2].0
                > clusters@[k1].0 && clusters@[k2].1 > clusters@[k1].1 {
                Some((clusters@[k1], clusters@[k2]))
            } else {
                None
            }),
{
    let n = clusters.len();
    if n < 2 {
        return None;
    }
    let ghost s = clusters@;
    let mut k1: usize = 0;
    let mut k2: usize = 0;
    let mut i: usize = 1;
    while i < n
        invariant
            n == s.len(),
            s == clusters@,
            1 <= i <= n,
            k1 < i,
            k2 < i,
            forall|j: int| 0 <= j < i ==> s[k1 as int].1 <= #[trigger] s[j].1,
            forall|j: int| 0 <= j < k1 ==> s[k1 as int].1 < #[trigger] s[j].1,
            forall|j: int| 0 <= j < i ==> #[trigger] s[j].1 <= s[k2 as int].1,
            forall|j: int| k2 < j < i ==> #[trigger] s[j].1 < s[k2 as int].1,
        decreases n - i,
    {
        if clusters[i].1 < clusters[k1].1 {
            k1 = i;
        }
        if clusters[i].1 >= clusters[k2].1 {
            k2 = i;
        }
        i += 1;
    }
    let first = clusters[k1];
    let last = clusters[k2];
    proof {
        assert(is_first_min(s, k1 as int));
        assert(is_last_max(s, k2 as int));
    }
    if last.0 <= first.0 || last.1 <= first.1 {
        None
    } else {
        Some((first, last))
    }
}

} // verus!
