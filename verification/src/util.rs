//! Shared byte-level helpers: big-endian integer reads, decimal and
//! hexadecimal rendering, ASCII case-insensitive comparison, and a
//! UTF-8 validity check.

use vstd::prelude::*;
use vstd::utf8::*;

verus! {

/// The 16-bit big-endian integer stored at index `i` of `data`.
pub open spec fn be16(data: Seq<u8>, i: int) -> u16
    recommends
        0 <= i,
        i + 2 <= data.len(),
{
    (data[i] * 256 + data[i + 1]) as u16
}

/// The 32-bit big-endian integer stored at index `i` of `data`.
pub open spec fn be32(data: Seq<u8>, i: int) -> u32
    recommends
        0 <= i,
        i + 4 <= data.len(),
{
    (data[i] * 0x1000000 + data[i + 1] * 0x10000 + data[i + 2] * 0x100 + data[i + 3]) as u32
}

/// Reads the 16-bit big-endian integer at index `i`.
pub fn read_be16(data: &[u8], i: usize) -> (r: u16)
    requires
        i + 2 <= data@.len(),
    ensures
        r == be16(data@, i as int),
{
    data[i] as u16 * 256 + data[i + 1] as u16
}

/// Reads the 32-bit big-endian integer at index `i`.
pub fn read_be32(data: &[u8], i: usize) -> (r: u32)
    requires
        i + 4 <= data@.len(),
    ensures
        r == be32(data@, i as int),
{
    data[i] as u32 * 0x1000000 + data[i + 1] as u32 * 0x10000 + data[i + 2] as u32 * 0x100
        + data[i + 3] as u32
}

/// The ASCII decimal rendering of `n`, without leading zeros
/// (a single `'0'` for zero).
pub open spec fn dec_of(n: nat) -> Seq<u8>
    decreases n,
{
    if n < 10 {
        seq![(48 + n) as u8]
    } else {
        dec_of(n / 10).push((48 + n % 10) as u8)
    }
}

/// Renders `n` in ASCII decimal.
pub fn render_dec(n: u64) -> (r: Vec<u8>)
    ensures
        r@ == dec_of(n as nat),
    decreases n,
{
    if n < 10 {
        vec![48 + n as u8]
    } else {
        let mut v = render_dec(n / 10);
        v.push(48 + (n % 10) as u8);
        v
    }
}

/// The lowercase hexadecimal digit for `n < 16`.
pub open spec fn hex_digit(n: int) -> u8
    recommends
        0 <= n < 16,
{
    if n < 10 {
        (48 + n) as u8
    } else {
        (87 + n) as u8
    }
}

/// The lowercase hexadecimal rendering of `n`, without leading zeros.
pub open spec fn hex_of(n: nat) -> Seq<u8>
    decreases n,
{
    if n < 16 {
        seq![hex_digit(n as int)]
    } else {
        hex_of(n / 16).push(hex_digit((n % 16) as int))
    }
}

pub fn hex_digit_exec(n: u16) -> (r: u8)
    requires
        n < 16,
    ensures
        r == hex_digit(n as int),
{
    if n < 10 {
        48 + n as u8
    } else {
        87 + n as u8
    }
}

/// Renders `n` in lowercase hexadecimal, without leading zeros.
pub fn render_hex(n: u16) -> (r: Vec<u8>)
    ensures
        r@ == hex_of(n as nat),
    decreases n,
{
    if n < 16 {
        vec![hex_digit_exec(n)]
    } else {
        let mut v = render_hex(n / 16);
        v.push(hex_digit_exec(n % 16));
        v
    }
}

/// The two-digit lowercase hexadecimal rendering of one byte.
pub open spec fn hex_byte(b: u8) -> Seq<u8> {
    seq![hex_digit(b as int / 16), hex_digit(b as int % 16)]
}

/// The lowercase hexadecimal dump of a byte sequence, two digits per byte.
pub open spec fn hex_dump(data: Seq<u8>) -> Seq<u8>
    decreases data.len(),
{
    if data.len() == 0 {
        Seq::empty()
    } else {
        hex_dump(data.drop_last()) + hex_byte(data.last())
    }
}

/// The ASCII lowercase form of one byte.
pub open spec fn to_lower(c: u8) -> u8 {
    if 65 <= c <= 90 {
        (c + 32) as u8
    } else {
        c
    }
}

/// ASCII case-insensitive equality of two byte sequences.
pub open spec fn eq_ignore_case(a: Seq<u8>, b: Seq<u8>) -> bool {
    a.len() == b.len() && forall|i: int| 0 <= i < a.len() ==> to_lower(a[i]) == to_lower(b[i])
}

/// Compares two byte slices ignoring ASCII case.
pub fn eq_ignore_case_exec(a: &[u8], b: &[u8]) -> (r: bool)
    ensures
        r == eq_ignore_case(a@, b@),
{
    if a.len() != b.len() {
        return false;
    }
    let mut i: usize = 0;
    while i < a.len()
        invariant
            0 <= i <= a@.len(),
            a@.len() == b@.len(),
            forall|j: int| 0 <= j < i ==> to_lower(a@[j]) == to_lower(b@[j]),
        decreases a@.len() - i,
    {
        let ca = if 65 <= a[i] && a[i] <= 90 {
            a[i] + 32
        } else {
            a[i]
        };
        let cb = if 65 <= b[i] && b[i] <= 90 {
            b[i] + 32
        } else {
            b[i]
        };
        if ca != cb {
            return false;
        }
        i += 1;
    }
    true
}

/// Checks that `data` is a valid UTF-8 encoding, in the sense of
/// `vstd::utf8::valid_utf8`.
pub fn is_valid_utf8(data: &[u8]) -> (r: bool)
    ensures
        r == valid_utf8(data@),
{
    let n = data.len();
    let mut i: usize = 0;
    proof {
        assert(data@.skip(0) =~= data@);
    }
    while i < n
        invariant
            0 <= i <= n,
            n == data@.len(),
            valid_utf8(data@) == valid_utf8(data@.skip(i as int)),
        decreases n - i,
    {
        let ghost suffix = data@.skip(i as int);
        let b0 = data[i];
        assert(suffix[0] == b0);
        let width: usize;
        let cp: u32;
        if b0 < 0x80 {
            width = 1;
            cp = (b0 & 0x7f) as u32;
        } else if b0 < 0xc0 {
            // a bare continuation byte cannot lead an encoding
            return false;
        } else if b0 < 0xe0 {
            if n - i < 2 || data[i + 1] < 0x80 || data[i + 1] > 0xbf {
                return false;
            }
            width = 2;
            cp = (((b0 & 0x1f) as u32) << 6u32) | ((data[i + 1] & 0x3f) as u32);
            if cp < 0x80 {
                return false;
            }
        } else if b0 < 0xf0 {
            if n - i < 3 || data[i + 1] < 0x80 || data[i + 1] > 0xbf || data[i + 2] < 0x80
                || data[i + 2] > 0xbf {
                return false;
            }
            width = 3;
            cp = (((b0 & 0x0f) as u32) << 12u32) | (((data[i + 1] & 0x3f) as u32) << 6u32) | ((
            data[i + 2] & 0x3f) as u32);
            if cp < 0x800 {
                return false;
            }
        } else if b0 < 0xf8 {
            if n - i < 4 || data[i + 1] < 0x80 || data[i + 1] > 0xbf || data[i + 2] < 0x80
                || data[i + 2] > 0xbf || data[i + 3] < 0x80 || data[i + 3] > 0xbf {
                return false;
            }
            width = 4;
            cp = (((b0 & 0x07) as u32) << 18u32) | (((data[i + 1] & 0x3f) as u32) << 12u32) | (((
            data[i + 2] & 0x3f) as u32) << 6u32) | ((data[i + 3] & 0x3f) as u32);
            if cp < 0x10000 || cp > 0x10ffff {
                return false;
            }
        } else {
            return false;
        }
        if 0xd800 <= cp && cp <= 0xdfff {
            return false;
        }
        proof {
            assert(valid_first_scalar(suffix));
            assert(length_of_first_scalar(suffix) == width);
            assert(pop_first_scalar(suffix) =~= data@.skip(i + width as int));
        }
        i += width;
    }
    assert(data@.skip(i as int) =~= Seq::<u8>::empty());
    true
}

} // verus!
