//! ASN.1 DER encoding primitives: tag-length-value assembly, minimal
//! two's-complement integers, object identifiers, and calendar time
//! rendering for the two time types.

use crate::util::{dec_of, render_dec};
use vstd::prelude::*;

verus! {

/// The DER length octets for a content of `len` bytes: one byte short
/// form below 128, else a prefix byte and one or two length bytes
/// (a length of 65536 or more keeps only its low sixteen bits, as the
/// two-byte form can carry no more).
pub open spec fn length_bytes(len: int) -> Seq<u8>
    recommends
        len >= 0,
{
    if len < 128 {
        seq![len as u8]
    } else if len < 256 {
        seq![0x81u8, len as u8]
    } else {
        seq![0x82u8, ((len / 256) % 256) as u8, (len % 256) as u8]
    }
}

/// One tag-length-value unit.
pub open spec fn tlv(tag: u8, content: Seq<u8>) -> Seq<u8> {
    seq![tag] + length_bytes(content.len() as int) + content
}

/// Emits the DER length octets, exactly as `length_bytes` states.
pub fn encode_length(len: usize) -> (r: Vec<u8>)
    ensures
        r@ == length_bytes(len as int),
{
    if len < 128 {
        vec![len as u8]
    } else if len < 256 {
        vec![0x81u8, len as u8]
    } else {
        let r = vec![0x82u8, ((len / 256) % 256) as u8, (len % 256) as u8];
        proof {
            assert(r@ =~= length_bytes(len as int));
        }
        r
    }
}

/// Assembles one tag-length-value unit, exactly as `tlv` states.
pub fn build_tlv(tag: u8, content: &[u8]) -> (r: Vec<u8>)
    ensures
        r@ == tlv(tag, content@),
{
    let mut out: Vec<u8> = Vec::new();
    out.push(tag);
    let mut lb = encode_length(content.len());
    out.append(&mut lb);
    out.extend_from_slice(content);
    proof {
        assert(out@ =~= tlv(tag, content@));
    }
    out
}

/// The shortest big-endian two's-complement encoding of an integer.
pub open spec fn int_min_bytes(v: int) -> Seq<u8>
    decreases (if v < 0 {
        -v
    } else {
        v
    }),
{
    if -128 <= v < 128 {
        seq![(v % 256) as u8]
    } else {
        int_min_bytes(v / 256) + seq![(v % 256) as u8]
    }
}

fn int_min_bytes_exec(v: i64) -> (r: Vec<u8>)
    ensures
        r@ == int_min_bytes(v as int),
    decreases (if v < 0 {
        -(v as int)
    } else {
        v as int
    }),
{
    let low = match v.checked_rem_euclid(256) {
        Some(x) => x,
        None => 0,  // unreachable: the divisor is positive
    };
    if -128 <= v && v < 128 {
        vec![low as u8]
    } else {
        let hi = match v.checked_div_euclid(256) {
            Some(x) => x,
            None => 0,  // unreachable: the divisor is positive
        };
        let mut out = int_min_bytes_exec(hi);
        out.push(low as u8);
        out
    }
}

/// Encodes a signed integer as a DER INTEGER: tag 0x02 over the
/// shortest two's-complement form.
pub fn build_integer_i64(value: i64) -> (r: Vec<u8>)
    ensures
        r@ == tlv(0x02, int_min_bytes(value as int)),
{
    let content = int_min_bytes_exec(value);
    build_tlv(0x02, content.as_slice())
}

/// The INTEGER content for raw magnitude bytes: a leading zero is
/// added when the first byte would read as a sign bit.
pub open spec fn int_bytes_content(data: Seq<u8>) -> Seq<u8>
    recommends
        data.len() > 0,
{
    if data[0] >= 0x80 {
        seq![0u8] + data
    } else {
        data
    }
}

/// Encodes raw big-endian magnitude bytes as a DER INTEGER.
pub fn build_integer_bytes(data: &[u8]) -> (r: Vec<u8>)
    requires
        data@.len() > 0,
    ensures
        r@ == tlv(0x02, int_bytes_content(data@)),
{
    if data[0] >= 0x80 {
        let mut content: Vec<u8> = vec![0u8];
        content.extend_from_slice(data);
        proof {
            assert(content@ =~= int_bytes_content(data@));
        }
        build_tlv(0x02, content.as_slice())
    } else {
        build_tlv(0x02, data)
    }
}

/// Encodes a DER SEQUENCE over already-encoded content.
pub fn build_sequence(content: &[u8]) -> (r: Vec<u8>)
    ensures
        r@ == tlv(0x30, content@),
{
    build_tlv(0x30, content)
}

/// Encodes a DER SET over already-encoded content.
pub fn build_set(content: &[u8]) -> (r: Vec<u8>)
    ensures
        r@ == tlv(0x31, content@),
{
    build_tlv(0x31, content)
}

/// Encodes a DER BIT STRING with no unused bits.
pub fn build_bit_string(data: &[u8]) -> (r: Vec<u8>)
    ensures
        r@ == tlv(0x03, seq![0u8] + data@),
{
    let mut content: Vec<u8> = vec![0u8];
    content.extend_from_slice(data);
    proof {
        assert(content@ =~= seq![0u8] + data@);
    }
    build_tlv(0x03, content.as_slice())
}

/// Encodes a DER OCTET STRING.
pub fn build_octet_string(data: &[u8]) -> (r: Vec<u8>)
    ensures
        r@ == tlv(0x04, data@),
{
    build_tlv(0x04, data)
}

/// Encodes a DER BOOLEAN: 0xFF for true, 0x00 for false.
pub fn build_boolean(value: bool) -> (r: Vec<u8>)
    ensures
        r@ == tlv(0x01, seq![if value {
            0xffu8
        } else {
            0u8
        }]),
{
    let b: u8 = if value {
        0xff
    } else {
        0
    };
    let content = vec![b];
    build_tlv(0x01, content.as_slice())
}

/// Encodes a UTF8String from raw bytes.
pub fn build_utf8_string(s: &[u8]) -> (r: Vec<u8>)
    ensures
        r@ == tlv(0x0c, s@),
{
    build_tlv(0x0c, s)
}

/// Encodes a PrintableString from raw bytes.
pub fn build_printable_string(s: &[u8]) -> (r: Vec<u8>)
    ensures
        r@ == tlv(0x13, s@),
{
    build_tlv(0x13, s)
}

/// Encodes a context-specific constructed (explicit) tag.
pub fn build_explicit_tag(tag: u8, content: &[u8]) -> (r: Vec<u8>)
    ensures
        r@ == tlv(0xa0 | tag, content@),
{
    build_tlv(0xa0 | tag, content)
}

/// Encodes a context-specific primitive (implicit) tag.
pub fn build_implicit_tag(tag: u8, content: &[u8]) -> (r: Vec<u8>)
    ensures
        r@ == tlv(0x80 | tag, content@),
{
    build_tlv(0x80 | tag, content)
}

// ---------------------------------------------------------------------
// Object identifiers
// ---------------------------------------------------------------------
/// The continuation bytes of a base-128 component: seven value bits
/// each, the high bit set.
pub open spec fn oid_cont(u: int) -> Seq<u8>
    recommends
        u >= 0,
    decreases u,
{
    if u < 128 {
        seq![(u + 128) as u8]
    } else {
        oid_cont(u / 128) + seq![(u % 128 + 128) as u8]
    }
}

/// The base-128 encoding of one identifier component: big-endian
/// seven-bit groups, the high bit set on all but the last.
pub open spec fn oid_component_bytes(v: int) -> Seq<u8>
    recommends
        v >= 0,
{
    if v < 128 {
        seq![v as u8]
    } else {
        oid_cont(v / 128) + seq![(v % 128) as u8]
    }
}

fn oid_cont_exec(u: u32, out: &mut Vec<u8>)
    ensures
        final(out)@ == old(out)@ + oid_cont(u as int),
    decreases u,
{
    if u < 128 {
        out.push((u + 128) as u8);
        proof {
            assert(final(out)@ =~= old(out)@ + oid_cont(u as int));
        }
    } else {
        let ghost base = out@;
        oid_cont_exec(u / 128, out);
        out.push((u % 128 + 128) as u8);
        proof {
            assert(final(out)@ =~= base + oid_cont(u as int));
        }
    }
}

/// Appends the base-128 encoding of one identifier component, exactly
/// as `oid_component_bytes` states.
pub fn encode_oid_component(value: u32, out: &mut Vec<u8>)
    ensures
        final(out)@ == old(out)@ + oid_component_bytes(value as int),
{
    if value < 128 {
        out.push(value as u8);
        proof {
            assert(final(out)@ =~= old(out)@ + oid_component_bytes(value as int));
        }
    } else {
        let ghost base = out@;
        oid_cont_exec(value / 128, out);
        out.push((value % 128) as u8);
        proof {
            assert(final(out)@ =~= base + oid_component_bytes(value as int));
        }
    }
}

/// The encoded components from index `i` on.
pub open spec fn oid_rest(cs: Seq<u32>, i: int) -> Seq<u8>
    decreases cs.len() - i,
{
    if i < 0 || i >= cs.len() {
        Seq::empty()
    } else {
        oid_component_bytes(cs[i] as int) + oid_rest(cs, i + 1)
    }
}

/// The content of an OBJECT IDENTIFIER: the first two components
/// folded into one byte (forty times the first plus the second, kept
/// modulo 256), then each further component in base 128.
pub open spec fn oid_content(cs: Seq<u32>) -> Seq<u8>
    recommends
        cs.len() >= 2,
{
    seq![((cs[0] * 40 + cs[1]) % 256) as u8] + oid_rest(cs, 2)
}

/// Encodes a DER OBJECT IDENTIFIER, or nothing when fewer than two
/// components are given.
pub fn build_oid(components: &[u32]) -> (r: Option<Vec<u8>>)
    ensures
        components@.len() < 2 ==> r is None,
        components@.len() >= 2 ==> r is Some && r.unwrap()@ == tlv(
            0x06,
            oid_content(components@),
        ),
{
    if components.len() < 2 {
        return None;
    }
    let first: u64 = components[0] as u64 * 40 + components[1] as u64;
    let mut content: Vec<u8> = vec![(first % 256) as u8];
    proof {
        assert((components@[0] * 40 + components@[1]) % 256 == first as int % 256);
    }
    let mut i: usize = 2;
    while i < components.len()
        invariant
            2 <= i <= components@.len(),
            oid_content(components@) == content@ + oid_rest(components@, i as int),
        decreases components@.len() - i,
    {
        let ghost base = content@;
        encode_oid_component(components[i], &mut content);
        proof {
            assert(base + (oid_component_bytes(components@[i as int] as int) + oid_rest(
                components@,
                i + 1,
            )) =~= (base + oid_component_bytes(components@[i as int] as int)) + oid_rest(
                components@,
                i + 1,
            ));
        }
        i += 1;
    }
    proof {
        assert(oid_rest(components@, i as int) =~= Seq::<u8>::empty());
        assert(content@ + Seq::<u8>::empty() =~= content@);
    }
    Some(build_tlv(0x06, content.as_slice()))
}

// ---------------------------------------------------------------------
// Calendar time
// ---------------------------------------------------------------------
/// A calendar date and time of day.
pub struct CivilTime {
    pub year: int,
    pub month: int,
    pub day: int,
    pub hour: int,
    pub minute: int,
    pub second: int,
}

/// The proleptic Gregorian date and time of day of a Unix timestamp,
/// by the era-based day-count conversion: days are grouped into
/// 400-year eras of 146097 days, and the day of the era fixes the
/// year and the day of the March-based year, from which month and day
/// follow. All divisions are floor divisions.
pub open spec fn civil_from_unix(ts: int) -> CivilTime {
    let days = ts / 86400;
    let tod = ts % 86400;
    let z = days + 719468;
    let era = z / 146097;
    let doe = z % 146097;
    let yoe = (doe - doe / 1460 + doe / 36524 - doe / 146096) / 365;
    let doy = doe - (365 * yoe + yoe / 4 - yoe / 100);
    let mp = (5 * doy + 2) / 153;
    let d = doy - (153 * mp + 2) / 5 + 1;
    let m = if mp < 10 {
        mp + 3
    } else {
        mp - 9
    };
    let y = if m <= 2 {
        yoe + era * 400 + 1
    } else {
        yoe + era * 400
    };
    CivilTime {
        year: y,
        month: m,
        day: d,
        hour: tod / 3600,
        minute: (tod % 3600) / 60,
        second: tod % 60,
    }
}

fn div_euclid_i64(x: i64, d: i64) -> (r: i64)
    requires
        d > 0,
        i64::MIN as int <= x as int / d as int,
    ensures
        r == x as int / d as int,
{
    proof {
        if x >= 0 {
            vstd::arithmetic::div_mod::lemma_div_is_ordered_by_denominator(x as int, 1, d as int);
            vstd::arithmetic::div_mod::lemma_div_basics(x as int);
        } else {
            vstd::arithmetic::div_mod::lemma_div_is_ordered(x as int, 0, d as int);
            vstd::arithmetic::div_mod::lemma_div_of0(d as int);
        }
    }
    match x.checked_div_euclid(d) {
        Some(q) => q,
        None => 0,  // unreachable: the quotient is in range
    }
}

fn rem_euclid_i64(x: i64, d: i64) -> (r: i64)
    requires
        d > 0,
    ensures
        r == x as int % d as int,
{
    match x.checked_rem_euclid(d) {
        Some(q) => q,
        None => 0,  // unreachable: the divisor is positive
    }
}

/// Splits a Unix timestamp into calendar components, exactly as
/// `civil_from_unix` states: year, month, day, hour, minute, second.
pub fn unix_to_components(ts: i64) -> (r: (i64, i64, i64, i64, i64, i64))
    ensures
        ({
            let c = civil_from_unix(ts as int);
            &&& r.0 == c.year
            &&& r.1 == c.month
            &&& r.2 == c.day
            &&& r.3 == c.hour
            &&& r.4 == c.minute
            &&& r.5 == c.second
        }),
        r.0 > i64::MIN,
        r.1 > i64::MIN,
        r.2 > i64::MIN,
        r.3 >= 0,
        r.4 >= 0,
        r.5 >= 0,
{
    let days = div_euclid_i64(ts, 86400);
    let tod = rem_euclid_i64(ts, 86400);
    let z = days + 719468;
    let era = div_euclid_i64(z, 146097);
    let doe = rem_euclid_i64(z, 146097);
    proof {
        vstd::arithmetic::div_mod::lemma_div_is_ordered_by_denominator(doe as int, 1, 1460);
        vstd::arithmetic::div_mod::lemma_div_is_ordered_by_denominator(doe as int, 36524, 146096);
        vstd::arithmetic::div_mod::lemma_div_pos_is_pos(doe as int, 1460);
        vstd::arithmetic::div_mod::lemma_div_pos_is_pos(doe as int, 36524);
        vstd::arithmetic::div_mod::lemma_div_pos_is_pos(doe as int, 146096);
        vstd::arithmetic::div_mod::lemma_div_is_ordered_by_denominator(doe as int, 1, 1);
    }
    let yoe_num = doe - doe / 1460 + doe / 36524 - doe / 146096;
    let yoe = yoe_num / 365;
    proof {
        vstd::arithmetic::div_mod::lemma_div_pos_is_pos(yoe_num as int, 365);
        vstd::arithmetic::div_mod::lemma_div_is_ordered(yoe_num as int, 146100, 365);
        vstd::arithmetic::div_mod::lemma_div_pos_is_pos(yoe as int, 4);
        vstd::arithmetic::div_mod::lemma_div_pos_is_pos(yoe as int, 100);
        vstd::arithmetic::div_mod::lemma_div_is_ordered(yoe as int, 401, 4);
        vstd::arithmetic::div_mod::lemma_div_is_ordered(yoe as int, 401, 100);
    }
    let doy = doe - (365 * yoe + yoe / 4 - yoe / 100);
    let mp = div_euclid_i64(5 * doy + 2, 153);
    proof {
        vstd::arithmetic::div_mod::lemma_div_is_ordered(5 * doy as int + 2, 731000, 153);
        vstd::arithmetic::div_mod::lemma_div_is_ordered(-731000, 5 * doy as int + 2, 153);
    }
    let d = doy - div_euclid_i64(153 * mp + 2, 5) + 1;
    let m = if mp < 10 {
        mp + 3
    } else {
        mp - 9
    };
    let y = if m <= 2 {
        yoe + era * 400 + 1
    } else {
        yoe + era * 400
    };
    let hour = tod / 3600;
    let minute = (tod % 3600) / 60;
    let second = tod % 60;
    (y, m, d, hour, minute, second)
}

/// `n` ASCII zero digits.
pub open spec fn zeros(n: int) -> Seq<u8>
    decreases n,
{
    if n <= 0 {
        Seq::empty()
    } else {
        zeros(n - 1) + seq![48u8]
    }
}

/// `s` left-padded with zero digits to at least `w` bytes.
pub open spec fn zfill(s: Seq<u8>, w: int) -> Seq<u8> {
    if s.len() >= w {
        s
    } else {
        zeros(w - s.len()) + s
    }
}

/// Sign-aware zero-padded decimal: a minus sign counts toward the
/// total width, and padding goes between the sign and the digits.
pub open spec fn pad_dec(v: int, w: int) -> Seq<u8> {
    if v < 0 {
        seq![45u8] + zfill(dec_of((-v) as nat), w - 1)
    } else {
        zfill(dec_of(v as nat), w)
    }
}

/// The remainder as Rust's `%` computes it: the sign follows the
/// dividend.
pub open spec fn trunc_rem(v: int, d: int) -> int
    recommends
        d > 0,
{
    if v >= 0 {
        v % d
    } else {
        -((-v) % d)
    }
}

fn rem_trunc_i64(x: i64, d: i64) -> (r: i64)
    requires
        d > 0,
    ensures
        r == trunc_rem(x as int, d as int),
{
    match x.checked_rem(d) {
        Some(q) => q,
        None => 0,  // unreachable: the divisor is positive
    }
}

/// Renders `v` in decimal, zero-padded to `width`, exactly as
/// `pad_dec` states.
fn render_dec_pad(v: i64, width: usize) -> (r: Vec<u8>)
    requires
        v > i64::MIN,
    ensures
        r@ == pad_dec(v as int, width as int),
{
    let neg = v < 0;
    let mag: u64 = if neg {
        (-v) as u64
    } else {
        v as u64
    };
    let digits = render_dec(mag);
    let goal: usize = if neg && width >= 1 {
        width - 1
    } else {
        width
    };
    let mut out: Vec<u8> = Vec::new();
    if neg {
        out.push(45);
    }
    let ghost sign_part = out@;
    let mut k: usize = 0;
    let pad_n: usize = if digits.len() < goal {
        goal - digits.len()
    } else {
        0
    };
    while k < pad_n
        invariant
            0 <= k <= pad_n,
            out@ == sign_part + zeros(k as int),
        decreases pad_n - k,
    {
        out.push(48);
        proof {
            assert(sign_part + zeros(k as int) + seq![48u8] =~= sign_part + zeros(k + 1));
        }
        k += 1;
    }
    out.extend_from_slice(digits.as_slice());
    proof {
        if pad_n == 0 {
            assert(zeros(0) =~= Seq::<u8>::empty());
        }
        assert(out@ =~= pad_dec(v as int, width as int));
    }
    out
}

/// The content of a UTCTime value: the year modulo 100 and the other
/// five components, each two zero-padded decimal digits, then `Z`.
pub open spec fn utc_time_content(ts: int) -> Seq<u8> {
    let c = civil_from_unix(ts);
    pad_dec(trunc_rem(c.year, 100), 2) + pad_dec(c.month, 2) + pad_dec(c.day, 2) + pad_dec(
        c.hour,
        2,
    ) + pad_dec(c.minute, 2) + pad_dec(c.second, 2) + seq![90u8]
}

/// The content of a GeneralizedTime value: the full four-digit year,
/// the other five components in two digits each, then `Z`.
pub open spec fn generalized_time_content(ts: int) -> Seq<u8> {
    let c = civil_from_unix(ts);
    pad_dec(c.year, 4) + pad_dec(c.month, 2) + pad_dec(c.day, 2) + pad_dec(c.hour, 2) + pad_dec(
        c.minute,
        2,
    ) + pad_dec(c.second, 2) + seq![90u8]
}

/// Encodes a DER UTCTime for a Unix timestamp.
pub fn build_utc_time(ts: i64) -> (r: Vec<u8>)
    ensures
        r@ == tlv(0x17, utc_time_content(ts as int)),
{
    let (y, mo, d, h, mi, s) = unix_to_components(ts);
    let ym = rem_trunc_i64(y, 100);
    let mut content = render_dec_pad(ym, 2);
    let mut p1 = render_dec_pad(mo, 2);
    content.append(&mut p1);
    let mut p2 = render_dec_pad(d, 2);
    content.append(&mut p2);
    let mut p3 = render_dec_pad(h, 2);
    content.append(&mut p3);
    let mut p4 = render_dec_pad(mi, 2);
    content.append(&mut p4);
    let mut p5 = render_dec_pad(s, 2);
    content.append(&mut p5);
    content.push(90);
    proof {
        assert(content@ =~= utc_time_content(ts as int));
    }
    build_tlv(0x17, content.as_slice())
}

/// Encodes a DER GeneralizedTime for a Unix timestamp.
pub fn build_generalized_time(ts: i64) -> (r: Vec<u8>)
    ensures
        r@ == tlv(0x18, generalized_time_content(ts as int)),
{
    let (y, mo, d, h, mi, s) = unix_to_components(ts);
    let mut content = render_dec_pad(y, 4);
    let mut p1 = render_dec_pad(mo, 2);
    content.append(&mut p1);
    let mut p2 = render_dec_pad(d, 2);
    content.append(&mut p2);
    let mut p3 = render_dec_pad(h, 2);
    content.append(&mut p3);
    let mut p4 = render_dec_pad(mi, 2);
    content.append(&mut p4);
    let mut p5 = render_dec_pad(s, 2);
    content.append(&mut p5);
    content.push(90);
    proof {
        assert(content@ =~= generalized_time_content(ts as int));
    }
    build_tlv(0x18, content.as_slice())
}

} // verus!
