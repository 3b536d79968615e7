//! DNS wire-format decoding and encoding (RFC 1035).
//!
//! Names on the wire are length-prefixed labels terminated by a zero
//! byte, or a two-byte compression pointer (top two bits of the length
//! byte set) redirecting decoding to an absolute offset in the same
//! message. Decoding follows at most ten pointer jumps; an eleventh
//! fails, which bounds the work on crafted cyclic input.

use crate::util::{be16, be32, dec_of, hex_byte, hex_dump, hex_of, is_valid_utf8, read_be16, read_be32, render_dec, render_hex};
use vstd::prelude::*;
use vstd::utf8::valid_utf8;

verus! {

/// How many compression-pointer jumps a single name may follow.
pub const MAX_JUMPS: u8 = 10;

/// The labels of the name encoded at `pos`, with the end offset of the
/// name's first segment (the position right after the first zero byte
/// or pointer encountered, before any jump is taken).
///
/// `None` is a malformed name: an out-of-bounds read, a label longer
/// than 63 bytes, a label that is not valid UTF-8, or a pointer found
/// when the jump budget `jumps_left` is exhausted.
pub open spec fn decode_labels(data: Seq<u8>, pos: int, jumps_left: int) -> Option<
    (Seq<Seq<u8>>, int),
>
    decreases jumps_left, data.len() - pos,
{
    if pos < 0 || pos >= data.len() {
        None
    } else {
        let len = data[pos] as int;
        if len == 0 {
            Some((Seq::empty(), pos + 1))
        } else if len >= 0xc0 {
            if pos + 1 >= data.len() {
                None
            } else if jumps_left <= 0 {
                None
            } else {
                let tgt = (len - 0xc0) * 256 + data[pos + 1];
                if tgt >= data.len() {
                    None
                } else {
                    match decode_labels(data, tgt, jumps_left - 1) {
                        None => None,
                        Some(p) => Some((p.0, pos + 2)),
                    }
                }
            }
        } else if len > 63 {
            None
        } else if pos + 1 + len > data.len() {
            None
        } else {
            let lab = data.subrange(pos + 1, pos + 1 + len);
            if !valid_utf8(lab) {
                None
            } else {
                match decode_labels(data, pos + 1 + len, jumps_left) {
                    None => None,
                    Some(p) => Some((seq![lab] + p.0, p.1)),
                }
            }
        }
    }
}

/// Labels joined with `'.'`; a name with no labels renders as `"."`.
pub open spec fn join_labels(ls: Seq<Seq<u8>>) -> Seq<u8>
    decreases ls.len(),
{
    if ls.len() == 0 {
        seq![46u8]
    } else if ls.len() == 1 {
        ls[0]
    } else {
        ls[0] + seq![46u8] + join_labels(ls.drop_first())
    }
}

/// The dotted name decoded at `pos`, and the end offset of the name's
/// first segment, or `None` if the name is malformed.
pub open spec fn name_at(data: Seq<u8>, pos: int) -> Option<(Seq<u8>, int)> {
    match decode_labels(data, pos, MAX_JUMPS as int) {
        None => None,
        Some(p) => Some((join_labels(p.0), p.1)),
    }
}

/// Continuing a partially decoded name: labels `acc` already read,
/// decoding resumes at `pos` with `jl` jumps left, and the first
/// segment's end is `end0` if a pointer was already followed.
spec fn resume_name(
    data: Seq<u8>,
    pos: int,
    jl: int,
    acc: Seq<Seq<u8>>,
    jumped: bool,
    end0: int,
) -> Option<(Seq<Seq<u8>>, int)> {
    match decode_labels(data, pos, jl) {
        None => None,
        Some(p) => Some((acc + p.0, if jumped { end0 } else { p.1 })),
    }
}

proof fn lemma_join_take_succ(ls: Seq<Seq<u8>>, i: int)
    requires
        1 <= i < ls.len(),
    ensures
        join_labels(ls.take(i + 1)) == join_labels(ls.take(i)) + seq![46u8] + ls[i],
    decreases i,
{
    if i == 1 {
        assert(ls.take(2).drop_first() =~= seq![ls[1]]);
        assert(ls.take(1) =~= seq![ls[0]]);
        assert(join_labels(seq![ls[1]]) == ls[1]);
        assert(ls.take(2)[0] == ls[0]);
        assert(join_labels(ls.take(2)) == ls[0] + seq![46u8] + ls[1]);
    } else {
        let dl = ls.drop_first();
        lemma_join_take_succ(dl, i - 1);
        assert(ls.take(i + 1).drop_first() =~= dl.take(i));
        assert(ls.take(i).drop_first() =~= dl.take(i - 1));
        assert(join_labels(ls.take(i + 1)) == ls[0] + seq![46u8] + join_labels(dl.take(i)));
        assert(join_labels(ls.take(i)) == ls[0] + seq![46u8] + join_labels(dl.take(i - 1)));
        assert((ls[0] + seq![46u8] + (join_labels(dl.take(i - 1)) + seq![46u8] + dl[i - 1])) =~= (
        ls[0] + seq![46u8] + join_labels(dl.take(i - 1))) + seq![46u8] + ls[i]);
    }
}

/// Joins decoded labels with `'.'`, rendering an empty label list as `"."`.
fn join_labels_exec(labels: &Vec<Vec<u8>>) -> (r: Vec<u8>)
    ensures
        r@ == join_labels(labels.deep_view()),
{
    let ghost ls = labels.deep_view();
    if labels.len() == 0 {
        assert(ls.len() == 0);
        return vec![46u8];
    }
    let mut out: Vec<u8> = Vec::new();
    out.extend_from_slice(labels[0].as_slice());
    assert(ls.take(1) =~= seq![ls[0]]);
    assert(out@ == join_labels(ls.take(1)));
    let mut i: usize = 1;
    while i < labels.len()
        invariant
            1 <= i <= labels@.len(),
            ls == labels.deep_view(),
            ls.len() == labels@.len(),
            out@ == join_labels(ls.take(i as int)),
        decreases labels@.len() - i,
    {
        out.push(46);
        out.extend_from_slice(labels[i].as_slice());
        proof {
            lemma_join_take_succ(ls, i as int);
            assert(labels@[i as int].deep_view() == ls[i as int]);
        }
        i += 1;
    }
    assert(ls.take(ls.len() as int) =~= ls);
    out
}

/// Decodes the name at `offset`, returning the dotted name and the end
/// offset of the name's first segment, exactly as `name_at` states.
pub fn parse_name(data: &[u8], offset: usize) -> (r: Option<(Vec<u8>, usize)>)
    ensures
        match name_at(data@, offset as int) {
            None => r is None,
            Some(p) => {
                &&& r is Some
                &&& r.unwrap().0@ == p.0
                &&& r.unwrap().1 as int == p.1
            },
        },
{
    let mut labels: Vec<Vec<u8>> = Vec::new();
    let mut pos = offset;
    let mut end_pos: usize = 0;
    let mut jumped = false;
    let mut jumps_left: u8 = MAX_JUMPS;
    loop
        invariant
            pos <= usize::MAX,
            jumps_left <= MAX_JUMPS,
            decode_labels(data@, offset as int, MAX_JUMPS as int) == resume_name(
                data@,
                pos as int,
                jumps_left as int,
                labels.deep_view(),
                jumped,
                end_pos as int,
            ),
            jumped ==> end_pos <= data@.len(),
        decreases jumps_left, data@.len() - pos,
    {
        if pos >= data.len() {
            return None;
        }
        let len_b = data[pos];
        if len_b == 0 {
            let e = if jumped {
                end_pos
            } else {
                pos + 1
            };
            proof {
                assert(labels.deep_view() + Seq::<Seq<u8>>::empty() =~= labels.deep_view());
            }
            let name = join_labels_exec(&labels);
            return Some((name, e));
        }
        if len_b >= 0xc0 {
            if pos + 1 >= data.len() {
                return None;
            }
            if jumps_left == 0 {
                return None;
            }
            let tgt = ((len_b - 0xc0) as usize) * 256 + data[pos + 1] as usize;
            if !jumped {
                end_pos = pos + 2;
                jumped = true;
            }
            if tgt >= data.len() {
                return None;
            }
            pos = tgt;
            jumps_left -= 1;
        } else if len_b > 63 {
            return None;
        } else if data.len() - pos - 1 < len_b as usize {
            return None;
        } else {
            let lab_slice = vstd::slice::slice_subrange(data, pos + 1, pos + 1 + len_b as usize);
            if !is_valid_utf8(lab_slice) {
                return None;
            }
            let mut lab: Vec<u8> = Vec::new();
            lab.extend_from_slice(lab_slice);
            let ghost old_acc = labels.deep_view();
            let ghost lab_spec = data@.subrange(pos + 1, pos + 1 + len_b as int);
            labels.push(lab);
            proof {
                assert(lab.deep_view() =~= lab_spec);
                assert(labels.deep_view() =~~= old_acc + seq![lab_spec]);
                match decode_labels(data@, pos + 1 + len_b as int, jumps_left as int) {
                    None => {},
                    Some(p) => {
                        assert(old_acc + (seq![lab_spec] + p.0) =~= (old_acc + seq![lab_spec])
                            + p.0);
                    },
                }
            }
            pos = pos + 1 + len_b as usize;
        }
    }
}

/// Index of the first `'.'` in `s`, or `s.len()` if there is none.
pub open spec fn first_dot(s: Seq<u8>) -> nat
    decreases s.len(),
{
    if s.len() == 0 {
        0
    } else if s[0] == 46 {
        0
    } else {
        1 + first_dot(s.drop_first())
    }
}

/// `s` split on `'.'`, keeping empty components.
pub open spec fn split_dots(s: Seq<u8>) -> Seq<Seq<u8>>
    decreases s.len(),
{
    let i = first_dot(s) as int;
    if i >= s.len() {
        seq![s]
    } else {
        seq![s.take(i)] + split_dots(s.subrange(i + 1, s.len() as int))
    }
}

/// The wire encoding of a label list: every nonempty label, truncated
/// to 63 bytes, emitted length-prefixed; empty labels dropped; a zero
/// byte terminates.
pub open spec fn encode_labels(ls: Seq<Seq<u8>>) -> Seq<u8>
    decreases ls.len(),
{
    if ls.len() == 0 {
        seq![0u8]
    } else if ls[0].len() == 0 {
        encode_labels(ls.drop_first())
    } else {
        let lab = if ls[0].len() > 63 {
            ls[0].take(63)
        } else {
            ls[0]
        };
        seq![lab.len() as u8] + lab + encode_labels(ls.drop_first())
    }
}

/// The wire encoding of a dotted name. Compression is never produced.
pub open spec fn encode_name(name: Seq<u8>) -> Seq<u8> {
    encode_labels(split_dots(name))
}

proof fn lemma_first_dot_le(s: Seq<u8>)
    ensures
        first_dot(s) <= s.len(),
        first_dot(s) < s.len() ==> s[first_dot(s) as int] == 46,
        forall|k: int| 0 <= k < first_dot(s) ==> s[k] != 46,
    decreases s.len(),
{
    if s.len() != 0 && s[0] != 46 {
        let dl = s.drop_first();
        lemma_first_dot_le(dl);
        assert forall|k: int| 0 <= k < first_dot(s) implies s[k] != 46 by {
            if k > 0 {
                assert(s[k] == dl[k - 1]);
            }
        }
    }
}

proof fn lemma_first_dot_at(s: Seq<u8>, m: int)
    requires
        0 <= m <= s.len(),
        forall|k: int| 0 <= k < m ==> s[k] != 46,
        m < s.len() ==> s[m] == 46,
    ensures
        first_dot(s) == m,
    decreases m,
{
    if m == 0 {
    } else {
        assert(s[0] != 46);
        assert forall|k: int| 0 <= k < m - 1 implies s.drop_first()[k] != 46 by {
            assert(s.drop_first()[k] == s[k + 1]);
        }
        lemma_first_dot_at(s.drop_first(), m - 1);
    }
}

/// Appends the wire encoding of the labels of `name` from `pos` on.
fn serialize_labels(name: &[u8], pos: usize, out: &mut Vec<u8>)
    requires
        pos <= name@.len(),
    ensures
        final(out)@ == old(out)@ + encode_labels(split_dots(name@.skip(pos as int))),
    decreases name@.len() - pos,
{
    let ghost base = out@;
    let ghost suffix = name@.skip(pos as int);
    let mut j = pos;
    while j < name.len() && name[j] != 46
        invariant
            pos <= j <= name@.len(),
            forall|k: int| pos <= k < j ==> name@[k] != 46,
        decreases name@.len() - j,
    {
        j += 1;
    }
    let d = j - pos;
    proof {
        assert forall|k: int| 0 <= k < d implies suffix[k] != 46 by {
            assert(suffix[k] == name@[pos + k]);
        }
        if j < name@.len() {
            assert(suffix[d as int] == name@[j as int]);
        }
        lemma_first_dot_at(suffix, d as int);
    }
    let ghost head = suffix.take(d as int);
    let ghost lab = if head.len() > 63 { head.take(63) } else { head };
    let mut lab_len: usize = 0;
    if d > 0 {
        lab_len = if d > 63 {
            63
        } else {
            d
        };
        out.push(lab_len as u8);
        out.extend_from_slice(vstd::slice::slice_subrange(name, pos, pos + lab_len));
        proof {
            assert(lab =~= name@.subrange(pos as int, pos + lab_len as int));
            assert(out@ =~= base + seq![lab.len() as u8] + lab);
        }
    }
    if j == name.len() {
        out.push(0);
        proof {
            assert(first_dot(suffix) == d && d == suffix.len());
            assert(split_dots(suffix) == seq![suffix]);
            let ls = seq![suffix];
            assert(ls.drop_first() =~= Seq::<Seq<u8>>::empty());
            assert(encode_labels(Seq::<Seq<u8>>::empty()) == seq![0u8]);
            if suffix.len() == 0 {
                assert(encode_labels(ls) == seq![0u8]);
                assert(out@ =~= base + seq![0u8]);
            } else {
                assert(head =~= suffix);
                assert(encode_labels(ls) == seq![lab.len() as u8] + lab + seq![0u8]);
                assert(out@ =~= base + (seq![lab.len() as u8] + lab + seq![0u8]));
            }
        }
    } else {
        let ghost rest = name@.skip(j + 1);
        proof {
            assert(suffix.subrange(d + 1, suffix.len() as int) =~= rest);
            assert(split_dots(suffix) == seq![head] + split_dots(rest));
            assert((seq![head] + split_dots(rest)).drop_first() =~= split_dots(rest));
            assert((seq![head] + split_dots(rest))[0] == head);
        }
        serialize_labels(name, j + 1, out);
        proof {
            if d == 0 {
                assert(encode_labels(split_dots(suffix)) == encode_labels(split_dots(rest)));
            } else {
                assert(head.len() != 0);
                assert(encode_labels(split_dots(suffix)) == seq![lab.len() as u8] + lab
                    + encode_labels(split_dots(rest)));
                assert(base + seq![lab.len() as u8] + lab + encode_labels(split_dots(rest)) =~= base
                    + (seq![lab.len() as u8] + lab + encode_labels(split_dots(rest))));
            }
        }
    }
}

/// Encodes a dotted name into wire form, as `encode_name` states:
/// length-prefixed labels (each silently truncated to 63 bytes, empty
/// ones dropped) terminated by a zero byte.
pub fn serialize_name(name: &[u8]) -> (r: Vec<u8>)
    ensures
        r@ == encode_name(name@),
{
    let mut out: Vec<u8> = Vec::new();
    serialize_labels(name, 0, &mut out);
    proof {
        assert(name@.skip(0) =~= name@);
    }
    out
}

proof fn lemma_encode_labels_len_pos(ls: Seq<Seq<u8>>)
    ensures
        encode_labels(ls).len() >= 1,
    decreases ls.len(),
{
    if ls.len() != 0 && ls[0].len() == 0 {
        lemma_encode_labels_len_pos(ls.drop_first());
    }
}

proof fn lemma_decode_encoded(data: Seq<u8>, p: int, ls: Seq<Seq<u8>>, j: int)
    requires
        0 <= p,
        data.len() == p + encode_labels(ls).len(),
        data.subrange(p, data.len() as int) == encode_labels(ls),
        forall|i: int|
            0 <= i < ls.len() ==> (1 <= #[trigger] ls[i].len() <= 63 && valid_utf8(ls[i])),
        j >= 0,
    ensures
        decode_labels(data, p, j) == Some((ls, data.len() as int)),
    decreases ls.len(),
{
    let enc = encode_labels(ls);
    if ls.len() == 0 {
        assert(enc == seq![0u8]);
        assert(data[p] == enc[0]);
    } else {
        let l0 = ls[0];
        assert(1 <= l0.len() <= 63 && valid_utf8(l0));
        let rest = ls.drop_first();
        let enc_rest = encode_labels(rest);
        assert(enc == seq![l0.len() as u8] + l0 + enc_rest);
        lemma_encode_labels_len_pos(rest);
        assert(data[p] == enc[0]);
        assert(data[p] == l0.len() as u8);
        let p1 = p + 1 + l0.len() as int;
        assert forall|k: int| 0 <= k < l0.len() implies data.subrange(p + 1, p1)[k] == l0[k] by {
            assert(enc[1 + k] == l0[k]);
            assert(data.subrange(p, data.len() as int)[1 + k] == data[p + 1 + k]);
        }
        assert(data.subrange(p + 1, p1) =~= l0);
        assert forall|k: int| 0 <= k < enc_rest.len() implies data.subrange(
            p1,
            data.len() as int,
        )[k] == enc_rest[k] by {
            assert(enc[1 + l0.len() + k] == enc_rest[k]);
            assert(data.subrange(p, data.len() as int)[1 + l0.len() + k] == data[p1 + k]);
        }
        assert(data.subrange(p1, data.len() as int) =~= enc_rest);
        assert forall|i: int|
            0 <= i < rest.len() implies (1 <= #[trigger] rest[i].len() <= 63 && valid_utf8(
            rest[i],
        )) by {
            assert(rest[i] == ls[i + 1]);
        }
        lemma_decode_encoded(data, p1, rest, j);
        assert(seq![l0] + rest =~= ls);
    }
}

proof fn lemma_join_split(name: Seq<u8>)
    ensures
        join_labels(split_dots(name)) == name,
    decreases name.len(),
{
    lemma_first_dot_le(name);
    let d = first_dot(name) as int;
    if d >= name.len() {
        assert(split_dots(name) == seq![name]);
    } else {
        let rest = name.subrange(d + 1, name.len() as int);
        let ls = split_dots(name);
        assert(ls == seq![name.take(d)] + split_dots(rest));
        assert(split_dots(rest).len() >= 1);
        assert(ls.len() >= 2);
        lemma_join_split(rest);
        assert(ls[0] == name.take(d));
        assert(ls.drop_first() =~= split_dots(rest));
        assert(join_labels(ls) == name.take(d) + seq![46u8] + rest);
        assert(name[d] == 46);
        assert(name.take(d) + seq![46u8] + rest =~= name);
    }
}

/// A compression pointer met after the jump budget is spent fails the
/// name: with at most ten jumps allowed, the eleventh pointer in a
/// chain can never be followed, whatever it points at. Together with
/// the forward progress of label reads this bounds the work a crafted
/// cyclic chain can cause.
pub proof fn lemma_jump_budget(data: Seq<u8>, pos: int)
    requires
        0 <= pos,
        pos + 1 < data.len(),
        data[pos] >= 0xc0,
    ensures
        decode_labels(data, pos, 0) is None,
{
}

/// Encoding a plain dotted name and decoding the wire bytes yields the
/// original name, and the decoder's end offset is the whole encoding.
/// This holds for every name whose dot-separated components are each
/// between 1 and 63 bytes long and valid UTF-8; a name with an empty
/// component (a leading, trailing or doubled dot) or an over-long
/// component is changed by encoding and is excluded here.
pub proof fn lemma_name_round_trip(name: Seq<u8>)
    requires
        forall|i: int|
            0 <= i < split_dots(name).len() ==> (1 <= #[trigger] split_dots(name)[i].len() <= 63
                && valid_utf8(split_dots(name)[i])),
    ensures
        name_at(encode_name(name), 0) == Some((name, encode_name(name).len() as int)),
{
    let ls = split_dots(name);
    let enc = encode_labels(ls);
    assert(enc.subrange(0, enc.len() as int) =~= enc);
    lemma_decode_encoded(enc, 0, ls, MAX_JUMPS as int);
    lemma_join_split(name);
}

proof fn lemma_name_end_bounds(data: Seq<u8>, pos: int, jl: int)
    ensures
        decode_labels(data, pos, jl) is Some ==> 0 <= decode_labels(data, pos, jl).unwrap().1
            <= data.len(),
    decreases jl, data.len() - pos,
{
    if pos < 0 || pos >= data.len() {
    } else {
        let len = data[pos] as int;
        if len == 0 {
        } else if len >= 0xc0 {
            if pos + 1 < data.len() && jl > 0 {
                let tgt = (len - 0xc0) * 256 + data[pos + 1];
                if tgt < data.len() {
                    lemma_name_end_bounds(data, tgt, jl - 1);
                }
            }
        } else if len <= 63 && pos + 1 + len <= data.len() {
            lemma_name_end_bounds(data, pos + 1 + len, jl);
        }
    }
}

/// Renders bytes as a lowercase hexadecimal string, two digits per byte.
pub fn hex(data: &[u8]) -> (r: Vec<u8>)
    ensures
        r@ == hex_dump(data@),
{
    let mut out: Vec<u8> = Vec::new();
    let mut i: usize = 0;
    assert(data@.take(0) =~= Seq::<u8>::empty());
    while i < data.len()
        invariant
            0 <= i <= data@.len(),
            out@ == hex_dump(data@.take(i as int)),
        decreases data@.len() - i,
    {
        let b = data[i];
        out.push(crate::util::hex_digit_exec(b as u16 / 16));
        out.push(crate::util::hex_digit_exec(b as u16 % 16));
        proof {
            let t = data@.take(i + 1);
            assert(t.drop_last() =~= data@.take(i as int));
            assert(t.last() == data@[i as int]);
            assert(out@ =~= hex_dump(data@.take(i as int)) + hex_byte(b));
        }
        i += 1;
    }
    assert(data@.take(data@.len() as int) =~= data@);
    out
}

/// Decodes the name at position `base + delta` of `msg`, where the sum
/// is taken without overflow.
fn name_at_off(msg: &[u8], base: usize, delta: usize) -> (r: Option<(Vec<u8>, usize)>)
    requires
        delta <= 16,
    ensures
        match name_at(msg@, base as int + delta as int) {
            None => r is None,
            Some(p) => {
                &&& r is Some
                &&& r.unwrap().0@ == p.0
                &&& r.unwrap().1 as int == p.1
            },
        },
{
    let n = msg.len();
    if base > usize::MAX - delta || base + delta > n {
        assert(base + delta as int > msg@.len());
        None
    } else {
        parse_name(msg, base + delta)
    }
}

/// Bytes of the fixed prefix rendered for an alias-mode service record.
pub open spec fn alias_mode_prefix() -> Seq<u8> {
    seq![65u8, 108u8, 105u8, 97u8, 115u8, 77u8, 111u8, 100u8, 101u8, 32u8]
}

/// The dotted name at `pos`, or a hex dump of `rd` if decoding fails.
pub open spec fn name_or_hex(msg: Seq<u8>, pos: int, rd: Seq<u8>) -> Seq<u8> {
    match name_at(msg, pos) {
        None => hex_dump(rd),
        Some(p) => p.0,
    }
}

/// The dotted name at `pos`, or nothing if decoding fails.
pub open spec fn name_or_empty(msg: Seq<u8>, pos: int) -> Seq<u8> {
    match name_at(msg, pos) {
        None => Seq::empty(),
        Some(p) => p.0,
    }
}

/// Concatenation of the length-prefixed character strings of a TXT
/// payload from `p` on; a segment that is not valid UTF-8, or that
/// runs past the payload, is skipped (the latter ends the walk).
pub open spec fn txt_concat(rd: Seq<u8>, p: int) -> Seq<u8>
    decreases rd.len() - p,
{
    if p < 0 || p >= rd.len() {
        Seq::empty()
    } else {
        let l = rd[p] as int;
        if p + 1 + l > rd.len() {
            Seq::empty()
        } else {
            let seg = rd.subrange(p + 1, p + 1 + l);
            (if valid_utf8(seg) {
                seg
            } else {
                Seq::empty()
            }) + txt_concat(rd, p + 1 + l)
        }
    }
}

/// The first `i` colon-joined groups of an IPv6 address payload.
pub open spec fn aaaa_prefix(rd: Seq<u8>, i: int) -> Seq<u8>
    decreases i,
{
    if i <= 0 {
        Seq::empty()
    } else if i == 1 {
        hex_of(be16(rd, 0) as nat)
    } else {
        aaaa_prefix(rd, i - 1) + seq![58u8] + hex_of(be16(rd, 2 * (i - 1)) as nat)
    }
}

/// The display text of a resource record payload. Dispatches on the
/// record type; a known type with the wrong payload length, or an
/// unknown type, renders as a lowercase hex dump. Never fails.
pub open spec fn format_rdata_spec(rtype: u16, rd: Seq<u8>, msg: Seq<u8>, start: int) -> Seq<u8> {
    if rtype == 1 && rd.len() == 4 {
        dec_of(rd[0] as nat) + seq![46u8] + dec_of(rd[1] as nat) + seq![46u8] + dec_of(
            rd[2] as nat,
        ) + seq![46u8] + dec_of(rd[3] as nat)
    } else if rtype == 28 && rd.len() == 16 {
        hex_of(be16(rd, 0) as nat) + seq![58u8] + hex_of(be16(rd, 2) as nat) + seq![58u8] + hex_of(
            be16(rd, 4) as nat,
        ) + seq![58u8] + hex_of(be16(rd, 6) as nat) + seq![58u8] + hex_of(be16(rd, 8) as nat)
            + seq![58u8] + hex_of(be16(rd, 10) as nat) + seq![58u8] + hex_of(be16(rd, 12) as nat)
            + seq![58u8] + hex_of(be16(rd, 14) as nat)
    } else if rtype == 2 || rtype == 5 || rtype == 12 {
        name_or_hex(msg, start, rd)
    } else if rtype == 15 && rd.len() >= 3 {
        dec_of(be16(rd, 0) as nat) + seq![32u8] + name_or_empty(msg, start + 2)
    } else if rtype == 16 {
        txt_concat(rd, 0)
    } else if rtype == 33 && rd.len() >= 7 {
        dec_of(be16(rd, 0) as nat) + seq![32u8] + dec_of(be16(rd, 2) as nat) + seq![32u8] + dec_of(
            be16(rd, 4) as nat,
        ) + seq![32u8] + name_or_empty(msg, start + 6)
    } else if (rtype == 64 || rtype == 65) && rd.len() >= 3 {
        if be16(rd, 0) == 0 {
            alias_mode_prefix() + name_or_empty(msg, start + 2)
        } else {
            dec_of(be16(rd, 0) as nat) + seq![32u8] + name_or_empty(msg, start + 2)
        }
    } else {
        hex_dump(rd)
    }
}

/// Renders a record payload for display, as `format_rdata_spec`
/// states. Never fails: malformed or unknown payloads degrade to a
/// hex dump.
pub fn format_rdata(rtype: u16, rd: &[u8], msg: &[u8], start: usize) -> (r: Vec<u8>)
    ensures
        r@ == format_rdata_spec(rtype, rd@, msg@, start as int),
{
    if rtype == 1 && rd.len() == 4 {
        let mut out = render_dec(rd[0] as u64);
        out.push(46);
        let mut p1 = render_dec(rd[1] as u64);
        out.append(&mut p1);
        out.push(46);
        let mut p2 = render_dec(rd[2] as u64);
        out.append(&mut p2);
        out.push(46);
        let mut p3 = render_dec(rd[3] as u64);
        out.append(&mut p3);
        proof {
            assert(out@ =~= format_rdata_spec(rtype, rd@, msg@, start as int));
        }
        out
    } else if rtype == 28 && rd.len() == 16 {
        let mut out: Vec<u8> = Vec::new();
        let mut i: usize = 0;
        while i < 8
            invariant
                0 <= i <= 8,
                rd@.len() == 16,
                out@ == aaaa_prefix(rd@, i as int),
            decreases 8 - i,
        {
            if i > 0 {
                out.push(58);
            }
            let mut g = render_hex(read_be16(rd, 2 * i));
            out.append(&mut g);
            i += 1;
        }
        proof {
            reveal_with_fuel(aaaa_prefix, 9);
            assert(out@ =~= format_rdata_spec(rtype, rd@, msg@, start as int));
        }
        out
    } else if rtype == 2 || rtype == 5 || rtype == 12 {
        match parse_name(msg, start) {
            Some(p) => p.0,
            None => hex(rd),
        }
    } else if rtype == 15 && rd.len() >= 3 {
        let mut out = render_dec(read_be16(rd, 0) as u64);
        out.push(32);
        let mut nm = match name_at_off(msg, start, 2) {
            Some(p) => p.0,
            None => Vec::new(),
        };
        out.append(&mut nm);
        proof {
            assert(out@ =~= format_rdata_spec(rtype, rd@, msg@, start as int));
        }
        out
    } else if rtype == 16 {
        let mut out: Vec<u8> = Vec::new();
        let mut p: usize = 0;
        while p < rd.len()
            invariant
                rtype == 16,
                0 <= p <= rd@.len(),
                txt_concat(rd@, 0) == out@ + txt_concat(rd@, p as int),
            decreases rd@.len() - p,
        {
            let ghost old_out = out@;
            let l = rd[p] as usize;
            if rd.len() - p - 1 < l {
                proof {
                    assert(txt_concat(rd@, p as int) =~= Seq::<u8>::empty());
                    assert(txt_concat(rd@, 0) == out@ + txt_concat(rd@, p as int));
                    assert(out@ + txt_concat(rd@, p as int) =~= out@);
                    assert(format_rdata_spec(rtype, rd@, msg@, start as int) == txt_concat(
                        rd@,
                        0,
                    ));
                }
                return out;
            }
            let seg = vstd::slice::slice_subrange(rd, p + 1, p + 1 + l);
            if is_valid_utf8(seg) {
                out.extend_from_slice(seg);
            }
            proof {
                let segs = rd@.subrange(p + 1, p + 1 + l as int);
                let piece: Seq<u8> = if valid_utf8(segs) {
                    segs
                } else {
                    Seq::empty()
                };
                assert(txt_concat(rd@, p as int) == piece + txt_concat(rd@, p + 1 + l as int));
                assert(old_out + (piece + txt_concat(rd@, p + 1 + l as int)) =~= (old_out + piece)
                    + txt_concat(rd@, p + 1 + l as int));
                assert(out@ =~= old_out + piece);
            }
            p = p + 1 + l;
        }
        proof {
            if p >= rd@.len() {
                assert(txt_concat(rd@, p as int) =~= Seq::<u8>::empty());
            }
            assert(out@ + Seq::<u8>::empty() =~= out@);
        }
        out
    } else if rtype == 33 && rd.len() >= 7 {
        let mut out = render_dec(read_be16(rd, 0) as u64);
        out.push(32);
        let mut w = render_dec(read_be16(rd, 2) as u64);
        out.append(&mut w);
        out.push(32);
        let mut pt = render_dec(read_be16(rd, 4) as u64);
        out.append(&mut pt);
        out.push(32);
        let mut nm = match name_at_off(msg, start, 6) {
            Some(p) => p.0,
            None => Vec::new(),
        };
        out.append(&mut nm);
        proof {
            assert(out@ =~= format_rdata_spec(rtype, rd@, msg@, start as int));
        }
        out
    } else if (rtype == 64 || rtype == 65) && rd.len() >= 3 {
        let pri = read_be16(rd, 0);
        let mut nm = match name_at_off(msg, start, 2) {
            Some(p) => p.0,
            None => Vec::new(),
        };
        let mut out: Vec<u8>;
        if pri == 0 {
            out = vec![65u8, 108u8, 105u8, 97u8, 115u8, 77u8, 111u8, 100u8, 101u8, 32u8];
            assert(out@ =~= alias_mode_prefix());
        } else {
            out = render_dec(pri as u64);
            out.push(32);
        }
        out.append(&mut nm);
        proof {
            assert(out@ =~= format_rdata_spec(rtype, rd@, msg@, start as int));
        }
        out
    } else {
        hex(rd)
    }
}

/// One entry of the question section.
pub struct DnsQuestion {
    pub name: Vec<u8>,
    pub qtype: u16,
    pub qclass: u16,
}

/// Mathematical model of a question.
pub struct DnsQuestionSpec {
    pub name: Seq<u8>,
    pub qtype: u16,
    pub qclass: u16,
}

impl DeepView for DnsQuestion {
    type V = DnsQuestionSpec;

    open spec fn deep_view(&self) -> DnsQuestionSpec {
        DnsQuestionSpec { name: self.name@, qtype: self.qtype, qclass: self.qclass }
    }
}

/// One resource record, with its owned payload bytes and the display
/// text derived from them.
pub struct DnsRecord {
    pub name: Vec<u8>,
    pub rtype: u16,
    pub rclass: u16,
    pub ttl: u32,
    pub rdata: Vec<u8>,
    pub display: Vec<u8>,
}

/// Mathematical model of a resource record.
pub struct DnsRecordSpec {
    pub name: Seq<u8>,
    pub rtype: u16,
    pub rclass: u16,
    pub ttl: u32,
    pub rdata: Seq<u8>,
    pub display: Seq<u8>,
}

impl DeepView for DnsRecord {
    type V = DnsRecordSpec;

    open spec fn deep_view(&self) -> DnsRecordSpec {
        DnsRecordSpec {
            name: self.name@,
            rtype: self.rtype,
            rclass: self.rclass,
            ttl: self.ttl,
            rdata: self.rdata@,
            display: self.display@,
        }
    }
}

/// A decoded DNS message: header fields split out of the flags word,
/// and the four sections in order.
pub struct DnsMessage {
    pub id: u16,
    pub is_response: bool,
    pub opcode: u8,
    pub is_authoritative: bool,
    pub is_truncated: bool,
    pub recursion_desired: bool,
    pub recursion_available: bool,
    pub response_code: u8,
    pub questions: Vec<DnsQuestion>,
    pub answers: Vec<DnsRecord>,
    pub authority: Vec<DnsRecord>,
    pub additional: Vec<DnsRecord>,
}

/// Mathematical model of a decoded message.
pub struct DnsMessageSpec {
    pub id: u16,
    pub is_response: bool,
    pub opcode: u8,
    pub is_authoritative: bool,
    pub is_truncated: bool,
    pub recursion_desired: bool,
    pub recursion_available: bool,
    pub response_code: u8,
    pub questions: Seq<DnsQuestionSpec>,
    pub answers: Seq<DnsRecordSpec>,
    pub authority: Seq<DnsRecordSpec>,
    pub additional: Seq<DnsRecordSpec>,
}

impl View for DnsMessage {
    type V = DnsMessageSpec;

    open spec fn view(&self) -> DnsMessageSpec {
        DnsMessageSpec {
            id: self.id,
            is_response: self.is_response,
            opcode: self.opcode,
            is_authoritative: self.is_authoritative,
            is_truncated: self.is_truncated,
            recursion_desired: self.recursion_desired,
            recursion_available: self.recursion_available,
            response_code: self.response_code,
            questions: self.questions.deep_view(),
            answers: self.answers.deep_view(),
            authority: self.authority.deep_view(),
            additional: self.additional.deep_view(),
        }
    }
}

/// The question encoded at `pos`: a name followed by two 16-bit fields.
pub open spec fn question_at(data: Seq<u8>, pos: int) -> Option<(DnsQuestionSpec, int)> {
    match name_at(data, pos) {
        None => None,
        Some(p) => {
            let e = p.1;
            if e + 4 > data.len() {
                None
            } else {
                Some(
                    (
                        DnsQuestionSpec {
                            name: p.0,
                            qtype: be16(data, e),
                            qclass: be16(data, e + 2),
                        },
                        e + 4,
                    ),
                )
            }
        },
    }
}

/// `count` questions in sequence from `pos`; any failure fails them all.
pub open spec fn questions_at(data: Seq<u8>, pos: int, count: int) -> Option<
    (Seq<DnsQuestionSpec>, int),
>
    decreases count,
{
    if count <= 0 {
        Some((Seq::empty(), pos))
    } else {
        match question_at(data, pos) {
            None => None,
            Some(p) => {
                match questions_at(data, p.1, count - 1) {
                    None => None,
                    Some(q) => Some((seq![p.0] + q.0, q.1)),
                }
            },
        }
    }
}

/// The resource record encoded at `pos`: a name, four fixed fields,
/// and a length-prefixed payload that must lie inside the buffer.
pub open spec fn record_at(data: Seq<u8>, pos: int) -> Option<(DnsRecordSpec, int)> {
    match name_at(data, pos) {
        None => None,
        Some(p) => {
            let e = p.1;
            if e + 10 > data.len() {
                None
            } else {
                let rtype = be16(data, e);
                let rdlen = be16(data, e + 8) as int;
                if e + 10 + rdlen > data.len() {
                    None
                } else {
                    let rd = data.subrange(e + 10, e + 10 + rdlen);
                    Some(
                        (
                            DnsRecordSpec {
                                name: p.0,
                                rtype: rtype,
                                rclass: be16(data, e + 2),
                                ttl: be32(data, e + 4),
                                rdata: rd,
                                display: format_rdata_spec(rtype, rd, data, e + 10),
                            },
                            e + 10 + rdlen,
                        ),
                    )
                }
            }
        },
    }
}

/// Up to `count` records from `pos`; the first failure truncates the
/// section rather than failing it.
pub open spec fn records_at(data: Seq<u8>, pos: int, count: int) -> (Seq<DnsRecordSpec>, int)
    decreases count,
{
    if count <= 0 {
        (Seq::empty(), pos)
    } else {
        match record_at(data, pos) {
            None => (Seq::empty(), pos),
            Some(p) => {
                let q = records_at(data, p.1, count - 1);
                (seq![p.0] + q.0, q.1)
            },
        }
    }
}

/// Continuing a partially decoded question section.
spec fn resume_questions(data: Seq<u8>, pos: int, remaining: int, acc: Seq<DnsQuestionSpec>) -> Option<
    (Seq<DnsQuestionSpec>, int),
> {
    match questions_at(data, pos, remaining) {
        None => None,
        Some(p) => Some((acc + p.0, p.1)),
    }
}

/// Continuing a partially decoded record section.
spec fn resume_records(data: Seq<u8>, pos: int, remaining: int, acc: Seq<DnsRecordSpec>) -> (
    Seq<DnsRecordSpec>,
    int,
) {
    let p = records_at(data, pos, remaining);
    (acc + p.0, p.1)
}

/// Decodes the resource record at `offset`, returning the record and
/// the offset just past its payload, exactly as `record_at` states.
pub fn parse_rr(data: &[u8], offset: usize) -> (r: Option<(DnsRecord, usize)>)
    ensures
        match record_at(data@, offset as int) {
            None => r is None,
            Some(p) => {
                &&& r is Some
                &&& r.unwrap().0.deep_view() == p.0
                &&& r.unwrap().1 as int == p.1
            },
        },
{
    let (name, e) = match parse_name(data, offset) {
        None => {
            return None;
        },
        Some(x) => x,
    };
    proof {
        lemma_name_end_bounds(data@, offset as int, MAX_JUMPS as int);
    }
    if data.len() - e < 10 {
        return None;
    }
    let rtype = read_be16(data, e);
    let rclass = read_be16(data, e + 2);
    let ttl = read_be32(data, e + 4);
    let rdlen = read_be16(data, e + 8) as usize;
    let rd_start = e + 10;
    if data.len() - rd_start < rdlen {
        return None;
    }
    let rd_slice = vstd::slice::slice_subrange(data, rd_start, rd_start + rdlen);
    let mut rdata: Vec<u8> = Vec::new();
    rdata.extend_from_slice(rd_slice);
    proof {
        assert(rdata@ =~= rd_slice@);
    }
    let display = format_rdata(rtype, rd_slice, data, rd_start);
    Some(
        (
            DnsRecord { name, rtype, rclass, ttl, rdata, display },
            rd_start + rdlen,
        ),
    )
}

/// Decodes up to `count` records from `*off`, advancing `*off` past
/// what was read. The first malformed record truncates the section
/// instead of failing it, as `records_at` states.
pub fn parse_rr_section(data: &[u8], off: &mut usize, count: usize) -> (rrs: Vec<DnsRecord>)
    ensures
        rrs.deep_view() == records_at(data@, *old(off) as int, count as int).0,
        *final(off) as int == records_at(data@, *old(off) as int, count as int).1,
{
    let mut rrs: Vec<DnsRecord> = Vec::new();
    let mut cur: usize = *off;
    let mut k: usize = 0;
    while k < count
        invariant
            k <= count,
            records_at(data@, *old(off) as int, count as int) == resume_records(
                data@,
                cur as int,
                count - k,
                rrs.deep_view(),
            ),
        decreases count - k,
    {
        let ghost old_acc = rrs.deep_view();
        match parse_rr(data, cur) {
            Some(p) => {
                let (rr, ne) = p;
                let ghost rr_spec = rr.deep_view();
                rrs.push(rr);
                proof {
                    assert(rrs.deep_view() =~~= old_acc + seq![rr_spec]);
                    let q = records_at(data@, ne as int, count - k - 1);
                    assert(old_acc + (seq![rr_spec] + q.0) =~~= (old_acc + seq![rr_spec]) + q.0);
                }
                cur = ne;
                k += 1;
            },
            None => {
                proof {
                    assert(old_acc + Seq::<DnsRecordSpec>::empty() =~= old_acc);
                }
                *off = cur;
                return rrs;
            },
        }
    }
    proof {
        assert(rrs.deep_view() + Seq::<DnsRecordSpec>::empty() =~= rrs.deep_view());
    }
    *off = cur;
    rrs
}

/// The whole message: header, full question section, and the three
/// record sections, which truncate on an internal failure.
pub open spec fn parse_dns_spec(data: Seq<u8>) -> Option<DnsMessageSpec> {
    if data.len() < 12 {
        None
    } else {
        let qd = be16(data, 4) as int;
        let an = be16(data, 6) as int;
        let ns = be16(data, 8) as int;
        let ar = be16(data, 10) as int;
        if qd > 256 || an > 256 || ns > 256 || ar > 256 {
            None
        } else {
            match questions_at(data, 12, qd) {
                None => None,
                Some(qp) => {
                    let ap = records_at(data, qp.1, an);
                    let np = records_at(data, ap.1, ns);
                    let dp = records_at(data, np.1, ar);
                    let flags = be16(data, 2);
                    Some(
                        DnsMessageSpec {
                            id: be16(data, 0),
                            is_response: flags & 0x8000 != 0,
                            opcode: ((flags >> 11) & 0xF) as u8,
                            is_authoritative: flags & 0x0400 != 0,
                            is_truncated: flags & 0x0200 != 0,
                            recursion_desired: flags & 0x0100 != 0,
                            recursion_available: flags & 0x0080 != 0,
                            response_code: (flags & 0xF) as u8,
                            questions: qp.0,
                            answers: ap.0,
                            authority: np.0,
                            additional: dp.0,
                        },
                    )
                },
            }
        }
    }
}

/// Parses a DNS message, exactly as `parse_dns_spec` states. A buffer
/// under 12 bytes, a section count over 256, or a malformed question
/// section fails the whole parse.
pub fn parse_dns(data: &[u8]) -> (r: Option<DnsMessage>)
    ensures
        match parse_dns_spec(data@) {
            None => r is None,
            Some(m) => r is Some && r.unwrap()@ == m,
        },
        data@.len() < 12 ==> r is None,
        data@.len() >= 12 && (be16(data@, 4) > 256 || be16(data@, 6) > 256 || be16(data@, 8) > 256
            || be16(data@, 10) > 256) ==> r is None,
{
    if data.len() < 12 {
        return None;
    }
    let id = read_be16(data, 0);
    let flags = read_be16(data, 2);
    let qd = read_be16(data, 4) as usize;
    let an = read_be16(data, 6) as usize;
    let ns = read_be16(data, 8) as usize;
    let ar = read_be16(data, 10) as usize;
    if qd > 256 || an > 256 || ns > 256 || ar > 256 {
        return None;
    }
    let mut off: usize = 12;
    let mut questions: Vec<DnsQuestion> = Vec::new();
    let mut k: usize = 0;
    while k < qd
        invariant
            k <= qd,
            qd == be16(data@, 4),
            data@.len() >= 12,
            questions_at(data@, 12, qd as int) == resume_questions(
                data@,
                off as int,
                qd - k,
                questions.deep_view(),
            ),
        decreases qd - k,
    {
        let ghost old_acc = questions.deep_view();
        let (qname, e) = match parse_name(data, off) {
            None => {
                return None;
            },
            Some(x) => x,
        };
        proof {
            lemma_name_end_bounds(data@, off as int, MAX_JUMPS as int);
        }
        if data.len() - e < 4 {
            return None;
        }
        let qt = read_be16(data, e);
        let qc = read_be16(data, e + 2);
        let ghost q_spec = DnsQuestionSpec { name: qname@, qtype: qt, qclass: qc };
        questions.push(DnsQuestion { name: qname, qtype: qt, qclass: qc });
        proof {
            assert(questions.deep_view() =~~= old_acc + seq![q_spec]);
            match questions_at(data@, e + 4, qd - k - 1) {
                None => {},
                Some(qp) => {
                    assert(old_acc + (seq![q_spec] + qp.0) =~~= (old_acc + seq![q_spec]) + qp.0);
                },
            }
        }
        off = e + 4;
        k += 1;
    }
    proof {
        assert(questions.deep_view() + Seq::<DnsQuestionSpec>::empty() =~= questions.deep_view());
    }
    let mut cursor = off;
    let answers = parse_rr_section(data, &mut cursor, an);
    let authority = parse_rr_section(data, &mut cursor, ns);
    let additional = parse_rr_section(data, &mut cursor, ar);
    Some(
        DnsMessage {
            id,
            is_response: flags & 0x8000 != 0,
            opcode: ((flags >> 11) & 0xF) as u8,
            is_authoritative: flags & 0x0400 != 0,
            is_truncated: flags & 0x0200 != 0,
            recursion_desired: flags & 0x0100 != 0,
            recursion_available: flags & 0x0080 != 0,
            response_code: (flags & 0xF) as u8,
            questions,
            answers,
            authority,
            additional,
        },
    )
}

/// The wire bytes of a minimal single-question query: a 12-byte header
/// (given id; only the recursion-desired flag may be set; one
/// question), the encoded name, the record type, and class IN.
pub open spec fn build_query_spec(domain: Seq<u8>, rtype: u16, id: u16, rd: bool) -> Seq<u8> {
    seq![(id / 256) as u8, (id % 256) as u8] + (if rd {
        seq![1u8, 0u8]
    } else {
        seq![0u8, 0u8]
    }) + seq![0u8, 1u8, 0u8, 0u8, 0u8, 0u8, 0u8, 0u8] + encode_name(domain) + seq![
        (rtype / 256) as u8,
        (rtype % 256) as u8,
        0u8,
        1u8,
    ]
}

/// Builds a query message, exactly as `build_query_spec` states.
pub fn build_query_bytes(domain: &[u8], rtype: u16, id: u16, rd: bool) -> (r: Vec<u8>)
    ensures
        r@ == build_query_spec(domain@, rtype, id, rd),
{
    let mut buf: Vec<u8> = Vec::new();
    buf.push((id / 256) as u8);
    buf.push((id % 256) as u8);
    if rd {
        buf.push(1);
    } else {
        buf.push(0);
    }
    buf.push(0);
    buf.push(0);
    buf.push(1);
    buf.push(0);
    buf.push(0);
    buf.push(0);
    buf.push(0);
    buf.push(0);
    buf.push(0);
    let mut nm = serialize_name(domain);
    buf.append(&mut nm);
    buf.push((rtype / 256) as u8);
    buf.push((rtype % 256) as u8);
    buf.push(0);
    buf.push(1);
    proof {
        assert(buf@ =~= build_query_spec(domain@, rtype, id, rd));
    }
    buf
}

} // verus!
