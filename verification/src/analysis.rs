//! Content analysis helpers: a SHA-256 digest and magic-byte
//! detection of common file formats.

use vstd::prelude::*;

verus! {

/// The buffer starts with the magic bytes of a known file format:
/// PNG, JPEG, GIF, TIFF, gzip, ZIP or PDF.
pub open spec fn known_format(d: Seq<u8>) -> bool {
    d.len() >= 4 && {
        ||| (d[0] == 0x89 && d[1] == 0x50 && d[2] == 0x4e && d[3] == 0x47)
        ||| (d[0] == 0xff && d[1] == 0xd8)
        ||| (d[0] == 0x47 && d[1] == 0x49 && d[2] == 0x46 && d[3] == 0x38)
        ||| (d[0] == 0x49 && d[1] == 0x49 && d[2] == 0x2a && d[3] == 0x00)
        ||| (d[0] == 0x4d && d[1] == 0x4d && d[2] == 0x00 && d[3] == 0x2a)
        ||| (d[0] == 0x1f && d[1] == 0x8b && d[2] == 0x08)
        ||| (d[0] == 0x50 && d[1] == 0x4b && d[2] == 0x03 && d[3] == 0x04)
        ||| (d[0] == 0x25 && d[1] == 0x50 && d[2] == 0x44 && d[3] == 0x46)
    }
}

/// Detects a known file format by its magic bytes, exactly as
/// `known_format` states.
pub fn is_known_format(data: &[u8]) -> (r: bool)
    ensures
        r == known_format(data@),
{
    if data.len() < 4 {
        return false;
    }
    let b0 = data[0];
    let b1 = data[1];
    let b2 = data[2];
    let b3 = data[3];
    if b0 == 0x89 && b1 == 0x50 && b2 == 0x4e && b3 == 0x47 {
        return true;
    }
    if b0 == 0xff && b1 == 0xd8 {
        return true;
    }
    if b0 == 0x47 && b1 == 0x49 && b2 == 0x46 && b3 == 0x38 {
        return true;
    }
    if (b0 == 0x49 && b1 == 0x49 && b2 == 0x2a && b3 == 0x00) || (b0 == 0x4d && b1 == 0x4d && b2
        == 0x00 && b3 == 0x2a) {
        return true;
    }
    if b0 == 0x1f && b1 == 0x8b && b2 == 0x08 {
        return true;
    }
    if (b0 == 0x50 && b1 == 0x4b && b2 == 0x03 && b3 == 0x04) || (b0 == 0x25 && b1 == 0x50 && b2
        == 0x44 && b3 == 0x46) {
        return true;
    }
    false
}


/// The SHA-256 round constants (FIPS 180-4, section 4.2.2).
pub open spec fn sha_k() -> Seq<u32> {
    seq![
        0x428a2f98u32, 0x71374491u32, 0xb5c0fbcfu32, 0xe9b5dba5u32, 0x3956c25bu32, 0x59f111f1u32,
        0x923f82a4u32, 0xab1c5ed5u32, 0xd807aa98u32, 0x12835b01u32, 0x243185beu32, 0x550c7dc3u32,
        0x72be5d74u32, 0x80deb1feu32, 0x9bdc06a7u32, 0xc19bf174u32, 0xe49b69c1u32, 0xefbe4786u32,
        0x0fc19dc6u32, 0x240ca1ccu32, 0x2de92c6fu32, 0x4a7484aau32, 0x5cb0a9dcu32, 0x76f988dau32,
        0x983e5152u32, 0xa831c66du32, 0xb00327c8u32, 0xbf597fc7u32, 0xc6e00bf3u32, 0xd5a79147u32,
        0x06ca6351u32, 0x14292967u32, 0x27b70a85u32, 0x2e1b2138u32, 0x4d2c6dfcu32, 0x53380d13u32,
        0x650a7354u32, 0x766a0abbu32, 0x81c2c92eu32, 0x92722c85u32, 0xa2bfe8a1u32, 0xa81a664bu32,
        0xc24b8b70u32, 0xc76c51a3u32, 0xd192e819u32, 0xd6990624u32, 0xf40e3585u32, 0x106aa070u32,
        0x19a4c116u32, 0x1e376c08u32, 0x2748774cu32, 0x34b0bcb5u32, 0x391c0cb3u32, 0x4ed8aa4au32,
        0x5b9cca4fu32, 0x682e6ff3u32, 0x748f82eeu32, 0x78a5636fu32, 0x84c87814u32, 0x8cc70208u32,
        0x90befffau32, 0xa4506cebu32, 0xbef9a3f7u32, 0xc67178f2u32,
    ]
}

/// The SHA-256 initial hash value (FIPS 180-4, section 5.3.3).
pub open spec fn sha_h0() -> Seq<u32> {
    seq![
        0x6a09e667u32, 0xbb67ae85u32, 0x3c6ef372u32, 0xa54ff53au32, 0x510e527fu32, 0x9b05688cu32,
        0x1f83d9abu32, 0x5be0cd19u32,
    ]
}

/// The schedule function sigma-zero: rotations by 7 and 18, shift by 3.
pub open spec fn small_sigma0(x: u32) -> u32 {
    ((x >> 7u32) | (x << 25u32)) ^ ((x >> 18u32) | (x << 14u32)) ^ (x >> 3u32)
}

/// The schedule function sigma-one: rotations by 17 and 19, shift by 10.
pub open spec fn small_sigma1(x: u32) -> u32 {
    ((x >> 17u32) | (x << 15u32)) ^ ((x >> 19u32) | (x << 13u32)) ^ (x >> 10u32)
}

/// The compression function Sigma-zero: rotations by 2, 13 and 22.
pub open spec fn big_sigma0(x: u32) -> u32 {
    ((x >> 2u32) | (x << 30u32)) ^ ((x >> 13u32) | (x << 19u32)) ^ ((x >> 22u32) | (x << 10u32))
}

/// The compression function Sigma-one: rotations by 6, 11 and 25.
pub open spec fn big_sigma1(x: u32) -> u32 {
    ((x >> 6u32) | (x << 26u32)) ^ ((x >> 11u32) | (x << 21u32)) ^ ((x >> 25u32) | (x << 7u32))
}

/// `n` zero bytes.
pub open spec fn zero_bytes(n: int) -> Seq<u8>
    decreases n,
{
    if n <= 0 {
        Seq::empty()
    } else {
        zero_bytes(n - 1) + seq![0u8]
    }
}

/// The eight big-endian bytes of a 64-bit length.
pub open spec fn len64_be(bl: u64) -> Seq<u8> {
    seq![
        ((bl >> 56u64) as int % 256) as u8,
        ((bl >> 48u64) as int % 256) as u8,
        ((bl >> 40u64) as int % 256) as u8,
        ((bl >> 32u64) as int % 256) as u8,
        ((bl >> 24u64) as int % 256) as u8,
        ((bl >> 16u64) as int % 256) as u8,
        ((bl >> 8u64) as int % 256) as u8,
        (bl as int % 256) as u8,
    ]
}

/// The message padded to a whole number of 64-byte blocks: a 0x80
/// byte, zeros up to 56 modulo 64, and the bit length in 64 bits.
pub open spec fn padded_msg(data: Seq<u8>) -> Seq<u8> {
    let rem = (data.len() + 1) % 64;
    let zn: int = if rem <= 56 {
        56 - rem
    } else {
        120 - rem
    };
    data + seq![0x80u8] + zero_bytes(zn) + len64_be((data.len() as u64).wrapping_mul(8))
}

/// Word `t` of the block starting at `chunk`, read big-endian.
pub open spec fn block_word(msg: Seq<u8>, chunk: int, t: int) -> u32
    recommends
        0 <= t < 16,
        0 <= chunk,
        chunk + 64 <= msg.len(),
{
    (msg[chunk + 4 * t] as u32) << 24u32 | (msg[chunk + 4 * t + 1] as u32) << 16u32 | (msg[chunk
        + 4 * t + 2] as u32) << 8u32 | (msg[chunk + 4 * t + 3] as u32)
}

/// Word `i` of the 64-entry message schedule of a block.
pub open spec fn schedule(block: Seq<u32>, i: int) -> u32
    recommends
        block.len() == 16,
        0 <= i < 64,
    decreases i,
{
    if i < 16 {
        block[i]
    } else {
        schedule(block, i - 16).wrapping_add(small_sigma0(schedule(block, i - 15))).wrapping_add(
            schedule(block, i - 7),
        ).wrapping_add(small_sigma1(schedule(block, i - 2)))
    }
}

/// The eight working variables of the compression function.
pub struct ShaState {
    pub a: u32,
    pub b: u32,
    pub c: u32,
    pub d: u32,
    pub e: u32,
    pub f: u32,
    pub g: u32,
    pub h: u32,
}

/// The compression rounds from round `i` on, applied to state `s`.
pub open spec fn rounds(block: Seq<u32>, i: int, s: ShaState) -> ShaState
    decreases 64 - i,
{
    if i < 0 || i >= 64 {
        s
    } else {
        let t1 = s.h.wrapping_add(big_sigma1(s.e)).wrapping_add((s.e & s.f) ^ (!s.e & s.g))
            .wrapping_add(sha_k()[i]).wrapping_add(schedule(block, i));
        let t2 = big_sigma0(s.a).wrapping_add((s.a & s.b) ^ (s.a & s.c) ^ (s.b & s.c));
        rounds(
            block,
            i + 1,
            ShaState {
                a: t1.wrapping_add(t2),
                b: s.a,
                c: s.b,
                d: s.c,
                e: s.d.wrapping_add(t1),
                f: s.e,
                g: s.f,
                h: s.g,
            },
        )
    }
}

/// The hash state after absorbing every whole block from `chunk` on.
pub open spec fn process_blocks(msg: Seq<u8>, chunk: int, h: Seq<u32>) -> Seq<u32>
    recommends
        h.len() == 8,
        0 <= chunk,
    decreases msg.len() - chunk,
{
    if chunk < 0 || chunk + 64 > msg.len() {
        h
    } else {
        let block = Seq::new(16, |t: int| block_word(msg, chunk, t));
        let f = rounds(
            block,
            0,
            ShaState {
                a: h[0],
                b: h[1],
                c: h[2],
                d: h[3],
                e: h[4],
                f: h[5],
                g: h[6],
                h: h[7],
            },
        );
        let h2 = seq![
            h[0].wrapping_add(f.a),
            h[1].wrapping_add(f.b),
            h[2].wrapping_add(f.c),
            h[3].wrapping_add(f.d),
            h[4].wrapping_add(f.e),
            h[5].wrapping_add(f.f),
            h[6].wrapping_add(f.g),
            h[7].wrapping_add(f.h),
        ];
        process_blocks(msg, chunk + 64, h2)
    }
}

/// The four big-endian bytes of each word, in order.
pub open spec fn words_be(h: Seq<u32>) -> Seq<u8>
    decreases h.len(),
{
    if h.len() == 0 {
        Seq::empty()
    } else {
        words_be(h.drop_last()) + seq![
            ((h.last() >> 24u32) as int % 256) as u8,
            ((h.last() >> 16u32) as int % 256) as u8,
            ((h.last() >> 8u32) as int % 256) as u8,
            (h.last() as int % 256) as u8,
        ]
    }
}

/// The SHA-256 digest of a byte sequence (FIPS 180-4): the padded
/// message absorbed block by block from the initial hash value, the
/// final state serialized big-endian.
pub open spec fn sha256_spec(data: Seq<u8>) -> Seq<u8> {
    words_be(process_blocks(padded_msg(data), 0, sha_h0()))
}

fn sha256_round_constants() -> (k: Vec<u32>)
    ensures
        k@ == sha_k(),
        k@.len() == 64,
{
    let k: Vec<u32> = vec![
        0x428a2f98u32,
        0x71374491,
        0xb5c0fbcf,
        0xe9b5dba5,
        0x3956c25b,
        0x59f111f1,
        0x923f82a4,
        0xab1c5ed5,
        0xd807aa98,
        0x12835b01,
        0x243185be,
        0x550c7dc3,
        0x72be5d74,
        0x80deb1fe,
        0x9bdc06a7,
        0xc19bf174,
        0xe49b69c1,
        0xefbe4786,
        0x0fc19dc6,
        0x240ca1cc,
        0x2de92c6f,
        0x4a7484aa,
        0x5cb0a9dc,
        0x76f988da,
        0x983e5152,
        0xa831c66d,
        0xb00327c8,
        0xbf597fc7,
        0xc6e00bf3,
        0xd5a79147,
        0x06ca6351,
        0x14292967,
        0x27b70a85,
        0x2e1b2138,
        0x4d2c6dfc,
        0x53380d13,
        0x650a7354,
        0x766a0abb,
        0x81c2c92e,
        0x92722c85,
        0xa2bfe8a1,
        0xa81a664b,
        0xc24b8b70,
        0xc76c51a3,
        0xd192e819,
        0xd6990624,
        0xf40e3585,
        0x106aa070,
        0x19a4c116,
        0x1e376c08,
        0x2748774c,
        0x34b0bcb5,
        0x391c0cb3,
        0x4ed8aa4a,
        0x5b9cca4f,
        0x682e6ff3,
        0x748f82ee,
        0x78a5636f,
        0x84c87814,
        0x8cc70208,
        0x90befffa,
        0xa4506ceb,
        0xbef9a3f7,
        0xc67178f2,
    ];
    proof {
        assert(k@ =~= sha_k());
    }
    k
}

fn rotr(x: u32, n: u32) -> (r: u32)
    requires
        0 < n < 32,
    ensures
        r == (x >> n) | (x << ((32 - n) as u32)),
{
    (x >> n) | (x << (32 - n))
}

fn u64_low_byte(x: u64) -> (r: u8)
    ensures
        r == ((x as int % 256) as u8),
{
    proof {
        assert(x & 0xff == x % 256) by (bit_vector);
    }
    (x & 0xff) as u8
}

fn u32_low_byte(x: u32) -> (r: u8)
    ensures
        r == ((x as int % 256) as u8),
{
    proof {
        assert(x & 0xff == x % 256) by (bit_vector);
    }
    (x & 0xff) as u8
}

/// Computes the SHA-256 digest (FIPS 180-4) of the buffer, exactly
/// as `sha256_spec` states: padding to 512-bit blocks, a 64-word
/// message schedule, and 64 compression rounds per block. Returns the
/// 32 digest bytes.
pub fn sha256_digest(data: &[u8]) -> (r: Vec<u8>)
    ensures
        r@ == sha256_spec(data@),
        r@.len() == 32,
{
    let k = sha256_round_constants();
    let mut h: Vec<u32> = vec![
        0x6a09e667u32,
        0xbb67ae85,
        0x3c6ef372,
        0xa54ff53a,
        0x510e527f,
        0x9b05688c,
        0x1f83d9ab,
        0x5be0cd19,
    ];
    proof {
        assert(h@ =~= sha_h0());
    }
    let bit_len: u64 = (data.len() as u64).wrapping_mul(8);
    let mut msg: Vec<u8> = Vec::new();
    msg.extend_from_slice(data);
    msg.push(0x80);
    proof {
        assert(msg@ =~= data@ + seq![0x80u8]);
        assert(zero_bytes(0) =~= Seq::<u8>::empty());
        assert(data@ + seq![0x80u8] + zero_bytes(0) =~= msg@);
    }
    let rem = msg.len() % 64;
    let zero_count: usize = if rem <= 56 {
        56 - rem
    } else {
        120 - rem
    };
    let mut z: usize = 0;
    while z < zero_count
        invariant
            z <= zero_count,
            msg@ == data@ + seq![0x80u8] + zero_bytes(z as int),
        decreases zero_count - z,
    {
        msg.push(0);
        proof {
            assert(data@ + seq![0x80u8] + zero_bytes(z as int) + seq![0u8] =~= data@ + seq![0x80u8]
                + zero_bytes(z + 1));
        }
        z += 1;
    }
    msg.push(u64_low_byte(bit_len >> 56u64));
    msg.push(u64_low_byte(bit_len >> 48u64));
    msg.push(u64_low_byte(bit_len >> 40u64));
    msg.push(u64_low_byte(bit_len >> 32u64));
    msg.push(u64_low_byte(bit_len >> 24u64));
    msg.push(u64_low_byte(bit_len >> 16u64));
    msg.push(u64_low_byte(bit_len >> 8u64));
    msg.push(u64_low_byte(bit_len));
    let ghost pm = padded_msg(data@);
    proof {
        assert(msg@ =~= pm);
    }
    let n = msg.len();
    let mut chunk: usize = 0;
    while n - chunk >= 64 && chunk < n
        invariant
            h@.len() == 8,
            k@ == sha_k(),
            chunk <= n,
            n == msg@.len(),
            msg@ == pm,
            process_blocks(pm, 0, sha_h0()) == process_blocks(pm, chunk as int, h@),
        decreases n - chunk,
    {
        let ghost block_spec = Seq::new(16, |t: int| block_word(pm, chunk as int, t));
        let mut w: Vec<u32> = Vec::new();
        let mut i: usize = 0;
        while i < 16
            invariant
                w@.len() == i,
                i <= 16,
                chunk + 64 <= n,
                n == msg@.len(),
                msg@ == pm,
                block_spec == Seq::new(16, |t: int| block_word(pm, chunk as int, t)),
                forall|j: int| 0 <= j < i ==> w@[j] == schedule(block_spec, j),
            decreases 16 - i,
        {
            let base = chunk + 4 * i;
            let word = (msg[base] as u32) << 24u32 | (msg[base + 1] as u32) << 16u32 | (msg[base
                + 2] as u32) << 8u32 | (msg[base + 3] as u32);
            w.push(word);
            proof {
                assert(block_spec[i as int] == block_word(pm, chunk as int, i as int));
                assert(word == schedule(block_spec, i as int));
            }
            i += 1;
        }
        let mut i: usize = 16;
        while i < 64
            invariant
                w@.len() == i,
                16 <= i <= 64,
                forall|j: int| 0 <= j < i ==> w@[j] == schedule(block_spec, j),
            decreases 64 - i,
        {
            let s0 = rotr(w[i - 15], 7) ^ rotr(w[i - 15], 18) ^ (w[i - 15] >> 3u32);
            let s1 = rotr(w[i - 2], 17) ^ rotr(w[i - 2], 19) ^ (w[i - 2] >> 10u32);
            let word = w[i - 16].wrapping_add(s0).wrapping_add(w[i - 7]).wrapping_add(s1);
            w.push(word);
            proof {
                assert(s0 == small_sigma0(schedule(block_spec, i - 15)));
                assert(s1 == small_sigma1(schedule(block_spec, i - 2)));
                assert(w@[i - 16] == schedule(block_spec, i - 16));
                assert(w@[i - 7] == schedule(block_spec, i - 7));
                assert(schedule(block_spec, i as int) == schedule(block_spec, i - 16).wrapping_add(
                    small_sigma0(schedule(block_spec, i - 15)),
                ).wrapping_add(schedule(block_spec, i - 7)).wrapping_add(
                    small_sigma1(schedule(block_spec, i - 2)),
                ));
                assert(word == schedule(block_spec, i as int));
            }
            i += 1;
        }
        let mut a = h[0];
        let mut bb = h[1];
        let mut c = h[2];
        let mut d = h[3];
        let mut e = h[4];
        let mut f = h[5];
        let mut g = h[6];
        let mut hh = h[7];
        let ghost start_state = ShaState {
            a: h@[0],
            b: h@[1],
            c: h@[2],
            d: h@[3],
            e: h@[4],
            f: h@[5],
            g: h@[6],
            h: h@[7],
        };
        let mut i: usize = 0;
        while i < 64
            invariant
                w@.len() == 64,
                k@ == sha_k(),
                i <= 64,
                forall|j: int| 0 <= j < 64 ==> w@[j] == schedule(block_spec, j),
                rounds(block_spec, 0, start_state) == rounds(
                    block_spec,
                    i as int,
                    ShaState { a: a, b: bb, c: c, d: d, e: e, f: f, g: g, h: hh },
                ),
            decreases 64 - i,
        {
            let s1 = rotr(e, 6) ^ rotr(e, 11) ^ rotr(e, 25);
            let ch = (e & f) ^ (!e & g);
            let t1 = hh.wrapping_add(s1).wrapping_add(ch).wrapping_add(k[i]).wrapping_add(w[i]);
            let s0 = rotr(a, 2) ^ rotr(a, 13) ^ rotr(a, 22);
            let maj = (a & bb) ^ (a & c) ^ (bb & c);
            let t2 = s0.wrapping_add(maj);
            proof {
                assert(s1 == big_sigma1(e));
                assert(s0 == big_sigma0(a));
            }
            hh = g;
            g = f;
            f = e;
            e = d.wrapping_add(t1);
            d = c;
            c = bb;
            bb = a;
            a = t1.wrapping_add(t2);
            i += 1;
        }
        let ghost h_old = h@;
        let h0 = h[0].wrapping_add(a);
        let h1 = h[1].wrapping_add(bb);
        let h2 = h[2].wrapping_add(c);
        let h3 = h[3].wrapping_add(d);
        let h4 = h[4].wrapping_add(e);
        let h5 = h[5].wrapping_add(f);
        let h6 = h[6].wrapping_add(g);
        let h7 = h[7].wrapping_add(hh);
        h = vec![h0, h1, h2, h3, h4, h5, h6, h7];
        proof {
            let fin = rounds(block_spec, 0, start_state);
            assert(fin == ShaState { a: a, b: bb, c: c, d: d, e: e, f: f, g: g, h: hh });
            assert(h@ =~= seq![
                h_old[0].wrapping_add(fin.a),
                h_old[1].wrapping_add(fin.b),
                h_old[2].wrapping_add(fin.c),
                h_old[3].wrapping_add(fin.d),
                h_old[4].wrapping_add(fin.e),
                h_old[5].wrapping_add(fin.f),
                h_old[6].wrapping_add(fin.g),
                h_old[7].wrapping_add(fin.h),
            ]);
            assert(process_blocks(pm, chunk as int, h_old) == process_blocks(
                pm,
                chunk + 64,
                h@,
            ));
        }
        chunk += 64;
    }
    proof {
        assert(process_blocks(pm, chunk as int, h@) == h@);
    }
    let mut out: Vec<u8> = Vec::new();
    let mut j: usize = 0;
    proof {
        assert(h@.take(0) =~= Seq::<u32>::empty());
        assert(words_be(Seq::<u32>::empty()) =~= Seq::<u8>::empty());
    }
    while j < 8
        invariant
            out@.len() == 4 * j,
            j <= 8,
            h@.len() == 8,
            out@ == words_be(h@.take(j as int)),
        decreases 8 - j,
    {
        let v = h[j];
        out.push(u32_low_byte(v >> 24u32));
        out.push(u32_low_byte(v >> 16u32));
        out.push(u32_low_byte(v >> 8u32));
        out.push(u32_low_byte(v));
        proof {
            let t = h@.take(j + 1);
            assert(t.drop_last() =~= h@.take(j as int));
            assert(t.last() == h@[j as int]);
            assert(out@ =~= words_be(t));
        }
        j += 1;
    }
    proof {
        assert(h@.take(8) =~= h@);
    }
    out
}

} // verus!
