//! Big-endian encoding of 32-bit signed integers.
use vstd::prelude::*;

verus! {

/// The unsigned 32-bit value that has the same bits as `x`.
pub open spec fn i32_bits(x: i32) -> int {
    if x < 0 {
        x + 0x1_0000_0000
    } else {
        x as int
    }
}

/// The four bytes of `x`, most significant first.
pub open spec fn i32_be_bytes(x: i32) -> Seq<u8> {
    let u = i32_bits(x);
    seq![
        (u / 0x100_0000) as u8,
        ((u / 0x1_0000) % 0x100) as u8,
        ((u / 0x100) % 0x100) as u8,
        (u % 0x100) as u8,
    ]
}

/// The signed 32-bit integer whose big-endian bytes are `b0 b1 b2 b3`.
pub open spec fn i32_from_be(b0: u8, b1: u8, b2: u8, b3: u8) -> i32 {
    let u: int = b0 * 0x100_0000 + b1 * 0x1_0000 + b2 * 0x100 + b3;
    (if u >= 0x8000_0000 {
        u - 0x1_0000_0000
    } else {
        u
    }) as i32
}

/// The signed 32-bit big-endian integer that starts at `pos` in `s`.
pub open spec fn i32_at(s: Seq<u8>, pos: int) -> i32 {
    i32_from_be(s[pos], s[pos + 1], s[pos + 2], s[pos + 3])
}

/// Decoding the four bytes of an integer gives the integer back.
pub proof fn lemma_i32_be_roundtrip(x: i32)
    ensures
        i32_be_bytes(x).len() == 4,
        i32_at(i32_be_bytes(x), 0) == x,
{
    let u = i32_bits(x);
    let s = i32_be_bytes(x);
    assert(0 <= u < 0x1_0000_0000);
    assert(s[0] == u / 0x100_0000);
    assert(s[1] == (u / 0x1_0000) % 0x100);
    assert(s[2] == (u / 0x100) % 0x100);
    assert(s[3] == u % 0x100);
    assert(s[0] * 0x100_0000 + s[1] * 0x1_0000 + s[2] * 0x100 + s[3] == u) by (nonlinear_arith)
        requires
            0 <= u < 0x1_0000_0000,
            s[0] == u / 0x100_0000,
            s[1] == (u / 0x1_0000) % 0x100,
            s[2] == (u / 0x100) % 0x100,
            s[3] == u % 0x100,
    ;
}

/// The four bytes written for `x` are its two's-complement big-endian bytes:
/// weighted by 2^24, 2^16, 2^8 and 1 they sum to `x` modulo 2^32.
pub proof fn law_i32_be_bytes_value(x: i32)
    ensures
        i32_be_bytes(x).len() == 4,
        (i32_be_bytes(x)[0] * 0x100_0000 + i32_be_bytes(x)[1] * 0x1_0000 + i32_be_bytes(x)[2]
            * 0x100 + i32_be_bytes(x)[3]) % 0x1_0000_0000 == (x as int) % 0x1_0000_0000,
{
    let s = i32_be_bytes(x);
    let xi = x as int;
    let w: int = if xi < 0 {
        xi + 0x1_0000_0000
    } else {
        xi
    };
    assert(0 <= w < 0x1_0000_0000);
    assert(s[0] == (w / 0x100_0000) as u8);
    assert(s[1] == ((w / 0x1_0000) % 0x100) as u8);
    assert(s[2] == ((w / 0x100) % 0x100) as u8);
    assert(s[3] == (w % 0x100) as u8);
    assert(s[0] * 0x100_0000 + s[1] * 0x1_0000 + s[2] * 0x100 + s[3] == w) by (nonlinear_arith)
        requires
            0 <= w < 0x1_0000_0000,
            s[0] == w / 0x100_0000,
            s[1] == (w / 0x1_0000) % 0x100,
            s[2] == (w / 0x100) % 0x100,
            s[3] == w % 0x100,
    ;
    assert(w % 0x1_0000_0000 == xi % 0x1_0000_0000) by (nonlinear_arith)
        requires
            w == xi || w == xi + 0x1_0000_0000,
    ;
}

/// Four bytes are read as the two's-complement big-endian integer they
/// spell: the value read is, modulo 2^32, the bytes weighted by 2^24, 2^16,
/// 2^8 and 1.
pub proof fn law_i32_from_be_value(b0: u8, b1: u8, b2: u8, b3: u8)
    ensures
        (i32_from_be(b0, b1, b2, b3) as int) % 0x1_0000_0000 == (b0 * 0x100_0000 + b1 * 0x1_0000
            + b2 * 0x100 + b3) % 0x1_0000_0000,
{
    let w: int = b0 * 0x100_0000 + b1 * 0x1_0000 + b2 * 0x100 + b3;
    let r = i32_from_be(b0, b1, b2, b3) as int;
    assert(0 <= w < 0x1_0000_0000);
    assert(r == w || r == w - 0x1_0000_0000);
    assert(r % 0x1_0000_0000 == w % 0x1_0000_0000) by (nonlinear_arith)
        requires
            r == w || r == w - 0x1_0000_0000,
    ;
}

/// The four bytes at `pos` in `s` are those of `x`, so they decode to `x`.
pub proof fn lemma_i32_at_encoded(s: Seq<u8>, pos: int, x: i32)
    requires
        0 <= pos,
        pos + 4 <= s.len(),
        s.subrange(pos, pos + 4) == i32_be_bytes(x),
    ensures
        i32_at(s, pos) == x,
{
    lemma_i32_be_roundtrip(x);
    let b = i32_be_bytes(x);
    assert(s[pos] == b[0]);
    assert(s[pos + 1] == b[1]);
    assert(s[pos + 2] == b[2]);
    assert(s[pos + 3] == b[3]);
}

/// Reads the signed 32-bit big-endian integer at `pos` in `buf`.
pub fn read_i32_be(buf: &[u8], pos: usize) -> (r: i32)
    requires
        pos + 4 <= buf@.len(),
    ensures
        r == i32_at(buf@, pos as int),
        (r as int) % 0x1_0000_0000 == (buf@[pos as int] * 0x100_0000 + buf@[pos + 1] * 0x1_0000
            + buf@[pos + 2] * 0x100 + buf@[pos + 3]) % 0x1_0000_0000,
{
    proof {
        law_i32_from_be_value(buf@[pos as int], buf@[pos + 1], buf@[pos + 2], buf@[pos + 3]);
    }
    let u: u32 = (buf[pos] as u32) * 0x100_0000 + (buf[pos + 1] as u32) * 0x1_0000 + (buf[pos
        + 2] as u32) * 0x100 + (buf[pos + 3] as u32);
    if u >= 0x8000_0000 {
        let low: i32 = (u - 0x8000_0000) as i32;
        low - 0x7fff_ffff - 1
    } else {
        u as i32
    }
}

/// Appends the four big-endian bytes of `x` to `out`.
pub fn push_i32_be(out: &mut Vec<u8>, x: i32)
    ensures
        final(out)@ == old(out)@ + i32_be_bytes(x),
        final(out)@.len() == old(out)@.len() + 4,
        final(out)@.subrange(0, old(out)@.len() as int) == old(out)@,
        ({
            let n = old(out)@.len() as int;
            (final(out)@[n] * 0x100_0000 + final(out)@[n + 1] * 0x1_0000 + final(out)@[n + 2]
                * 0x100 + final(out)@[n + 3]) % 0x1_0000_0000 == (x as int) % 0x1_0000_0000
        }),
{
    proof {
        law_i32_be_bytes_value(x);
    }
    let u: u32 = if x < 0 {
        let shifted: u32 = (x + 0x7fff_ffff + 1) as u32;
        shifted + 0x8000_0000
    } else {
        x as u32
    };
    assert(u == i32_bits(x));
    out.push((u / 0x100_0000) as u8);
    out.push(((u / 0x1_0000) % 0x100) as u8);
    out.push(((u / 0x100) % 0x100) as u8);
    out.push((u % 0x100) as u8);
    assert(out@ =~= old(out)@ + i32_be_bytes(x));
    assert(out@.subrange(0, old(out)@.len() as int) =~= old(out)@);
}

} // verus!
