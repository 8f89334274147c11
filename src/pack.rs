//! Packing of one group of four values at a fixed bit width.
//!
//! A group is a selector byte followed by a payload. The low four bits of the
//! selector give the width code; for the one-bit width the four values ride in
//! the selector's high four bits and the payload is empty. Wider codes store
//! the values in their payload, least significant bits first.

use vstd::prelude::*;

verus! {

/// The largest width code: 32 bits per value.
pub const MAX_CODE: u8 = 6;

/// Bits per value for each width code: 0, 1, 2, 4, 8, 16, 32.
pub open spec fn width(c: u8) -> nat {
    if c == 0 {
        0
    } else if c == 1 {
        1
    } else if c == 2 {
        2
    } else if c == 3 {
        4
    } else if c == 4 {
        8
    } else if c == 5 {
        16
    } else {
        32
    }
}

/// Bytes of payload after the selector, for each width code.
pub open spec fn payload_len(c: u8) -> nat {
    if c <= 1 {
        0
    } else if c == 2 {
        1
    } else if c == 3 {
        2
    } else if c == 4 {
        4
    } else if c == 5 {
        8
    } else {
        16
    }
}

/// `v` can be stored at the width of code `c`.
pub open spec fn fits(v: u32, c: u8) -> bool {
    (v as int) < pow2_int(width(c))
}

/// Two to the power `n`, for the widths in use.
pub open spec fn pow2_int(n: nat) -> int {
    if n == 0 {
        1
    } else if n == 1 {
        2
    } else if n == 2 {
        4
    } else if n == 4 {
        16
    } else if n == 8 {
        256
    } else if n == 16 {
        65536
    } else {
        0x1_0000_0000
    }
}

/// The smallest width code whose width holds `v`.
pub open spec fn code_of(v: u32) -> u8 {
    if v == 0 {
        0
    } else if v < 2 {
        1
    } else if v < 4 {
        2
    } else if v < 16 {
        3
    } else if v < 256 {
        4
    } else if v < 65536 {
        5
    } else {
        6
    }
}

/// The four values of a group all fit the width of code `c`.
pub open spec fn group_fits(g: Seq<u32>, c: u8) -> bool {
    g.len() == 4 && c <= MAX_CODE && fits(g[0], c) && fits(g[1], c) && fits(g[2], c) && fits(
        g[3],
        c,
    )
}

/// The four one-bit values of a group, as the high half of the selector.
pub open spec fn nibble(g: Seq<u32>) -> u32 {
    g[0] | (g[1] << 1u32) | (g[2] << 2u32) | (g[3] << 3u32)
}

/// The selector byte of a group packed with code `c`.
pub open spec fn selector(c: u8, g: Seq<u32>) -> u8 {
    if c == 1 {
        (1u32 | (nibble(g) << 4u32)) as u8
    } else {
        c
    }
}

/// A value as two bytes, least significant first.
pub open spec fn le16(v: u32) -> Seq<u8> {
    seq![v as u8, (v >> 8u32) as u8]
}

/// A value as four bytes, least significant first.
pub open spec fn le32(v: u32) -> Seq<u8> {
    seq![v as u8, (v >> 8u32) as u8, (v >> 16u32) as u8, (v >> 24u32) as u8]
}

/// The payload of a group packed with code `c`.
pub open spec fn payload(c: u8, g: Seq<u32>) -> Seq<u8> {
    if c <= 1 {
        seq![]
    } else if c == 2 {
        seq![(g[0] | (g[1] << 2u32) | (g[2] << 4u32) | (g[3] << 6u32)) as u8]
    } else if c == 3 {
        seq![(g[0] | (g[1] << 4u32)) as u8, (g[2] | (g[3] << 4u32)) as u8]
    } else if c == 4 {
        seq![g[0] as u8, g[1] as u8, g[2] as u8, g[3] as u8]
    } else if c == 5 {
        le16(g[0]) + le16(g[1]) + le16(g[2]) + le16(g[3])
    } else {
        le32(g[0]) + le32(g[1]) + le32(g[2]) + le32(g[3])
    }
}

/// The bytes of a group packed with code `c`: its selector, then its payload.
pub open spec fn packed(c: u8, g: Seq<u32>) -> Seq<u8> {
    seq![selector(c, g)] + payload(c, g)
}

/// A selector byte that the decoder accepts: a known code, with the high
/// half used only by the one-bit width.
pub open spec fn valid_selector(s: u8) -> bool {
    (s & 15u8) <= MAX_CODE && ((s & 15u8) == 1 || (s >> 4u8) == 0)
}

/// The value stored in two bytes, least significant first.
pub open spec fn from_le16(b0: u8, b1: u8) -> u32 {
    (b0 as u32) | ((b1 as u32) << 8u32)
}

/// The value stored in four bytes, least significant first.
pub open spec fn from_le32(b0: u8, b1: u8, b2: u8, b3: u8) -> u32 {
    (b0 as u32) | ((b1 as u32) << 8u32) | ((b2 as u32) << 16u32) | ((b3 as u32) << 24u32)
}

/// Value `k` of a group, read from selector `s` and payload `p`.
pub open spec fn lane(s: u8, p: Seq<u8>, k: int) -> u32 {
    let c = s & 15u8;
    let h = s >> 4u8;
    if c == 0 {
        0
    } else if c == 1 {
        ((h >> (k as u8)) & 1u8) as u32
    } else if c == 2 {
        ((p[0] >> ((2 * k) as u8)) & 3u8) as u32
    } else if c == 3 {
        if k % 2 == 0 {
            (p[k / 2] & 15u8) as u32
        } else {
            (p[k / 2] >> 4u8) as u32
        }
    } else if c == 4 {
        p[k] as u32
    } else if c == 5 {
        from_le16(p[2 * k], p[2 * k + 1])
    } else {
        from_le32(p[4 * k], p[4 * k + 1], p[4 * k + 2], p[4 * k + 3])
    }
}

/// Reads one group from the front of `b`: its four values and the number of
/// bytes it takes, or `None` where the selector is unknown or the bytes end
/// early.
pub open spec fn parse_group(b: Seq<u8>) -> Option<(Seq<u32>, nat)> {
    if b.len() == 0 || !valid_selector(b[0]) {
        None
    } else {
        let n = 1 + payload_len(b[0] & 15u8);
        if b.len() < n {
            None
        } else {
            let p = b.subrange(1, n as int);
            Some((seq![lane(b[0], p, 0), lane(b[0], p, 1), lane(b[0], p, 2), lane(b[0], p, 3)], n))
        }
    }
}

proof fn lemma_bits1(a: u32, b: u32, c: u32, d: u32)
    requires
        a < 2 && b < 2 && c < 2 && d < 2,
    ensures
        ({
            let s = (1u32 | ((a | (b << 1u32) | (c << 2u32) | (d << 3u32)) << 4u32)) as u8;
            let h = s >> 4u8;
            &&& s & 15u8 == 1
            &&& ((h >> 0u8) & 1u8) as u32 == a
            &&& ((h >> 1u8) & 1u8) as u32 == b
            &&& ((h >> 2u8) & 1u8) as u32 == c
            &&& ((h >> 3u8) & 1u8) as u32 == d
        }),
{
    assert({
        let s = (1u32 | ((a | (b << 1u32) | (c << 2u32) | (d << 3u32)) << 4u32)) as u8;
        let h = s >> 4u8;
        &&& s & 15u8 == 1
        &&& ((h >> 0u8) & 1u8) as u32 == a
        &&& ((h >> 1u8) & 1u8) as u32 == b
        &&& ((h >> 2u8) & 1u8) as u32 == c
        &&& ((h >> 3u8) & 1u8) as u32 == d
    }) by (bit_vector)
        requires
            a < 2 && b < 2 && c < 2 && d < 2,
    ;
}

proof fn lemma_bits2(a: u32, b: u32, c: u32, d: u32)
    requires
        a < 4 && b < 4 && c < 4 && d < 4,
    ensures
        ({
            let x = (a | (b << 2u32) | (c << 4u32) | (d << 6u32)) as u8;
            &&& ((x >> 0u8) & 3u8) as u32 == a
            &&& ((x >> 2u8) & 3u8) as u32 == b
            &&& ((x >> 4u8) & 3u8) as u32 == c
            &&& ((x >> 6u8) & 3u8) as u32 == d
        }),
{
    assert({
        let x = (a | (b << 2u32) | (c << 4u32) | (d << 6u32)) as u8;
        &&& ((x >> 0u8) & 3u8) as u32 == a
        &&& ((x >> 2u8) & 3u8) as u32 == b
        &&& ((x >> 4u8) & 3u8) as u32 == c
        &&& ((x >> 6u8) & 3u8) as u32 == d
    }) by (bit_vector)
        requires
            a < 4 && b < 4 && c < 4 && d < 4,
    ;
}

proof fn lemma_bits4(a: u32, b: u32)
    requires
        a < 16 && b < 16,
    ensures
        ((a | (b << 4u32)) as u8 & 15u8) as u32 == a,
        ((a | (b << 4u32)) as u8 >> 4u8) as u32 == b,
{
    assert(((a | (b << 4u32)) as u8 & 15u8) as u32 == a && ((a | (b << 4u32)) as u8 >> 4u8) as u32
        == b) by (bit_vector)
        requires
            a < 16 && b < 16,
    ;
}

proof fn lemma_bits16(v: u32)
    requires
        v < 65536,
    ensures
        from_le16(v as u8, (v >> 8u32) as u8) == v,
{
    assert(((v as u8) as u32) | ((((v >> 8u32) as u8) as u32) << 8u32) == v) by (bit_vector)
        requires
            v < 65536,
    ;
}

/// Four bytes written least significant first read back as the same value.
pub proof fn lemma_bits32(v: u32)
    ensures
        from_le32(v as u8, (v >> 8u32) as u8, (v >> 16u32) as u8, (v >> 24u32) as u8) == v,
{
    assert(((v as u8) as u32) | ((((v >> 8u32) as u8) as u32) << 8u32) | ((((v >> 16u32) as u8)
        as u32) << 16u32) | ((((v >> 24u32) as u8) as u32) << 24u32) == v) by (bit_vector);
}

proof fn lemma_small_selector(c: u8)
    requires
        c <= MAX_CODE,
    ensures
        c & 15u8 == c,
        c >> 4u8 == 0,
{
    assert(c & 15u8 == c && c >> 4u8 == 0) by (bit_vector)
        requires
            c <= 6,
    ;
}

/// A group packed at a width that holds its values reads back as the same
/// four values, whatever bytes follow it.
pub proof fn lemma_parse_packed(c: u8, g: Seq<u32>, tail: Seq<u8>)
    requires
        group_fits(g, c),
    ensures
        packed(c, g).len() == 1 + payload_len(c),
        parse_group(packed(c, g) + tail) == Some((g, packed(c, g).len())),
{
    let b = packed(c, g) + tail;
    let s = selector(c, g);
    let n = 1 + payload_len(c);
    if c == 1 {
        lemma_bits1(g[0], g[1], g[2], g[3]);
    } else {
        lemma_small_selector(c);
    }
    assert(b[0] == s);
    assert(s & 15u8 == c);
    let p = b.subrange(1, n as int);
    assert(p =~= payload(c, g));
    if c == 2 {
        lemma_bits2(g[0], g[1], g[2], g[3]);
    } else if c == 3 {
        lemma_bits4(g[0], g[1]);
        lemma_bits4(g[2], g[3]);
    } else if c == 4 {
    } else if c == 5 {
        lemma_bits16(g[0]);
        lemma_bits16(g[1]);
        lemma_bits16(g[2]);
        lemma_bits16(g[3]);
    } else if c == 6 {
        lemma_bits32(g[0]);
        lemma_bits32(g[1]);
        lemma_bits32(g[2]);
        lemma_bits32(g[3]);
    }
    let l = seq![lane(s, p, 0), lane(s, p, 1), lane(s, p, 2), lane(s, p, 3)];
    assert(l =~= g);
}

/// Bytes of payload after a selector with code `c`.
pub fn payload_bytes(c: u8) -> (r: usize)
    requires
        c <= MAX_CODE,
    ensures
        r == payload_len(c),
{
    if c <= 1 {
        0
    } else if c == 2 {
        1
    } else if c == 3 {
        2
    } else if c == 4 {
        4
    } else if c == 5 {
        8
    } else {
        16
    }
}

/// Appends a value as two bytes, least significant first.
fn push_le16(out: &mut Vec<u8>, v: u32)
    ensures
        final(out)@ == old(out)@ + le16(v),
{
    out.push(v as u8);
    out.push((v >> 8u32) as u8);
    assert(final(out)@ =~= old(out)@ + le16(v));
}

/// Appends a value as four bytes, least significant first.
pub fn push_le32(out: &mut Vec<u8>, v: u32)
    ensures
        final(out)@ == old(out)@ + le32(v),
{
    out.push(v as u8);
    out.push((v >> 8u32) as u8);
    out.push((v >> 16u32) as u8);
    out.push((v >> 24u32) as u8);
    assert(final(out)@ =~= old(out)@ + le32(v));
}

/// Appends the group `[a, b, c, d]` packed with width code `code`.
pub fn write_group(out: &mut Vec<u8>, code: u8, a: u32, b: u32, c: u32, d: u32)
    requires
        group_fits(seq![a, b, c, d], code),
    ensures
        final(out)@ == old(out)@ + packed(code, seq![a, b, c, d]),
{
    let ghost g = seq![a, b, c, d];
    if code == 1 {
        let nib: u32 = a | (b << 1u32) | (c << 2u32) | (d << 3u32);
        out.push((1u32 | (nib << 4u32)) as u8);
    } else {
        out.push(code);
    }
    let ghost start = out@;
    assert(start =~= old(out)@ + seq![selector(code, g)]);
    if code == 2 {
        out.push((a | (b << 2u32) | (c << 4u32) | (d << 6u32)) as u8);
    } else if code == 3 {
        out.push((a | (b << 4u32)) as u8);
        out.push((c | (d << 4u32)) as u8);
    } else if code == 4 {
        out.push(a as u8);
        out.push(b as u8);
        out.push(c as u8);
        out.push(d as u8);
    } else if code == 5 {
        push_le16(out, a);
        push_le16(out, b);
        push_le16(out, c);
        push_le16(out, d);
    } else if code == 6 {
        push_le32(out, a);
        push_le32(out, b);
        push_le32(out, c);
        push_le32(out, d);
    }
    assert(out@ =~= start + payload(code, g));
    assert(out@ =~= old(out)@ + packed(code, g));
}

/// Reads the value stored at `i` in four bytes, least significant first.
pub fn read_le32(data: &[u8], i: usize) -> (r: u32)
    requires
        i + 4 <= data@.len(),
    ensures
        r == from_le32(data@[i as int], data@[i + 1], data@[i + 2], data@[i + 3]),
{
    (data[i] as u32) | ((data[i + 1] as u32) << 8u32) | ((data[i + 2] as u32) << 16u32) | ((data[i
        + 3] as u32) << 24u32)
}

/// Reads one group starting at `pos` and appends its four values to `out`.
/// Returns the position after the group, or `None` (with `out` unchanged)
/// where the selector is unknown or the bytes end early.
pub fn read_group(data: &[u8], pos: usize, out: &mut Vec<u32>) -> (r: Option<usize>)
    requires
        pos <= data@.len(),
    ensures
        match parse_group(data@.skip(pos as int)) {
            None => r is None && final(out)@ == old(out)@,
            Some((g, n)) => pos + n <= data@.len() && r == Some((pos + n) as usize) && final(out)@
                == old(out)@ + g,
        },
{
    let ghost b = data@.skip(pos as int);
    if pos == data.len() {
        return None;
    }
    let s = data[pos];
    assert(b[0] == s);
    let c = s & 15u8;
    let h = s >> 4u8;
    if !(c <= MAX_CODE && (c == 1 || h == 0)) {
        return None;
    }
    let n = 1 + payload_bytes(c);
    if data.len() - pos < n {
        return None;
    }
    let ghost p = b.subrange(1, n as int);
    let q = pos + 1;
    assert forall|i: int| 0 <= i < n - 1 implies p[i] == data@[q + i] by {}
    let (v0, v1, v2, v3): (u32, u32, u32, u32) = if c == 0 {
        (0, 0, 0, 0)
    } else if c == 1 {
        ((h & 1u8) as u32, ((h >> 1u8) & 1u8) as u32, ((h >> 2u8) & 1u8) as u32, ((h >> 3u8) & 1u8)
            as u32)
    } else if c == 2 {
        let x = data[q];
        ((x & 3u8) as u32, ((x >> 2u8) & 3u8) as u32, ((x >> 4u8) & 3u8) as u32, ((x >> 6u8) & 3u8)
            as u32)
    } else if c == 3 {
        let x = data[q];
        let y = data[q + 1];
        ((x & 15u8) as u32, (x >> 4u8) as u32, (y & 15u8) as u32, (y >> 4u8) as u32)
    } else if c == 4 {
        (data[q] as u32, data[q + 1] as u32, data[q + 2] as u32, data[q + 3] as u32)
    } else if c == 5 {
        (
            (data[q] as u32) | ((data[q + 1] as u32) << 8u32),
            (data[q + 2] as u32) | ((data[q + 3] as u32) << 8u32),
            (data[q + 4] as u32) | ((data[q + 5] as u32) << 8u32),
            (data[q + 6] as u32) | ((data[q + 7] as u32) << 8u32),
        )
    } else {
        (read_le32(data, q), read_le32(data, q + 4), read_le32(data, q + 8), read_le32(data, q + 12))
    };
    proof {
        assert(forall|x: u8| #[trigger] (x >> 0u8) == x) by (bit_vector);
    }
    assert(v0 == lane(s, p, 0));
    assert(v1 == lane(s, p, 1));
    assert(v2 == lane(s, p, 2));
    assert(v3 == lane(s, p, 3));
    out.push(v0);
    out.push(v1);
    out.push(v2);
    out.push(v3);
    assert(final(out)@ =~= old(out)@ + seq![v0, v1, v2, v3]);
    Some(pos + n)
}

} // verus!
