//! The block codec for gap sequences.
//!
//! A stream opens with a header of eight bytes: the number of values and the
//! number of exception entries, four bytes each, least significant first.
//! Then comes a run of groups, one for every four values (the last group is
//! padded with zeros), and then the exception list. Each group is packed at
//! the narrowest width that holds its values. Where one value of a group is so
//! much larger than the rest that storing it apart is cheaper, the group is
//! packed with a zero in its place, and the value goes to the exception list as
//! an eight-byte entry: its position and its value, four bytes each, least
//! significant first. The list ends the stream.

use vstd::prelude::*;
use vstd::slice::slice_subrange;

use crate::error::CodecError;
use crate::pack::{
    code_of, fits, from_le32, group_fits, lemma_bits32, lemma_parse_packed, le32, packed,
    parse_group, payload_bytes, payload_len, push_le32, read_group, read_le32, write_group,
    MAX_CODE,
};

verus! {

/// Bytes in one exception entry.
pub const ENTRY_BYTES: usize = 8;

/// Value `i` of `vals`, or zero past its end.
pub open spec fn at(vals: Seq<u32>, i: int) -> u32 {
    if 0 <= i < vals.len() {
        vals[i]
    } else {
        0
    }
}

/// The number of groups for `n` values.
pub open spec fn num_groups(n: nat) -> nat {
    (n + 3) / 4
}

/// Group `j` of `vals`, padded with zeros past the end.
pub open spec fn group_of(vals: Seq<u32>, j: int) -> Seq<u32> {
    seq![at(vals, 4 * j), at(vals, 4 * j + 1), at(vals, 4 * j + 2), at(vals, 4 * j + 3)]
}

/// The larger of two values.
pub open spec fn max2(a: u32, b: u32) -> u32 {
    if a < b {
        b
    } else {
        a
    }
}

/// The largest of four values.
pub open spec fn max4(g: Seq<u32>) -> u32 {
    max2(max2(g[0], g[1]), max2(g[2], g[3]))
}

/// The first place of a group that holds its largest value.
pub open spec fn top_lane(g: Seq<u32>) -> int {
    if g[0] == max4(g) {
        0
    } else if g[1] == max4(g) {
        1
    } else if g[2] == max4(g) {
        2
    } else {
        3
    }
}

/// A group with its largest value replaced by zero.
pub open spec fn without_top(g: Seq<u32>) -> Seq<u32> {
    g.update(top_lane(g), 0)
}

/// Storing the largest value apart costs less than packing it.
pub open spec fn takes_exception(g: Seq<u32>) -> bool {
    payload_len(code_of(max4(without_top(g)))) + ENTRY_BYTES < payload_len(code_of(max4(g)))
}

/// The values that are packed for a group.
pub open spec fn stored(g: Seq<u32>) -> Seq<u32> {
    if takes_exception(g) {
        without_top(g)
    } else {
        g
    }
}

/// The width code a group is packed with.
pub open spec fn group_code(g: Seq<u32>) -> u8 {
    code_of(max4(stored(g)))
}

/// The bytes of the first `k` groups of `vals`.
pub open spec fn encoded_groups(vals: Seq<u32>, k: nat) -> Seq<u8>
    decreases k,
{
    if k == 0 {
        seq![]
    } else {
        let g = group_of(vals, k - 1);
        encoded_groups(vals, (k - 1) as nat) + packed(group_code(g), stored(g))
    }
}

/// The exception entries of the first `k` groups of `vals`, as
/// (position, value) pairs.
pub open spec fn exceptions(vals: Seq<u32>, k: nat) -> Seq<(u32, u32)>
    decreases k,
{
    if k == 0 {
        seq![]
    } else {
        let g = group_of(vals, k - 1);
        if takes_exception(g) {
            exceptions(vals, (k - 1) as nat).push(
                ((4 * (k - 1) + top_lane(g)) as u32, g[top_lane(g)]),
            )
        } else {
            exceptions(vals, (k - 1) as nat)
        }
    }
}

/// The bytes of a list of exception entries.
pub open spec fn entry_bytes(es: Seq<(u32, u32)>) -> Seq<u8>
    decreases es.len(),
{
    if es.len() == 0 {
        seq![]
    } else {
        entry_bytes(es.drop_last()) + le32(es.last().0) + le32(es.last().1)
    }
}

/// The exception entries of all groups of `vals`.
pub open spec fn all_exceptions(vals: Seq<u32>) -> Seq<(u32, u32)> {
    exceptions(vals, num_groups(vals.len()))
}

/// The groups and exception list that encode `vals`, without the header.
pub open spec fn encode_body(vals: Seq<u32>) -> Seq<u8> {
    encoded_groups(vals, num_groups(vals.len())) + entry_bytes(all_exceptions(vals))
}

/// The stream that encodes `vals`: the header, then the body.
pub open spec fn encode_stream(vals: Seq<u32>) -> Seq<u8> {
    le32(vals.len() as u32) + le32(all_exceptions(vals).len() as u32) + encode_body(vals)
}

/// The smallest width code whose width holds `v`.
fn width_code(v: u32) -> (r: u8)
    ensures
        r == code_of(v),
{
    if v == 0 {
        0
    } else if v < 2 {
        1
    } else if v < 4 {
        2
    } else if v < 16 {
        3
    } else if v < 256 {
        4
    } else if v < 65536 {
        5
    } else {
        6
    }
}

fn max_u32(a: u32, b: u32) -> (r: u32)
    ensures
        r == max2(a, b),
{
    if a < b {
        b
    } else {
        a
    }
}

proof fn lemma_code_fits(v: u32, m: u32)
    requires
        v <= m,
    ensures
        fits(v, code_of(m)),
        code_of(m) <= MAX_CODE,
{
}

/// Appends group `j` of `vals` (which starts at `base`) to `out`, and its
/// exception entry, if it takes one, to `ex`.
fn push_group(vals: &[u32], j: usize, base: usize, out: &mut Vec<u8>, ex: &mut Vec<u8>) -> (split:
    bool)
    requires
        base == 4 * j,
        base < vals@.len() <= u32::MAX,
    ensures
        split == takes_exception(group_of(vals@, j as int)),
        ({
            let g = group_of(vals@, j as int);
            &&& final(out)@ == old(out)@ + packed(group_code(g), stored(g))
            &&& final(ex)@ == if takes_exception(g) {
                old(ex)@ + le32((base + top_lane(g)) as u32) + le32(g[top_lane(g)])
            } else {
                old(ex)@
            }
        }),
{
    let n = vals.len();
    let ghost g = group_of(vals@, j as int);
    let a = vals[base];
    let b = if n - base > 1 { vals[base + 1] } else { 0 };
    let c = if n - base > 2 { vals[base + 2] } else { 0 };
    let d = if n - base > 3 { vals[base + 3] } else { 0 };
    assert(g =~= seq![a, b, c, d]);
    let mx = max_u32(max_u32(a, b), max_u32(c, d));
    let top: usize = if a == mx {
        0
    } else if b == mx {
        1
    } else if c == mx {
        2
    } else {
        3
    };
    assert(top == top_lane(g));
    let ra = if top == 0 { 0 } else { a };
    let rb = if top == 1 { 0 } else { b };
    let rc = if top == 2 { 0 } else { c };
    let rd = if top == 3 { 0 } else { d };
    assert(without_top(g) =~= seq![ra, rb, rc, rd]);
    let rmx = max_u32(max_u32(ra, rb), max_u32(rc, rd));
    let split = payload_bytes(width_code(rmx)) + ENTRY_BYTES < payload_bytes(width_code(mx));
    assert(split == takes_exception(g));
    let (sa, sb, sc, sd, smx) = if split {
        (ra, rb, rc, rd, rmx)
    } else {
        (a, b, c, d, mx)
    };
    assert(stored(g) =~= seq![sa, sb, sc, sd]);
    let code = width_code(smx);
    proof {
        lemma_code_fits(sa, smx);
        lemma_code_fits(sb, smx);
        lemma_code_fits(sc, smx);
        lemma_code_fits(sd, smx);
    }
    write_group(out, code, sa, sb, sc, sd);
    if split {
        push_le32(ex, (base + top) as u32);
        push_le32(ex, mx);
    }
    split
}

/// Encodes a gap sequence without the header, and returns the number of
/// exception entries beside it.
fn encode_body_of(vals: &[u32]) -> (r: (Vec<u8>, u32))
    requires
        vals@.len() <= u32::MAX,
    ensures
        r.0@ == encode_body(vals@),
        r.1 == all_exceptions(vals@).len(),
{
    let mut ne: u32 = 0;
    let n = vals.len();
    let mut out: Vec<u8> = Vec::new();
    let mut ex: Vec<u8> = Vec::new();
    let mut j: usize = 0;
    let mut base: usize = 0;
    if n > 0 {
        loop
            invariant_except_break
                base == 4 * j,
                base < n,
                out@ == encoded_groups(vals@, j as nat),
                ex@ == entry_bytes(exceptions(vals@, j as nat)),
                ne == exceptions(vals@, j as nat).len(),
                ne <= j,
            invariant
                n == vals@.len() <= u32::MAX,
            ensures
                out@ == encoded_groups(vals@, num_groups(n as nat)),
                ex@ == entry_bytes(exceptions(vals@, num_groups(n as nat))),
                ne == exceptions(vals@, num_groups(n as nat)).len(),
            decreases n - base,
        {
            let split = push_group(vals, j, base, &mut out, &mut ex);
            if split {
                ne = ne + 1;
            }
            proof {
                let g = group_of(vals@, j as int);
                let es = exceptions(vals@, (j + 1) as nat);
                if takes_exception(g) {
                    assert(es.drop_last() =~= exceptions(vals@, j as nat));
                }
            }
            if n - base <= 4 {
                assert(j + 1 == num_groups(n as nat));
                break;
            }
            j += 1;
            base += 4;
        }
    }
    out.append(&mut ex);
    (out, ne)
}

proof fn lemma_exceptions_len(vals: Seq<u32>, k: nat)
    ensures
        exceptions(vals, k).len() <= k,
    decreases k,
{
    if k > 0 {
        lemma_exceptions_len(vals, (k - 1) as nat);
    }
}

/// Encodes a gap sequence as a stream.
pub fn encode_deltas(vals: &[u32]) -> (r: Vec<u8>)
    requires
        vals@.len() <= u32::MAX,
    ensures
        r@ == encode_stream(vals@),
{
    let (mut body, ne) = encode_body_of(vals);
    let mut out: Vec<u8> = Vec::new();
    push_le32(&mut out, vals.len() as u32);
    push_le32(&mut out, ne);
    out.append(&mut body);
    out
}

/// Reads `k` groups from the front of `b`: their values and the number of
/// bytes they take, or `None` where one of them cannot be read.
pub open spec fn parse_groups(b: Seq<u8>, k: nat) -> Option<(Seq<u32>, nat)>
    decreases k,
{
    if k == 0 {
        Some((seq![], 0))
    } else {
        match parse_groups(b, (k - 1) as nat) {
            None => None,
            Some((vs, used)) => match parse_group(b.skip(used as int)) {
                None => None,
                Some((g, m)) => Some((vs + g, used + m)),
            },
        }
    }
}

/// Reads the exception list: eight bytes per entry, up to the end.
pub open spec fn parse_entries(r: Seq<u8>) -> Option<Seq<(u32, u32)>> {
    if r.len() % 8 != 0 {
        None
    } else {
        Some(
            Seq::new(
                r.len() / 8,
                |i: int|
                    (
                        from_le32(r[8 * i], r[8 * i + 1], r[8 * i + 2], r[8 * i + 3]),
                        from_le32(r[8 * i + 4], r[8 * i + 5], r[8 * i + 6], r[8 * i + 7]),
                    ),
            ),
        )
    }
}

/// Writes each entry's value at its position, in order; `None` where a
/// position lies outside `vals`.
pub open spec fn patch(vals: Seq<u32>, es: Seq<(u32, u32)>) -> Option<Seq<u32>>
    decreases es.len(),
{
    if es.len() == 0 {
        Some(vals)
    } else {
        match patch(vals, es.drop_last()) {
            None => None,
            Some(v) => if (es.last().0 as int) < v.len() {
                Some(v.update(es.last().0 as int, es.last().1))
            } else {
                None
            },
        }
    }
}

/// The `n` values that the groups and exception list in `b` hold, where the
/// list has `ne` entries; `None` where they are malformed or do not use up `b`
/// exactly.
pub open spec fn decode_body(b: Seq<u8>, n: nat, ne: nat) -> Option<Seq<u32>> {
    match parse_groups(b, num_groups(n)) {
        None => None,
        Some((vs, used)) => if b.len() - used != 8 * ne {
            None
        } else {
            match parse_entries(b.skip(used as int)) {
                None => None,
                Some(es) => patch(vs.take(n as int), es),
            }
        },
    }
}

/// The `n` values that stream `b` holds, or `None` where it is malformed,
/// cut short, or its header declares another count. Nothing is read for
/// `n == 0`.
pub open spec fn decode_stream(b: Seq<u8>, n: nat) -> Option<Seq<u32>> {
    if n == 0 {
        Some(seq![])
    } else if b.len() < 8 || from_le32(b[0], b[1], b[2], b[3]) != n {
        None
    } else {
        decode_body(b.skip(8), n, from_le32(b[4], b[5], b[6], b[7]) as nat)
    }
}

proof fn lemma_parse_groups_len(b: Seq<u8>, k: nat)
    ensures
        parse_groups(b, k) matches Some((vs, used)) ==> vs.len() == 4 * k && used <= b.len(),
    decreases k,
{
    if k > 0 {
        lemma_parse_groups_len(b, (k - 1) as nat);
    }
}

proof fn lemma_parse_groups_none(b: Seq<u8>, k: nat, m: nat)
    requires
        k <= m,
        parse_groups(b, k) is None,
    ensures
        parse_groups(b, m) is None,
    decreases m - k,
{
    if k < m {
        lemma_parse_groups_none(b, k, (m - 1) as nat);
    }
}

proof fn lemma_patch_none(vals: Seq<u32>, es: Seq<(u32, u32)>, i: int)
    requires
        0 <= i <= es.len(),
        patch(vals, es.take(i)) is None,
    ensures
        patch(vals, es) is None,
    decreases es.len(),
{
    if i == es.len() {
        assert(es.take(i) =~= es);
    } else {
        assert(es.drop_last().take(i) =~= es.take(i));
        lemma_patch_none(vals, es.drop_last(), i);
    }
}

/// Decodes `count` values from the body of a stream whose exception list has
/// `ne` entries.
fn decode_body_of(data: &[u8], count: usize, ne: u32) -> (r: Result<Vec<u32>, CodecError>)
    requires
        count > 0,
    ensures
        match decode_body(data@, count as nat, ne as nat) {
            Some(v) => r is Ok && r.unwrap()@ == v,
            None => r == Err::<Vec<u32>, CodecError>(CodecError::DecodeCorruption),
        },
        r is Ok ==> r.unwrap()@.len() == count,
{
    let mut out: Vec<u32> = Vec::new();
    let len = data.len();
    let ghost groups = num_groups(count as nat);
    let mut pos: usize = 0;
    let mut left: usize = count;
    let ghost mut j: nat = 0;
    while left > 0
        invariant
            groups == num_groups(count as nat),
            len == data@.len(),
            pos <= data@.len(),
            left > 0 ==> 4 * j + left == count,
            left == 0 ==> j == groups,
            parse_groups(data@, j) == Some((out@, pos as nat)),
        decreases left,
    {
        let ghost prev = out@;
        let ghost parsed = parse_group(data@.skip(pos as int));
        let got = read_group(data, pos, &mut out);
        let next = match got {
            Some(p) => p,
            None => {
                proof {
                    lemma_parse_groups_none(data@, j + 1, groups);
                }
                return Err(CodecError::DecodeCorruption);
            },
        };
        proof {
            let (g, m) = parsed.unwrap();
            assert(out@ == prev + g);
            assert(pos + m <= data@.len());
            assert(next as int == pos + m);
            assert(parse_groups(data@, (j + 1) as nat) == Some((prev + g, (pos + m) as nat)));
        }
        pos = next;
        proof {
            j = j + 1;
        }
        if left <= 4 {
            left = 0;
        } else {
            left = left - 4;
        }
    }
    proof {
        lemma_parse_groups_len(data@, groups);
    }
    let ghost vs = out@;
    out.truncate(count);
    assert(out@ == vs.take(count as int));
    let ghost x = out@;
    let ghost r = data@.skip(pos as int);
    let rem = data.len() - pos;
    if rem % ENTRY_BYTES != 0 || rem / ENTRY_BYTES != ne as usize {
        return Err(CodecError::DecodeCorruption);
    }
    let ghost es = parse_entries(r).unwrap();
    let mut off: usize = pos;
    let ghost mut i: int = 0;
    while off < data.len()
        invariant
            pos <= off <= data@.len(),
            r == data@.skip(pos as int),
            count > 0,
            groups == num_groups(count as nat),
            parse_groups(data@, groups) == Some((vs, pos as nat)),
            x == vs.take(count as int),
            parse_entries(r) == Some(es),
            (data@.len() - off) % 8 == 0,
            off == pos + 8 * i,
            0 <= i <= es.len(),
            es.len() * 8 == data@.len() - pos,
            patch(x, es.take(i)) == Some(out@),
            out@.len() == count,
        decreases data@.len() - off,
    {
        let place = read_le32(data, off) as usize;
        let v = read_le32(data, off + 4);
        assert(es[i] == (place as u32, v));
        assert(es.take(i + 1).drop_last() =~= es.take(i));
        if place >= count {
            proof {
                assert(es.take(i + 1).last() == es[i]);
                lemma_patch_none(x, es, i + 1);
            }
            return Err(CodecError::DecodeCorruption);
        }
        out.set(place, v);
        off = off + 8;
        proof {
            i = i + 1;
        }
    }
    assert(es.take(i) =~= es);
    Ok(out)
}

/// Decodes `count` values from a stream, failing with `DecodeCorruption`
/// where the stream is cut short or malformed, or declares another count.
pub fn decode_deltas(data: &[u8], count: usize) -> (r: Result<Vec<u32>, CodecError>)
    ensures
        match decode_stream(data@, count as nat) {
            Some(v) => r is Ok && r.unwrap()@ == v,
            None => r == Err::<Vec<u32>, CodecError>(CodecError::DecodeCorruption),
        },
        r is Ok ==> r.unwrap()@.len() == count,
{
    if count == 0 {
        return Ok(Vec::new());
    }
    let len = data.len();
    if len < 8 || read_le32(data, 0) as usize != count {
        return Err(CodecError::DecodeCorruption);
    }
    let ne = read_le32(data, 4);
    let body = slice_subrange(data, 8, len);
    assert(body@ =~= data@.skip(8));
    decode_body_of(body, count, ne)
}

/// The values packed for the first `k` groups of `vals`.
pub open spec fn stored_groups(vals: Seq<u32>, k: nat) -> Seq<u32>
    decreases k,
{
    if k == 0 {
        seq![]
    } else {
        stored_groups(vals, (k - 1) as nat) + stored(group_of(vals, k - 1))
    }
}

/// The first `4 * k` values of `vals`, padded with zeros past its end.
pub open spec fn padded(vals: Seq<u32>, k: nat) -> Seq<u32> {
    Seq::new(4 * k, |i: int| at(vals, i))
}

/// The values packed for a group fit the width it is packed with.
proof fn lemma_stored_fits(g: Seq<u32>)
    requires
        g.len() == 4,
    ensures
        group_fits(stored(g), group_code(g)),
        packed(group_code(g), stored(g)).len() == 1 + payload_len(group_code(g)),
{
    let s = stored(g);
    let m = max4(s);
    lemma_code_fits(s[0], m);
    lemma_code_fits(s[1], m);
    lemma_code_fits(s[2], m);
    lemma_code_fits(s[3], m);
    lemma_parse_packed(group_code(g), s, seq![]);
    assert(packed(group_code(g), s) + seq![] =~= packed(group_code(g), s));
}

proof fn lemma_parse_encoded_groups(vals: Seq<u32>, k: nat, tail: Seq<u8>)
    ensures
        parse_groups(encoded_groups(vals, k) + tail, k) == Some(
            (stored_groups(vals, k), encoded_groups(vals, k).len()),
        ),
        stored_groups(vals, k).len() == 4 * k,
    decreases k,
{
    if k > 0 {
        let k1 = (k - 1) as nat;
        let g = group_of(vals, k1 as int);
        let pg = packed(group_code(g), stored(g));
        lemma_parse_encoded_groups(vals, k1, pg + tail);
        assert(encoded_groups(vals, k) + tail =~= encoded_groups(vals, k1) + (pg + tail));
        assert((encoded_groups(vals, k) + tail).skip(encoded_groups(vals, k1).len() as int) =~= pg
            + tail);
        lemma_stored_fits(g);
        lemma_parse_packed(group_code(g), stored(g), tail);
    } else {
        assert(encoded_groups(vals, k) + tail =~= tail);
    }
}

proof fn lemma_entry_bytes_layout(es: Seq<(u32, u32)>)
    ensures
        entry_bytes(es).len() == 8 * es.len(),
        forall|i: int, t: int|
            0 <= i < es.len() && 0 <= t < 8 ==> #[trigger] entry_bytes(es)[8 * i + t] == (le32(
                es[i].0,
            ) + le32(es[i].1))[t],
    decreases es.len(),
{
    if es.len() > 0 {
        let init = es.drop_last();
        lemma_entry_bytes_layout(init);
        let b = entry_bytes(es);
        assert forall|i: int, t: int| 0 <= i < es.len() && 0 <= t < 8 implies #[trigger] b[8 * i
            + t] == (le32(es[i].0) + le32(es[i].1))[t] by {
            if i < init.len() {
                assert(init[i] == es[i]);
                assert(b[8 * i + t] == entry_bytes(init)[8 * i + t]);
            }
        }
    }
}

proof fn lemma_parse_entry_bytes(es: Seq<(u32, u32)>)
    ensures
        parse_entries(entry_bytes(es)) == Some(es),
{
    lemma_entry_bytes_layout(es);
    let b = entry_bytes(es);
    assert(b.len() % 8 == 0);
    let got = parse_entries(b).unwrap();
    assert forall|i: int| 0 <= i < es.len() implies got[i] == es[i] by {
        assert(b[8 * i + 0] == (le32(es[i].0) + le32(es[i].1))[0]);
        assert(b[8 * i + 1] == (le32(es[i].0) + le32(es[i].1))[1]);
        assert(b[8 * i + 2] == (le32(es[i].0) + le32(es[i].1))[2]);
        assert(b[8 * i + 3] == (le32(es[i].0) + le32(es[i].1))[3]);
        assert(b[8 * i + 4] == (le32(es[i].0) + le32(es[i].1))[4]);
        assert(b[8 * i + 5] == (le32(es[i].0) + le32(es[i].1))[5]);
        assert(b[8 * i + 6] == (le32(es[i].0) + le32(es[i].1))[6]);
        assert(b[8 * i + 7] == (le32(es[i].0) + le32(es[i].1))[7]);
        lemma_bits32(es[i].0);
        lemma_bits32(es[i].1);
    }
    assert(got =~= es);
}

/// Patching a sequence with entries that all lie in its front part leaves
/// whatever follows that part alone.
proof fn lemma_patch_append(x: Seq<u32>, y: Seq<u32>, es: Seq<(u32, u32)>)
    requires
        forall|i: int| 0 <= i < es.len() ==> (#[trigger] es[i].0 as int) < x.len(),
    ensures
        patch(x, es) is Some,
        patch(x + y, es) == Some(patch(x, es).unwrap() + y),
        patch(x, es).unwrap().len() == x.len(),
    decreases es.len(),
{
    if es.len() > 0 {
        let init = es.drop_last();
        assert forall|i: int| 0 <= i < init.len() implies (#[trigger] init[i].0 as int)
            < x.len() by {
            assert(init[i] == es[i]);
        }
        lemma_patch_append(x, y, init);
        let v = patch(x, init).unwrap();
        assert(es.last() == es[es.len() - 1]);
        assert((v + y).update(es.last().0 as int, es.last().1) =~= v.update(
            es.last().0 as int,
            es.last().1,
        ) + y);
    }
}

proof fn lemma_top_lane(g: Seq<u32>)
    requires
        g.len() == 4,
    ensures
        0 <= top_lane(g) < 4,
        g[top_lane(g)] == max4(g),
        takes_exception(g) ==> max4(g) >= 65536,
{
}

/// Group `j` holds the values at `4 * j .. 4 * j + 4`.
proof fn lemma_group_of(vals: Seq<u32>, j: int, t: int)
    requires
        0 <= t < 4,
    ensures
        group_of(vals, j)[t] == at(vals, 4 * j + t),
{
}

proof fn lemma_exception_entry(vals: Seq<u32>, k1: nat)
    requires
        vals.len() <= u32::MAX,
        takes_exception(group_of(vals, k1 as int)),
    ensures
        ({
            let g = group_of(vals, k1 as int);
            let p = 4 * k1 + top_lane(g);
            &&& p < vals.len()
            &&& p < 4 * k1 + 4
            &&& ((p as u32) as int) == p
            &&& g[top_lane(g)] == vals[p]
        }),
{
    let g = group_of(vals, k1 as int);
    lemma_top_lane(g);
    lemma_group_of(vals, k1 as int, top_lane(g));
}

proof fn lemma_exceptions_bounds(vals: Seq<u32>, k: nat)
    requires
        vals.len() <= u32::MAX,
    ensures
        forall|i: int|
            0 <= i < exceptions(vals, k).len() ==> (#[trigger] exceptions(vals, k)[i].0 as int)
                < 4 * k && (exceptions(vals, k)[i].0 as int) < vals.len(),
    decreases k,
{
    if k > 0 {
        let k1 = (k - 1) as nat;
        lemma_exceptions_bounds(vals, k1);
        let g = group_of(vals, k1 as int);
        let es = exceptions(vals, k);
        let e0 = exceptions(vals, k1);
        if takes_exception(g) {
            lemma_exception_entry(vals, k1);
            assert forall|i: int| 0 <= i < es.len() implies (#[trigger] es[i].0 as int) < 4 * k
                && (es[i].0 as int) < vals.len() by {
                if i < es.len() - 1 {
                    assert(es[i] == e0[i]);
                }
            }
        } else {
            assert(es == e0);
            assert forall|i: int| 0 <= i < es.len() implies (#[trigger] es[i].0 as int) < 4 * k
                && (es[i].0 as int) < vals.len() by {
                assert(es[i] == e0[i]);
            }
        }
    }
}

proof fn lemma_patch_step(vals: Seq<u32>, k1: nat)
    requires
        vals.len() <= u32::MAX,
        patch(stored_groups(vals, k1), exceptions(vals, k1)) == Some(padded(vals, k1)),
    ensures
        patch(stored_groups(vals, k1 + 1), exceptions(vals, k1 + 1)) == Some(padded(vals, k1 + 1)),
{
    let k = k1 + 1;
    lemma_exceptions_bounds(vals, k1);
    lemma_parse_encoded_groups(vals, k1, seq![]);
    let g = group_of(vals, k1 as int);
    let e0 = exceptions(vals, k1);
    lemma_patch_append(stored_groups(vals, k1), stored(g), e0);
    let p1 = padded(vals, k1) + stored(g);
    assert(stored_groups(vals, k) == stored_groups(vals, k1) + stored(g));
    assert(patch(stored_groups(vals, k), e0) == Some(p1));
    if takes_exception(g) {
        lemma_exception_entry(vals, k1);
        lemma_top_lane(g);
        let es = exceptions(vals, k);
        assert(es.drop_last() =~= e0);
        let pos = 4 * k1 + top_lane(g);
        assert(es.last() == (pos as u32, g[top_lane(g)]));
        assert forall|i: int| 0 <= i < 4 * k implies #[trigger] p1.update(pos, g[top_lane(g)])[i]
            == padded(vals, k)[i] by {
            if i >= 4 * k1 {
                lemma_group_of(vals, k1 as int, i - 4 * k1);
            }
        }
        assert(p1.update(pos, g[top_lane(g)]) =~= padded(vals, k));
    } else {
        assert forall|i: int| 0 <= i < 4 * k implies #[trigger] p1[i] == padded(vals, k)[i] by {
            if i >= 4 * k1 {
                lemma_group_of(vals, k1 as int, i - 4 * k1);
            }
        }
        assert(p1 =~= padded(vals, k));
    }
}

proof fn lemma_patch_groups(vals: Seq<u32>, k: nat)
    requires
        vals.len() <= u32::MAX,
    ensures
        patch(stored_groups(vals, k), exceptions(vals, k)) == Some(padded(vals, k)),
    decreases k,
{
    if k == 0 {
        assert(padded(vals, k) =~= seq![]);
    } else {
        lemma_patch_groups(vals, (k - 1) as nat);
        lemma_patch_step(vals, (k - 1) as nat);
    }
}

proof fn lemma_body_round_trip(vals: Seq<u32>)
    requires
        0 < vals.len() <= u32::MAX,
    ensures
        decode_body(encode_body(vals), vals.len(), all_exceptions(vals).len()) == Some(vals),
{
    let n = vals.len();
    let k = num_groups(n);
    let es = exceptions(vals, k);
    let eb = entry_bytes(es);
    let enc = encode_body(vals);
    lemma_parse_encoded_groups(vals, k, eb);
    assert(enc.skip(encoded_groups(vals, k).len() as int) =~= eb);
    lemma_entry_bytes_layout(es);
    lemma_parse_entry_bytes(es);
    let x = stored_groups(vals, k);
    lemma_exceptions_bounds(vals, k);
    lemma_patch_groups(vals, k);
    lemma_patch_append(x.take(n as int), x.skip(n as int), es);
    assert(x.take(n as int) + x.skip(n as int) =~= x);
    let v = patch(x.take(n as int), es).unwrap();
    assert(padded(vals, k) == v + x.skip(n as int));
    assert(v =~= vals) by {
        assert forall|i: int| 0 <= i < n implies v[i] == vals[i] by {
            assert(padded(vals, k)[i] == v[i]);
        }
    }
}

/// Decoding the stream that encodes `vals`, with its length as the count,
/// gives back `vals`.
pub proof fn lemma_stream_round_trip(vals: Seq<u32>)
    requires
        vals.len() <= u32::MAX,
    ensures
        decode_stream(encode_stream(vals), vals.len()) == Some(vals),
{
    let n = vals.len();
    if n == 0 {
        assert(vals =~= seq![]);
    } else {
        let es = all_exceptions(vals);
        lemma_exceptions_len(vals, num_groups(n));
        let enc = encode_stream(vals);
        lemma_bits32(n as u32);
        lemma_bits32(es.len() as u32);
        assert(enc.skip(8) =~= encode_body(vals));
        lemma_body_round_trip(vals);
    }
}

/// A stream that holds `n` values cannot serve a request for another count
/// above zero.
pub proof fn lemma_stream_count_mismatch(vals: Seq<u32>, n: nat)
    requires
        vals.len() <= u32::MAX,
        n > 0,
        n != vals.len(),
    ensures
        decode_stream(encode_stream(vals), n) is None,
{
    lemma_bits32(vals.len() as u32);
}

proof fn lemma_stream_len(vals: Seq<u32>, k: nat)
    ensures
        encoded_groups(vals, k).len() + entry_bytes(exceptions(vals, k)).len() <= 17 * k,
    decreases k,
{
    lemma_entry_bytes_layout(exceptions(vals, k));
    if k > 0 {
        let k1 = (k - 1) as nat;
        lemma_stream_len(vals, k1);
        lemma_entry_bytes_layout(exceptions(vals, k1));
        let g = group_of(vals, k1 as int);
        lemma_stored_fits(g);
        assert(exceptions(vals, k).len() <= exceptions(vals, k1).len() + 1);
        assert(payload_len(group_code(g)) <= 16);
    }
}

/// A buffer of `8 * n + 512` bytes holds the stream of any `n` values.
pub open spec fn capacity_for(n: nat) -> nat {
    8 * n + 512
}

/// The stream of `vals` never outgrows `capacity_for(vals.len())`.
pub proof fn lemma_stream_fits_capacity(vals: Seq<u32>)
    ensures
        encode_stream(vals).len() <= capacity_for(vals.len()),
{
    let n = vals.len();
    let k = num_groups(n);
    lemma_stream_len(vals, k);
    assert(17 * ((n + 3) / 4) + 8 <= 8 * n + 512) by (nonlinear_arith);
}

/// A buffer size that holds the stream of any `n` values.
pub fn estimate_capacity(n: usize) -> (r: usize)
    requires
        n <= (usize::MAX - 512) / 8,
    ensures
        r == capacity_for(n as nat),
{
    8 * n + 512
}

/// Encodes a gap sequence into the front of `out` and returns the number of
/// bytes written. Fails with `Capacity`, leaving `out` as it was, where the
/// stream does not fit.
pub fn encode_into(vals: &[u32], out: &mut [u8]) -> (r: Result<usize, CodecError>)
    requires
        vals@.len() <= u32::MAX,
    ensures
        ({
            let enc = encode_stream(vals@);
            &&& (enc.len() <= old(out)@.len()) <==> r is Ok
            &&& r is Ok ==> r.unwrap() == enc.len() && final(out)@ == enc + old(out)@.skip(
                enc.len() as int,
            )
            &&& r is Err ==> r == Err::<usize, CodecError>(CodecError::Capacity) && final(out)@
                == old(out)@
        }),
{
    let enc = encode_deltas(vals);
    if enc.len() > out.len() {
        return Err(CodecError::Capacity);
    }
    let mut i: usize = 0;
    while i < enc.len()
        invariant
            enc.len() <= out@.len() == old(out)@.len(),
            0 <= i <= enc.len(),
            forall|k: int| 0 <= k < i ==> out@[k] == enc@[k],
            forall|k: int| i <= k < out@.len() ==> out@[k] == old(out)@[k],
        decreases enc.len() - i,
    {
        out[i] = enc[i];
        i += 1;
    }
    assert(out@ =~= enc@ + old(out)@.skip(enc.len() as int));
    Ok(enc.len())
}

} // verus!
