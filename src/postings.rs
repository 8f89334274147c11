//! Encoding and decoding of whole postings lists: identifiers in, bytes out,
//! and back.

use vstd::prelude::*;

use crate::delta::{
    gaps, gaps_positive, lemma_gaps_round_trip, lemma_running_sum_ascending,
    lemma_total_prefix_monotone, prefix_sum, running_sum, strictly_ascending, sums_fit, to_deltas,
    total,
};
use crate::error::CodecError;
use crate::qmx::{
    capacity_for, decode_deltas, decode_stream, encode_deltas, encode_stream,
    all_exceptions, encoded_groups, entry_bytes, lemma_stream_count_mismatch, lemma_stream_fits_capacity, lemma_stream_round_trip,
};

verus! {

/// The bytes that encode a postings list: the stream of its gaps.
pub open spec fn encode_postings(docs: Seq<u32>) -> Seq<u8> {
    encode_stream(gaps(docs))
}

/// The `n` identifiers that `data` holds: the running sum of the gaps it
/// decodes to, or `None` where the stream is malformed, a gap after the first
/// is zero, or a sum leaves 32 bits.
pub open spec fn decode_postings(data: Seq<u8>, n: nat) -> Option<Seq<u32>> {
    match decode_stream(data, n) {
        None => None,
        Some(g) => if sums_fit(g) && gaps_positive(g) {
            Some(running_sum(g))
        } else {
            None
        },
    }
}

/// Compresses a strictly ascending list of identifiers. Fails with
/// `InvalidInputOrder` where the list is not strictly ascending, and with
/// `Capacity` where its length does not fit the 32-bit count of the header
/// (only the list of every `u32` value).
pub fn encode(docs: &[u32]) -> (r: Result<Vec<u8>, CodecError>)
    ensures
        strictly_ascending(docs@) && docs@.len() <= u32::MAX ==> r is Ok && r.unwrap()@
            == encode_postings(docs@),
        strictly_ascending(docs@) && docs@.len() > u32::MAX ==> r == Err::<Vec<u8>, CodecError>(
            CodecError::Capacity,
        ),
        !strictly_ascending(docs@) ==> r == Err::<Vec<u8>, CodecError>(
            CodecError::InvalidInputOrder,
        ),
{
    let deltas = match to_deltas(docs) {
        Ok(d) => d,
        Err(e) => {
            return Err(e);
        },
    };
    if docs.len() > u32::MAX as usize {
        return Err(CodecError::Capacity);
    }
    Ok(encode_deltas(deltas.as_slice()))
}

/// Tells whether the running sum of `g` stays within 32 bits.
fn running_sum_fits(g: &Vec<u32>) -> (r: bool)
    ensures
        r == sums_fit(g@),
{
    let mut acc: u64 = 0;
    let mut i: usize = 0;
    while i < g.len()
        invariant
            0 <= i <= g@.len(),
            acc == total(g@.take(i as int)),
            acc <= u32::MAX,
        decreases g@.len() - i,
    {
        assert(g@.take(i as int + 1).drop_last() =~= g@.take(i as int));
        acc = acc + g[i] as u64;
        if acc > u32::MAX as u64 {
            proof {
                lemma_total_prefix_monotone(g@, i as int + 1, g@.len() as int);
                assert(g@.take(g@.len() as int) =~= g@);
            }
            return false;
        }
        i += 1;
    }
    assert(g@.take(i as int) =~= g@);
    true
}

/// Tells whether every gap after the first is above zero.
fn all_positive(g: &Vec<u32>) -> (r: bool)
    ensures
        r == gaps_positive(g@),
{
    let mut i: usize = 1;
    while i < g.len()
        invariant
            1 <= i,
            forall|k: int| 1 <= k < i && k < g@.len() ==> #[trigger] g@[k] > 0,
        decreases g@.len() - i,
    {
        if g[i] == 0 {
            return false;
        }
        i += 1;
    }
    true
}

/// Decompresses `count` identifiers into the front of `output_buf`. Fails
/// with `DecodeCorruption`, leaving the buffer as it was, where the stream is
/// cut short or malformed, declares another count, or would give
/// identifiers that are not strictly ascending or leave 32 bits.
pub fn decode(data: &[u8], output_buf: &mut [u32], count: u32) -> (r: Result<(), CodecError>)
    requires
        count <= old(output_buf)@.len(),
    ensures
        match decode_postings(data@, count as nat) {
            Some(ids) => r is Ok && final(output_buf)@ == ids + old(output_buf)@.skip(count as int),
            None => r == Err::<(), CodecError>(CodecError::DecodeCorruption) && final(output_buf)@
                == old(output_buf)@,
        },
        r is Ok ==> strictly_ascending(final(output_buf)@.take(count as int)),
{
    let n = count as usize;
    let g = match decode_deltas(data, n) {
        Ok(g) => g,
        Err(e) => {
            return Err(e);
        },
    };
    if !running_sum_fits(&g) || !all_positive(&g) {
        return Err(CodecError::DecodeCorruption);
    }
    let mut i: usize = 0;
    while i < n
        invariant
            g@.len() == n <= output_buf@.len() == old(output_buf)@.len(),
            0 <= i <= n,
            forall|k: int| 0 <= k < i ==> output_buf@[k] == g@[k],
            forall|k: int| i <= k < output_buf@.len() ==> output_buf@[k] == old(output_buf)@[k],
        decreases n - i,
    {
        output_buf[i] = g[i];
        i += 1;
    }
    assert(output_buf@.take(n as int) =~= g@);
    assert(output_buf@.skip(n as int) =~= old(output_buf)@.skip(n as int));
    prefix_sum(output_buf, n);
    proof {
        lemma_running_sum_ascending(g@);
        assert(output_buf@.take(n as int) =~= running_sum(g@));
    }
    Ok(())
}

/// Decoding the bytes of a strictly ascending list, with its length as the
/// count, gives back the list.
pub proof fn lemma_round_trip(docs: Seq<u32>)
    requires
        strictly_ascending(docs),
        docs.len() <= u32::MAX,
    ensures
        decode_postings(encode_postings(docs), docs.len()) == Some(docs),
{
    lemma_stream_round_trip(gaps(docs));
    lemma_gaps_round_trip(docs);
}

/// Decoding the bytes of a list with any count above zero other than its
/// length fails.
pub proof fn lemma_count_mismatch(docs: Seq<u32>, n: nat)
    requires
        docs.len() <= u32::MAX,
        n > 0,
        n != docs.len(),
    ensures
        decode_postings(encode_postings(docs), n) is None,
{
    lemma_stream_count_mismatch(gaps(docs), n);
}

/// Encoding depends on the identifiers alone: equal lists give equal bytes.
pub proof fn lemma_encode_deterministic(a: Seq<u32>, b: Seq<u32>)
    requires
        a == b,
    ensures
        encode_postings(a) == encode_postings(b),
{
}

/// The bytes of any list of `n` identifiers fit in `capacity_for(n)` bytes.
pub proof fn lemma_encoded_within_capacity(docs: Seq<u32>)
    ensures
        encode_postings(docs).len() <= capacity_for(docs.len()),
{
    lemma_stream_fits_capacity(gaps(docs));
}

/// The empty list encodes to the header alone, and a count of zero decodes
/// to the empty list whatever the bytes.
pub proof fn lemma_empty(data: Seq<u8>)
    ensures
        encode_postings(seq![]).len() == 8,
        decode_postings(data, 0) == Some(Seq::<u32>::empty()),
{
    assert(running_sum(Seq::<u32>::empty()) =~= Seq::<u32>::empty());
    assert(encoded_groups(gaps(seq![]), 0).len() == 0);
    assert(entry_bytes(all_exceptions(gaps(seq![]))).len() == 0);
}

} // verus!
