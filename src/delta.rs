//! The gap transform and its inverse, the running sum.

use vstd::prelude::*;

use crate::error::CodecError;

verus! {

/// Every element is larger than the one before it.
pub open spec fn strictly_ascending(s: Seq<u32>) -> bool {
    forall|i: int| 0 < i < s.len() ==> #[trigger] s[i - 1] < s[i]
}

/// The gaps of an ascending sequence: the first element itself, then the
/// difference of each element from its predecessor.
pub open spec fn gaps(s: Seq<u32>) -> Seq<u32> {
    Seq::new(s.len(), |i: int| if i == 0 { s[0] } else { (s[i] - s[i - 1]) as u32 })
}

/// The sum of all elements, as a mathematical integer.
pub open spec fn total(s: Seq<u32>) -> int
    decreases s.len(),
{
    if s.len() == 0 {
        0
    } else {
        total(s.drop_last()) + s.last()
    }
}

/// The running sum of a sequence fits in 32 bits at every position.
pub open spec fn sums_fit(s: Seq<u32>) -> bool {
    total(s) <= u32::MAX
}

/// The running sum: element `i` is the sum of elements `0..=i`.
pub open spec fn running_sum(s: Seq<u32>) -> Seq<u32> {
    Seq::new(s.len(), |i: int| total(s.take(i + 1)) as u32)
}

/// Every gap after the first is above zero.
pub open spec fn gaps_positive(g: Seq<u32>) -> bool {
    forall|i: int| 1 <= i < g.len() ==> #[trigger] g[i] > 0
}

/// The running sum of gaps that are above zero after the first, and whose
/// sum fits in 32 bits, is strictly ascending.
pub proof fn lemma_running_sum_ascending(g: Seq<u32>)
    requires
        gaps_positive(g),
        sums_fit(g),
    ensures
        strictly_ascending(running_sum(g)),
{
    let r = running_sum(g);
    assert forall|i: int| 0 < i < r.len() implies #[trigger] r[i - 1] < r[i] by {
        lemma_total_prefix_monotone(g, i + 1, g.len() as int);
        lemma_total_prefix_monotone(g, 0, i);
        assert(g.take(g.len() as int) =~= g);
        assert(g.take(0) =~= Seq::<u32>::empty());
        assert(g.take(i + 1).drop_last() =~= g.take(i));
        assert(g[i] > 0);
    }
}

/// A sum over a prefix never exceeds the sum over a longer prefix.
pub proof fn lemma_total_prefix_monotone(s: Seq<u32>, i: int, j: int)
    requires
        0 <= i <= j <= s.len(),
    ensures
        total(s.take(i)) <= total(s.take(j)),
    decreases j - i,
{
    if i < j {
        lemma_total_prefix_monotone(s, i, j - 1);
        assert(s.take(j).drop_last() =~= s.take(j - 1));
    }
}

/// Running sums of the gaps of an ascending sequence give back its elements.
pub proof fn lemma_gaps_total(s: Seq<u32>, i: int)
    requires
        strictly_ascending(s),
        0 <= i < s.len(),
    ensures
        total(gaps(s).take(i + 1)) == s[i],
    decreases i,
{
    assert(gaps(s).take(i + 1).drop_last() =~= gaps(s).take(i));
    assert(gaps(s).take(i + 1).last() == gaps(s)[i]);
    if i > 0 {
        lemma_gaps_total(s, i - 1);
        assert(s[i - 1] < s[i]);
    } else {
        assert(gaps(s).take(0) =~= Seq::<u32>::empty());
        assert(total(gaps(s).take(0)) == 0);
    }
}

/// The running sum undoes the gap transform on every strictly ascending
/// sequence, and never leaves 32 bits on the way.
pub proof fn lemma_gaps_round_trip(s: Seq<u32>)
    requires
        strictly_ascending(s),
    ensures
        sums_fit(gaps(s)),
        gaps_positive(gaps(s)),
        running_sum(gaps(s)) == s,
{
    assert forall|i: int| 1 <= i < s.len() implies #[trigger] gaps(s)[i] > 0 by {
        assert(s[i - 1] < s[i]);
    }
    if s.len() > 0 {
        lemma_gaps_total(s, s.len() - 1);
        assert(gaps(s).take(s.len() as int) =~= gaps(s));
    }
    assert forall|i: int| 0 <= i < s.len() implies running_sum(gaps(s))[i] == s[i] by {
        lemma_gaps_total(s, i);
    }
    assert(running_sum(gaps(s)) =~= s);
}

/// Converts identifiers into gaps, rejecting input that is not strictly
/// ascending.
pub fn to_deltas(docs: &[u32]) -> (r: Result<Vec<u32>, CodecError>)
    ensures
        strictly_ascending(docs@) <==> r is Ok,
        r is Ok ==> r.unwrap()@ == gaps(docs@),
        r is Err ==> r == Err::<Vec<u32>, CodecError>(CodecError::InvalidInputOrder),
{
    let mut out: Vec<u32> = Vec::with_capacity(docs.len());
    let mut prev: u32 = 0;
    let mut i: usize = 0;
    while i < docs.len()
        invariant
            0 <= i <= docs@.len(),
            out@.len() == i,
            strictly_ascending(docs@.take(i as int)),
            i > 0 ==> prev == docs@[i - 1],
            i == 0 ==> prev == 0,
            forall|k: int| 0 <= k < i ==> out@[k] == #[trigger] gaps(docs@)[k],
        decreases docs@.len() - i,
    {
        let cur = docs[i];
        if i > 0 && cur <= prev {
            assert(!strictly_ascending(docs@)) by {
                assert(docs@[i as int - 1] >= docs@[i as int]);
            }
            return Err(CodecError::InvalidInputOrder);
        }
        out.push(cur - prev);
        prev = cur;
        i += 1;
        assert(strictly_ascending(docs@.take(i as int))) by {
            assert forall|k: int| 0 < k < i implies #[trigger] docs@.take(i as int)[k - 1]
                < docs@.take(i as int)[k] by {
                if k < i - 1 {
                    assert(docs@.take(i as int - 1)[k - 1] < docs@.take(i as int - 1)[k]);
                }
            }
        }
    }
    assert(docs@.take(i as int) =~= docs@);
    assert(out@ =~= gaps(docs@));
    Ok(out)
}

/// Rebuilds identifiers from gaps in place: the first `count` values become
/// their running sum, the rest of the buffer is left as it is.
pub fn prefix_sum(values: &mut [u32], count: usize)
    requires
        count <= old(values)@.len(),
        sums_fit(old(values)@.take(count as int)),
    ensures
        final(values)@ == running_sum(old(values)@.take(count as int)) + old(values)@.skip(
            count as int,
        ),
{
    let ghost g = values@.take(count as int);
    let mut acc: u32 = 0;
    let mut i: usize = 0;
    while i < count
        invariant
            0 <= i <= count <= values@.len(),
            values@.len() == old(values)@.len(),
            g == old(values)@.take(count as int),
            sums_fit(g),
            acc == total(g.take(i as int)),
            forall|k: int| 0 <= k < i ==> values@[k] == #[trigger] running_sum(g)[k],
            forall|k: int| i <= k < values@.len() ==> values@[k] == old(values)@[k],
        decreases count - i,
    {
        proof {
            lemma_total_prefix_monotone(g, i as int + 1, count as int);
            assert(g.take(count as int) =~= g);
            assert(g.take(i as int + 1).drop_last() =~= g.take(i as int));
        }
        acc = acc + values[i];
        values[i] = acc;
        i += 1;
    }
    assert(values@ =~= running_sum(g) + old(values)@.skip(count as int));
}

} // verus!
