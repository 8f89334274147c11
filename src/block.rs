//! A compressed block as a container stores it: the bytes, and beside them
//! the impact bucket, the number of identifiers and the number of bytes.

use vstd::prelude::*;

use crate::delta::strictly_ascending;
use crate::error::CodecError;
use crate::postings::encode_postings;

verus! {

/// What a container keeps beside a block's bytes.
#[derive(Clone, Copy, Debug, PartialEq, Eq, Structural)]
pub struct MetaData {
    /// The score or priority bucket of the postings in the block.
    pub impact: u16,
    /// The number of identifiers encoded.
    pub count: u32,
    /// The length of the compressed bytes.
    pub bytes: u32,
}

/// The block of a strictly ascending list fits the 32-bit fields of its
/// metadata.
pub open spec fn block_fits(docs: Seq<u32>) -> bool {
    docs.len() <= u32::MAX && encode_postings(docs).len() <= u32::MAX
}

/// Compresses a strictly ascending list of identifiers into a block tagged
/// with `impact`. Fails with `InvalidInputOrder` where the list is not
/// strictly ascending, and with `Capacity` where its count or its length in
/// bytes does not fit a 32-bit metadata field.
pub fn encode(impact: u16, docs: &[u32]) -> (r: Result<(MetaData, Vec<u8>), CodecError>)
    ensures
        strictly_ascending(docs@) && block_fits(docs@) ==> r is Ok && r.unwrap().0 == (MetaData {
            impact,
            count: docs@.len() as u32,
            bytes: encode_postings(docs@).len() as u32,
        }) && r.unwrap().1@ == encode_postings(docs@),
        strictly_ascending(docs@) && !block_fits(docs@) ==> r == Err::<
            (MetaData, Vec<u8>),
            CodecError,
        >(CodecError::Capacity),
        !strictly_ascending(docs@) ==> r == Err::<(MetaData, Vec<u8>), CodecError>(
            CodecError::InvalidInputOrder,
        ),
{
    let out = match crate::postings::encode(docs) {
        Ok(out) => out,
        Err(e) => {
            return Err(e);
        },
    };
    if docs.len() > u32::MAX as usize || out.len() > u32::MAX as usize {
        return Err(CodecError::Capacity);
    }
    let meta = MetaData { impact, count: docs.len() as u32, bytes: out.len() as u32 };
    Ok((meta, out))
}

} // verus!
