//! Decoding of a column file: a run of 8-byte little-endian values.
use vstd::prelude::*;

use crate::byte_encoder::{le_value, lemma_le_value_bound, lemma_pow256_values, ByteDecoder};

verus! {

/// The values that a scan of column bytes `s` yields: each whole 8-byte
/// little-endian value in turn, stopping at the first one above `end` or
/// where fewer than 8 bytes are left.
pub open spec fn values_through(s: Seq<u8>, end: u64) -> Seq<u64>
    decreases s.len(),
{
    if s.len() < 8 {
        Seq::empty()
    } else if le_value(s.take(8)) > end {
        Seq::empty()
    } else {
        seq![le_value(s.take(8)) as u64] + values_through(s.skip(8), end)
    }
}

/// Scans column bytes for the values up to `end`, in file order.
#[verifier::loop_isolation(false)]
pub fn values_up_to(bytes: Vec<u8>, end: u64) -> (r: Vec<u64>)
    ensures
        r@ == values_through(bytes@, end),
{
    let ghost all = bytes@;
    let mut reader = ByteDecoder::new(bytes);
    let mut values: Vec<u64> = Vec::new();
    loop
        invariant
            values@ + values_through(reader@, end) == values_through(all, end),
        decreases reader@.len(),
    {
        let ghost rest = reader@;
        match reader.read_u64() {
            Ok(v) => {
                proof {
                    lemma_le_value_bound(rest.take(8));
                    lemma_pow256_values();
                }
                if v > end {
                    assert(values@ + values_through(rest, end) =~= values@);
                    return values;
                }
                values.push(v);
                assert(values@ + values_through(reader@, end) =~= values@.drop_last() + values_through(rest, end));
            },
            Err(_) => {
                assert(values@ + values_through(rest, end) =~= values@);
                return values;
            },
        }
    }
}

} // verus!
