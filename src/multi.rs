//! Routing rules of the multi-timeframe runtime: where a candle goes in its timeframe's
//! engine, and how signal ids name their timeframe.
use vstd::prelude::*;

verus! {

/// A signal id that carries its timeframe: `(timeframe_index << 16) | (local_id & 0xffff)`,
/// where index 0 is for cross-timeframe strategies and 1.. follow configuration order.
pub open spec fn encoded_id(timeframe_index: u16, local_id: u32) -> int {
    timeframe_index as int * 65536 + local_id as int % 65536
}

pub fn encode_strategy_id(timeframe_index: u16, local_id: u32) -> (r: u32)
    ensures
        r == encoded_id(timeframe_index, local_id),
{
    let hi = timeframe_index as u32;
    let r = (hi << 16u32) | (local_id & 0xffffu32);
    assert(r == hi * 65536 + local_id % 65536) by (bit_vector)
        requires
            hi < 65536,
            r == (hi << 16u32) | (local_id & 0xffffu32),
    ;
    r
}

/// The timeframe index and local id that an encoded signal id holds.
pub fn decode_strategy_id(id: u32) -> (r: (u16, u32))
    ensures
        encoded_id(r.0, r.1) == id,
        r.1 < 65536,
{
    let hi = (id >> 16u32) as u16;
    let lo = id & 0xffffu32;
    assert(id == (id >> 16u32) * 65536 + (id & 0xffffu32) && (id >> 16u32) < 65536 && (id & 0xffffu32)
        < 65536) by (bit_vector);
    (hi, lo)
}

/// Whether a candle opening at `open_time` replaces the engine's last bar (true) or is
/// pushed as a new one (false): it replaces it when that bar opened at the same time.
pub fn replaces_last(last_open: Option<i64>, open_time: i64) -> (r: bool)
    ensures
        r == (last_open == Some(open_time)),
{
    match last_open {
        Some(t) => t == open_time,
        None => false,
    }
}

/// The index (from 1) of the timeframe `ms` among `periods`, or 0 when it is not there.
pub fn timeframe_index(periods: &Vec<i64>, ms: i64) -> (r: u16)
    requires
        periods@.len() < 65536,
    ensures
        r == 0 <==> !periods@.contains(ms),
        r > 0 ==> periods@[r - 1] == ms && forall|k: int| 0 <= k < r - 1 ==> periods@[k] != ms,
{
    let mut k: usize = 0;
    while k < periods.len()
        invariant
            k <= periods@.len() < 65536,
            forall|q: int| 0 <= q < k ==> periods@[q] != ms,
        decreases periods@.len() - k,
    {
        if periods[k] == ms {
            return (k + 1) as u16;
        }
        k = k + 1;
    }
    assert(!periods@.contains(ms)) by {
        if periods@.contains(ms) {
            let q = choose|q: int| 0 <= q < periods@.len() && periods@[q] == ms;
            assert(periods@[q] != ms);
        }
    }
    0
}

} // verus!
