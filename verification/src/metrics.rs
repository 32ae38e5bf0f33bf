//! Plain metric vocabulary the engine emits; recording and transport live
//! with the callers.

use vstd::prelude::*;

verus! {

/// `IoOpType` describes a read or write operation.
#[derive(Copy, Clone, Debug, PartialEq, Eq, Structural)]
pub enum IoOpType {
    Read,
    Write,
}

/// `FuseOpType` names the filesystem operations whose latency is sampled.
#[derive(Copy, Clone, Debug, PartialEq, Eq, Structural)]
pub enum FuseOpType {
    Read,
    Write,
    Open,
    Fsync,
}

/// `SenderStats` summarizes one metrics-sender run.
#[derive(Copy, Clone, Debug, PartialEq, Eq, Structural)]
pub struct SenderStats {
    pub dropped_batches: u64,
    pub reconnects: u64,
    pub send_errors: u64,
}

/// `bump_backoff` doubles a retry delay (in milliseconds), keeps it at
/// least one millisecond, and caps it at `max`.
pub fn bump_backoff(cur: u64, max: u64) -> (r: u64)
    ensures
        r == (if cur >= 1 {
            if 2 * cur > max {
                max as int
            } else {
                2 * cur
            }
        } else {
            if max < 1 {
                max as int
            } else {
                1
            }
        }),
{
    let doubled: u64 = if cur <= u64::MAX / 2 {
        let d = cur * 2;
        if d >= 1 {
            d
        } else {
            1
        }
    } else {
        u64::MAX
    };
    proof {
        if cur > u64::MAX / 2 {
            assert(2 * cur > u64::MAX) by {
                assert(u64::MAX as int == 2 * (u64::MAX as int / 2) + 1);
            }
        }
    }
    if doubled > max {
        max
    } else {
        doubled
    }
}

} // verus!
