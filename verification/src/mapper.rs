//! Geometry helpers for mapping logical byte offsets to stripes.

use vstd::prelude::*;

use crate::stripe::Stripe;

verus! {

/// `Geometry` describes the byte layout of stripes and chunks.
pub struct Geometry {
    pub bytes_per_chunk: usize,
    pub bytes_per_stripe: usize,
}

/// `geometry` computes the stripe geometry for a given layout: `N` bytes
/// per chunk and `DATA * N` bytes of caller data per stripe.
pub fn geometry<const D: usize, const N: usize, S: Stripe<D, N>>() -> (g: Geometry)
    requires
        S::spec_data() * N <= usize::MAX,
    ensures
        g.bytes_per_chunk == N,
        g.bytes_per_stripe == S::spec_data() * N,
{
    Geometry { bytes_per_chunk: N, bytes_per_stripe: S::data() * N }
}

/// `locate_byte` maps a logical byte offset to its stripe index and
/// in-stripe offset.
pub fn locate_byte(byte_offset: u64, byte_delta: usize, geom: &Geometry) -> (r: (u64, usize))
    requires
        byte_offset + byte_delta <= u64::MAX,
        geom.bytes_per_stripe > 0,
    ensures
        r.0 == (byte_offset + byte_delta) / (geom.bytes_per_stripe as int),
        r.1 == (byte_offset + byte_delta) % (geom.bytes_per_stripe as int),
{
    let absolute: u64 = byte_offset + (byte_delta as u64);
    let stripe_bytes: u64 = geom.bytes_per_stripe as u64;
    let stripe: u64 = absolute / stripe_bytes;
    let rem: u64 = absolute % stripe_bytes;
    (stripe, rem as usize)
}

/// `try_locate_byte` is `locate_byte` when the absolute offset fits in
/// 64 bits; an overflowing offset reports failure.
pub fn try_locate_byte(byte_offset: u64, byte_delta: usize, geom: &Geometry) -> (r: Option<
    (u64, usize),
>)
    requires
        geom.bytes_per_stripe > 0,
    ensures
        r is Some <==> byte_offset + byte_delta <= u64::MAX,
        r is Some ==> (r->0).0 == (byte_offset + byte_delta) / (geom.bytes_per_stripe as int)
            && (r->0).1 == (byte_offset + byte_delta) % (geom.bytes_per_stripe as int),
{
    if byte_delta as u64 <= u64::MAX - byte_offset {
        Some(locate_byte(byte_offset, byte_delta, geom))
    } else {
        None
    }
}

/// `stripe_byte_offset` returns the byte offset of the start of a stripe:
/// each stripe occupies bytes `[s * N, s * N + N)` on every disk.
pub fn stripe_byte_offset<const N: usize>(stripe_index: u64) -> (r: u64)
    requires
        stripe_index * N <= u64::MAX,
    ensures
        r == stripe_index * N,
{
    stripe_index * (N as u64)
}

/// `try_stripe_byte_offset` is `stripe_byte_offset` when the product fits
/// in 64 bits; an overflowing index reports failure.
pub fn try_stripe_byte_offset<const N: usize>(stripe_index: u64) -> (r: Option<u64>)
    ensures
        r is Some <==> stripe_index * N <= u64::MAX,
        r is Some ==> r->0 == stripe_index * N,
{
    if N == 0 {
        proof {
            assert(stripe_index * N == 0);
        }
        Some(0)
    } else if stripe_index <= u64::MAX / (N as u64) {
        proof {
            let q = u64::MAX as int / N as int;
            assert(stripe_index * N <= q * N <= u64::MAX) by (nonlinear_arith)
                requires
                    stripe_index <= q,
                    N >= 1,
                    q == u64::MAX as int / N as int,
            ;
        }
        Some(stripe_byte_offset::<N>(stripe_index))
    } else {
        proof {
            let q = u64::MAX as int / N as int;
            assert(stripe_index * N > u64::MAX) by (nonlinear_arith)
                requires
                    stripe_index > q,
                    N >= 1,
                    q == u64::MAX as int / N as int,
            ;
        }
        None
    }
}

} // verus!
