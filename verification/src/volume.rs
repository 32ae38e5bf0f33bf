//! The logical volume: an array of disks plus a stripe layout, exposing
//! byte-level read/write with transparent reconstruction, and the
//! administrative operations (fail, replace, rebuild, health queries).

use vstd::prelude::*;

use crate::array::{chunk_at, eff_cells, lemma_eff_congruence, raw_cells, spec_degraded, spec_repaired, Array, ArrayError};
use crate::bits::Bits;
use crate::disk::{splice_bytes, Disk};
use crate::mapper::{geometry, locate_byte, stripe_byte_offset, Geometry};
use crate::stripe::{views, wf_cells, Stripe};

verus! {

broadcast use vstd::array::group_array_axioms;

/// `DiskStatus` is a read-only snapshot of one disk's health.
#[derive(Clone, Copy, PartialEq, Eq, Structural, Debug)]
pub struct DiskStatus {
    pub index: usize,
    pub missing: bool,
    pub needs_rebuild: bool,
}

/// `RaidMode` names the stripe layout a volume runs.
#[derive(Clone, Copy, PartialEq, Eq, Structural, Debug)]
pub enum RaidMode {
    Raid0,
    Raid1,
    Raid3,
}

/// How many of the first `k` disks are missing.
pub open spec fn spec_failed_count(disks: Seq<Disk>, k: int) -> nat
    decreases k,
{
    if k <= 0 {
        0
    } else {
        spec_failed_count(disks, k - 1) + if !disks[k - 1].spec_operational() {
            1nat
        } else {
            0nat
        }
    }
}

/// `Volume` composes a disk array with a stripe layout and its geometry.
/// The layout value doubles as the stripe scratch buffer for IO.
pub struct Volume<const D: usize, const N: usize, T: Stripe<D, N>> {
    pub array: Array<D, N>,
    pub layout: T,
    pub geom: Geometry,
}

impl<const D: usize, const N: usize, T: Stripe<D, N>> Volume<D, N, T> {
    /// The array is well formed, the geometry matches the layout, and all
    /// offset arithmetic the volume performs fits the machine.
    pub open spec fn wf(self) -> bool {
        &&& self.array.wf()
        &&& wf_cells(self.layout.cells(), D as int, N as int)
        &&& T::spec_usable()
        &&& (T::spec_supports_restore() ==> T::spec_restore_ready())
        &&& 1 <= D
        &&& 1 <= N
        &&& 1 <= T::spec_data()
        &&& T::spec_data() * N <= usize::MAX
        &&& self.geom.bytes_per_chunk == N
        &&& self.geom.bytes_per_stripe == T::spec_data() * N
        &&& 1 <= self.geom.bytes_per_stripe
        &&& self.array.spec_disk_len() * T::spec_data() <= u64::MAX
    }

    /// Bytes of caller data per stripe.
    pub open spec fn spec_stripe_bytes(self) -> int {
        T::spec_data() * N
    }

    /// The logical capacity in bytes: every disk contributes its full
    /// length to the data cells.
    pub open spec fn spec_capacity(self) -> int {
        self.array.spec_disk_len() * T::spec_data()
    }

    /// Logical byte `i` of the volume: the byte the reconstruction
    /// protocol yields for the stripe holding `i`.
    pub open spec fn spec_view_byte(disks: Seq<Disk>, i: int) -> u8 {
        let sb = T::spec_data() * N;
        let s = i / sb;
        let r = i % sb;
        T::spec_decode(eff_cells::<D, N, T>(disks, s * N))[r / (N as int)][r % (N as int)]
    }

    /// How many stripes cover the logical range `[0, end)`, clipped at the
    /// capacity.
    pub open spec fn spec_stripes_needed(self, end: u64) -> int {
        let e = if end <= self.spec_capacity() {
            end as int
        } else {
            self.spec_capacity()
        };
        let sb = self.spec_stripe_bytes();
        e / sb + if e % sb == 0 {
            0int
        } else {
            1int
        }
    }

    /// `new` records the geometry and takes ownership of the array and the
    /// layout scratch stripe.
    pub fn new(array: Array<D, N>, layout: T) -> (r: Self)
        requires
            array.wf(),
            wf_cells(layout.cells(), D as int, N as int),
            T::spec_usable(),
            T::spec_supports_restore() ==> T::spec_restore_ready(),
            1 <= D,
            1 <= N,
            1 <= T::spec_data(),
            T::spec_data() * N <= usize::MAX,
            array.spec_disk_len() * T::spec_data() <= u64::MAX,
        ensures
            r.wf(),
            r.array == array,
            r.layout == layout,
    {
        let geom = geometry::<D, N, T>();
        proof {
            assert(T::spec_data() * N >= 1 * 1) by (nonlinear_arith)
                requires
                    T::spec_data() >= 1,
                    N >= 1,
            ;
        }
        Volume { array, geom, layout }
    }

    /// `into_parts` gives the array and the layout back, for callers that
    /// need direct access to the disks (and may rebuild a volume later).
    pub fn into_parts(self) -> (r: (Array<D, N>, T))
        ensures
            r.0 == self.array,
            r.1 == self.layout,
    {
        let Volume { array, layout, geom } = self;
        (array, layout)
    }

    /// `disk_len` returns the common length of the disks.
    pub fn disk_len(&self) -> (r: u64)
        requires
            self.wf(),
        ensures
            r == self.array.spec_disk_len(),
    {
        self.array.disk_len()
    }

    /// `logical_capacity_bytes` returns the volume's capacity: the disk
    /// length times the number of data cells per stripe.
    pub fn logical_capacity_bytes(&self) -> (r: u64)
        requires
            self.wf(),
        ensures
            r == self.spec_capacity(),
    {
        self.array.disk_len() * (T::data() as u64)
    }

    /// `stripes_needed_for_logical_end` returns how many stripes cover the
    /// logical range `[0, end)`, clipping `end` at the capacity.
    pub fn stripes_needed_for_logical_end(&self, end: u64) -> (r: u64)
        requires
            self.wf(),
        ensures
            r == self.spec_stripes_needed(end),
    {
        let cap = self.logical_capacity_bytes();
        let e: u64 = if end <= cap {
            end
        } else {
            cap
        };
        let sb: u64 = self.geom.bytes_per_stripe as u64;
        proof {
            let q = e as int / sb as int;
            let rem = e as int % sb as int;
            if rem != 0 {
                assert(sb >= 2);
                assert(q * sb >= 2 * q) by (nonlinear_arith)
                    requires
                        sb >= 2,
                        q >= 0,
                ;
                vstd::arithmetic::div_mod::lemma_fundamental_div_mod(e as int, sb as int);
                assert(sb * q + rem == e);
                assert(q * sb == sb * q) by (nonlinear_arith);
                assert(q < u64::MAX);
            }
        }
        e / sb + if e % sb == 0 {
            0
        } else {
            1
        }
    }

    /// `disk_statuses` snapshots each disk's health.
    pub fn disk_statuses(&self) -> (r: Vec<DiskStatus>)
        requires
            self.wf(),
        ensures
            r@.len() == D,
            forall|j: int|
                0 <= j < D ==> (#[trigger] r@[j]) == (DiskStatus {
                    index: j as usize,
                    missing: !self.array.0@[j].spec_operational(),
                    needs_rebuild: self.array.0@[j].needs_rebuild,
                }),
    {
        let mut out: Vec<DiskStatus> = Vec::new();
        let mut j: usize = 0;
        while j < D
            invariant
                j <= D,
                self.wf(),
                out@.len() == j,
                forall|q: int|
                    0 <= q < j ==> (#[trigger] out@[q]) == (DiskStatus {
                        index: q as usize,
                        missing: !self.array.0@[q].spec_operational(),
                        needs_rebuild: self.array.0@[q].needs_rebuild,
                    }),
            decreases D - j,
        {
            let missing = self.array.0[j].is_missing();
            let needs_rebuild = self.array.0[j].needs_rebuild;
            out.push(DiskStatus { index: j, missing, needs_rebuild });
            j = j + 1;
        }
        out
    }

    /// `failed_disks` counts the missing disks.
    pub fn failed_disks(&self) -> (r: u32)
        requires
            self.wf(),
            D <= u32::MAX,
        ensures
            r == spec_failed_count(self.array.0@, D as int),
    {
        let mut count: usize = 0;
        let mut j: usize = 0;
        while j < D
            invariant
                j <= D,
                self.wf(),
                count == spec_failed_count(self.array.0@, j as int),
                count <= j,
            decreases D - j,
        {
            if self.array.0[j].is_missing() {
                count = count + 1;
            }
            j = j + 1;
        }
        count as u32
    }

    /// `any_needs_rebuild` reports whether some disk is flagged untrusted.
    pub fn any_needs_rebuild(&self) -> (r: bool)
        requires
            self.wf(),
        ensures
            r == exists|j: int| 0 <= j < D && (#[trigger] self.array.0@[j]).needs_rebuild,
    {
        let mut j: usize = 0;
        while j < D
            invariant
                j <= D,
                self.wf(),
                forall|q: int| 0 <= q < j ==> !(#[trigger] self.array.0@[q]).needs_rebuild,
            decreases D - j,
        {
            if self.array.0[j].needs_rebuild {
                return true;
            }
            j = j + 1;
        }
        false
    }

    /// `fail_disk` simulates a disk failure at the specified index.
    pub fn fail_disk(&mut self, i: usize) -> (r: Result<(), ArrayError>)
        requires
            old(self).wf(),
        ensures
            final(self).wf(),
            final(self).layout == old(self).layout,
            final(self).geom == old(self).geom,
            final(self).spec_capacity() == old(self).spec_capacity(),
            r is Ok <==> i < D,
            r is Err ==> *final(self) == *old(self),
            r is Ok ==> ({
                &&& !final(self).array.0@[i as int].spec_operational()
                &&& final(self).array.0@[i as int].spec_len() == old(self).array.0@[
                    i as int].spec_len()
                &&& final(self).array.0@[i as int].needs_rebuild == old(self).array.0@[
                    i as int].needs_rebuild
                &&& forall|j: int|
                    0 <= j < D && j != i ==> final(self).array.0@[j] == old(self).array.0@[j]
            }),
    {
        self.array.fail_disk(i)
    }

    /// `replace_disk` replaces the disk image at the specified index with
    /// a fresh zero-filled untrusted one.
    pub fn replace_disk(&mut self, i: usize) -> (r: Result<(), ArrayError>)
        requires
            old(self).wf(),
        ensures
            final(self).wf(),
            final(self).layout == old(self).layout,
            final(self).geom == old(self).geom,
            final(self).spec_capacity() == old(self).spec_capacity(),
            i >= D ==> *final(self) == *old(self) && r == Result::<(), ArrayError>::Err(
                ArrayError::IndexOutOfRange,
            ),
            r is Ok ==> ({
                &&& i < D
                &&& final(self).array.0@[i as int].spec_operational()
                &&& final(self).array.0@[i as int].needs_rebuild
                &&& final(self).array.0@[i as int].contents() == crate::bits::zero_bytes(
                    old(self).array.0@[i as int].spec_len() as nat,
                )
                &&& final(self).array.0@[i as int].spec_len() == old(self).array.0@[
                    i as int].spec_len()
                &&& forall|j: int|
                    0 <= j < D && j != i ==> final(self).array.0@[j] == old(self).array.0@[j]
            }),
            r is Err ==> forall|j: int|
                0 <= j < D ==> final(self).array.0@[j] == old(self).array.0@[j],
    {
        self.array.replace_disk(i)
    }

    /// `clear_needs_rebuild_all` marks every operational disk as trusted.
    pub fn clear_needs_rebuild_all(&mut self)
        requires
            old(self).wf(),
        ensures
            final(self).wf(),
            final(self).layout == old(self).layout,
            final(self).geom == old(self).geom,
            forall|j: int|
                0 <= j < D ==> ({
                    let dj = #[trigger] final(self).array.0@[j];
                    let oj = old(self).array.0@[j];
                    &&& dj.spec_operational() == oj.spec_operational()
                    &&& dj.spec_len() == oj.spec_len()
                    &&& dj.contents() == oj.contents()
                    &&& dj.needs_rebuild == (oj.needs_rebuild && !oj.spec_operational())
                }),
    {
        let mut j: usize = 0;
        while j < D
            invariant
                j <= D,
                self.array.0@.len() == D,
                self.geom == old(self).geom,
                self.layout == old(self).layout,
                forall|q: int| 0 <= q < D ==> (#[trigger] self.array.0@[q]).inv(),
                forall|q: int|
                    j <= q < D ==> #[trigger] self.array.0@[q] == old(self).array.0@[q],
                forall|q: int|
                    0 <= q < j ==> ({
                        let dq = #[trigger] self.array.0@[q];
                        let oq = old(self).array.0@[q];
                        &&& dq.spec_operational() == oq.spec_operational()
                        &&& dq.spec_len() == oq.spec_len()
                        &&& dq.contents() == oq.contents()
                        &&& dq.needs_rebuild == (oq.needs_rebuild && !oq.spec_operational())
                    }),
            decreases D - j,
        {
            let operational = self.array.0[j].is_operational();
            if operational {
                let d = &mut self.array.0[j];
                d.needs_rebuild = false;
            }
            j = j + 1;
        }
        proof {
            assert(final(self).wf());
        }
    }

    /// `clear_needs_rebuild_disk` marks disk `i` as trusted when it is
    /// operational.
    pub fn clear_needs_rebuild_disk(&mut self, i: usize) -> (r: Result<(), ArrayError>)
        requires
            old(self).wf(),
        ensures
            final(self).wf(),
            final(self).layout == old(self).layout,
            final(self).geom == old(self).geom,
            r is Ok <==> i < D,
            r is Err ==> *final(self) == *old(self),
            r is Ok ==> ({
                let dj = final(self).array.0@[i as int];
                let oj = old(self).array.0@[i as int];
                &&& dj.spec_operational() == oj.spec_operational()
                &&& dj.spec_len() == oj.spec_len()
                &&& dj.contents() == oj.contents()
                &&& dj.needs_rebuild == (oj.needs_rebuild && !oj.spec_operational())
                &&& forall|j: int|
                    0 <= j < D && j != i ==> final(self).array.0@[j] == old(self).array.0@[j]
            }),
    {
        if i >= D {
            return Err(ArrayError::IndexOutOfRange);
        }
        let operational = self.array.0[i].is_operational();
        if operational {
            let d = &mut self.array.0[i];
            d.needs_rebuild = false;
        }
        proof {
            assert(final(self).wf());
        }
        Ok(())
    }

    /// Disk byte `b` of disk `j` after the stripe holding `b` has been
    /// repaired by a read: the reconstructed cell where the read wrote it
    /// back, the old byte everywhere else.
    pub open spec fn spec_repaired_byte(disks0: Seq<Disk>, j: int, b: int) -> u8 {
        let s = b / (N as int);
        if spec_repaired::<D, N, T>(disks0, s * N, j) && disks0[j].spec_operational() {
            eff_cells::<D, N, T>(disks0, s * N)[j][b % (N as int)]
        } else {
            disks0[j].contents()[b]
        }
    }

    /// Whether stripe `s` is touched by an IO of `len` bytes at logical
    /// offset `off`.
    pub open spec fn spec_touches_stripe(off: int, len: int, s: int) -> bool {
        let sb = T::spec_data() * N;
        len > 0 && off / sb <= s && s * sb < off + len
    }

    /// Whether disk byte `b` lies in a stripe that an IO of `len` bytes at
    /// logical offset `off` touches.
    pub open spec fn spec_touches(off: int, len: int, b: int) -> bool {
        Self::spec_touches_stripe(off, len, b / (N as int))
    }

    /// `read_bytes` fills `out` with the volume's logical bytes starting
    /// at `byte_offset`, walking the payload in stripe-bounded segments.
    /// Each touched stripe is loaded through the reconstruction protocol,
    /// so degraded cells are transparently rebuilt and repaired cells are
    /// written back to their disks.
    pub fn read_bytes(&mut self, byte_offset: u64, out: &mut [u8])
        requires
            old(self).wf(),
            byte_offset + old(out)@.len() <= u64::MAX,
        ensures
            final(self).wf(),
            final(self).geom == old(self).geom,
            final(self).array.spec_disk_len() == old(self).array.spec_disk_len(),
            final(out)@.len() == old(out)@.len(),
            forall|k: int|
                0 <= k < old(out)@.len() ==> #[trigger] final(out)@[k] == Self::spec_view_byte(
                    old(self).array.0@,
                    byte_offset + k,
                ),
            forall|j: int|
                0 <= j < D ==> ({
                    let dj = #[trigger] final(self).array.0@[j];
                    let oj = old(self).array.0@[j];
                    &&& dj.spec_operational() == oj.spec_operational()
                    &&& dj.spec_len() == oj.spec_len()
                    &&& dj.needs_rebuild == oj.needs_rebuild
                }),
            forall|j: int, b: int|
                0 <= j < D && 0 <= b < old(self).array.0@[j].contents().len()
                    ==> (#[trigger] final(self).array.0@[j].contents()[b]) == (
                if Self::spec_touches(byte_offset as int, old(out)@.len() as int, b) {
                    Self::spec_repaired_byte(old(self).array.0@, j, b)
                } else {
                    old(self).array.0@[j].contents()[b]
                }),
    {
        let ghost disks0 = self.array.0@;
        let ghost off0 = byte_offset as int;
        let ghost sb = self.spec_stripe_bytes();
        let total = out.len();
        let mut data_chunks: Vec<Bits<N>> = Vec::new();
        let dcount = T::data();
        while data_chunks.len() < dcount
            invariant
                data_chunks@.len() <= dcount,
            decreases dcount - data_chunks@.len(),
        {
            data_chunks.push(Bits::zero());
        }

        let mut read: usize = 0;
        while read < total
            invariant
                read <= total,
                byte_offset as int == off0,
                off0 + total <= u64::MAX,
                out@.len() == total,
                data_chunks@.len() == T::spec_data(),
                self.wf(),
                self.geom == old(self).geom,
                sb == T::spec_data() * N,
                disks0 == old(self).array.0@,
                disks0.len() == D,
                forall|j: int| 0 <= j < D ==> (#[trigger] disks0[j]).inv(),
                self.array.spec_disk_len() == old(self).array.spec_disk_len(),
                read == total || read == 0 || (off0 + read) % sb == 0,
                forall|j: int|
                    0 <= j < D ==> ({
                        let dj = #[trigger] self.array.0@[j];
                        let oj = disks0[j];
                        &&& dj.spec_operational() == oj.spec_operational()
                        &&& dj.spec_len() == oj.spec_len()
                        &&& dj.needs_rebuild == oj.needs_rebuild
                    }),
                forall|k: int|
                    0 <= k < read ==> #[trigger] out@[k] == Self::spec_view_byte(
                        disks0,
                        off0 + k,
                    ),
                forall|k: int| read <= k < total ==> #[trigger] out@[k] == old(out)@[k],
                forall|j: int, b: int|
                    0 <= j < D && 0 <= b < disks0[j].contents().len()
                        ==> (#[trigger] self.array.0@[j].contents()[b]) == (
                    if Self::spec_touches(off0, read as int, b) {
                        Self::spec_repaired_byte(disks0, j, b)
                    } else {
                        disks0[j].contents()[b]
                    }),
            decreases total - read,
        {
            let (s, in_stripe) = locate_byte(byte_offset, read, &self.geom);
            proof {
                vstd::arithmetic::div_mod::lemma_fundamental_div_mod(off0 + read, sb);
                assert(s * sb + in_stripe == off0 + read) by {
                    assert(s == (off0 + read) / sb);
                    assert(in_stripe == (off0 + read) % sb);
                    assert(sb * ((off0 + read) / sb) == ((off0 + read) / sb) * sb)
                        by (nonlinear_arith);
                }
                assert(N <= sb) by (nonlinear_arith)
                    requires
                        sb == T::spec_data() * N,
                        T::spec_data() >= 1,
                ;
                assert(s * N <= s * sb) by (nonlinear_arith)
                    requires
                        N <= sb,
                        s >= 0,
                ;
                assert(s * N <= u64::MAX);
            }
            let stripe_avail: usize = self.geom.bytes_per_stripe - in_stripe;
            let take: usize = if stripe_avail <= total - read {
                stripe_avail
            } else {
                total - read
            };
            let off_s = stripe_byte_offset::<N>(s);
            proof {
                // The stripe about to be loaded is untouched so far, so the
                // current state agrees with the starting state on its chunk
                // range.
                assert forall|j: int, b: int|
                    0 <= j < D && s * N <= b < s * N + N && 0 <= b
                        < disks0[j].contents().len() implies (
                #[trigger] self.array.0@[j].contents()[b]) == disks0[j].contents()[b] by {
                    vstd::arithmetic::div_mod::lemma_fundamental_div_mod_converse(
                        b,
                        N as int,
                        s as int,
                        b - s * N,
                    );
                    assert(b / (N as int) == s);
                    if read > 0 {
                        assert((off0 + read) % sb == 0);
                        assert(in_stripe == 0);
                        assert(s * sb == off0 + read);
                        assert(!Self::spec_touches(off0, read as int, b));
                    }
                }
                assert(forall|j: int|
                    0 <= j < D ==> (#[trigger] self.array.0@[j]).contents().len()
                        == disks0[j].contents().len()) by {
                    assert(forall|j: int|
                        0 <= j < D ==> (#[trigger] self.array.0@[j]).inv() && disks0[j].inv());
                }
                lemma_eff_congruence::<D, N, T>(disks0, self.array.0@, s as int * N);
            }
            let ghost pre_read = self.array.0@;
            self.array.read(off_s, &mut self.layout);
            self.layout.read(data_chunks.as_mut_slice());
            proof {
                assert(views(data_chunks@) == T::spec_decode(
                    eff_cells::<D, N, T>(disks0, s as int * N),
                ));
            }
            let ghost out_pre = out@;
            let mut i: usize = 0;
            while i < take
                invariant
                    i <= take,
                    take >= 1,
                    in_stripe + take <= sb,
                    sb == T::spec_data() * N,
                    1 <= N,
                    1 <= T::spec_data(),
                    T::spec_data() * N <= usize::MAX,
                    out@.len() == total,
                    read + take <= total,
                    data_chunks@.len() == T::spec_data(),
                    views(data_chunks@) == T::spec_decode(
                        eff_cells::<D, N, T>(disks0, s as int * N),
                    ),
                    s * sb + in_stripe == off0 + read,
                    forall|k: int|
                        read + i <= k < total ==> #[trigger] out@[k] == out_pre[k],
                    forall|k: int| 0 <= k < read ==> #[trigger] out@[k] == out_pre[k],
                    forall|k2: int|
                        0 <= k2 < i ==> #[trigger] out@[read + k2] == Self::spec_view_byte(
                            disks0,
                            off0 + read + k2,
                        ),
                decreases take - i,
            {
                let pos: usize = in_stripe + i;
                let ci: usize = pos / N;
                let bi: usize = pos % N;
                proof {
                    vstd::arithmetic::div_mod::lemma_fundamental_div_mod(pos as int, N as int);
                    if ci >= T::spec_data() {
                        assert((pos as int / N as int) * N >= T::spec_data() * N)
                            by (nonlinear_arith)
                            requires
                                pos as int / N as int >= T::spec_data(),
                                N >= 1,
                        ;
                        assert(N as int * (pos as int / N as int) == (pos as int / N as int)
                            * N) by (nonlinear_arith);
                        assert(false);
                    }
                    let p = off0 + read + i;
                    vstd::arithmetic::div_mod::lemma_fundamental_div_mod_converse(
                        p,
                        sb,
                        s as int,
                        pos as int,
                    );
                    assert(p / sb == s && p % sb == pos);
                }
                let b: u8 = data_chunks[ci].0[bi];
                out[read + i] = b;
                proof {
                    assert(out@[read + i] == Self::spec_view_byte(disks0, off0 + read + i));
                }
                i = i + 1;
            }
            proof {
                assert forall|k: int| 0 <= k < read + take implies out@[k]
                    == Self::spec_view_byte(disks0, off0 + k) by {
                    if k >= read {
                        assert(out@[read + (k - read)] == Self::spec_view_byte(
                            disks0,
                            off0 + read + (k - read),
                        ));
                    }
                }
                if take == stripe_avail {
                    assert((s + 1) * sb == s * sb + sb) by (nonlinear_arith);
                    assert(off0 + read + take == (s + 1) * sb);
                    vstd::arithmetic::div_mod::lemma_mod_multiples_basic(s as int + 1, sb);
                    assert((off0 + read + take) % sb == 0);
                }
            }
            read = read + take;
            proof {
                // The repairs of this stripe extend the touched region by
                // exactly the stripe just loaded.
                let read0 = read - take;
                assert(s * sb + in_stripe == off0 + read0);
                vstd::arithmetic::div_mod::lemma_div_is_ordered(off0, off0 + read0, sb);
                assert(off0 / sb <= s);
                assert forall|j: int, b: int|
                    0 <= j < D && 0 <= b < disks0[j].contents().len() implies (
                #[trigger] self.array.0@[j].contents()[b]) == (if Self::spec_touches(
                    off0,
                    read as int,
                    b,
                ) {
                    Self::spec_repaired_byte(disks0, j, b)
                } else {
                    disks0[j].contents()[b]
                }) by {
                    let bs = b / (N as int);
                    vstd::arithmetic::div_mod::lemma_fundamental_div_mod(b, N as int);
                    assert(N as int * bs == bs * (N as int)) by (nonlinear_arith);
                    assert(bs * N <= b < bs * N + N);
                    let io = pre_read[j].spec_io_len((s * N) as u64, N as nat);
                    assert(pre_read[j].contents().len() == disks0[j].contents().len());
                    if bs == s {
                        assert(Self::spec_touches(off0, read as int, b)) by {
                            assert(s * sb < off0 + read);
                        }
                        if spec_repaired::<D, N, T>(disks0, s as int * N, j)
                            && disks0[j].spec_operational() {
                            if b < s * N + io {
                                assert(self.array.0@[j].contents()[b] == eff_cells::<D, N, T>(
                                    disks0,
                                    s as int * N,
                                )[j][b - s * N]);
                            } else {
                                // io is only short when the chunk sticks out
                                // past the disk end, and b is inside the disk
                                assert(false);
                            }
                        } else {
                            assert(self.array.0@[j].contents()[b] == pre_read[j].contents()[b]);
                        }
                    } else {
                        assert(!(s * N <= b < s * N + N)) by {
                            if s * N <= b < s * N + N {
                                vstd::arithmetic::div_mod::lemma_fundamental_div_mod_converse(
                                    b,
                                    N as int,
                                    s as int,
                                    b - s * N,
                                );
                            }
                        }
                        assert(self.array.0@[j].contents()[b] == pre_read[j].contents()[b]);
                        if bs > s {
                            assert(bs * sb >= (s + 1) * sb) by (nonlinear_arith)
                                requires
                                    bs >= s + 1,
                                    sb >= 1,
                            ;
                            assert((s + 1) * sb == s * sb + sb) by (nonlinear_arith);
                            assert(take <= sb - in_stripe);
                            assert(bs * sb >= off0 + read);
                            assert(!Self::spec_touches(off0, read as int, b));
                            assert(!Self::spec_touches(off0, read0 as int, b));
                        } else {
                            assert(bs < s);
                            assert((bs + 1) * sb <= s * sb) by (nonlinear_arith)
                                requires
                                    bs + 1 <= s,
                                    sb >= 1,
                            ;
                            assert((bs + 1) * sb == bs * sb + sb) by (nonlinear_arith);
                            if off0 / sb <= bs {
                                // a stripe strictly before the current one was
                                // already touched before this iteration
                                assert(s == (off0 + read0) / sb);
                                assert(read0 > 0) by {
                                    if read0 == 0 {
                                        vstd::arithmetic::div_mod::lemma_fundamental_div_mod(
                                            off0,
                                            sb,
                                        );
                                        assert(sb * (off0 / sb) == (off0 / sb) * sb)
                                            by (nonlinear_arith);
                                        assert((off0 / sb) * sb + off0 % sb == off0);
                                        assert(bs * sb + sb <= s * sb <= off0);
                                        assert((off0 / sb) * sb >= bs * sb);
                                        assert(off0 / sb >= bs + 1) by {
                                            if off0 / sb <= bs {
                                                assert((off0 / sb) * sb <= bs * sb)
                                                    by (nonlinear_arith)
                                                    requires
                                                        off0 / sb <= bs,
                                                        sb >= 1,
                                                ;
                                                assert(off0 < bs * sb + sb);
                                                assert(false);
                                            }
                                        }
                                        assert(false);
                                    }
                                }
                                assert(bs * sb < off0 + read0);
                                assert(Self::spec_touches(off0, read0 as int, b));
                                assert(Self::spec_touches(off0, read as int, b));
                            } else {
                                assert(!Self::spec_touches(off0, read0 as int, b));
                                assert(!Self::spec_touches(off0, read as int, b));
                            }
                        }
                    }
                }
            }
        }
        proof {
            assert(final(self).wf());
        }
    }

    /// All disks are present and trusted.
    pub open spec fn spec_all_healthy(disks: Seq<Disk>) -> bool {
        forall|j: int|
            0 <= j < disks.len() ==> (#[trigger] disks[j]).spec_operational()
                && !disks[j].needs_rebuild
    }

    /// The data cells of stripe `s` after a write of `payload` at logical
    /// offset `off`: payload bytes where the write covers the position,
    /// the bytes the stripe previously decoded to everywhere else
    /// (read-modify-write).
    pub open spec fn spec_patched_data(
        disks0: Seq<Disk>,
        s: int,
        off: int,
        payload: Seq<u8>,
    ) -> Seq<Seq<u8>> {
        let sb = T::spec_data() * N;
        Seq::new(
            T::spec_data(),
            |c: int|
                Seq::new(
                    N as nat,
                    |bb: int|
                        {
                            let p = s * sb + c * N + bb;
                            if off <= p < off + payload.len() {
                                payload[p - off]
                            } else {
                                T::spec_decode(eff_cells::<D, N, T>(disks0, s * N))[c][bb]
                            }
                        },
                ),
        )
    }

    /// `write_bytes` writes `payload` at logical offset `byte_offset`,
    /// walking it in stripe-bounded segments.  Every touched stripe is
    /// loaded through the reconstruction protocol, patched, re-encoded
    /// (which recomputes the stripe's redundancy), and stored; a disk that
    /// takes a full chunk becomes trusted.  On a fully healthy volume the
    /// resulting disk bytes are stated exactly.
    pub fn write_bytes(&mut self, byte_offset: u64, payload: &[u8])
        requires
            old(self).wf(),
            byte_offset + payload@.len() <= u64::MAX,
        ensures
            final(self).wf(),
            final(self).geom == old(self).geom,
            final(self).array.spec_disk_len() == old(self).array.spec_disk_len(),
            forall|j: int|
                0 <= j < D ==> ({
                    let dj = #[trigger] final(self).array.0@[j];
                    let oj = old(self).array.0@[j];
                    &&& dj.spec_operational() == oj.spec_operational()
                    &&& dj.spec_len() == oj.spec_len()
                    &&& (dj.needs_rebuild ==> oj.needs_rebuild)
                }),
            forall|j: int, b: int|
                0 <= j < D && 0 <= b < old(self).array.0@[j].contents().len()
                    && !Self::spec_touches(byte_offset as int, payload@.len() as int, b)
                    ==> (#[trigger] final(self).array.0@[j].contents()[b]) == old(
                    self,
                ).array.0@[j].contents()[b],
            Self::spec_all_healthy(old(self).array.0@) ==> Self::spec_all_healthy(
                final(self).array.0@,
            ) && (forall|j: int, b: int|
                0 <= j < D && 0 <= b < old(self).array.0@[j].contents().len()
                    && Self::spec_touches(byte_offset as int, payload@.len() as int, b)
                    ==> (#[trigger] final(self).array.0@[j].contents()[b]) == T::spec_encode(
                    Self::spec_patched_data(
                        old(self).array.0@,
                        b / (N as int),
                        byte_offset as int,
                        payload@,
                    ),
                )[j][b % (N as int)]),
    {
        let ghost disks0 = self.array.0@;
        let ghost off0 = byte_offset as int;
        let ghost sb = self.spec_stripe_bytes();
        let ghost healthy = Self::spec_all_healthy(disks0);
        let total = payload.len();
        let mut data_chunks: Vec<Bits<N>> = Vec::new();
        let dcount = T::data();
        while data_chunks.len() < dcount
            invariant
                data_chunks@.len() <= dcount,
            decreases dcount - data_chunks@.len(),
        {
            data_chunks.push(Bits::zero());
        }

        let mut written: usize = 0;
        while written < total
            invariant
                written <= total,
                byte_offset as int == off0,
                off0 + total <= u64::MAX,
                payload@.len() == total,
                data_chunks@.len() == T::spec_data(),
                self.wf(),
                self.geom == old(self).geom,
                sb == T::spec_data() * N,
                disks0 == old(self).array.0@,
                disks0.len() == D,
                forall|j: int| 0 <= j < D ==> (#[trigger] disks0[j]).inv(),
                healthy == Self::spec_all_healthy(disks0),
                self.array.spec_disk_len() == old(self).array.spec_disk_len(),
                written == total || written == 0 || (off0 + written) % sb == 0,
                forall|j: int|
                    0 <= j < D ==> ({
                        let dj = #[trigger] self.array.0@[j];
                        let oj = disks0[j];
                        &&& dj.spec_operational() == oj.spec_operational()
                        &&& dj.spec_len() == oj.spec_len()
                        &&& (dj.needs_rebuild ==> oj.needs_rebuild)
                        &&& (healthy ==> !dj.needs_rebuild)
                    }),
                forall|j: int, b: int|
                    0 <= j < D && 0 <= b < disks0[j].contents().len() && !Self::spec_touches(
                        off0,
                        written as int,
                        b,
                    ) ==> (#[trigger] self.array.0@[j].contents()[b]) == disks0[j].contents()[b],
                healthy ==> forall|j: int, b: int|
                    0 <= j < D && 0 <= b < disks0[j].contents().len() && Self::spec_touches(
                        off0,
                        written as int,
                        b,
                    ) ==> (#[trigger] self.array.0@[j].contents()[b]) == T::spec_encode(
                        Self::spec_patched_data(disks0, b / (N as int), off0, payload@),
                    )[j][b % (N as int)],
            decreases total - written,
        {
            let (s, in_stripe) = locate_byte(byte_offset, written, &self.geom);
            proof {
                vstd::arithmetic::div_mod::lemma_fundamental_div_mod(off0 + written, sb);
                assert(s * sb + in_stripe == off0 + written) by {
                    assert(s == (off0 + written) / sb);
                    assert(in_stripe == (off0 + written) % sb);
                    assert(sb * ((off0 + written) / sb) == ((off0 + written) / sb) * sb)
                        by (nonlinear_arith);
                }
                assert(N <= sb) by (nonlinear_arith)
                    requires
                        sb == T::spec_data() * N,
                        T::spec_data() >= 1,
                ;
                assert(s * N <= s * sb) by (nonlinear_arith)
                    requires
                        N <= sb,
                        s >= 0,
                ;
                assert(s * N <= u64::MAX);
            }
            let stripe_avail: usize = self.geom.bytes_per_stripe - in_stripe;
            let take: usize = if stripe_avail <= total - written {
                stripe_avail
            } else {
                total - written
            };
            let off_s = stripe_byte_offset::<N>(s);
            proof {
                // The stripe about to be loaded is untouched so far.
                assert forall|j: int, b: int|
                    0 <= j < D && s * N <= b < s * N + N && 0 <= b
                        < disks0[j].contents().len() implies (
                #[trigger] self.array.0@[j].contents()[b]) == disks0[j].contents()[b] by {
                    vstd::arithmetic::div_mod::lemma_fundamental_div_mod_converse(
                        b,
                        N as int,
                        s as int,
                        b - s * N,
                    );
                    assert(b / (N as int) == s);
                    if written > 0 {
                        assert((off0 + written) % sb == 0);
                        assert(in_stripe == 0);
                        assert(s * sb == off0 + written);
                        assert(!Self::spec_touches(off0, written as int, b));
                    }
                }
                assert(forall|j: int|
                    0 <= j < D ==> (#[trigger] self.array.0@[j]).contents().len()
                        == disks0[j].contents().len()) by {
                    assert(forall|j: int|
                        0 <= j < D ==> (#[trigger] self.array.0@[j]).inv() && disks0[j].inv());
                }
                if healthy {
                    lemma_eff_congruence::<D, N, T>(disks0, self.array.0@, s as int * N);
                }
            }
            let ghost pre_load = self.array.0@;
            self.array.read(off_s, &mut self.layout);
            self.layout.read(data_chunks.as_mut_slice());
            let ghost base_chunks = views(data_chunks@);

            let mut i: usize = 0;
            while i < take
                invariant
                    i <= take,
                    take >= 1,
                    in_stripe + take <= sb,
                    sb == T::spec_data() * N,
                    1 <= N,
                    1 <= T::spec_data(),
                    T::spec_data() * N <= usize::MAX,
                    payload@.len() == total,
                    written + take <= total,
                    data_chunks@.len() == T::spec_data(),
                    base_chunks.len() == T::spec_data(),
                    forall|c: int|
                        0 <= c < T::spec_data() ==> (#[trigger] base_chunks[c]).len() == N,
                    forall|c: int, bb: int|
                        0 <= c < T::spec_data() && 0 <= bb < N ==> (#[trigger] views(
                            data_chunks@,
                        )[c][bb]) == (if in_stripe <= c * N + bb < in_stripe + i {
                            payload@[written + (c * N + bb - in_stripe)]
                        } else {
                            base_chunks[c][bb]
                        }),
                decreases take - i,
            {
                let pos: usize = in_stripe + i;
                let ci: usize = pos / N;
                let bi: usize = pos % N;
                proof {
                    vstd::arithmetic::div_mod::lemma_fundamental_div_mod(pos as int, N as int);
                    if ci >= T::spec_data() {
                        assert((pos as int / N as int) * N >= T::spec_data() * N)
                            by (nonlinear_arith)
                            requires
                                pos as int / N as int >= T::spec_data(),
                                N >= 1,
                        ;
                        assert(N as int * (pos as int / N as int) == (pos as int / N as int)
                            * N) by (nonlinear_arith);
                        assert(false);
                    }
                }
                let ghost pre_chunks = views(data_chunks@);
                let mut cb: Bits<N> = data_chunks[ci];
                cb.set_byte(bi, payload[written + i]);
                data_chunks[ci] = cb;
                proof {
                    assert(N as int * (ci as int) == (ci as int) * (N as int))
                        by (nonlinear_arith);
                    assert(ci * N + bi == pos);
                    assert forall|c: int, bb: int|
                        0 <= c < T::spec_data() && 0 <= bb < N implies (#[trigger] views(
                        data_chunks@,
                    )[c][bb]) == (if in_stripe <= c * N + bb < in_stripe + i + 1 {
                        payload@[written + (c * N + bb - in_stripe)]
                    } else {
                        base_chunks[c][bb]
                    }) by {
                        assert(pre_chunks[c][bb] == (if in_stripe <= c * N + bb < in_stripe
                            + i {
                            payload@[written + (c * N + bb - in_stripe)]
                        } else {
                            base_chunks[c][bb]
                        }));
                        if c * N + bb == pos {
                            assert(c == ci && bb == bi) by {
                                vstd::arithmetic::div_mod::lemma_fundamental_div_mod_converse(
                                    pos as int,
                                    N as int,
                                    c,
                                    bb,
                                );
                            }
                            assert(views(data_chunks@)[c][bb] == payload@[written + i]);
                        } else {
                            if c == ci {
                                assert(bb != bi);
                                assert(views(data_chunks@)[c][bb] == pre_chunks[c][bb]);
                            } else {
                                assert(views(data_chunks@)[c][bb] == pre_chunks[c][bb]);
                            }
                        }
                    }
                }
                i = i + 1;
            }
            let ghost actual_data = views(data_chunks@);
            proof {
                if healthy {
                    assert(base_chunks == T::spec_decode(
                        eff_cells::<D, N, T>(disks0, s as int * N),
                    ));
                    assert(actual_data =~~= Self::spec_patched_data(
                        disks0,
                        s as int,
                        off0,
                        payload@,
                    )) by {
                    assert forall|c: int, bb: int|
                        0 <= c < T::spec_data() && 0 <= bb < N implies views(data_chunks@)[c][bb]
                        == Self::spec_patched_data(disks0, s as int, off0, payload@)[c][bb] by {
                        let p = s * sb + c * N + bb;
                        assert(c * N + bb < sb) by {
                            assert((c + 1) * N <= T::spec_data() * N) by (nonlinear_arith)
                                requires
                                    c + 1 <= T::spec_data(),
                                    N >= 1,
                            ;
                            assert((c + 1) * N == c * N + N) by (nonlinear_arith);
                        }
                        assert(c * N + bb >= 0) by {
                            assert(c * N >= 0) by (nonlinear_arith)
                                requires
                                    c >= 0,
                                    N >= 1,
                            ;
                        }
                        assert((off0 <= p < off0 + total) == (in_stripe <= c * N + bb
                            < in_stripe + take)) by {
                            assert(s * sb + in_stripe == off0 + written);
                            if in_stripe <= c * N + bb < in_stripe + take {
                                assert(off0 <= p < off0 + total);
                            }
                            if off0 <= p < off0 + total {
                                if c * N + bb < in_stripe {
                                    assert(p < off0 + written);
                                    assert(written == 0 || in_stripe == 0);
                                    assert(false);
                                }
                                if c * N + bb >= in_stripe + take {
                                    assert(take == stripe_avail || written + take == total);
                                    if take == stripe_avail {
                                        assert(in_stripe + take == sb);
                                        assert(c * N + bb >= sb);
                                        assert(false);
                                    } else {
                                        assert(p >= off0 + written + take);
                                        assert(p >= off0 + total);
                                        assert(false);
                                    }
                                }
                            }
                        }
                        if in_stripe <= c * N + bb < in_stripe + take {
                            assert(views(data_chunks@)[c][bb] == payload@[written + (c * N + bb
                                - in_stripe)]);
                            assert(written + (c * N + bb - in_stripe) == p - off0);
                        } else {
                            assert(views(data_chunks@)[c][bb] == base_chunks[c][bb]);
                        }
                    }
                }
                }
            }
            self.layout.write(data_chunks.as_slice());
            let ghost pre_store = self.array.0@;
            let ghost enc = T::spec_encode(actual_data);
            proof {
                assert(self.layout.cells() == enc);
                T::lemma_encode(actual_data);
                if healthy {
                    assert(enc == T::spec_encode(
                        Self::spec_patched_data(disks0, s as int, off0, payload@),
                    ));
                }
            }
            self.array.write(off_s, &self.layout);
            written = written + take;
            proof {
                let written0 = written - take;
                assert(s * sb + in_stripe == off0 + written0);
                vstd::arithmetic::div_mod::lemma_div_is_ordered(off0, off0 + written0, sb);
                assert(off0 / sb <= s);
                if take == stripe_avail {
                    assert((s + 1) * sb == s * sb + sb) by (nonlinear_arith);
                    assert(off0 + written == (s + 1) * sb);
                    vstd::arithmetic::div_mod::lemma_mod_multiples_basic(s as int + 1, sb);
                    assert((off0 + written) % sb == 0);
                }
                assert forall|j: int, b: int|
                    0 <= j < D && 0 <= b < disks0[j].contents().len() implies ({
                    let touched_now = Self::spec_touches(off0, written as int, b);
                    let touched_before = Self::spec_touches(off0, written0 as int, b);
                    let bs = b / (N as int);
                    &&& (!touched_now ==> (#[trigger] self.array.0@[j].contents()[b])
                        == disks0[j].contents()[b])
                    &&& ((healthy && touched_now) ==> self.array.0@[j].contents()[b]
                        == T::spec_encode(
                        Self::spec_patched_data(disks0, bs, off0, payload@),
                    )[j][b % (N as int)])
                }) by {
                    let bs = b / (N as int);
                    vstd::arithmetic::div_mod::lemma_fundamental_div_mod(b, N as int);
                    assert(N as int * bs == bs * (N as int)) by (nonlinear_arith);
                    assert(bs * N <= b < bs * N + N);
                    let io_l = pre_load[j].spec_io_len((s * N) as u64, N as nat);
                    let io_s = pre_store[j].spec_io_len((s * N) as u64, N as nat);
                    assert(pre_load[j].contents().len() == disks0[j].contents().len());
                    assert(pre_store[j].contents().len() == disks0[j].contents().len());
                    if bs == s {
                        assert(Self::spec_touches(off0, written as int, b)) by {
                            assert(s * sb < off0 + written);
                        }
                        if healthy {
                            assert(pre_store[j].spec_operational());
                            assert(io_s == io_l);
                            if b < s * N + io_s {
                                assert(self.array.0@[j].contents()[b] == enc[j].take(
                                    io_s as int,
                                )[b - s * N]);
                                assert(enc[j].take(io_s as int)[b - s * N] == enc[j][b - s
                                    * N]);
                            } else {
                                assert(false);
                            }
                        }
                    } else {
                        assert(!(s * N <= b < s * N + N)) by {
                            if s * N <= b < s * N + N {
                                vstd::arithmetic::div_mod::lemma_fundamental_div_mod_converse(
                                    b,
                                    N as int,
                                    s as int,
                                    b - s * N,
                                );
                            }
                        }
                        assert(self.array.0@[j].contents()[b] == pre_store[j].contents()[b]);
                        assert(pre_store[j].contents()[b] == pre_load[j].contents()[b]);
                        if bs > s {
                            assert(bs * sb >= (s + 1) * sb) by (nonlinear_arith)
                                requires
                                    bs >= s + 1,
                                    sb >= 1,
                            ;
                            assert((s + 1) * sb == s * sb + sb) by (nonlinear_arith);
                            assert(take <= sb - in_stripe);
                            assert(bs * sb >= off0 + written);
                            assert(!Self::spec_touches(off0, written as int, b));
                            assert(!Self::spec_touches(off0, written0 as int, b));
                        } else {
                            assert(bs < s);
                            assert((bs + 1) * sb <= s * sb) by (nonlinear_arith)
                                requires
                                    bs + 1 <= s,
                                    sb >= 1,
                            ;
                            assert((bs + 1) * sb == bs * sb + sb) by (nonlinear_arith);
                            if off0 / sb <= bs {
                                assert(written0 > 0) by {
                                    if written0 == 0 {
                                        vstd::arithmetic::div_mod::lemma_fundamental_div_mod(
                                            off0,
                                            sb,
                                        );
                                        assert(sb * (off0 / sb) == (off0 / sb) * sb)
                                            by (nonlinear_arith);
                                        assert((off0 / sb) * sb + off0 % sb == off0);
                                        assert(bs * sb + sb <= s * sb <= off0);
                                        assert(off0 / sb >= bs + 1) by {
                                            if off0 / sb <= bs {
                                                assert((off0 / sb) * sb <= bs * sb)
                                                    by (nonlinear_arith)
                                                    requires
                                                        off0 / sb <= bs,
                                                        sb >= 1,
                                                ;
                                                assert(off0 < bs * sb + sb);
                                                assert(false);
                                            }
                                        }
                                        assert(false);
                                    }
                                }
                                assert(bs * sb < off0 + written0);
                                assert(Self::spec_touches(off0, written0 as int, b));
                                assert(Self::spec_touches(off0, written as int, b));
                            } else {
                                assert(!Self::spec_touches(off0, written0 as int, b));
                                assert(!Self::spec_touches(off0, written as int, b));
                            }
                        }
                    }
                }
            }
        }
        proof {
            assert(final(self).wf());
        }
    }

    /// `repair_stripe` loads stripe `s`, which reconstructs degraded cells
    /// and writes repaired cells back to their disks.
    pub fn repair_stripe(&mut self, s: u64)
        requires
            old(self).wf(),
            s * N <= u64::MAX,
        ensures
            final(self).wf(),
            final(self).geom == old(self).geom,
            final(self).array.spec_disk_len() == old(self).array.spec_disk_len(),
            final(self).layout.cells() == eff_cells::<D, N, T>(
                old(self).array.0@,
                s as int * N,
            ),
            forall|j: int|
                0 <= j < D ==> ({
                    let dj = #[trigger] final(self).array.0@[j];
                    let oj = old(self).array.0@[j];
                    let io = oj.spec_io_len((s * N) as u64, N as nat);
                    &&& dj.spec_operational() == oj.spec_operational()
                    &&& dj.spec_len() == oj.spec_len()
                    &&& dj.needs_rebuild == oj.needs_rebuild
                    &&& dj.contents() == (if spec_repaired::<D, N, T>(
                        old(self).array.0@,
                        s as int * N,
                        j,
                    ) && oj.spec_operational() {
                        splice_bytes(
                            oj.contents(),
                            s as int * N,
                            eff_cells::<D, N, T>(old(self).array.0@, s as int * N)[j].take(
                                io as int,
                            ),
                        )
                    } else {
                        oj.contents()
                    })
                }),
    {
        let off = stripe_byte_offset::<N>(s);
        self.array.read(off, &mut self.layout);
    }
}

impl<const D: usize, const N: usize, T: Stripe<D, N>> Volume<D, N, T> {
    /// The hypotheses shared by the volume's data-safety laws: every disk
    /// is present and trusted, all disks have length `L`, and `L` is a
    /// whole number of chunks.
    pub open spec fn spec_lawful(disks: Seq<Disk>, len: u64) -> bool {
        &&& disks.len() == D
        &&& 1 <= D
        &&& 1 <= N
        &&& 1 <= T::spec_data()
        &&& T::spec_usable()
        &&& forall|j: int|
            0 <= j < D ==> (#[trigger] disks[j]).spec_operational() && !disks[j].needs_rebuild
                && disks[j].contents().len() == len
        &&& len as int % (N as int) == 0
    }

    /// `disks1` is the state a write of `payload` at `off` leaves behind
    /// on a fully healthy volume (the strong clause of `write_bytes`).
    pub open spec fn spec_written(
        disks0: Seq<Disk>,
        disks1: Seq<Disk>,
        off: int,
        payload: Seq<u8>,
    ) -> bool {
        forall|j: int, b: int|
            0 <= j < D && 0 <= b < disks0[j].contents().len()
                ==> (#[trigger] disks1[j].contents()[b]) == (if Self::spec_touches(
                off,
                payload.len() as int,
                b,
            ) {
                T::spec_encode(
                    Self::spec_patched_data(disks0, b / (N as int), off, payload),
                )[j][b % (N as int)]
            } else {
                disks0[j].contents()[b]
            })
    }

    proof fn lemma_position_free(len: u64, p: int) -> (r: (int, int, int, int))
        requires
            1 <= N,
            1 <= T::spec_data(),
            0 <= p < len * T::spec_data(),
            len as int % (N as int) == 0,
        ensures
            ({
                let (s, rr, c, bb) = r;
                let sb = T::spec_data() * N;
                &&& s == p / sb
                &&& rr == p % sb
                &&& c == rr / (N as int)
                &&& bb == rr % (N as int)
                &&& p == s * sb + c * N + bb
                &&& 0 <= bb < N
                &&& 0 <= c < T::spec_data()
                &&& 0 <= s
                &&& s * N + N <= len
                &&& s * sb <= p < s * sb + sb
            }),
    {
        let sb = T::spec_data() * N;
        assert(T::spec_data() * N >= 1 * 1) by (nonlinear_arith)
            requires
                T::spec_data() >= 1,
                N >= 1,
        ;
        let s = p / sb;
        let rr = p % sb;
        let c = rr / (N as int);
        let bb = rr % (N as int);
        vstd::arithmetic::div_mod::lemma_fundamental_div_mod(p, sb);
        vstd::arithmetic::div_mod::lemma_fundamental_div_mod(rr, N as int);
        assert(sb * s == s * sb) by (nonlinear_arith);
        assert(N as int * c == c * (N as int)) by (nonlinear_arith);
        assert(c < T::spec_data()) by {
            if c >= T::spec_data() {
                assert(c * N >= T::spec_data() * N) by (nonlinear_arith)
                    requires
                        c >= T::spec_data(),
                        N >= 1,
                ;
                assert(false);
            }
        }
        assert(s * N + N <= len) by {
            let q = len as int / (N as int);
            vstd::arithmetic::div_mod::lemma_fundamental_div_mod(len as int, N as int);
            assert(N as int * q == q * (N as int)) by (nonlinear_arith);
            assert(len == q * N);
            assert(len * T::spec_data() == q * sb) by (nonlinear_arith)
                requires
                    len == q * (N as int),
                    sb == T::spec_data() * N,
            ;
            assert(s < q) by {
                if s >= q {
                    assert(s * sb >= q * sb) by (nonlinear_arith)
                        requires
                            s >= q,
                            sb >= 1,
                    ;
                    assert(false);
                }
            }
            assert((s + 1) * N <= q * N) by (nonlinear_arith)
                requires
                    s + 1 <= q,
                    N >= 1,
            ;
            assert((s + 1) * N == s * N + N) by (nonlinear_arith);
        }
        (s, rr, c, bb)
    }

    /// On a healthy volume a write changes exactly the logical bytes it
    /// covers: the written range reads back as the payload, and every
    /// other logical byte keeps its old value.
    pub proof fn lemma_healthy_write_view(
        disks0: Seq<Disk>,
        disks1: Seq<Disk>,
        len: u64,
        off: int,
        payload: Seq<u8>,
        p: int,
    )
        requires
            Self::spec_lawful(disks0, len),
            Self::spec_lawful(disks1, len),
            Self::spec_written(disks0, disks1, off, payload),
            0 <= off,
            off + payload.len() <= u64::MAX,
            0 <= p < len * T::spec_data(),
        ensures
            Self::spec_view_byte(disks1, p) == (if off <= p < off + payload.len() {
                payload[p - off]
            } else {
                Self::spec_view_byte(disks0, p)
            }),
    {
        let sb = T::spec_data() * N;
        let (s, rr, c, bb) = Self::lemma_position_free(len, p);
        let touched = Self::spec_touches_stripe(off, payload.len() as int, s);
        if off <= p < off + payload.len() {
            vstd::arithmetic::div_mod::lemma_div_is_ordered(off, p, sb);
            assert(touched);
        }
        assert(forall|j: int| 0 <= j < D ==> !spec_degraded::<D, N, T>(disks0, j));
        assert(forall|j: int| 0 <= j < D ==> !spec_degraded::<D, N, T>(disks1, j));
        if touched {
            let data = Self::spec_patched_data(disks0, s, off, payload);
            assert(wf_cells(data, T::spec_data() as int, N as int));
            T::lemma_encode(data);
            let w = T::spec_encode(data);
            assert forall|j: int| 0 <= j < D implies chunk_at(disks1[j], s * N, N as int)
                == w[j] by {
                assert forall|k2: int| 0 <= k2 < N implies chunk_at(
                    disks1[j],
                    s * N,
                    N as int,
                )[k2] == w[j][k2] by {
                    let b = s * N + k2;
                    assert(b / (N as int) == s && b % (N as int) == k2) by {
                        vstd::arithmetic::div_mod::lemma_fundamental_div_mod_converse(
                            b,
                            N as int,
                            s,
                            k2,
                        );
                    }
                    assert(Self::spec_touches(off, payload.len() as int, b));
                    assert(disks1[j].contents()[b] == w[j][k2]);
                }
                assert(chunk_at(disks1[j], s * N, N as int) =~= w[j]);
            }
            assert(raw_cells::<D, N, T>(disks1, s * N) =~= w);
            crate::array::lemma_eff_no_degraded::<D, N, T>(disks1, s * N);
            T::lemma_scrub(w);
            assert(eff_cells::<D, N, T>(disks1, s * N) == w);
            assert(Self::spec_view_byte(disks1, p) == data[c][bb]);
            assert(s * sb + c * N + bb == p);
            if off <= p < off + payload.len() {
                assert(data[c][bb] == payload[p - off]);
            } else {
                assert(data[c][bb] == T::spec_decode(
                    eff_cells::<D, N, T>(disks0, s * N),
                )[c][bb]);
            }
        } else {
            assert(!(off <= p < off + payload.len())) by {
                if off <= p < off + payload.len() {
                    vstd::arithmetic::div_mod::lemma_div_is_ordered(off, p, sb);
                    assert(off / sb <= s);
                    assert(s * sb <= p < off + payload.len());
                }
            }
            assert forall|j: int, b: int|
                0 <= j < D && s * N <= b < s * N + N && 0 <= b
                    < disks0[j].contents().len() implies (#[trigger] disks1[j].contents()[b])
                == disks0[j].contents()[b] by {
                assert(b / (N as int) == s) by {
                    vstd::arithmetic::div_mod::lemma_fundamental_div_mod_converse(
                        b,
                        N as int,
                        s,
                        b - s * N,
                    );
                }
                assert(!Self::spec_touches(off, payload.len() as int, b));
            }
            lemma_eff_congruence::<D, N, T>(disks0, disks1, s * N);
        }
    }
}

impl<const D: usize, const N: usize, T: Stripe<D, N>> Volume<D, N, T> {
    /// With a restorable layout, failing or distrusting any single disk
    /// after a healthy write leaves every written logical byte readable:
    /// the reconstruction protocol returns exactly the bytes written.
    pub proof fn lemma_degraded_read_view(
        disks0: Seq<Disk>,
        disks1: Seq<Disk>,
        disks2: Seq<Disk>,
        len: u64,
        off: int,
        payload: Seq<u8>,
        i: int,
        p: int,
    )
        requires
            Self::spec_lawful(disks0, len),
            Self::spec_lawful(disks1, len),
            Self::spec_written(disks0, disks1, off, payload),
            T::spec_supports_restore(),
            T::spec_restore_ready(),
            0 <= i < D,
            disks2.len() == D,
            spec_degraded::<D, N, T>(disks2, i),
            forall|j: int|
                0 <= j < D && j != i ==> (#[trigger] disks2[j]).spec_operational()
                    && !disks2[j].needs_rebuild && disks2[j].contents() == disks1[
                    j].contents(),
            0 <= off,
            off + payload.len() <= u64::MAX,
            off <= p < off + payload.len(),
            p < len * T::spec_data(),
        ensures
            Self::spec_view_byte(disks2, p) == payload[p - off],
            ({
                let s = p / (T::spec_data() * N);
                &&& eff_cells::<D, N, T>(disks2, s * N)[i] == chunk_at(
                    disks1[i],
                    s * N,
                    N as int,
                )
                &&& spec_repaired::<D, N, T>(disks2, s * N, i)
            }),
    {
        let sb = T::spec_data() * N;
        let (s, rr, c, bb) = Self::lemma_position_free(len, p);
        vstd::arithmetic::div_mod::lemma_div_is_ordered(off, p, sb);
        assert(Self::spec_touches_stripe(off, payload.len() as int, s));
        let data = Self::spec_patched_data(disks0, s, off, payload);
        assert(wf_cells(data, T::spec_data() as int, N as int));
        T::lemma_encode(data);
        let w = T::spec_encode(data);
        assert forall|j: int| 0 <= j < D implies chunk_at(disks1[j], s * N, N as int)
            == w[j] by {
            assert forall|k2: int| 0 <= k2 < N implies chunk_at(disks1[j], s * N, N as int)[k2]
                == w[j][k2] by {
                let b = s * N + k2;
                assert(b / (N as int) == s && b % (N as int) == k2) by {
                    vstd::arithmetic::div_mod::lemma_fundamental_div_mod_converse(
                        b,
                        N as int,
                        s,
                        k2,
                    );
                }
                assert(Self::spec_touches(off, payload.len() as int, b));
                assert(disks1[j].contents()[b] == w[j][k2]);
            }
            assert(chunk_at(disks1[j], s * N, N as int) =~= w[j]);
        }
        assert forall|j: int| 0 <= j < D && j != i implies chunk_at(disks2[j], s * N, N as int)
            == w[j] by {
            assert(chunk_at(disks2[j], s * N, N as int) =~= chunk_at(
                disks1[j],
                s * N,
                N as int,
            ));
        }
        assert(forall|j: int|
            0 <= j < D && j != i ==> !spec_degraded::<D, N, T>(disks2, j));
        crate::array::lemma_eff_single_degraded::<D, N, T>(disks2, s * N, i, w);
        assert(Self::spec_view_byte(disks2, p) == data[c][bb]);
        assert(s * sb + c * N + bb == p);
        assert(data[c][bb] == payload[p - off]);
    }

    /// After failing and replacing a disk, repairing a stripe writes the
    /// bytes the disk held before the failure back onto it: the repaired
    /// cell is exactly the disk's pre-failure chunk.
    pub proof fn lemma_rebuild_restores_byte(
        disks0: Seq<Disk>,
        disks1: Seq<Disk>,
        disks2: Seq<Disk>,
        len: u64,
        off: int,
        payload: Seq<u8>,
        i: int,
        b: int,
    )
        requires
            Self::spec_lawful(disks0, len),
            Self::spec_lawful(disks1, len),
            Self::spec_written(disks0, disks1, off, payload),
            T::spec_supports_restore(),
            T::spec_restore_ready(),
            0 <= i < D,
            disks2.len() == D,
            spec_degraded::<D, N, T>(disks2, i),
            disks2[i].spec_operational(),
            forall|j: int|
                0 <= j < D && j != i ==> (#[trigger] disks2[j]).spec_operational()
                    && !disks2[j].needs_rebuild && disks2[j].contents() == disks1[
                    j].contents(),
            0 <= off,
            off + payload.len() <= u64::MAX,
            0 <= b < len,
            off <= (b / (N as int)) * (T::spec_data() * N),
            (b / (N as int)) * (T::spec_data() * N) < off + payload.len(),
        ensures
            Self::spec_repaired_byte(disks2, i, b) == disks1[i].contents()[b],
    {
        let sb = T::spec_data() * N;
        assert(T::spec_data() * N >= 1 * 1) by (nonlinear_arith)
            requires
                T::spec_data() >= 1,
                N >= 1,
        ;
        let s = b / (N as int);
        let p = s * sb;
        vstd::arithmetic::div_mod::lemma_fundamental_div_mod(b, N as int);
        assert(N as int * s == s * (N as int)) by (nonlinear_arith);
        assert(s * N <= b < s * N + N);
        assert(p < len * T::spec_data()) by {
            let q = len as int / (N as int);
            vstd::arithmetic::div_mod::lemma_fundamental_div_mod(len as int, N as int);
            assert(N as int * q == q * (N as int)) by (nonlinear_arith);
            assert(len == q * N);
            assert(len * T::spec_data() == q * sb) by (nonlinear_arith)
                requires
                    len == q * (N as int),
                    sb == T::spec_data() * N,
            ;
            assert(s < q) by {
                if s >= q {
                    assert(s * N >= q * N) by (nonlinear_arith)
                        requires
                            s >= q,
                            N >= 1,
                    ;
                    assert(false);
                }
            }
            assert(s * sb < q * sb) by (nonlinear_arith)
                requires
                    s < q,
                    sb >= 1,
            ;
        }
        assert(p / sb == s && p % sb == 0) by {
            vstd::arithmetic::div_mod::lemma_fundamental_div_mod_converse(p, sb, s, 0);
        }
        Self::lemma_degraded_read_view(disks0, disks1, disks2, len, off, payload, i, p);
        assert(eff_cells::<D, N, T>(disks2, s * N)[i][b - s * N] == chunk_at(
            disks1[i],
            s * N,
            N as int,
        )[b - s * N]);
        assert(b % (N as int) == b - s * N);
    }

    /// No stripes are needed to cover an empty range, and when the
    /// capacity is a whole number of stripes, covering it takes exactly
    /// capacity over stripe size many.
    pub proof fn lemma_stripes_needed_bounds(self, end: u64)
        requires
            self.wf(),
        ensures
            end == 0 ==> self.spec_stripes_needed(end) == 0,
            (end == self.spec_capacity() && self.spec_capacity() % self.spec_stripe_bytes()
                == 0) ==> self.spec_stripes_needed(end) == self.spec_capacity()
                / self.spec_stripe_bytes(),
    {
        assert(T::spec_data() * N >= 1 * 1) by (nonlinear_arith)
            requires
                T::spec_data() >= 1,
                N >= 1,
        ;
        let sb = self.spec_stripe_bytes();
        vstd::arithmetic::div_mod::lemma_fundamental_div_mod_converse(0, sb, 0, 0);
        assert(0int / sb == 0 && 0int % sb == 0);
    }
}

/// The text std's formatting renders for one disk-status line; it depends
/// on the disk index, the state marker, and the presence flag alone.
pub uninterp spec fn rendered_status_line(i: int, state: Seq<char>, present: bool) -> Seq<char>;

/// Relies on std's string formatting: the rendered line is a function of
/// the arguments alone.
#[verifier::external_body]
fn status_line(i: usize, state: &str, present: bool) -> (r: String)
    ensures
        r@ == rendered_status_line(i as int, state@, present),
{
    format!("disk {i}: {state} (present={present})\n")
}

/// The status marker a disk's health renders as: FAILED when the mapping
/// is gone, NEEDS_REBUILD when the contents are untrusted, OK otherwise.
pub open spec fn spec_status_state(d: Disk) -> Seq<char> {
    if !d.spec_operational() {
        "FAILED"@
    } else if d.needs_rebuild {
        "NEEDS_REBUILD"@
    } else {
        "OK"@
    }
}

/// The status lines of the first `k` disks, concatenated in disk order.
pub open spec fn spec_status_lines(disks: Seq<Disk>, k: int) -> Seq<char>
    decreases k,
{
    if k <= 0 {
        Seq::empty()
    } else {
        spec_status_lines(disks, k - 1) + rendered_status_line(
            k - 1,
            spec_status_state(disks[k - 1]),
            disks[k - 1].spec_operational(),
        )
    }
}

impl<const D: usize, const N: usize, T: Stripe<D, N>> Volume<D, N, T> {
    /// `disk_status_string` renders a human-readable status summary: one
    /// line per disk, in disk order, marked FAILED, NEEDS_REBUILD, or OK
    /// according to that disk's health.
    pub fn disk_status_string(&self) -> (r: String)
        requires
            self.wf(),
        ensures
            r@ == spec_status_lines(self.array.0@, D as int),
    {
        let mut out = String::new();
        proof {
            assert(out@ =~= spec_status_lines(self.array.0@, 0));
        }
        let mut j: usize = 0;
        while j < D
            invariant
                j <= D,
                self.wf(),
                out@ == spec_status_lines(self.array.0@, j as int),
            decreases D - j,
        {
            let missing = self.array.0[j].is_missing();
            let needs_rebuild = self.array.0[j].needs_rebuild;
            let state: &str = if missing {
                "FAILED"
            } else if needs_rebuild {
                "NEEDS_REBUILD"
            } else {
                "OK"
            };
            proof {
                assert(state@ == spec_status_state(self.array.0@[j as int]));
            }
            let line = status_line(j, state, !missing);
            crate::checksum_fs::append_str(&mut out, line.as_str());
            j = j + 1;
        }
        out
    }
}

impl<const D: usize, const N: usize> Volume<D, N, crate::raid1::RAID1<D, N>> {
    /// On a mirrored volume with at least three copies, corrupting the
    /// stored bytes of any single disk does not change what a read
    /// returns: the majority vote of the remaining copies wins.
    pub proof fn lemma_mirror_tamper_read(
        disks1: Seq<Disk>,
        disks2: Seq<Disk>,
        len: u64,
        t: int,
        s: int,
        v: Seq<u8>,
        p: int,
    )
        requires
            D >= 3,
            Self::spec_lawful(disks1, len),
            Self::spec_lawful(disks2, len),
            0 <= t < D,
            forall|j: int|
                0 <= j < D && j != t ==> (#[trigger] disks2[j]).contents() == disks1[
                    j].contents(),
            v.len() == N,
            forall|j: int| 0 <= j < D ==> chunk_at(#[trigger] disks1[j], s * N, N as int) == v,
            0 <= s,
            s * N + N <= len,
            0 <= p < len,
            p / (N as int) == s,
        ensures
            Self::spec_view_byte(disks2, p) == v[p % (N as int)],
    {
        let raw = raw_cells::<D, N, crate::raid1::RAID1<D, N>>(disks2, s * N);
        assert(forall|j: int|
            0 <= j < D ==> !spec_degraded::<D, N, crate::raid1::RAID1<D, N>>(disks2, j));
        crate::array::lemma_eff_no_degraded::<D, N, crate::raid1::RAID1<D, N>>(disks2, s * N);
        assert forall|j: int| 0 <= j < D && j != t implies raw[j] == v by {
            assert(chunk_at(disks2[j], s * N, N as int) =~= chunk_at(
                disks1[j],
                s * N,
                N as int,
            ));
        }
        crate::raid1::lemma_scrub_outlier::<D, N>(raw, t, v);
        assert(eff_cells::<D, N, crate::raid1::RAID1<D, N>>(disks2, s * N) == Seq::new(
            D as nat,
            |j: int| v,
        ));
        let r = p % (N as int);
        assert(0 <= r < N);
        assert(1 * (N as int) == N as int);
        assert(p / (1 * (N as int)) == s && p % (1 * (N as int)) == r);
        assert(r / (N as int) == 0 && r % (N as int) == r) by {
            vstd::arithmetic::div_mod::lemma_fundamental_div_mod_converse(r, N as int, 0, r);
        }
        assert(Self::spec_view_byte(disks2, p) == v[r]);
    }
}

impl<const D: usize, const N: usize> Volume<D, N, crate::raid3::RAID3<D, N>> {
    /// On a single-parity volume, corrupting the stored bytes of the
    /// parity disk does not change what a read returns: the scrub
    /// recomputes the parity from the intact data cells.
    pub proof fn lemma_parity_tamper_read(
        disks1: Seq<Disk>,
        disks2: Seq<Disk>,
        len: u64,
        s: int,
        p: int,
    )
        requires
            D >= 2,
            Self::spec_lawful(disks1, len),
            Self::spec_lawful(disks2, len),
            forall|j: int|
                0 <= j < D - 1 ==> (#[trigger] disks2[j]).contents() == disks1[j].contents(),
            0 <= s,
            s * N + N <= len,
            0 <= p < len * (D - 1),
            p / ((D - 1) * (N as int)) == s,
        ensures
            Self::spec_view_byte(disks2, p) == Self::spec_view_byte(disks1, p),
    {
        let sb = (D - 1) * (N as int);
        assert((D - 1) * (N as int) >= 1 * 1) by (nonlinear_arith)
            requires
                D >= 2,
                N >= 1,
        ;
        let raw1 = raw_cells::<D, N, crate::raid3::RAID3<D, N>>(disks1, s * N);
        let raw2 = raw_cells::<D, N, crate::raid3::RAID3<D, N>>(disks2, s * N);
        assert(forall|j: int|
            0 <= j < D ==> !spec_degraded::<D, N, crate::raid3::RAID3<D, N>>(disks1, j));
        assert(forall|j: int|
            0 <= j < D ==> !spec_degraded::<D, N, crate::raid3::RAID3<D, N>>(disks2, j));
        crate::array::lemma_eff_no_degraded::<D, N, crate::raid3::RAID3<D, N>>(disks1, s * N);
        crate::array::lemma_eff_no_degraded::<D, N, crate::raid3::RAID3<D, N>>(disks2, s * N);
        assert forall|j: int| 0 <= j < D - 1 implies raw2[j] == raw1[j] by {
            assert(chunk_at(disks2[j], s * N, N as int) =~= chunk_at(
                disks1[j],
                s * N,
                N as int,
            ));
        }
        let eff1 = eff_cells::<D, N, crate::raid3::RAID3<D, N>>(disks1, s * N);
        let eff2 = eff_cells::<D, N, crate::raid3::RAID3<D, N>>(disks2, s * N);
        // Whatever the parity cell holds, the scrub leaves the data cells
        // alone, so both states decode to the data cells on disk.
        crate::raid3::RAID3::<D, N>::lemma_scrub(raw1);
        crate::raid3::RAID3::<D, N>::lemma_scrub(raw2);
        assert(eff1.take(D - 1) =~= raw1.take(D - 1));
        assert(eff2.take(D - 1) =~= raw2.take(D - 1));
        assert(raw2.take(D - 1) =~= raw1.take(D - 1));
        let rr = p % sb;
        let c = rr / (N as int);
        let bb = rr % (N as int);
        vstd::arithmetic::div_mod::lemma_fundamental_div_mod(p, sb);
        vstd::arithmetic::div_mod::lemma_fundamental_div_mod(rr, N as int);
        assert(c < D - 1) by {
            if c >= D - 1 {
                assert(c * N >= (D - 1) * (N as int)) by (nonlinear_arith)
                    requires
                        c >= D - 1,
                        N >= 1,
                ;
                assert(N as int * c == c * (N as int)) by (nonlinear_arith);
                assert(false);
            }
        }
        assert(eff2.take(D - 1)[c] == eff1.take(D - 1)[c]);
        assert(Self::spec_view_byte(disks2, p) == eff2[c][bb]);
        assert(Self::spec_view_byte(disks1, p) == eff1[c][bb]);
    }
}

impl<const D: usize, const N: usize, T: Stripe<D, N>> Volume<D, N, T> {
    /// Reading a stripe that lies entirely past the disk end yields zero
    /// bytes on a healthy volume: every chunk reads as zeros, zeros are a
    /// valid encoding of zero data, and the scrub leaves them alone.  The
    /// zero-encoding hypothesis is discharged per layout by its
    /// `lemma_zero_stripe`.
    pub proof fn lemma_view_beyond_end(disks: Seq<Disk>, len: u64, p: int)
        requires
            Self::spec_lawful(disks, len),
            T::spec_encode(
                Seq::new(T::spec_data(), |c: int| crate::bits::zero_bytes(N as nat)),
            ) == Seq::new(D as nat, |j: int| crate::bits::zero_bytes(N as nat)),
            p >= 0,
            (p / (T::spec_data() * N)) * N >= len,
        ensures
            Self::spec_view_byte(disks, p) == 0,
    {
        let n = N as nat;
        let sb = T::spec_data() * N;
        assert(T::spec_data() * N >= 1 * 1) by (nonlinear_arith)
            requires
                T::spec_data() >= 1,
                N >= 1,
        ;
        let s = p / sb;
        let rr = p % sb;
        let c = rr / (N as int);
        let bb = rr % (N as int);
        vstd::arithmetic::div_mod::lemma_fundamental_div_mod(p, sb);
        vstd::arithmetic::div_mod::lemma_fundamental_div_mod(rr, N as int);
        assert(c < T::spec_data()) by {
            if c >= T::spec_data() {
                assert(c * N >= T::spec_data() * N) by (nonlinear_arith)
                    requires
                        c >= T::spec_data(),
                        N >= 1,
                ;
                assert(N as int * c == c * (N as int)) by (nonlinear_arith);
                assert(false);
            }
        }
        let zdata = Seq::new(T::spec_data(), |c2: int| crate::bits::zero_bytes(n));
        let zcells = Seq::new(D as nat, |j: int| crate::bits::zero_bytes(n));
        let raw = raw_cells::<D, N, T>(disks, s * N);
        assert(forall|j: int| 0 <= j < D ==> !spec_degraded::<D, N, T>(disks, j));
        crate::array::lemma_eff_no_degraded::<D, N, T>(disks, s * N);
        assert forall|j: int| 0 <= j < D implies raw[j] == crate::bits::zero_bytes(n) by {
            assert(chunk_at(disks[j], s * N, N as int) =~= crate::bits::zero_bytes(n));
        }
        assert(raw =~= zcells);
        assert(wf_cells(zdata, T::spec_data() as int, N as int));
        T::lemma_encode(zdata);
        assert(T::spec_consistent(raw));
        T::lemma_scrub(raw);
        assert(eff_cells::<D, N, T>(disks, s * N) == raw);
        assert(T::spec_decode(raw) == zdata);
        assert(Self::spec_view_byte(disks, p) == zdata[c][bb]);
    }
}

/// The error cases of the volume's rebuild calls.
#[derive(Clone, Copy, PartialEq, Eq, Structural, Debug)]
pub enum VolumeError {
    /// The disk index is not below the disk count.
    IndexOutOfRange,
    /// The disk to rebuild has no mapping.
    DiskMissing,
}

impl<const D: usize, const N: usize, T: Stripe<D, N>> Volume<D, N, T> {
    /// `repair_prefix` repairs stripes `0..stripes` in ascending order.
    fn repair_prefix(&mut self, stripes: u64)
        requires
            old(self).wf(),
            stripes == 0 || (stripes - 1) * N <= u64::MAX,
        ensures
            final(self).wf(),
            final(self).geom == old(self).geom,
            final(self).array.spec_disk_len() == old(self).array.spec_disk_len(),
            forall|j: int|
                0 <= j < D ==> ({
                    let dj = #[trigger] final(self).array.0@[j];
                    let oj = old(self).array.0@[j];
                    &&& dj.spec_operational() == oj.spec_operational()
                    &&& dj.spec_len() == oj.spec_len()
                    &&& dj.needs_rebuild == oj.needs_rebuild
                }),
            forall|j: int, b: int|
                0 <= j < D && 0 <= b < old(self).array.0@[j].contents().len()
                    ==> (#[trigger] final(self).array.0@[j].contents()[b]) == (if b / (
                N as int) < stripes {
                    Self::spec_repaired_byte(old(self).array.0@, j, b)
                } else {
                    old(self).array.0@[j].contents()[b]
                }),
    {
        let ghost disks0 = self.array.0@;
        let mut s: u64 = 0;
        while s < stripes
            invariant
                s <= stripes,
                stripes == 0 || (stripes - 1) * N <= u64::MAX,
                self.wf(),
                self.geom == old(self).geom,
                disks0 == old(self).array.0@,
                disks0.len() == D,
                forall|j: int| 0 <= j < D ==> (#[trigger] disks0[j]).inv(),
                self.array.spec_disk_len() == old(self).array.spec_disk_len(),
                forall|j: int|
                    0 <= j < D ==> ({
                        let dj = #[trigger] self.array.0@[j];
                        let oj = disks0[j];
                        &&& dj.spec_operational() == oj.spec_operational()
                        &&& dj.spec_len() == oj.spec_len()
                        &&& dj.needs_rebuild == oj.needs_rebuild
                    }),
                forall|j: int, b: int|
                    0 <= j < D && 0 <= b < disks0[j].contents().len()
                        ==> (#[trigger] self.array.0@[j].contents()[b]) == (if b / (N as int)
                        < s {
                        Self::spec_repaired_byte(disks0, j, b)
                    } else {
                        disks0[j].contents()[b]
                    }),
            decreases stripes - s,
        {
            proof {
                assert(s * N <= (stripes - 1) * N) by (nonlinear_arith)
                    requires
                        s <= stripes - 1,
                        N >= 0,
                ;
                assert forall|j: int, b: int|
                    0 <= j < D && s * N <= b < s * N + N && 0 <= b
                        < disks0[j].contents().len() implies (
                #[trigger] self.array.0@[j].contents()[b]) == disks0[j].contents()[b] by {
                    vstd::arithmetic::div_mod::lemma_fundamental_div_mod_converse(
                        b,
                        N as int,
                        s as int,
                        b - s * N,
                    );
                    assert(b / (N as int) == s);
                }
                assert(forall|j: int|
                    0 <= j < D ==> (#[trigger] self.array.0@[j]).contents().len()
                        == disks0[j].contents().len()) by {
                    assert(forall|j: int|
                        0 <= j < D ==> (#[trigger] self.array.0@[j]).inv() && disks0[j].inv());
                }
                lemma_eff_congruence::<D, N, T>(disks0, self.array.0@, s as int * N);
            }
            let ghost pre = self.array.0@;
            self.repair_stripe(s);
            proof {
                assert forall|j: int, b: int|
                    0 <= j < D && 0 <= b < disks0[j].contents().len() implies (
                #[trigger] self.array.0@[j].contents()[b]) == (if b / (N as int) < s + 1 {
                    Self::spec_repaired_byte(disks0, j, b)
                } else {
                    disks0[j].contents()[b]
                }) by {
                    let bs = b / (N as int);
                    vstd::arithmetic::div_mod::lemma_fundamental_div_mod(b, N as int);
                    assert(N as int * bs == bs * (N as int)) by (nonlinear_arith);
                    assert(bs * N <= b < bs * N + N);
                    let io = pre[j].spec_io_len((s * N) as u64, N as nat);
                    assert(pre[j].contents().len() == disks0[j].contents().len());
                    if bs == s {
                        if spec_repaired::<D, N, T>(disks0, s as int * N, j)
                            && disks0[j].spec_operational() {
                            if b < s * N + io {
                                assert(self.array.0@[j].contents()[b] == eff_cells::<D, N, T>(
                                    disks0,
                                    s as int * N,
                                )[j][b - s * N]);
                            } else {
                                assert(false);
                            }
                        } else {
                            assert(self.array.0@[j].contents()[b] == pre[j].contents()[b]);
                        }
                    } else {
                        assert(!(s * N <= b < s * N + N)) by {
                            if s * N <= b < s * N + N {
                                vstd::arithmetic::div_mod::lemma_fundamental_div_mod_converse(
                                    b,
                                    N as int,
                                    s as int,
                                    b - s * N,
                                );
                            }
                        }
                        assert(self.array.0@[j].contents()[b] == pre[j].contents()[b]);
                    }
                }
            }
            s = s + 1;
        }
        proof {
            assert(final(self).wf());
        }
    }

    /// A bound that lets every stripe offset below `spec_stripes_needed`
    /// be formed without overflow.
    proof fn lemma_stripes_fit(self, end: u64)
        requires
            self.wf(),
        ensures
            self.spec_stripes_needed(end) == 0 || (self.spec_stripes_needed(end) - 1) * N
                <= u64::MAX,
    {
        let e = if end <= self.spec_capacity() {
            end as int
        } else {
            self.spec_capacity()
        };
        let sb = self.spec_stripe_bytes();
        let stripes = self.spec_stripes_needed(end);
        if stripes > 0 {
            vstd::arithmetic::div_mod::lemma_fundamental_div_mod(e, sb);
            assert(stripes - 1 <= e / sb);
            assert(sb * (e / sb) == (e / sb) * sb) by (nonlinear_arith);
            assert((e / sb) * sb <= e);
            assert((stripes - 1) * sb <= (e / sb) * sb) by (nonlinear_arith)
                requires
                    stripes - 1 <= e / sb,
                    sb >= 1,
            ;
            assert(N <= sb) by (nonlinear_arith)
                requires
                    sb == T::spec_data() * N,
                    T::spec_data() >= 1,
            ;
            assert((stripes - 1) * N <= (stripes - 1) * sb) by (nonlinear_arith)
                requires
                    N <= sb,
                    stripes - 1 >= 0,
            ;
        }
    }

    /// `rebuild_all_upto` repairs every stripe covering the logical range
    /// `[0, end)` when the layout can restore cells and some disk is
    /// untrusted, then marks all operational disks trusted.
    pub fn rebuild_all_upto(&mut self, end: u64)
        requires
            old(self).wf(),
        ensures
            final(self).wf(),
            final(self).geom == old(self).geom,
            final(self).array.spec_disk_len() == old(self).array.spec_disk_len(),
            !(T::spec_supports_restore() && (exists|j: int|
                0 <= j < D && (#[trigger] old(self).array.0@[j]).needs_rebuild))
                ==> *final(self) == *old(self),
            (T::spec_supports_restore() && (exists|j: int|
                0 <= j < D && (#[trigger] old(self).array.0@[j]).needs_rebuild)) ==> ({
                let stripes = old(self).spec_stripes_needed(end);
                &&& forall|j: int|
                    0 <= j < D ==> ({
                        let dj = #[trigger] final(self).array.0@[j];
                        let oj = old(self).array.0@[j];
                        &&& dj.spec_operational() == oj.spec_operational()
                        &&& dj.spec_len() == oj.spec_len()
                        &&& dj.needs_rebuild == (oj.needs_rebuild && !oj.spec_operational())
                    })
                &&& forall|j: int, b: int|
                    0 <= j < D && 0 <= b < old(self).array.0@[j].contents().len()
                        ==> (#[trigger] final(self).array.0@[j].contents()[b]) == (if b / (
                    N as int) < stripes {
                        Self::spec_repaired_byte(old(self).array.0@, j, b)
                    } else {
                        old(self).array.0@[j].contents()[b]
                    })
            }),
    {
        let needs = T::supports_restore() && self.any_needs_rebuild();
        if !needs {
            return ;
        }
        let stripes = self.stripes_needed_for_logical_end(end);
        proof {
            self.lemma_stripes_fit(end);
        }
        self.repair_prefix(stripes);
        self.clear_needs_rebuild_all();
    }

    /// `rebuild_disk_upto` repairs every stripe covering the logical range
    /// `[0, end)` and then marks disk `i` trusted.  The disk must exist
    /// and be present; a disk that is already trusted needs no rebuild.
    pub fn rebuild_disk_upto(&mut self, i: usize, end: u64) -> (r: Result<(), VolumeError>)
        requires
            old(self).wf(),
        ensures
            final(self).wf(),
            final(self).geom == old(self).geom,
            final(self).array.spec_disk_len() == old(self).array.spec_disk_len(),
            r is Ok <==> (i < D && old(self).array.0@[i as int].spec_operational()),
            r is Err ==> *final(self) == *old(self),
            r == Result::<(), VolumeError>::Err(VolumeError::IndexOutOfRange) <==> i >= D,
            (r is Ok && !old(self).array.0@[i as int].needs_rebuild) ==> *final(self) == *old(
                self,
            ),
            (r is Ok && old(self).array.0@[i as int].needs_rebuild) ==> ({
                let stripes = old(self).spec_stripes_needed(end);
                &&& forall|j: int|
                    0 <= j < D ==> ({
                        let dj = #[trigger] final(self).array.0@[j];
                        let oj = old(self).array.0@[j];
                        &&& dj.spec_operational() == oj.spec_operational()
                        &&& dj.spec_len() == oj.spec_len()
                        &&& dj.needs_rebuild == (if j == i {
                            false
                        } else {
                            oj.needs_rebuild
                        })
                    })
                &&& forall|j: int, b: int|
                    0 <= j < D && 0 <= b < old(self).array.0@[j].contents().len()
                        ==> (#[trigger] final(self).array.0@[j].contents()[b]) == (if b / (
                    N as int) < stripes {
                        Self::spec_repaired_byte(old(self).array.0@, j, b)
                    } else {
                        old(self).array.0@[j].contents()[b]
                    })
            }),
    {
        if i >= D {
            return Err(VolumeError::IndexOutOfRange);
        }
        let missing = self.array.0[i].is_missing();
        if missing {
            return Err(VolumeError::DiskMissing);
        }
        let untrusted = self.array.0[i].needs_rebuild;
        if !untrusted {
            return Ok(());
        }
        let stripes = self.stripes_needed_for_logical_end(end);
        proof {
            self.lemma_stripes_fit(end);
        }
        let ghost mid = *self;
        self.repair_prefix(stripes);
        let ghost post = *self;
        let d = &mut self.array.0[i];
        d.needs_rebuild = false;
        proof {
            assert(final(self).wf());
            assert(final(self).array.0@ == post.array.0@.update(
                i as int,
                final(self).array.0@[i as int],
            ));
            assert(forall|j: int|
                0 <= j < D && j != i ==> #[trigger] final(self).array.0@[j] == post.array.0@[j]);
            assert(final(self).array.0@[i as int].contents() == post.array.0@[
                i as int].contents());
            assert(final(self).array.0@[i as int].spec_operational() == post.array.0@[
                i as int].spec_operational());
        }
        Ok(())
    }
}

} // verus!
