//! A fixed set of disks with stripe-granular IO: writing a stripe fans its
//! cells out to the disks, and reading one reconstructs lost or untrusted
//! cells and repairs redundancy before handing the stripe back
//! (read-repair).

use vstd::prelude::*;

use crate::bits::{zero_bytes, Bits};
use crate::disk::{splice_bytes, Disk, DiskError};
use crate::stripe::{views, wf_cells, Stripe};

verus! {

broadcast use vstd::seq_lib::lemma_seq_contains_after_push;

/// The `n` bytes a disk shows at byte offset `off`: bytes beyond the disk
/// end read as zero.
pub open spec fn chunk_at(d: Disk, off: int, n: int) -> Seq<u8> {
    Seq::new(
        n as nat,
        |k: int|
            if off + k < d.contents().len() {
                d.contents()[off + k]
            } else {
                0u8
            },
    )
}

/// Whether disk `j` is left out of a read: it is missing, or the layout
/// can rebuild cells and the disk's contents are not trusted.
pub open spec fn spec_degraded<const D: usize, const N: usize, T: Stripe<D, N>>(
    disks: Seq<Disk>,
    j: int,
) -> bool {
    !disks[j].spec_operational() || (T::spec_supports_restore() && disks[j].needs_rebuild)
}

/// The cells as a read loads them: degraded disks contribute zeros.
pub open spec fn raw_cells<const D: usize, const N: usize, T: Stripe<D, N>>(
    disks: Seq<Disk>,
    off: int,
) -> Seq<Seq<u8>> {
    Seq::new(
        D as nat,
        |j: int|
            if spec_degraded::<D, N, T>(disks, j) {
                zero_bytes(N as nat)
            } else {
                chunk_at(disks[j], off, N as int)
            },
    )
}

/// How many of the first `k` disks are degraded.
pub open spec fn degr_count<const D: usize, const N: usize, T: Stripe<D, N>>(
    disks: Seq<Disk>,
    k: int,
) -> nat
    decreases k,
{
    if k <= 0 {
        0
    } else {
        degr_count::<D, N, T>(disks, k - 1) + if spec_degraded::<D, N, T>(disks, k - 1) {
            1nat
        } else {
            0nat
        }
    }
}

/// The lowest degraded disk index below `k` (or `k` when there is none).
pub open spec fn degr_first<const D: usize, const N: usize, T: Stripe<D, N>>(
    disks: Seq<Disk>,
    k: int,
) -> int
    decreases k,
{
    if k <= 0 {
        0
    } else {
        if degr_count::<D, N, T>(disks, k - 1) == 0 && spec_degraded::<D, N, T>(disks, k - 1) {
            k - 1
        } else {
            degr_first::<D, N, T>(disks, k - 1)
        }
    }
}

/// The cells after calling restore on every degraded index below `k`, in
/// ascending order.
pub open spec fn restore_upto<const D: usize, const N: usize, T: Stripe<D, N>>(
    c: Seq<Seq<u8>>,
    disks: Seq<Disk>,
    k: int,
) -> Seq<Seq<u8>>
    decreases k,
{
    if k <= 0 {
        c
    } else {
        let prev = restore_upto::<D, N, T>(c, disks, k - 1);
        if spec_degraded::<D, N, T>(disks, k - 1) {
            T::spec_restore(prev, k - 1)
        } else {
            prev
        }
    }
}

/// The cells after the reconstruction step of a read: a mirror-like layout
/// restores every degraded cell; any other restorable layout restores a
/// single degraded cell and leaves the stripe alone when more are
/// degraded.
pub open spec fn restored_cells<const D: usize, const N: usize, T: Stripe<D, N>>(
    disks: Seq<Disk>,
    off: int,
) -> Seq<Seq<u8>> {
    let raw = raw_cells::<D, N, T>(disks, off);
    if !T::spec_supports_restore() {
        raw
    } else if T::spec_data() == 1 {
        restore_upto::<D, N, T>(raw, disks, D as int)
    } else if degr_count::<D, N, T>(disks, D as int) == 1 {
        T::spec_restore(raw, degr_first::<D, N, T>(disks, D as int))
    } else {
        raw
    }
}

/// The cells a read hands back: reconstruction, then (for restorable
/// layouts) a scrub of the internal redundancy.
pub open spec fn eff_cells<const D: usize, const N: usize, T: Stripe<D, N>>(
    disks: Seq<Disk>,
    off: int,
) -> Seq<Seq<u8>> {
    let restored = restored_cells::<D, N, T>(disks, off);
    if T::spec_supports_restore() {
        T::spec_scrub(restored)
    } else {
        restored
    }
}

/// Whether a read writes cell `j` back to disk `j`: the cell was restored,
/// or the scrub changed it.
pub open spec fn spec_repaired<const D: usize, const N: usize, T: Stripe<D, N>>(
    disks: Seq<Disk>,
    off: int,
    j: int,
) -> bool {
    T::spec_supports_restore() && ((T::spec_data() == 1 && spec_degraded::<D, N, T>(disks, j)) || (
    T::spec_data() != 1 && degr_count::<D, N, T>(disks, D as int) == 1 && j == degr_first::<
        D,
        N,
        T,
    >(disks, D as int)) || eff_cells::<D, N, T>(disks, off)[j] != restored_cells::<D, N, T>(
        disks,
        off,
    )[j])
}

proof fn lemma_degr_congruence<const D: usize, const N: usize, T: Stripe<D, N>>(
    d1: Seq<Disk>,
    d2: Seq<Disk>,
    k: int,
)
    requires
        d1.len() == D,
        d2.len() == D,
        k <= D,
        forall|j: int|
            0 <= j < D ==> (#[trigger] d2[j]).spec_operational() == d1[j].spec_operational()
                && d2[j].needs_rebuild == d1[j].needs_rebuild,
    ensures
        degr_count::<D, N, T>(d2, k) == degr_count::<D, N, T>(d1, k),
        degr_first::<D, N, T>(d2, k) == degr_first::<D, N, T>(d1, k),
    decreases k,
{
    if k > 0 {
        lemma_degr_congruence::<D, N, T>(d1, d2, k - 1);
    }
}

proof fn lemma_restore_upto_congruence<const D: usize, const N: usize, T: Stripe<D, N>>(
    c: Seq<Seq<u8>>,
    d1: Seq<Disk>,
    d2: Seq<Disk>,
    k: int,
)
    requires
        d1.len() == D,
        d2.len() == D,
        k <= D,
        forall|j: int|
            0 <= j < D ==> (#[trigger] d2[j]).spec_operational() == d1[j].spec_operational()
                && d2[j].needs_rebuild == d1[j].needs_rebuild,
    ensures
        restore_upto::<D, N, T>(c, d2, k) == restore_upto::<D, N, T>(c, d1, k),
    decreases k,
{
    if k > 0 {
        lemma_restore_upto_congruence::<D, N, T>(c, d1, d2, k - 1);
    }
}

/// The outcome of a read depends only on the disks' health flags and the
/// bytes in the chunk range it touches: two states that agree there yield
/// the same reconstructed cells and the same set of repaired cells.
pub proof fn lemma_eff_congruence<const D: usize, const N: usize, T: Stripe<D, N>>(
    d1: Seq<Disk>,
    d2: Seq<Disk>,
    off: int,
)
    requires
        d1.len() == D,
        d2.len() == D,
        off >= 0,
        forall|j: int|
            0 <= j < D ==> (#[trigger] d2[j]).spec_operational() == d1[j].spec_operational()
                && d2[j].needs_rebuild == d1[j].needs_rebuild
                && d2[j].contents().len() == d1[j].contents().len(),
        forall|j: int, b: int|
            0 <= j < D && off <= b < off + N && 0 <= b < d1[j].contents().len()
                ==> (#[trigger] d2[j].contents()[b]) == d1[j].contents()[b],
    ensures
        raw_cells::<D, N, T>(d2, off) == raw_cells::<D, N, T>(d1, off),
        restored_cells::<D, N, T>(d2, off) == restored_cells::<D, N, T>(d1, off),
        eff_cells::<D, N, T>(d2, off) == eff_cells::<D, N, T>(d1, off),
        forall|j: int|
            0 <= j < D ==> (spec_repaired::<D, N, T>(d2, off, j) == spec_repaired::<D, N, T>(
                d1,
                off,
                j,
            )),
{
    assert forall|j: int| 0 <= j < D implies raw_cells::<D, N, T>(d2, off)[j] == raw_cells::<
        D,
        N,
        T,
    >(d1, off)[j] by {
        if !spec_degraded::<D, N, T>(d1, j) {
            assert(chunk_at(d2[j], off, N as int) =~= chunk_at(d1[j], off, N as int));
        }
    }
    assert(raw_cells::<D, N, T>(d2, off) =~= raw_cells::<D, N, T>(d1, off));
    lemma_degr_congruence::<D, N, T>(d1, d2, D as int);
    lemma_restore_upto_congruence::<D, N, T>(
        raw_cells::<D, N, T>(d1, off),
        d1,
        d2,
        D as int,
    );
}

proof fn lemma_restore_upto_no_degraded<const D: usize, const N: usize, T: Stripe<D, N>>(
    c: Seq<Seq<u8>>,
    disks: Seq<Disk>,
    k: int,
)
    requires
        disks.len() == D,
        k <= D,
        forall|j: int| 0 <= j < k ==> !spec_degraded::<D, N, T>(disks, j),
    ensures
        restore_upto::<D, N, T>(c, disks, k) == c,
    decreases k,
{
    if k > 0 {
        lemma_restore_upto_no_degraded::<D, N, T>(c, disks, k - 1);
    }
}

/// When no disk is degraded, a read takes the cells as they stand on disk
/// and only the scrub step may alter them.
pub proof fn lemma_eff_no_degraded<const D: usize, const N: usize, T: Stripe<D, N>>(
    disks: Seq<Disk>,
    off: int,
)
    requires
        disks.len() == D,
        forall|j: int| 0 <= j < D ==> !spec_degraded::<D, N, T>(disks, j),
    ensures
        restored_cells::<D, N, T>(disks, off) == raw_cells::<D, N, T>(disks, off),
        eff_cells::<D, N, T>(disks, off) == (if T::spec_supports_restore() {
            T::spec_scrub(raw_cells::<D, N, T>(disks, off))
        } else {
            raw_cells::<D, N, T>(disks, off)
        }),
{
    lemma_restore_upto_no_degraded::<D, N, T>(raw_cells::<D, N, T>(disks, off), disks, D as int);
    if T::spec_supports_restore() && T::spec_data() != 1 {
        assert forall|k: int| 0 <= k <= D implies degr_count::<D, N, T>(disks, k) == 0 by {
            lemma_degr_count_zero::<D, N, T>(disks, k);
        }
    }
}

proof fn lemma_degr_count_zero<const D: usize, const N: usize, T: Stripe<D, N>>(
    disks: Seq<Disk>,
    k: int,
)
    requires
        disks.len() == D,
        k <= D,
        forall|j: int| 0 <= j < D ==> !spec_degraded::<D, N, T>(disks, j),
    ensures
        degr_count::<D, N, T>(disks, k) == 0,
    decreases k,
{
    if k > 0 {
        lemma_degr_count_zero::<D, N, T>(disks, k - 1);
    }
}

proof fn lemma_single_degraded_count<const D: usize, const N: usize, T: Stripe<D, N>>(
    disks: Seq<Disk>,
    i: int,
    k: int,
)
    requires
        disks.len() == D,
        0 <= i < D,
        k <= D,
        spec_degraded::<D, N, T>(disks, i),
        forall|j: int| 0 <= j < D && j != i ==> !spec_degraded::<D, N, T>(disks, j),
    ensures
        degr_count::<D, N, T>(disks, k) == (if i < k {
            1nat
        } else {
            0nat
        }),
        i < k ==> degr_first::<D, N, T>(disks, k) == i,
    decreases k,
{
    if k > 0 {
        lemma_single_degraded_count::<D, N, T>(disks, i, k - 1);
    }
}

proof fn lemma_restore_upto_single<const D: usize, const N: usize, T: Stripe<D, N>>(
    c: Seq<Seq<u8>>,
    disks: Seq<Disk>,
    i: int,
    k: int,
)
    requires
        disks.len() == D,
        0 <= i < D,
        k <= D,
        spec_degraded::<D, N, T>(disks, i),
        forall|j: int| 0 <= j < D && j != i ==> !spec_degraded::<D, N, T>(disks, j),
    ensures
        restore_upto::<D, N, T>(c, disks, k) == (if i < k {
            T::spec_restore(c, i)
        } else {
            c
        }),
    decreases k,
{
    if k > 0 {
        lemma_restore_upto_single::<D, N, T>(c, disks, i, k - 1);
    }
}

/// With exactly one degraded disk whose remaining peers still hold a
/// consistent stripe `w`, a read reconstructs exactly `w`: the lost cell
/// comes back from the others and the scrub then finds nothing to repair.
pub proof fn lemma_eff_single_degraded<const D: usize, const N: usize, T: Stripe<D, N>>(
    disks: Seq<Disk>,
    off: int,
    i: int,
    w: Seq<Seq<u8>>,
)
    requires
        disks.len() == D,
        0 <= i < D,
        T::spec_supports_restore(),
        T::spec_usable(),
        T::spec_restore_ready(),
        spec_degraded::<D, N, T>(disks, i),
        forall|j: int| 0 <= j < D && j != i ==> !spec_degraded::<D, N, T>(disks, j),
        wf_cells(w, D as int, N as int),
        T::spec_consistent(w),
        forall|j: int|
            0 <= j < D && j != i ==> chunk_at(disks[j], off, N as int) == w[j],
    ensures
        eff_cells::<D, N, T>(disks, off) == w,
        spec_repaired::<D, N, T>(disks, off, i),
{
    let raw = raw_cells::<D, N, T>(disks, off);
    assert(forall|j: int| 0 <= j < D && j != i ==> raw[j] == w[j]);
    lemma_single_degraded_count::<D, N, T>(disks, i, D as int);
    lemma_restore_upto_single::<D, N, T>(raw, disks, i, D as int);
    assert(restored_cells::<D, N, T>(disks, off) == T::spec_restore(raw, i));
    T::lemma_restore(raw, w, i);
    assert(restored_cells::<D, N, T>(disks, off) == w);
    T::lemma_scrub(w);
    assert(eff_cells::<D, N, T>(disks, off) == w);
}

/// The error cases of the array's administrative calls.
#[derive(Clone, Copy, PartialEq, Eq, Structural, Debug)]
pub enum ArrayError {
    /// The disk index is not below the disk count.
    IndexOutOfRange,
    /// The disk image could not be recreated.
    Disk(DiskError),
}

/// `Array` manages a fixed set of `D` disk images of equal length for a
/// RAID volume.
pub struct Array<const D: usize, const N: usize>(pub Vec<Disk>);

impl<const D: usize, const N: usize> Array<D, N> {
    /// The array holds `D` disks of one common length.
    pub open spec fn wf(self) -> bool {
        &&& self.0@.len() == D
        &&& forall|i: int| 0 <= i < D ==> (#[trigger] self.0@[i]).inv()
        &&& forall|i: int|
            0 <= i < D ==> (#[trigger] self.0@[i]).spec_len() == self.spec_disk_len()
    }

    /// The common disk length (zero for an empty array).
    pub open spec fn spec_disk_len(self) -> u64 {
        if self.0@.len() > 0 {
            self.0@[0].spec_len()
        } else {
            0
        }
    }

    /// `create` opens `D` fresh zero-filled disks of length `len`.
    pub fn create(len: u64) -> (r: Result<Self, ArrayError>)
        ensures
            r matches Ok(a) ==> ({
                &&& a.wf()
                &&& D > 0 ==> a.spec_disk_len() == len
                &&& forall|i: int|
                    0 <= i < D ==> (#[trigger] a.0@[i]).spec_operational()
                        && a.0@[i].needs_rebuild && a.0@[i].contents() == zero_bytes(len as nat)
            }),
    {
        let mut disks: Vec<Disk> = Vec::new();
        while disks.len() < D
            invariant
                disks@.len() <= D,
                forall|i: int|
                    0 <= i < disks@.len() ==> (#[trigger] disks@[i]).inv()
                        && disks@[i].spec_len() == len && disks@[i].spec_operational()
                        && disks@[i].needs_rebuild
                        && disks@[i].contents() == zero_bytes(len as nat),
            decreases D - disks@.len(),
        {
            match Disk::create(len) {
                Ok(d) => disks.push(d),
                Err(e) => {
                    return Err(ArrayError::Disk(e));
                },
            }
        }
        Ok(Array(disks))
    }

    /// `from_disks` wraps caller-opened disks (for example file-backed
    /// ones) of one common length.
    pub fn from_disks(disks: Vec<Disk>) -> (r: Self)
        requires
            disks@.len() == D,
            forall|i: int| 0 <= i < D ==> (#[trigger] disks@[i]).inv(),
            forall|i: int|
                0 <= i < D ==> (#[trigger] disks@[i]).spec_len() == disks@[0].spec_len(),
        ensures
            r.wf(),
            r.0@ == disks@,
    {
        Array(disks)
    }

    /// `disk_len` returns the length of the first disk in the array.
    pub fn disk_len(&self) -> (r: u64)
        requires
            self.wf(),
        ensures
            r == self.spec_disk_len(),
    {
        if D == 0 {
            0
        } else {
            self.0[0].len()
        }
    }

    /// `fail_disk` simulates a disk failure at the specified index: the
    /// disk's mapping is dropped and nothing else changes.
    pub fn fail_disk(&mut self, i: usize) -> (r: Result<(), ArrayError>)
        requires
            old(self).wf(),
        ensures
            final(self).wf(),
            r is Ok <==> i < D,
            r is Err ==> *final(self) == *old(self) && r == Result::<(), ArrayError>::Err(
                ArrayError::IndexOutOfRange,
            ),
            r is Ok ==> ({
                &&& !final(self).0@[i as int].spec_operational()
                &&& final(self).0@[i as int].spec_len() == old(self).0@[i as int].spec_len()
                &&& final(self).0@[i as int].needs_rebuild == old(self).0@[i as int].needs_rebuild
                &&& forall|j: int| 0 <= j < D && j != i ==> final(self).0@[j] == old(self).0@[j]
            }),
            final(self).spec_disk_len() == old(self).spec_disk_len(),
    {
        if i >= D {
            return Err(ArrayError::IndexOutOfRange);
        }
        let d = &mut self.0[i];
        d.fail();
        proof {
            assert(final(self).wf());
        }
        Ok(())
    }

    /// `replace_disk` replaces the disk image at the specified index with
    /// a fresh zero-filled untrusted one of the original length.
    pub fn replace_disk(&mut self, i: usize) -> (r: Result<(), ArrayError>)
        requires
            old(self).wf(),
        ensures
            final(self).wf(),
            i >= D ==> *final(self) == *old(self) && r == Result::<(), ArrayError>::Err(
                ArrayError::IndexOutOfRange,
            ),
            r is Ok ==> ({
                &&& i < D
                &&& final(self).0@[i as int].spec_operational()
                &&& final(self).0@[i as int].needs_rebuild
                &&& final(self).0@[i as int].contents() == zero_bytes(
                    old(self).0@[i as int].spec_len() as nat,
                )
                &&& final(self).0@[i as int].spec_len() == old(self).0@[i as int].spec_len()
                &&& forall|j: int| 0 <= j < D && j != i ==> final(self).0@[j] == old(self).0@[j]
            }),
            r is Err ==> forall|j: int| 0 <= j < D ==> final(self).0@[j] == old(self).0@[j],
            final(self).spec_disk_len() == old(self).spec_disk_len(),
    {
        if i >= D {
            return Err(ArrayError::IndexOutOfRange);
        }
        let d = &mut self.0[i];
        match d.replace() {
            Ok(()) => {
                proof {
                    assert(final(self).wf());
                }
                Ok(())
            },
            Err(e) => {
                proof {
                    assert(final(self).wf());
                }
                Err(ArrayError::Disk(e))
            },
        }
    }

    /// `write` persists a stripe to disk at the specified offset: each
    /// cell goes to its disk, clipped at the disk end; missing disks are
    /// silently skipped; a disk that takes a full chunk becomes trusted.
    pub fn write<T: Stripe<D, N>>(&mut self, off: u64, stripe: &T)
        requires
            old(self).wf(),
            wf_cells(stripe.cells(), D as int, N as int),
        ensures
            final(self).wf(),
            final(self).spec_disk_len() == old(self).spec_disk_len(),
            forall|j: int|
                0 <= j < D ==> ({
                    let dj = #[trigger] final(self).0@[j];
                    let oj = old(self).0@[j];
                    let io = oj.spec_io_len(off, N as nat);
                    &&& dj.spec_operational() == oj.spec_operational()
                    &&& dj.spec_len() == oj.spec_len()
                    &&& dj.needs_rebuild == (oj.needs_rebuild && !(oj.spec_operational() && io
                        == N))
                    &&& dj.contents() == (if oj.spec_operational() {
                        splice_bytes(oj.contents(), off as int, stripe.cells()[j].take(io as int))
                    } else {
                        oj.contents()
                    })
                }),
    {
        let mut cell: Vec<Bits<N>> = Vec::new();
        while cell.len() < D
            invariant
                cell@.len() <= D,
                forall|i: int| 0 <= i < cell@.len() ==> cell@[i]@ == zero_bytes(N as nat),
            decreases D - cell@.len(),
        {
            cell.push(Bits::zero());
        }
        stripe.read_raw(cell.as_mut_slice());
        proof {
            assert(views(cell@) == stripe.cells());
        }
        let mut i: usize = 0;
        while i < D
            invariant
                i <= D,
                self.0@.len() == D,
                cell@.len() == D,
                views(cell@) == stripe.cells(),
                wf_cells(stripe.cells(), D as int, N as int),
                forall|j: int| 0 <= j < D ==> (#[trigger] self.0@[j]).inv(),
                forall|j: int|
                    i <= j < D ==> #[trigger] self.0@[j] == old(self).0@[j],
                forall|j: int|
                    0 <= j < i ==> ({
                        let dj = #[trigger] self.0@[j];
                        let oj = old(self).0@[j];
                        let io = oj.spec_io_len(off, N as nat);
                        &&& dj.spec_operational() == oj.spec_operational()
                        &&& dj.spec_len() == oj.spec_len()
                        &&& dj.needs_rebuild == (oj.needs_rebuild && !(oj.spec_operational()
                            && io == N))
                        &&& dj.contents() == (if oj.spec_operational() {
                            splice_bytes(
                                oj.contents(),
                                off as int,
                                stripe.cells()[j].take(io as int),
                            )
                        } else {
                            oj.contents()
                        })
                    }),
            decreases D - i,
        {
            let missing = self.0[i].is_missing();
            if !missing {
                let d = &mut self.0[i];
                let written = d.write_at(off, cell[i].as_bytes());
                if written == N {
                    d.needs_rebuild = false;
                }
                proof {
                    assert(self.0@[i as int].contents() == splice_bytes(
                        old(self).0@[i as int].contents(),
                        off as int,
                        stripe.cells()[i as int].take(
                            old(self).0@[i as int].spec_io_len(off, N as nat) as int,
                        ),
                    ));
                }
            }
            i = i + 1;
        }
        proof {
            assert(final(self).wf());
        }
    }
}

impl<const D: usize, const N: usize> Array<D, N> {
    /// `read` loads a stripe from disk at the specified offset, applying
    /// the reconstruction protocol: degraded cells are rebuilt where the
    /// layout allows it, the redundancy is scrubbed, and every repaired
    /// cell is written back to its operational disk (read-repair).
    pub fn read<T: Stripe<D, N>>(&mut self, off: u64, stripe: &mut T)
        requires
            old(self).wf(),
            wf_cells(old(stripe).cells(), D as int, N as int),
            T::spec_usable(),
            T::spec_supports_restore() ==> T::spec_restore_ready(),
        ensures
            final(self).wf(),
            final(self).spec_disk_len() == old(self).spec_disk_len(),
            wf_cells(final(stripe).cells(), D as int, N as int),
            final(stripe).cells() == eff_cells::<D, N, T>(old(self).0@, off as int),
            forall|j: int|
                0 <= j < D ==> ({
                    let dj = #[trigger] final(self).0@[j];
                    let oj = old(self).0@[j];
                    let io = oj.spec_io_len(off, N as nat);
                    &&& dj.spec_operational() == oj.spec_operational()
                    &&& dj.spec_len() == oj.spec_len()
                    &&& dj.needs_rebuild == oj.needs_rebuild
                    &&& dj.contents() == (if spec_repaired::<D, N, T>(old(self).0@, off as int, j)
                        && oj.spec_operational() {
                        splice_bytes(
                            oj.contents(),
                            off as int,
                            eff_cells::<D, N, T>(old(self).0@, off as int)[j].take(io as int),
                        )
                    } else {
                        oj.contents()
                    })
                }),
    {
        let ghost disks0 = self.0@;
        let ghost raw = raw_cells::<D, N, T>(disks0, off as int);
        let supports = T::supports_restore();

        let mut cell: Vec<Bits<N>> = Vec::new();
        while cell.len() < D
            invariant
                cell@.len() <= D,
                forall|i: int| 0 <= i < cell@.len() ==> cell@[i]@ == zero_bytes(N as nat),
            decreases D - cell@.len(),
        {
            cell.push(Bits::zero());
        }

        let mut degr: Vec<usize> = Vec::new();
        let mut i: usize = 0;
        while i < D
            invariant
                i <= D,
                self.0@ == disks0,
                self.wf(),
                supports == T::spec_supports_restore(),
                raw == raw_cells::<D, N, T>(disks0, off as int),
                cell@.len() == D,
                degr@.len() == degr_count::<D, N, T>(disks0, i as int),
                forall|p: int|
                    0 <= p < degr@.len() ==> spec_degraded::<D, N, T>(
                        disks0,
                        #[trigger] degr@[p] as int,
                    ) && degr@[p] < i,
                degr@.len() > 0 ==> degr@[0] == degr_first::<D, N, T>(disks0, i as int),
                forall|j: int|
                    0 <= j < i ==> (#[trigger] cell@[j])@ == raw_cells::<D, N, T>(
                        disks0,
                        off as int,
                    )[j],
                forall|j: int| i <= j < D ==> (#[trigger] cell@[j])@ == zero_bytes(N as nat),
            decreases D - i,
        {
            let dm = self.0[i].is_missing();
            let untr = self.0[i].needs_rebuild;
            if dm || (supports && untr) {
                degr.push(i);
                proof {
                    assert(degr_count::<D, N, T>(disks0, i + 1) == degr_count::<D, N, T>(
                        disks0,
                        i as int,
                    ) + 1);
                    assert(spec_degraded::<D, N, T>(disks0, i as int));
                    assert(raw[i as int] == zero_bytes(N as nat));
                }
            } else {
                let mut tmp: [u8; N] = [0u8; N];
                let r = self.0[i].read_at(off, &mut tmp);
                cell[i] = Bits(tmp);
                proof {
                    assert(!spec_degraded::<D, N, T>(disks0, i as int));
                    assert(cell@[i as int]@ =~= chunk_at(disks0[i as int], off as int, N as int));
                    assert(degr_count::<D, N, T>(disks0, i + 1) == degr_count::<D, N, T>(
                        disks0,
                        i as int,
                    ));
                    assert(degr_first::<D, N, T>(disks0, i + 1) == degr_first::<D, N, T>(
                        disks0,
                        i as int,
                    ));
                }
            }
            i = i + 1;
        }

        stripe.write_raw(cell.as_slice());
        proof {
            assert(stripe.cells() =~= raw);
        }

        if supports {
            if T::data() == 1 {
                let mut k: usize = 0;
                while k < D
                    invariant
                        k <= D,
                        self.0@ == disks0,
                        self.wf(),
                        T::spec_supports_restore(),
                        T::spec_usable(),
                        T::spec_restore_ready(),
                        wf_cells(stripe.cells(), D as int, N as int),
                        stripe.cells() == restore_upto::<D, N, T>(raw, disks0, k as int),
                    decreases D - k,
                {
                    let dm = self.0[k].is_missing();
                    let untr = self.0[k].needs_rebuild;
                    if dm || untr {
                        stripe.restore_cell(k);
                    }
                    k = k + 1;
                }
                proof {
                    assert(stripe.cells() == restored_cells::<D, N, T>(disks0, off as int));
                }
            } else {
                if degr.len() == 1 {
                    stripe.restore_cell(degr[0]);
                }
                proof {
                    assert(stripe.cells() == restored_cells::<D, N, T>(disks0, off as int));
                }
            }
            let ghost restored = restored_cells::<D, N, T>(disks0, off as int);
            let changed = stripe.scrub_cells();
            let ghost eff = eff_cells::<D, N, T>(disks0, off as int);
            proof {
                assert(stripe.cells() == eff);
            }

            let mut out: Vec<Bits<N>> = Vec::new();
            while out.len() < D
                invariant
                    out@.len() <= D,
                    forall|i2: int| 0 <= i2 < out@.len() ==> out@[i2]@ == zero_bytes(N as nat),
                decreases D - out@.len(),
            {
                out.push(Bits::zero());
            }
            stripe.read_raw(out.as_mut_slice());
            proof {
                assert(forall|j: int| 0 <= j < D ==> (#[trigger] out@[j])@ == eff[j]);
            }

            let mut j: usize = 0;
            while j < D
                invariant
                    j <= D,
                    self.0@.len() == D,
                    out@.len() == D,
                    degr@.len() == degr_count::<D, N, T>(disks0, D as int),
                    degr@.len() > 0 ==> degr@[0] == degr_first::<D, N, T>(disks0, D as int),
                    T::spec_supports_restore(),
                    forall|q: int| 0 <= q < D ==> (#[trigger] self.0@[q]).inv(),
                    forall|q: int| 0 <= q < D ==> (#[trigger] out@[q])@ == eff[q],
                    eff == eff_cells::<D, N, T>(disks0, off as int),
                    restored == restored_cells::<D, N, T>(disks0, off as int),
                    forall|q: usize|
                        q < D ==> (changed@.contains(q) <==> eff[q as int] != restored[q as int]),
                    forall|q: int|
                        j <= q < D ==> #[trigger] self.0@[q] == disks0[q],
                    forall|q: int|
                        0 <= q < j ==> ({
                            let dq = #[trigger] self.0@[q];
                            let oq = disks0[q];
                            let io = oq.spec_io_len(off, N as nat);
                            &&& dq.spec_operational() == oq.spec_operational()
                            &&& dq.spec_len() == oq.spec_len()
                            &&& dq.needs_rebuild == oq.needs_rebuild
                            &&& dq.contents() == (if spec_repaired::<D, N, T>(
                                disks0,
                                off as int,
                                q,
                            ) && oq.spec_operational() {
                                splice_bytes(oq.contents(), off as int, eff[q].take(io as int))
                            } else {
                                oq.contents()
                            })
                        }),
                decreases D - j,
            {
                let was_restored: bool = if T::data() == 1 {
                    let dm = self.0[j].is_missing();
                    dm || self.0[j].needs_rebuild
                } else {
                    degr.len() == 1 && degr[0] == j
                };
                let scrubbed = vec_contains(&changed, j);
                proof {
                    assert((was_restored || scrubbed) == spec_repaired::<D, N, T>(
                        disks0,
                        off as int,
                        j as int,
                    ));
                }
                if was_restored || scrubbed {
                    let missing = self.0[j].is_missing();
                    if !missing {
                        let d = &mut self.0[j];
                        let w = d.write_at(off, out[j].as_bytes());
                    }
                }
                j = j + 1;
            }
            proof {
                assert(final(self).wf());
            }
        } else {
            proof {
                assert(stripe.cells() == eff_cells::<D, N, T>(disks0, off as int));
                assert(forall|j: int|
                    0 <= j < D ==> !spec_repaired::<D, N, T>(disks0, off as int, j));
            }
        }
    }
}

/// `vec_contains` reports whether `v` holds `x`.
fn vec_contains(v: &Vec<usize>, x: usize) -> (r: bool)
    ensures
        r == v@.contains(x),
{
    let mut i: usize = 0;
    while i < v.len()
        invariant
            i <= v@.len(),
            forall|j: int| 0 <= j < i ==> v@[j] != x,
        decreases v@.len() - i,
    {
        if v[i] == x {
            return true;
        }
        i = i + 1;
    }
    proof {
        assert(!v@.contains(x));
    }
    false
}

} // verus!
