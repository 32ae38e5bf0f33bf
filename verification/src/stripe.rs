//! Stripe capability traits shared by the RAID layouts.
//!
//! A stripe holds one fixed-width cell per disk.  Layouts differ in how many
//! of those cells carry caller data (`DATA`), how the data cells are encoded
//! into the full cell assignment, and whether a lost cell can be rebuilt from
//! the others.  The trait captures each layout's behaviour with spec
//! functions (`spec_encode`, `spec_decode`, `spec_restore`, `spec_scrub`,
//! `spec_consistent`) so that the array and volume layers can be verified
//! without knowing which concrete layout is in use.

use vstd::prelude::*;

use crate::bits::Bits;

verus! {

/// Shape of a cell matrix: `d` cells of `n` bytes each.
pub open spec fn wf_cells(c: Seq<Seq<u8>>, d: int, n: int) -> bool {
    c.len() == d && forall|i: int| 0 <= i < d ==> (#[trigger] c[i]).len() == n
}

/// Byte-level views of a sequence of fixed-width buffers.
pub open spec fn views<const N: usize>(v: Seq<Bits<N>>) -> Seq<Seq<u8>> {
    Seq::new(v.len(), |i: int| v[i]@)
}

/// `Stripe` describes read/write behavior for a RAID stripe: `D` cells of
/// `N` bytes, of which `spec_data()` carry caller data.
pub trait Stripe<const D: usize, const N: usize>: Sized {
    /// The cells of the stripe, one byte sequence per disk.
    spec fn cells(&self) -> Seq<Seq<u8>>;

    /// How many cells carry caller data.
    spec fn spec_data() -> nat;

    /// Whether a lost cell can be rebuilt from the remaining ones.
    spec fn spec_supports_restore() -> bool;

    /// The disk counts for which this layout is meaningful.
    spec fn spec_usable() -> bool;

    /// The disk counts for which a lost cell can actually be rebuilt.
    spec fn spec_restore_ready() -> bool;

    /// The full cell assignment that encodes the given data cells.
    spec fn spec_encode(data: Seq<Seq<u8>>) -> Seq<Seq<u8>>;

    /// The data cells recovered from a full cell assignment.
    spec fn spec_decode(c: Seq<Seq<u8>>) -> Seq<Seq<u8>>;

    /// Whether the cells satisfy the layout's internal redundancy.
    spec fn spec_consistent(c: Seq<Seq<u8>>) -> bool;

    /// The cells after rebuilding cell `i` from the other cells.
    spec fn spec_restore(c: Seq<Seq<u8>>, i: int) -> Seq<Seq<u8>>;

    /// The cells after validating and repairing the internal redundancy.
    spec fn spec_scrub(c: Seq<Seq<u8>>) -> Seq<Seq<u8>>;

    /// `data` returns the number of data cells in the stripe.
    fn data() -> (r: usize)
        ensures
            r as nat == Self::spec_data(),
    ;

    /// `disks` returns the total number of cells in the stripe.
    fn disks() -> (r: usize)
        ensures
            r == D,
    ;

    /// `supports_restore` reports whether the layout can rebuild a cell.
    fn supports_restore() -> (r: bool)
        ensures
            r == Self::spec_supports_restore(),
    ;

    /// `usable` reports whether the disk count suits this layout.
    fn usable() -> (r: bool)
        ensures
            r == Self::spec_usable(),
    ;

    /// `restore_ready` reports whether the disk count allows a rebuild.
    fn restore_ready() -> (r: bool)
        ensures
            r == Self::spec_restore_ready(),
    ;

    /// `write` encodes data into the stripe layout.
    fn write(&mut self, data: &[Bits<N>])
        requires
            wf_cells(old(self).cells(), D as int, N as int),
            Self::spec_usable(),
            data@.len() == Self::spec_data(),
        ensures
            wf_cells(final(self).cells(), D as int, N as int),
            final(self).cells() == Self::spec_encode(views(data@)),
    ;

    /// `write_raw` writes raw cells into the stripe without parity logic.
    fn write_raw(&mut self, data: &[Bits<N>])
        requires
            wf_cells(old(self).cells(), D as int, N as int),
            data@.len() == D,
        ensures
            wf_cells(final(self).cells(), D as int, N as int),
            final(self).cells() == views(data@),
    ;

    /// `read` decodes the stripe layout into data cells.
    fn read(&self, out: &mut [Bits<N>])
        requires
            wf_cells(self.cells(), D as int, N as int),
            Self::spec_usable(),
            old(out)@.len() == Self::spec_data(),
        ensures
            final(out)@.len() == old(out)@.len(),
            views(final(out)@) == Self::spec_decode(self.cells()),
    ;

    /// `read_raw` reads the raw cells from the stripe without decoding.
    fn read_raw(&self, out: &mut [Bits<N>])
        requires
            wf_cells(self.cells(), D as int, N as int),
            old(out)@.len() == D,
        ensures
            final(out)@.len() == old(out)@.len(),
            views(final(out)@) == self.cells(),
    ;

    /// `restore_cell` rebuilds cell `i` from the other cells.
    fn restore_cell(&mut self, i: usize)
        requires
            wf_cells(old(self).cells(), D as int, N as int),
            Self::spec_supports_restore(),
            Self::spec_usable(),
            Self::spec_restore_ready(),
            i < D,
        ensures
            wf_cells(final(self).cells(), D as int, N as int),
            final(self).cells() == Self::spec_restore(old(self).cells(), i as int),
    ;

    /// `scrub_cells` validates and repairs the internal redundancy; it
    /// returns the indices of the cells it changed, exactly, in strictly
    /// ascending order and without duplicates.
    fn scrub_cells(&mut self) -> (r: Vec<usize>)
        requires
            wf_cells(old(self).cells(), D as int, N as int),
            Self::spec_usable(),
        ensures
            wf_cells(final(self).cells(), D as int, N as int),
            final(self).cells() == Self::spec_scrub(old(self).cells()),
            forall|j: usize|
                j < D ==> (r@.contains(j) <==> final(self).cells()[j as int] != old(
                    self,
                ).cells()[j as int]),
            forall|q: int| 0 <= q < r@.len() ==> (#[trigger] r@[q]) < D,
            forall|q1: int, q2: int| 0 <= q1 < q2 < r@.len() ==> r@[q1] < r@[q2],
            r@.no_duplicates(),
    ;

    /// Encoding data cells yields a consistent stripe that decodes back to
    /// the same data.
    proof fn lemma_encode(data: Seq<Seq<u8>>)
        requires
            Self::spec_usable(),
            wf_cells(data, Self::spec_data() as int, N as int),
        ensures
            wf_cells(Self::spec_encode(data), D as int, N as int),
            Self::spec_consistent(Self::spec_encode(data)),
            Self::spec_decode(Self::spec_encode(data)) == data,
    ;

    /// Scrubbing keeps the shape, leaves a consistent stripe unchanged, and
    /// (for layouts with redundancy) always yields a consistent stripe.
    proof fn lemma_scrub(c: Seq<Seq<u8>>)
        requires
            Self::spec_usable(),
            wf_cells(c, D as int, N as int),
        ensures
            wf_cells(Self::spec_scrub(c), D as int, N as int),
            Self::spec_consistent(c) ==> Self::spec_scrub(c) == c,
            Self::spec_supports_restore() ==> Self::spec_consistent(Self::spec_scrub(c)),
    ;

    /// Restoring changes only cell `i`, and when the other cells agree with
    /// some consistent assignment `w`, it recovers exactly `w`.
    proof fn lemma_restore(c: Seq<Seq<u8>>, w: Seq<Seq<u8>>, i: int)
        requires
            Self::spec_supports_restore(),
            Self::spec_usable(),
            Self::spec_restore_ready(),
            wf_cells(c, D as int, N as int),
            0 <= i < D,
        ensures
            wf_cells(Self::spec_restore(c, i), D as int, N as int),
            forall|j: int|
                0 <= j < D && j != i ==> Self::spec_restore(c, i)[j] == c[j],
            (wf_cells(w, D as int, N as int) && Self::spec_consistent(w) && (forall|j: int|
                0 <= j < D && j != i ==> c[j] == w[j])) ==> Self::spec_restore(c, i) == w,
    ;
}

/// `Restore` exposes the rebuild hooks of a stripe layout that has
/// redundancy; striping without parity does not implement it.
pub trait Restore<const D: usize, const N: usize>: Stripe<D, N> {
    /// `restore` rebuilds the stripe member at the provided index.
    fn restore(&mut self, i: usize)
        requires
            wf_cells(old(self).cells(), D as int, N as int),
            Self::spec_supports_restore(),
            Self::spec_usable(),
            Self::spec_restore_ready(),
            i < D,
        ensures
            wf_cells(final(self).cells(), D as int, N as int),
            final(self).cells() == Self::spec_restore(old(self).cells(), i as int),
    ;

    /// `scrub` repairs the stripe's redundancy and returns the indices that
    /// should be rewritten after a read: exactly the changed cells, in
    /// strictly ascending order and without duplicates.
    fn scrub(&mut self) -> (r: Vec<usize>)
        requires
            wf_cells(old(self).cells(), D as int, N as int),
            Self::spec_usable(),
        ensures
            wf_cells(final(self).cells(), D as int, N as int),
            final(self).cells() == Self::spec_scrub(old(self).cells()),
            forall|j: usize|
                j < D ==> (r@.contains(j) <==> final(self).cells()[j as int] != old(
                    self,
                ).cells()[j as int]),
            forall|q: int| 0 <= q < r@.len() ==> (#[trigger] r@[q]) < D,
            forall|q1: int, q2: int| 0 <= q1 < q2 < r@.len() ==> r@[q1] < r@[q2],
            r@.no_duplicates(),
    ;

}

/// `stripe_try_write` encodes data into the stripe when the data length
/// matches the layout; a wrong length reports failure and leaves the
/// stripe unchanged.
pub fn stripe_try_write<const D: usize, const N: usize, T: Stripe<D, N>>(
    s: &mut T,
    data: &[Bits<N>],
) -> (r: Option<()>)
    requires
        wf_cells(old(s).cells(), D as int, N as int),
    ensures
        r is Some <==> (T::spec_usable() && data@.len() == T::spec_data()),
        r is Some ==> final(s).cells() == T::spec_encode(views(data@)),
        r is None ==> final(s).cells() == old(s).cells(),
        wf_cells(final(s).cells(), D as int, N as int),
{
    if T::usable() && data.len() == T::data() {
        s.write(data);
        Some(())
    } else {
        None
    }
}

/// `stripe_try_write_raw` copies raw cells into the stripe when the length
/// matches the disk count.
pub fn stripe_try_write_raw<const D: usize, const N: usize, T: Stripe<D, N>>(
    s: &mut T,
    data: &[Bits<N>],
) -> (r: Option<()>)
    requires
        wf_cells(old(s).cells(), D as int, N as int),
    ensures
        r is Some <==> data@.len() == D,
        r is Some ==> final(s).cells() == views(data@),
        r is None ==> final(s).cells() == old(s).cells(),
        wf_cells(final(s).cells(), D as int, N as int),
{
    if data.len() == T::disks() {
        s.write_raw(data);
        Some(())
    } else {
        None
    }
}

/// `stripe_try_read` decodes the stripe into `out` when the buffer length
/// matches the layout's data count.
pub fn stripe_try_read<const D: usize, const N: usize, T: Stripe<D, N>>(
    s: &T,
    out: &mut [Bits<N>],
) -> (r: Option<()>)
    requires
        wf_cells(s.cells(), D as int, N as int),
    ensures
        r is Some <==> (T::spec_usable() && old(out)@.len() == T::spec_data()),
        r is Some ==> views(final(out)@) == T::spec_decode(s.cells()),
        r is None ==> final(out)@ == old(out)@,
        final(out)@.len() == old(out)@.len(),
{
    if T::usable() && out.len() == T::data() {
        s.read(out);
        Some(())
    } else {
        None
    }
}

/// `stripe_try_read_raw` copies the raw cells into `out` when the buffer
/// length matches the disk count.
pub fn stripe_try_read_raw<const D: usize, const N: usize, T: Stripe<D, N>>(
    s: &T,
    out: &mut [Bits<N>],
) -> (r: Option<()>)
    requires
        wf_cells(s.cells(), D as int, N as int),
    ensures
        r is Some <==> old(out)@.len() == D,
        r is Some ==> views(final(out)@) == s.cells(),
        r is None ==> final(out)@ == old(out)@,
        final(out)@.len() == old(out)@.len(),
{
    if out.len() == T::disks() {
        s.read_raw(out);
        Some(())
    } else {
        None
    }
}

/// `stripe_try_restore` rebuilds cell `i` when the layout supports it, `i`
/// is in range, and the layout has enough disks; otherwise it reports
/// failure and leaves the stripe unchanged.
pub fn stripe_try_restore<const D: usize, const N: usize, T: Stripe<D, N>>(
    s: &mut T,
    i: usize,
) -> (r: Option<()>)
    requires
        wf_cells(old(s).cells(), D as int, N as int),
    ensures
        r is Some <==> (T::spec_supports_restore() && T::spec_usable()
            && T::spec_restore_ready() && i < D),
        r is Some ==> final(s).cells() == T::spec_restore(old(s).cells(), i as int),
        r is None ==> final(s).cells() == old(s).cells(),
        wf_cells(final(s).cells(), D as int, N as int),
{
    if T::supports_restore() && T::usable() && T::restore_ready() && i < T::disks() {
        s.restore_cell(i);
        Some(())
    } else {
        None
    }
}

} // verus!
