//! RAID0 stripe layout: plain striping, no redundancy.

use vstd::prelude::*;

use crate::bits::{zero_bytes, Bits};
use crate::stripe::{views, wf_cells, Stripe};

verus! {

/// An all-zero stripe is the encoding of all-zero data: striping copies
/// the data cells through unchanged.
pub proof fn lemma_zero_stripe<const D: usize, const N: usize>()
    ensures
        <RAID0<D, N> as Stripe<D, N>>::spec_encode(
            Seq::new(<RAID0<D, N> as Stripe<D, N>>::spec_data(), |c: int| zero_bytes(N as nat)),
        ) == Seq::new(D as nat, |j: int| zero_bytes(N as nat)),
{
    assert(Seq::new(
        <RAID0<D, N> as Stripe<D, N>>::spec_data(),
        |c: int| zero_bytes(N as nat),
    ) =~= Seq::new(D as nat, |j: int| zero_bytes(N as nat)));
}

/// `RAID0` stores raw striped cells without parity.
pub struct RAID0<const D: usize, const N: usize>(pub Vec<Bits<N>>);

impl<const D: usize, const N: usize> RAID0<D, N> {
    /// `zero` returns a zero-initialized stripe.
    pub fn zero() -> (r: Self)
        ensures
            wf_cells(r.cells(), D as int, N as int),
            forall|i: int| 0 <= i < D ==> r.cells()[i] == zero_bytes(N as nat),
    {
        let mut v: Vec<Bits<N>> = Vec::new();
        while v.len() < D
            invariant
                v@.len() <= D,
                forall|i: int| 0 <= i < v@.len() ==> v@[i]@ == zero_bytes(N as nat),
            decreases D - v@.len(),
        {
            v.push(Bits::zero());
        }
        RAID0(v)
    }
}

impl<const D: usize, const N: usize> Stripe<D, N> for RAID0<D, N> {
    open spec fn cells(&self) -> Seq<Seq<u8>> {
        views(self.0@)
    }

    open spec fn spec_data() -> nat {
        D as nat
    }

    open spec fn spec_supports_restore() -> bool {
        false
    }

    open spec fn spec_usable() -> bool {
        D >= 1
    }

    open spec fn spec_restore_ready() -> bool {
        true
    }

    open spec fn spec_encode(data: Seq<Seq<u8>>) -> Seq<Seq<u8>> {
        data
    }

    open spec fn spec_decode(c: Seq<Seq<u8>>) -> Seq<Seq<u8>> {
        c
    }

    open spec fn spec_consistent(c: Seq<Seq<u8>>) -> bool {
        true
    }

    open spec fn spec_restore(c: Seq<Seq<u8>>, i: int) -> Seq<Seq<u8>> {
        c
    }

    open spec fn spec_scrub(c: Seq<Seq<u8>>) -> Seq<Seq<u8>> {
        c
    }

    fn data() -> usize {
        D
    }

    fn disks() -> usize {
        D
    }

    fn supports_restore() -> bool {
        false
    }

    fn usable() -> bool {
        D >= 1
    }

    fn restore_ready() -> bool {
        true
    }

    fn write(&mut self, data: &[Bits<N>]) {
        let mut i: usize = 0;
        while i < D
            invariant
                i <= D,
                self.0@.len() == D,
                data@.len() == D,
                forall|j: int| 0 <= j < i ==> self.0@[j]@ == data@[j]@,
                forall|j: int| i <= j < D ==> self.0@[j] == old(self).0@[j],
            decreases D - i,
        {
            self.0[i] = data[i];
            i = i + 1;
        }
        proof {
            assert(self.cells() =~= Self::spec_encode(views(data@)));
        }
    }

    fn write_raw(&mut self, data: &[Bits<N>]) {
        let mut i: usize = 0;
        while i < D
            invariant
                i <= D,
                self.0@.len() == D,
                data@.len() == D,
                forall|j: int| 0 <= j < i ==> self.0@[j]@ == data@[j]@,
                forall|j: int| i <= j < D ==> self.0@[j] == old(self).0@[j],
            decreases D - i,
        {
            self.0[i] = data[i];
            i = i + 1;
        }
        proof {
            assert(self.cells() =~= views(data@));
        }
    }

    fn read(&self, out: &mut [Bits<N>]) {
        let mut i: usize = 0;
        while i < D
            invariant
                i <= D,
                out@.len() == D,
                self.0@.len() == D,
                forall|j: int| 0 <= j < i ==> out@[j]@ == self.0@[j]@,
            decreases D - i,
        {
            out[i] = self.0[i];
            i = i + 1;
        }
        proof {
            assert(views(out@) =~= Self::spec_decode(self.cells()));
        }
    }

    fn read_raw(&self, out: &mut [Bits<N>]) {
        let mut i: usize = 0;
        while i < D
            invariant
                i <= D,
                out@.len() == D,
                self.0@.len() == D,
                forall|j: int| 0 <= j < i ==> out@[j]@ == self.0@[j]@,
            decreases D - i,
        {
            out[i] = self.0[i];
            i = i + 1;
        }
        proof {
            assert(views(out@) =~= self.cells());
        }
    }

    fn restore_cell(&mut self, i: usize) {
    }

    fn scrub_cells(&mut self) -> Vec<usize> {
        Vec::new()
    }

    proof fn lemma_encode(data: Seq<Seq<u8>>) {
    }

    proof fn lemma_scrub(c: Seq<Seq<u8>>) {
    }

    proof fn lemma_restore(c: Seq<Seq<u8>>, w: Seq<Seq<u8>>, i: int) {
    }
}

} // verus!
