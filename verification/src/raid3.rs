//! RAID3 stripe layout: `D - 1` data cells plus one XOR parity cell.

use vstd::prelude::*;

use crate::bits::{lemma_xor_comm, lemma_xor_self, lemma_xor_zero, xor_bytes, zero_bytes, Bits};
use crate::stripe::{views, wf_cells, Restore, Stripe};

verus! {

/// XOR of a sequence of `n`-byte cells, the empty sequence giving all
/// zeros.
pub open spec fn xor_fold(s: Seq<Seq<u8>>, n: nat) -> Seq<u8>
    decreases s.len(),
{
    if s.len() == 0 {
        zero_bytes(n)
    } else {
        xor_bytes(xor_fold(s.drop_last(), n), s.last())
    }
}

/// The fold of well-formed cells is `n` bytes long.
pub proof fn lemma_xor_fold_len(s: Seq<Seq<u8>>, n: nat)
    requires
        forall|i: int| 0 <= i < s.len() ==> (#[trigger] s[i]).len() == n,
    ensures
        xor_fold(s, n).len() == n,
    decreases s.len(),
{
    if s.len() > 0 {
        lemma_xor_fold_len(s.drop_last(), n);
    }
}

/// Folding one more cell XORs it in.
pub proof fn lemma_xor_fold_take_succ(s: Seq<Seq<u8>>, n: nat, k: int)
    requires
        0 <= k < s.len(),
    ensures
        xor_fold(s.take(k + 1), n) == xor_bytes(xor_fold(s.take(k), n), s[k]),
{
    assert(s.take(k + 1).drop_last() =~= s.take(k));
    assert(s.take(k + 1).last() == s[k]);
}

/// The whole fold is the fold of all but the last cell XOR the last cell.
pub proof fn lemma_xor_fold_all(s: Seq<Seq<u8>>, n: nat)
    requires
        s.len() > 0,
    ensures
        xor_fold(s, n) == xor_bytes(xor_fold(s.take(s.len() - 1), n), s[s.len() - 1]),
{
    assert(s.take(s.len() - 1) =~= s.drop_last());
}

proof fn lemma_xor_shuffle(a: Seq<u8>, b: Seq<u8>, c: Seq<u8>)
    requires
        a.len() == b.len(),
        b.len() == c.len(),
    ensures
        xor_bytes(xor_bytes(a, b), c) == xor_bytes(xor_bytes(a, c), b),
{
    assert forall|i: int| 0 <= i < a.len() implies xor_bytes(xor_bytes(a, b), c)[i] == xor_bytes(
        xor_bytes(a, c),
        b,
    )[i] by {
        let x = a[i];
        let y = b[i];
        let z = c[i];
        assert((x ^ y) ^ z == (x ^ z) ^ y) by (bit_vector);
    }
    assert(xor_bytes(xor_bytes(a, b), c) =~= xor_bytes(xor_bytes(a, c), b));
}

proof fn lemma_xor_cancel(a: Seq<u8>, b: Seq<u8>)
    requires
        a.len() == b.len(),
    ensures
        xor_bytes(xor_bytes(a, b), b) == a,
{
    assert forall|i: int| 0 <= i < a.len() implies xor_bytes(xor_bytes(a, b), b)[i] == a[i] by {
        let x = a[i];
        let y = b[i];
        assert((x ^ y) ^ y == x) by (bit_vector);
    }
    assert(xor_bytes(xor_bytes(a, b), b) =~= a);
}

/// Replacing one cell replaces its contribution to the fold.
pub proof fn lemma_xor_fold_update(s: Seq<Seq<u8>>, n: nat, i: int, x: Seq<u8>)
    requires
        forall|j: int| 0 <= j < s.len() ==> (#[trigger] s[j]).len() == n,
        x.len() == n,
        0 <= i < s.len(),
    ensures
        xor_fold(s.update(i, x), n) == xor_bytes(xor_bytes(xor_fold(s, n), s[i]), x),
    decreases s.len(),
{
    lemma_xor_fold_len(s, n);
    let m = s.len() - 1;
    if i == m {
        assert(s.update(i, x).drop_last() =~= s.drop_last());
        assert(s.update(i, x).last() == x);
        lemma_xor_fold_len(s.drop_last(), n);
        lemma_xor_cancel(xor_fold(s.drop_last(), n), s[m]);
        lemma_xor_shuffle(xor_fold(s.drop_last(), n), s[m], x);
        assert(xor_bytes(xor_bytes(xor_fold(s, n), s[i]), x) == xor_bytes(
            xor_bytes(xor_bytes(xor_fold(s.drop_last(), n), s[m]), s[m]),
            x,
        )) by {
            lemma_xor_shuffle(xor_bytes(xor_fold(s.drop_last(), n), s[m]), s[m], x);
        }
        assert(xor_bytes(xor_bytes(xor_fold(s.drop_last(), n), s[m]), s[m]) == xor_fold(
            s.drop_last(),
            n,
        ));
    } else {
        let dl = s.drop_last();
        assert(s.update(i, x).drop_last() =~= dl.update(i, x));
        assert(s.update(i, x).last() == s[m]);
        lemma_xor_fold_update(dl, n, i, x);
        lemma_xor_fold_len(dl, n);
        assert(dl[i] == s[i]);
        // fold(update) == xor(fold(dl.update(i, x)), s[m])
        //              == xor(xor(xor(fold(dl), s[i]), x), s[m])
        // goal         == xor(xor(xor(xor(fold(dl), s[m]), s[i]), x)
        lemma_xor_shuffle(xor_bytes(xor_fold(dl, n), s[i]), x, s[m]);
        lemma_xor_shuffle(xor_fold(dl, n), s[i], s[m]);
        lemma_xor_shuffle(xor_bytes(xor_fold(dl, n), s[m]), s[i], x);
    }
}

/// In a parity-consistent stripe the whole fold is all zeros, and any one
/// cell is the XOR of all the others.
pub proof fn lemma_consistent_fold_zero(w: Seq<Seq<u8>>, n: nat)
    requires
        w.len() >= 1,
        forall|j: int| 0 <= j < w.len() ==> (#[trigger] w[j]).len() == n,
        w[w.len() - 1] == xor_fold(w.take(w.len() - 1), n),
    ensures
        xor_fold(w, n) == zero_bytes(n),
        forall|i: int|
            0 <= i < w.len() ==> xor_fold(#[trigger] w.update(i, zero_bytes(n)), n) == w[i],
{
    let m = w.len() - 1;
    lemma_xor_fold_all(w, n);
    lemma_xor_fold_len(w.take(m), n);
    lemma_xor_self(xor_fold(w.take(m), n));
    assert(xor_fold(w, n) == zero_bytes(n));
    assert forall|i: int| 0 <= i < w.len() implies xor_fold(
        #[trigger] w.update(i, zero_bytes(n)),
        n,
    ) == w[i] by {
        lemma_xor_fold_update(w, n, i, zero_bytes(n));
        // fold(update) == xor(xor(zero, w[i]), zero) == w[i]
        lemma_xor_zero(w[i]);
        lemma_xor_comm(zero_bytes(n), w[i]);
        lemma_xor_zero(xor_bytes(zero_bytes(n), w[i]));
    }
}

/// The XOR of all-zero cells is zero.
pub proof fn lemma_xor_fold_zeros(s: Seq<Seq<u8>>, n: nat)
    requires
        forall|i: int| 0 <= i < s.len() ==> (#[trigger] s[i]) == zero_bytes(n),
    ensures
        xor_fold(s, n) == zero_bytes(n),
    decreases s.len(),
{
    if s.len() > 0 {
        lemma_xor_fold_zeros(s.drop_last(), n);
        lemma_xor_zero(zero_bytes(n));
    }
}

/// An all-zero stripe is the encoding of all-zero data: the parity of
/// zeros is zero.
pub proof fn lemma_zero_stripe<const D: usize, const N: usize>()
    requires
        D >= 1,
    ensures
        <RAID3<D, N> as Stripe<D, N>>::spec_encode(
            Seq::new(<RAID3<D, N> as Stripe<D, N>>::spec_data(), |c: int| zero_bytes(N as nat)),
        ) == Seq::new(D as nat, |j: int| zero_bytes(N as nat)),
{
    let zdata = Seq::new(
        <RAID3<D, N> as Stripe<D, N>>::spec_data(),
        |c: int| zero_bytes(N as nat),
    );
    lemma_xor_fold_zeros(zdata, N as nat);
    assert(zdata.push(xor_fold(zdata, N as nat)) =~= Seq::new(
        D as nat,
        |j: int| zero_bytes(N as nat),
    ));
}

/// `RAID3` stores `D - 1` data cells and one parity cell, the XOR of the
/// data cells, in cell `D - 1`.
pub struct RAID3<const D: usize, const N: usize>(pub Vec<Bits<N>>);

impl<const D: usize, const N: usize> RAID3<D, N> {
    /// `zero` returns a zero-initialized stripe.
    pub fn zero() -> (r: Self)
        ensures
            wf_cells(r.cells(), D as int, N as int),
            forall|i: int| 0 <= i < D ==> r.cells()[i] == zero_bytes(N as nat),
    {
        let mut v: Vec<Bits<N>> = Vec::new();
        while v.len() < D
            invariant
                v@.len() <= D,
                forall|i: int| 0 <= i < v@.len() ==> v@[i]@ == zero_bytes(N as nat),
            decreases D - v@.len(),
        {
            v.push(Bits::zero());
        }
        RAID3(v)
    }

    /// `parity_of_data` XORs the first `D - 1` cells together.
    fn parity_of_data(&self) -> (r: Bits<N>)
        requires
            wf_cells(self.cells(), D as int, N as int),
            D >= 1,
        ensures
            r@ == xor_fold(self.cells().take(D - 1), N as nat),
    {
        let ghost c = self.cells();
        let mut acc = Bits::<N>::zero();
        proof {
            assert(c.take(0) =~= Seq::<Seq<u8>>::empty());
        }
        let mut j: usize = 0;
        while j < D - 1
            invariant
                j <= D - 1,
                D >= 1,
                self.0@.len() == D,
                c == self.cells(),
                wf_cells(c, D as int, N as int),
                acc@ == xor_fold(c.take(j as int), N as nat),
            decreases D - j,
        {
            acc.xor_in_place(&self.0[j]);
            proof {
                lemma_xor_fold_take_succ(c, N as nat, j as int);
            }
            j = j + 1;
        }
        acc
    }
}

impl<const D: usize, const N: usize> Stripe<D, N> for RAID3<D, N> {
    open spec fn cells(&self) -> Seq<Seq<u8>> {
        views(self.0@)
    }

    open spec fn spec_data() -> nat {
        if D >= 1 {
            (D - 1) as nat
        } else {
            0
        }
    }

    open spec fn spec_supports_restore() -> bool {
        true
    }

    open spec fn spec_usable() -> bool {
        D >= 2
    }

    open spec fn spec_restore_ready() -> bool {
        true
    }

    open spec fn spec_encode(data: Seq<Seq<u8>>) -> Seq<Seq<u8>> {
        data.push(xor_fold(data, N as nat))
    }

    open spec fn spec_decode(c: Seq<Seq<u8>>) -> Seq<Seq<u8>> {
        c.take(D - 1)
    }

    open spec fn spec_consistent(c: Seq<Seq<u8>>) -> bool {
        c[D - 1] == xor_fold(c.take(D - 1), N as nat)
    }

    open spec fn spec_restore(c: Seq<Seq<u8>>, i: int) -> Seq<Seq<u8>> {
        if i == D - 1 {
            c.update(i, xor_fold(c.take(D - 1), N as nat))
        } else {
            c.update(i, xor_fold(c.update(i, zero_bytes(N as nat)), N as nat))
        }
    }

    open spec fn spec_scrub(c: Seq<Seq<u8>>) -> Seq<Seq<u8>> {
        if Self::spec_consistent(c) {
            c
        } else {
            c.update(D - 1, xor_fold(c.take(D - 1), N as nat))
        }
    }

    fn data() -> usize {
        if D >= 1 {
            D - 1
        } else {
            0
        }
    }

    fn disks() -> usize {
        D
    }

    fn supports_restore() -> bool {
        true
    }

    fn usable() -> bool {
        D >= 2
    }

    fn restore_ready() -> bool {
        true
    }

    fn write(&mut self, data: &[Bits<N>]) {
        let mut i: usize = 0;
        while i < D - 1
            invariant
                i <= D - 1,
                D >= 2,
                self.0@.len() == D,
                data@.len() == D - 1,
                forall|j: int| 0 <= j < i ==> self.0@[j]@ == data@[j]@,
                forall|j: int| i <= j < D ==> self.0@[j] == old(self).0@[j],
            decreases D - 1 - i,
        {
            self.0[i] = data[i];
            i = i + 1;
        }
        proof {
            assert(self.cells().take(D - 1) =~= views(data@));
        }
        let p = self.parity_of_data();
        self.0[D - 1] = p;
        proof {
            assert(self.cells().take(D - 1) =~= views(data@));
            assert(self.cells() =~= Self::spec_encode(views(data@)));
        }
    }

    fn write_raw(&mut self, data: &[Bits<N>]) {
        let mut i: usize = 0;
        while i < D
            invariant
                i <= D,
                self.0@.len() == D,
                data@.len() == D,
                forall|j: int| 0 <= j < i ==> self.0@[j]@ == data@[j]@,
                forall|j: int| i <= j < D ==> self.0@[j] == old(self).0@[j],
            decreases D - i,
        {
            self.0[i] = data[i];
            i = i + 1;
        }
        proof {
            assert(self.cells() =~= views(data@));
        }
    }

    fn read(&self, out: &mut [Bits<N>]) {
        let mut i: usize = 0;
        while i < D - 1
            invariant
                i <= D - 1,
                D >= 2,
                out@.len() == D - 1,
                self.0@.len() == D,
                forall|j: int| 0 <= j < i ==> out@[j]@ == self.0@[j]@,
            decreases D - 1 - i,
        {
            out[i] = self.0[i];
            i = i + 1;
        }
        proof {
            assert(views(out@) =~= Self::spec_decode(self.cells()));
        }
    }

    fn read_raw(&self, out: &mut [Bits<N>]) {
        let mut i: usize = 0;
        while i < D
            invariant
                i <= D,
                out@.len() == D,
                self.0@.len() == D,
                forall|j: int| 0 <= j < i ==> out@[j]@ == self.0@[j]@,
            decreases D - i,
        {
            out[i] = self.0[i];
            i = i + 1;
        }
        proof {
            assert(views(out@) =~= self.cells());
        }
    }

    fn restore_cell(&mut self, i: usize) {
        let ghost c = self.cells();
        if i == D - 1 {
            let p = self.parity_of_data();
            self.0[D - 1] = p;
            proof {
                assert(self.cells() =~= Self::spec_restore(c, i as int));
            }
        } else {
            let ghost z = c.update(i as int, zero_bytes(N as nat));
            let mut acc = Bits::<N>::zero();
            proof {
                assert(z.take(0) =~= Seq::<Seq<u8>>::empty());
            }
            let mut j: usize = 0;
            while j < D
                invariant
                    j <= D,
                    i < D - 1,
                    D >= 2,
                    self.0@.len() == D,
                    c == self.cells(),
                    wf_cells(c, D as int, N as int),
                    z == c.update(i as int, zero_bytes(N as nat)),
                    acc@ == xor_fold(z.take(j as int), N as nat),
                decreases D - j,
            {
                if j != i {
                    acc.xor_in_place(&self.0[j]);
                    proof {
                        assert(z[j as int] == c[j as int]);
                        lemma_xor_fold_take_succ(z, N as nat, j as int);
                    }
                } else {
                    proof {
                        lemma_xor_fold_take_succ(z, N as nat, j as int);
                        assert(z[j as int] == zero_bytes(N as nat));
                        assert(forall|q: int|
                            0 <= q < z.take(j as int).len() ==> (#[trigger] z.take(
                                j as int,
                            )[q]).len() == N);
                        lemma_xor_fold_len(z.take(j as int), N as nat);
                        lemma_xor_zero(xor_fold(z.take(j as int), N as nat));
                    }
                }
                j = j + 1;
            }
            proof {
                assert(z.take(D as int) =~= z);
            }
            self.0[i] = acc;
            proof {
                assert(self.cells() =~= Self::spec_restore(c, i as int));
            }
        }
    }

    fn scrub_cells(&mut self) -> Vec<usize> {
        let ghost c = self.cells();
        let p = self.parity_of_data();
        if self.0[D - 1] == p {
            proof {
                assert(Self::spec_consistent(c));
            }
            Vec::new()
        } else {
            self.0[D - 1] = p;
            let mut changed: Vec<usize> = Vec::new();
            changed.push(D - 1);
            proof {
                assert(self.cells() =~= Self::spec_scrub(c));
                let ghost fin = self.cells();
                assert forall|j: usize|
                    j < D implies (changed@.contains(j) <==> fin[j as int] != c[j as int]) by {
                    if changed@.contains(j) {
                        assert(changed@[0] == (D - 1) as usize);
                        let idx = choose|idx: int|
                            0 <= idx < changed@.len() && changed@[idx] == j;
                        assert(idx == 0);
                    }
                    if j == (D - 1) as usize {
                        assert(changed@[0] == j);
                    }
                }
            }
            changed
        }
    }

    proof fn lemma_encode(data: Seq<Seq<u8>>) {
        let e = Self::spec_encode(data);
        lemma_xor_fold_len(data, N as nat);
        assert(e.take(D - 1) =~= data);
        assert(Self::spec_decode(e) =~= data);
    }

    proof fn lemma_scrub(c: Seq<Seq<u8>>) {
        if !Self::spec_consistent(c) {
            let r = Self::spec_scrub(c);
            assert(forall|q: int|
                0 <= q < c.take(D - 1).len() ==> (#[trigger] c.take(D - 1)[q]).len() == N);
            lemma_xor_fold_len(c.take(D - 1), N as nat);
            assert(r.take(D - 1) =~= c.take(D - 1));
        }
    }

    proof fn lemma_restore(c: Seq<Seq<u8>>, w: Seq<Seq<u8>>, i: int) {
        let n = N as nat;
        if i == D - 1 {
            assert(forall|q: int|
                0 <= q < c.take(D - 1).len() ==> (#[trigger] c.take(D - 1)[q]).len() == N);
            lemma_xor_fold_len(c.take(D - 1), n);
        } else {
            assert(forall|q: int|
                0 <= q < c.update(i, zero_bytes(n)).len() ==> (#[trigger] c.update(
                    i,
                    zero_bytes(n),
                )[q]).len() == N);
            lemma_xor_fold_len(c.update(i, zero_bytes(n)), n);
        }
        if wf_cells(w, D as int, N as int) && Self::spec_consistent(w) && (forall|j: int|
            0 <= j < D && j != i ==> c[j] == w[j]) {
            lemma_consistent_fold_zero(w, n);
            if i == D - 1 {
                assert(c.take(D - 1) =~= w.take(D - 1));
                assert(Self::spec_restore(c, i) =~= w);
            } else {
                assert(c.update(i, zero_bytes(n)) =~= w.update(i, zero_bytes(n)));
                assert(xor_fold(w.update(i, zero_bytes(n)), n) == w[i]);
                assert(Self::spec_restore(c, i) =~= w);
            }
        }
    }
}

impl<const D: usize, const N: usize> Restore<D, N> for RAID3<D, N> {
    fn restore(&mut self, i: usize) {
        self.restore_cell(i);
    }

    fn scrub(&mut self) -> Vec<usize> {
        self.scrub_cells()
    }
}

} // verus!
