//! RAID1 stripe layout: one logical cell mirrored across all disks.

use vstd::prelude::*;

use crate::bits::{zero_bytes, Bits};
use crate::stripe::{views, wf_cells, Restore, Stripe};

verus! {

broadcast use vstd::seq_lib::lemma_seq_contains_after_push;

/// Number of entries among the first `k` cells of `c` that equal `v`.
pub open spec fn count_pref(c: Seq<Seq<u8>>, v: Seq<u8>, k: int) -> nat
    decreases k,
{
    if k <= 0 {
        0
    } else {
        count_pref(c, v, k - 1) + if c[k - 1] == v {
            1nat
        } else {
            0nat
        }
    }
}

/// Number of cells of `c` that equal `v`.
pub open spec fn count_all(c: Seq<Seq<u8>>, v: Seq<u8>) -> nat {
    count_pref(c, v, c.len() as int)
}

/// Index of the most frequent value among the first `k` cells, earlier
/// indices winning ties.
pub open spec fn maj_scan(c: Seq<Seq<u8>>, k: int) -> int
    decreases k,
{
    if k <= 1 {
        0
    } else {
        let b = maj_scan(c, k - 1);
        if count_all(c, c[k - 1]) > count_all(c, c[b]) {
            k - 1
        } else {
            b
        }
    }
}

/// Index of the most frequent cell value, earlier indices winning ties.
pub open spec fn maj_index(c: Seq<Seq<u8>>) -> int {
    maj_scan(c, c.len() as int)
}

proof fn lemma_count_pref_bound(c: Seq<Seq<u8>>, v: Seq<u8>, k: int)
    requires
        k >= 0,
    ensures
        count_pref(c, v, k) <= k,
    decreases k,
{
    if k > 0 {
        lemma_count_pref_bound(c, v, k - 1);
    }
}

proof fn lemma_count_pref_distinct(c: Seq<Seq<u8>>, a: Seq<u8>, b: Seq<u8>, k: int)
    requires
        k >= 0,
        a != b,
    ensures
        count_pref(c, a, k) + count_pref(c, b, k) <= k,
    decreases k,
{
    if k > 0 {
        lemma_count_pref_distinct(c, a, b, k - 1);
    }
}

proof fn lemma_count_pref_index(c: Seq<Seq<u8>>, j: int, k: int)
    requires
        0 <= j < k,
    ensures
        count_pref(c, c[j], k) >= 1,
    decreases k,
{
    if j < k - 1 {
        lemma_count_pref_index(c, j, k - 1);
    }
}

proof fn lemma_maj_scan_props(c: Seq<Seq<u8>>, k: int)
    requires
        1 <= k <= c.len(),
    ensures
        0 <= maj_scan(c, k) < k,
        forall|j: int| 0 <= j < k ==> #[trigger] count_all(c, c[j]) <= count_all(c, c[maj_scan(c, k)]),
    decreases k,
{
    if k > 1 {
        lemma_maj_scan_props(c, k - 1);
    }
}

/// The index chosen by the majority scan is in range and its value's count
/// dominates every cell's count.
pub proof fn lemma_maj_index_props(c: Seq<Seq<u8>>)
    requires
        c.len() >= 1,
    ensures
        0 <= maj_index(c) < c.len(),
        forall|j: int| 0 <= j < c.len() ==> #[trigger] count_all(c, c[j]) <= count_all(c, c[maj_index(c)]),
{
    lemma_maj_scan_props(c, c.len() as int);
}

/// A value held by a strict majority of the cells is the majority value.
pub proof fn lemma_strict_majority(c: Seq<Seq<u8>>, j: int)
    requires
        0 <= j < c.len(),
        2 * count_all(c, c[j]) > c.len(),
    ensures
        c[maj_index(c)] == c[j],
{
    lemma_maj_index_props(c);
    let m = maj_index(c);
    if c[m] != c[j] {
        lemma_count_pref_distinct(c, c[m], c[j], c.len() as int);
        assert(count_all(c, c[m]) + count_all(c, c[j]) <= c.len());
        assert(count_all(c, c[j]) <= count_all(c, c[m]));
        assert(false);
    }
}

proof fn lemma_count_pref_lower(c: Seq<Seq<u8>>, v: Seq<u8>, t: int, k: int)
    requires
        k >= 0,
        forall|j: int| 0 <= j < c.len() && j != t ==> c[j] == v,
        k <= c.len(),
    ensures
        count_pref(c, v, k) >= (if 0 <= t < k {
            k - 1
        } else {
            k
        }),
    decreases k,
{
    if k > 0 {
        lemma_count_pref_lower(c, v, t, k - 1);
    }
}

/// With at least three mirrors, corrupting a single copy cannot win the
/// vote: the scrub rewrites every cell to the value the other copies
/// still hold.
pub proof fn lemma_scrub_outlier<const D: usize, const N: usize>(
    c: Seq<Seq<u8>>,
    t: int,
    v: Seq<u8>,
)
    requires
        c.len() == D,
        D >= 3,
        0 <= t < D,
        forall|j: int| 0 <= j < D && j != t ==> c[j] == v,
    ensures
        <RAID1<D, N> as Stripe<D, N>>::spec_scrub(c) == Seq::new(D as nat, |j: int| v),
{
    let j0: int = if t == 0 {
        1
    } else {
        0
    };
    lemma_count_pref_lower(c, v, t, D as int);
    assert(count_all(c, c[j0]) >= D - 1);
    assert(2 * count_all(c, c[j0]) > D);
    lemma_strict_majority(c, j0);
    lemma_maj_index_props(c);
    assert(c[maj_index(c)] == v);
    assert(<RAID1<D, N> as Stripe<D, N>>::spec_scrub(c) =~= Seq::new(D as nat, |j: int| v));
}

/// An all-zero stripe is the encoding of all-zero data: every mirror of
/// the zero cell is zero.
pub proof fn lemma_zero_stripe<const D: usize, const N: usize>()
    ensures
        <RAID1<D, N> as Stripe<D, N>>::spec_encode(
            Seq::new(<RAID1<D, N> as Stripe<D, N>>::spec_data(), |c: int| zero_bytes(N as nat)),
        ) == Seq::new(D as nat, |j: int| zero_bytes(N as nat)),
{
    assert(<RAID1<D, N> as Stripe<D, N>>::spec_encode(
        Seq::new(<RAID1<D, N> as Stripe<D, N>>::spec_data(), |c: int| zero_bytes(N as nat)),
    ) =~= Seq::new(D as nat, |j: int| zero_bytes(N as nat)));
}

/// `RAID1` mirrors a single logical cell across all `D` disks.
pub struct RAID1<const D: usize, const N: usize>(pub Vec<Bits<N>>);

impl<const D: usize, const N: usize> RAID1<D, N> {
    /// `zero` returns a zero-initialized stripe.
    pub fn zero() -> (r: Self)
        ensures
            wf_cells(r.cells(), D as int, N as int),
            forall|i: int| 0 <= i < D ==> r.cells()[i] == zero_bytes(N as nat),
    {
        let mut v: Vec<Bits<N>> = Vec::new();
        while v.len() < D
            invariant
                v@.len() <= D,
                forall|i: int| 0 <= i < v@.len() ==> v@[i]@ == zero_bytes(N as nat),
            decreases D - v@.len(),
        {
            v.push(Bits::zero());
        }
        RAID1(v)
    }

    /// `count_eq` returns how many cells equal the cell at index `k`.
    fn count_eq(&self, k: usize) -> (r: usize)
        requires
            wf_cells(self.cells(), D as int, N as int),
            k < D,
        ensures
            r == count_all(self.cells(), self.cells()[k as int]),
    {
        let v: Bits<N> = self.0[k];
        let ghost c = self.cells();
        let mut cnt: usize = 0;
        let mut j: usize = 0;
        while j < D
            invariant
                j <= D,
                self.0@.len() == D,
                c == self.cells(),
                v@ == c[k as int],
                k < D,
                cnt == count_pref(c, c[k as int], j as int),
                cnt <= j,
            decreases D - j,
        {
            if self.0[j] == v {
                cnt = cnt + 1;
            }
            j = j + 1;
        }
        cnt
    }
}

impl<const D: usize, const N: usize> Stripe<D, N> for RAID1<D, N> {
    open spec fn cells(&self) -> Seq<Seq<u8>> {
        views(self.0@)
    }

    open spec fn spec_data() -> nat {
        1
    }

    open spec fn spec_supports_restore() -> bool {
        true
    }

    open spec fn spec_usable() -> bool {
        D >= 1
    }

    open spec fn spec_restore_ready() -> bool {
        D >= 2
    }

    open spec fn spec_encode(data: Seq<Seq<u8>>) -> Seq<Seq<u8>> {
        Seq::new(D as nat, |i: int| data[0])
    }

    open spec fn spec_decode(c: Seq<Seq<u8>>) -> Seq<Seq<u8>> {
        seq![c[0]]
    }

    open spec fn spec_consistent(c: Seq<Seq<u8>>) -> bool {
        forall|j: int| 0 <= j < c.len() ==> #[trigger] c[j] == c[0]
    }

    open spec fn spec_restore(c: Seq<Seq<u8>>, i: int) -> Seq<Seq<u8>> {
        c.update(
            i,
            c[if i == 0 {
                1int
            } else {
                0int
            }],
        )
    }

    open spec fn spec_scrub(c: Seq<Seq<u8>>) -> Seq<Seq<u8>> {
        Seq::new(c.len(), |j: int| c[maj_index(c)])
    }

    fn data() -> usize {
        1
    }

    fn disks() -> usize {
        D
    }

    fn supports_restore() -> bool {
        true
    }

    fn usable() -> bool {
        D >= 1
    }

    fn restore_ready() -> bool {
        D >= 2
    }

    fn write(&mut self, data: &[Bits<N>]) {
        let v: Bits<N> = data[0];
        let mut i: usize = 0;
        while i < D
            invariant
                i <= D,
                self.0@.len() == D,
                v == data@[0],
                forall|j: int| 0 <= j < i ==> self.0@[j]@ == v@,
            decreases D - i,
        {
            self.0[i] = v;
            i = i + 1;
        }
        proof {
            assert(self.cells() =~= Self::spec_encode(views(data@)));
        }
    }

    fn write_raw(&mut self, data: &[Bits<N>]) {
        let mut i: usize = 0;
        while i < D
            invariant
                i <= D,
                self.0@.len() == D,
                data@.len() == D,
                forall|j: int| 0 <= j < i ==> self.0@[j]@ == data@[j]@,
                forall|j: int| i <= j < D ==> self.0@[j] == old(self).0@[j],
            decreases D - i,
        {
            self.0[i] = data[i];
            i = i + 1;
        }
        proof {
            assert(self.cells() =~= views(data@));
        }
    }

    fn read(&self, out: &mut [Bits<N>]) {
        out[0] = self.0[0];
        proof {
            assert(views(out@) =~= Self::spec_decode(self.cells()));
        }
    }

    fn read_raw(&self, out: &mut [Bits<N>]) {
        let mut i: usize = 0;
        while i < D
            invariant
                i <= D,
                out@.len() == D,
                self.0@.len() == D,
                forall|j: int| 0 <= j < i ==> out@[j]@ == self.0@[j]@,
            decreases D - i,
        {
            out[i] = self.0[i];
            i = i + 1;
        }
        proof {
            assert(views(out@) =~= self.cells());
        }
    }

    fn restore_cell(&mut self, i: usize) {
        let src: usize = if i == 0 {
            1
        } else {
            0
        };
        self.0[i] = self.0[src];
        proof {
            assert(self.cells() =~= Self::spec_restore(old(self).cells(), i as int));
        }
    }

    fn scrub_cells(&mut self) -> Vec<usize> {
        let ghost c = self.cells();
        let mut best: usize = 0;
        let mut k: usize = 1;
        while k < D
            invariant
                1 <= k <= D,
                self.0@.len() == D,
                c == self.cells(),
                best == maj_scan(c, k as int),
                best < k,
            decreases D - k,
        {
            let ck = self.count_eq(k);
            let cb = self.count_eq(best);
            if ck > cb {
                best = k;
            }
            k = k + 1;
        }
        proof {
            assert(best == maj_index(c));
        }
        let mval: Bits<N> = self.0[best];
        let mut changed: Vec<usize> = Vec::new();
        let mut j: usize = 0;
        while j < D
            invariant
                j <= D,
                self.0@.len() == D,
                mval@ == c[maj_index(c)],
                forall|j0: int| j <= j0 < D ==> self.0@[j0]@ == c[j0],
                forall|j0: int| 0 <= j0 < j ==> self.0@[j0]@ == mval@,
                forall|x: usize| #[trigger] changed@.contains(x) ==> x < j && c[x as int] != mval@,
                forall|j0: usize| j0 < j && c[j0 as int] != mval@ ==> #[trigger] changed@.contains(j0),
                forall|q: int| 0 <= q < changed@.len() ==> (#[trigger] changed@[q]) < j,
                forall|q1: int, q2: int|
                    0 <= q1 < q2 < changed@.len() ==> changed@[q1] < changed@[q2],
            decreases D - j,
        {
            if !(self.0[j] == mval) {
                self.0[j] = mval;
                let ghost pre = changed@;
                changed.push(j);
                proof {
                    assert forall|x: usize| #[trigger] changed@.contains(x) implies x < j + 1
                        && c[x as int] != mval@ by {
                        assert(pre.push(j).contains(x) <==> j == x || pre.contains(x));
                    }
                    assert(changed@.contains(j)) by {
                        assert(changed@[changed@.len() - 1] == j);
                    }
                    assert forall|x: usize| pre.contains(x) implies changed@.contains(x) by {
                        assert(pre.push(j).contains(x) <==> j == x || pre.contains(x));
                    }
                }
            }
            j = j + 1;
        }
        proof {
            assert(self.cells() =~= Self::spec_scrub(c));
            assert(changed@.no_duplicates()) by {
                assert forall|q1: int, q2: int|
                    0 <= q1 < changed@.len() && 0 <= q2 < changed@.len() && q1
                        != q2 implies changed@[q1] != changed@[q2] by {
                    if q1 < q2 {
                        assert(changed@[q1] < changed@[q2]);
                    } else {
                        assert(changed@[q2] < changed@[q1]);
                    }
                }
            }
        }
        changed
    }

    proof fn lemma_encode(data: Seq<Seq<u8>>) {
        assert(Self::spec_decode(Self::spec_encode(data)) =~= data);
    }

    proof fn lemma_scrub(c: Seq<Seq<u8>>) {
        lemma_maj_index_props(c);
        if Self::spec_consistent(c) {
            assert(Self::spec_scrub(c) =~= c);
        }
    }

    proof fn lemma_restore(c: Seq<Seq<u8>>, w: Seq<Seq<u8>>, i: int) {
        if wf_cells(w, D as int, N as int) && Self::spec_consistent(w) && (forall|j: int|
            0 <= j < D && j != i ==> c[j] == w[j]) {
            assert(Self::spec_restore(c, i) =~= w);
        }
    }
}

impl<const D: usize, const N: usize> Restore<D, N> for RAID1<D, N> {
    fn restore(&mut self, i: usize) {
        self.restore_cell(i);
    }

    fn scrub(&mut self) -> Vec<usize> {
        self.scrub_cells()
    }
}

} // verus!
