//! Fixed-width byte buffers with bit-level helpers for RAID layouts.

use vstd::prelude::*;

verus! {

broadcast use vstd::array::group_array_axioms;

/// Bytewise XOR of two equal-length byte sequences.
pub open spec fn xor_bytes(a: Seq<u8>, b: Seq<u8>) -> Seq<u8> {
    Seq::new(a.len(), |i: int| a[i] ^ b[i])
}

/// The all-zero byte sequence of length `n`.
pub open spec fn zero_bytes(n: nat) -> Seq<u8> {
    Seq::new(n, |i: int| 0u8)
}

/// The value of bit `i` in a byte sequence: bit `i` lives in byte `i / 8`,
/// little-endian within the byte.
pub open spec fn spec_bit(s: Seq<u8>, i: int) -> bool {
    (s[i / 8] >> ((i % 8) as u8)) & 1 == 1
}

/// `Bits` stores a fixed-size array of bytes with bitwise helpers.
#[derive(Clone, Copy, Hash, Debug)]
pub struct Bits<const N: usize>(pub [u8; N]);

impl<const N: usize> View for Bits<N> {
    type V = Seq<u8>;

    open spec fn view(&self) -> Seq<u8> {
        self.0@
    }
}

impl<const N: usize> PartialEq for Bits<N> {
    fn eq(&self, other: &Self) -> (r: bool) {
        let mut i: usize = 0;
        while i < N
            invariant
                0 <= i <= N,
                forall|j: int| 0 <= j < i ==> self@[j] == other@[j],
            decreases N - i,
        {
            if self.0[i] != other.0[i] {
                return false;
            }
            i = i + 1;
        }
        proof {
            assert(self@ =~= other@);
        }
        true
    }
}

impl<const N: usize> Eq for Bits<N> {}

impl<const N: usize> vstd::std_specs::cmp::PartialEqSpecImpl for Bits<N> {
    open spec fn obeys_eq_spec() -> bool {
        true
    }

    open spec fn eq_spec(&self, other: &Self) -> bool {
        self@ == other@
    }
}

impl<const N: usize> Bits<N> {
    /// `zero` returns a zero-initialized bit buffer.
    pub fn zero() -> (r: Self)
        ensures
            r@.len() == N,
            r@ == zero_bytes(N as nat),
    {
        let r = Bits([0u8; N]);
        proof {
            assert(r@ =~= zero_bytes(N as nat));
        }
        r
    }

    /// `as_bytes` returns a shared reference to the underlying byte array.
    pub fn as_bytes(&self) -> (r: &[u8; N])
        ensures
            r@ == self@,
    {
        &self.0
    }

    /// `as_bytes_mut` returns a mutable reference to the underlying byte array.
    pub fn as_bytes_mut(&mut self) -> (r: &mut [u8; N])
        ensures
            r@ == old(self)@,
            final(self)@ == final(r)@,
    {
        &mut self.0
    }

    /// `set_byte` overwrites one byte of the buffer.
    pub fn set_byte(&mut self, i: usize, val: u8)
        requires
            i < N,
        ensures
            final(self)@ == old(self)@.update(i as int, val),
    {
        self.0[i] = val;
    }

    /// `get` returns the bit value at the provided index.
    pub fn get(&self, i: usize) -> (r: bool)
        requires
            i < 8 * N,
        ensures
            r == spec_bit(self@, i as int),
    {
        let byte: usize = i / 8;
        let bit: usize = i % 8;
        (self.0[byte] >> (bit as u8)) & 1 == 1
    }

    /// `try_get` returns the bit at index `i`, or nothing when `i` is out of
    /// range.
    pub fn try_get(&self, i: usize) -> (r: Option<bool>)
        ensures
            r is Some <==> i < 8 * N,
            r is Some ==> r->0 == spec_bit(self@, i as int),
    {
        if i / 8 < N {
            proof {
                assert(i < 8 * N) by {
                    assert(i as int == 8 * (i as int / 8) + (i as int % 8));
                }
            }
            Some(self.get(i))
        } else {
            None
        }
    }

    /// `set` updates the bit at the provided index.
    pub fn set(&mut self, i: usize, val: bool)
        requires
            i < 8 * N,
        ensures
            final(self)@.len() == N,
            forall|j: int|
                0 <= j < 8 * N ==> spec_bit(final(self)@, j) == (if j == i {
                    val
                } else {
                    spec_bit(old(self)@, j)
                }),
    {
        let byte: usize = i / 8;
        let bit: usize = i % 8;
        let m: u8 = 1u8 << (bit as u8);
        let old_b: u8 = self.0[byte];
        let new_b: u8 = if val {
            old_b | m
        } else {
            old_b & !m
        };
        self.0[byte] = new_b;
        proof {
            assert forall|j: int| 0 <= j < 8 * N implies spec_bit(self@, j) == (if j
                == i as int {
                val
            } else {
                spec_bit(old(self)@, j)
            }) by {
                let jb = j / 8;
                let jr = (j % 8) as u8;
                let br = (i % 8) as u8;
                if jb == byte as int {
                    assert(jb == i as int / 8);
                    if j == i as int {
                        assert(jr == br);
                        assert(((if val {
                            old_b | (1u8 << br)
                        } else {
                            old_b & !(1u8 << br)
                        }) >> jr) & 1 == (if val {
                            1u8
                        } else {
                            0u8
                        })) by (bit_vector)
                            requires
                                jr == br,
                                br < 8,
                        ;
                    } else {
                        assert(jr != br) by {
                            assert(j != i as int);
                            assert(j == 8 * jb + (j % 8));
                            assert(i as int == 8 * (i as int / 8) + (i as int % 8));
                        }
                        assert(((if val {
                            old_b | (1u8 << br)
                        } else {
                            old_b & !(1u8 << br)
                        }) >> jr) & 1 == (old_b >> jr) & 1) by (bit_vector)
                            requires
                                jr != br,
                                br < 8,
                                jr < 8,
                        ;
                    }
                } else {
                    assert(self@[jb] == old(self)@[jb]);
                }
            }
        }
    }

    /// `try_set` updates the bit at index `i`; reports whether `i` was in
    /// range (an out-of-range index leaves the buffer unchanged).
    pub fn try_set(&mut self, i: usize, val: bool) -> (r: Option<()>)
        ensures
            r is Some <==> i < 8 * N,
            r is Some ==> final(self)@.len() == N && forall|j: int|
                0 <= j < 8 * N ==> spec_bit(final(self)@, j) == (if j == i {
                    val
                } else {
                    spec_bit(old(self)@, j)
                }),
            r is None ==> final(self)@ == old(self)@,
    {
        if i / 8 < N {
            proof {
                assert(i < 8 * N) by {
                    assert(i as int == 8 * (i as int / 8) + (i as int % 8));
                }
            }
            self.set(i, val);
            Some(())
        } else {
            None
        }
    }

    /// `xor_in_place` performs an in-place XOR with another buffer.
    pub fn xor_in_place(&mut self, rhs: &Self)
        ensures
            final(self)@ == xor_bytes(old(self)@, rhs@),
    {
        let mut i: usize = 0;
        while i < N
            invariant
                0 <= i <= N,
                self@.len() == N,
                forall|j: int| 0 <= j < i ==> self@[j] == (old(self)@[j] ^ rhs@[j]),
                forall|j: int| i <= j < N ==> self@[j] == old(self)@[j],
            decreases N - i,
        {
            let b: u8 = self.0[i] ^ rhs.0[i];
            self.0[i] = b;
            i = i + 1;
        }
        proof {
            assert(self@ =~= xor_bytes(old(self)@, rhs@));
        }
    }

    /// `xor` returns the bytewise XOR of two buffers.
    pub fn xor(self, rhs: &Self) -> (r: Self)
        ensures
            r@ == xor_bytes(self@, rhs@),
    {
        let mut out = self;
        out.xor_in_place(rhs);
        out
    }
}

/// XOR on byte sequences is associative.
pub proof fn lemma_xor_assoc(a: Seq<u8>, b: Seq<u8>, c: Seq<u8>)
    requires
        a.len() == b.len(),
        b.len() == c.len(),
    ensures
        xor_bytes(xor_bytes(a, b), c) == xor_bytes(a, xor_bytes(b, c)),
{
    assert forall|i: int| 0 <= i < a.len() implies xor_bytes(xor_bytes(a, b), c)[i] == xor_bytes(
        a,
        xor_bytes(b, c),
    )[i] by {
        let x = a[i];
        let y = b[i];
        let z = c[i];
        assert((x ^ y) ^ z == x ^ (y ^ z)) by (bit_vector);
    }
    assert(xor_bytes(xor_bytes(a, b), c) =~= xor_bytes(a, xor_bytes(b, c)));
}

/// XOR on byte sequences is commutative.
pub proof fn lemma_xor_comm(a: Seq<u8>, b: Seq<u8>)
    requires
        a.len() == b.len(),
    ensures
        xor_bytes(a, b) == xor_bytes(b, a),
{
    assert forall|i: int| 0 <= i < a.len() implies xor_bytes(a, b)[i] == xor_bytes(b, a)[i] by {
        let x = a[i];
        let y = b[i];
        assert(x ^ y == y ^ x) by (bit_vector);
    }
    assert(xor_bytes(a, b) =~= xor_bytes(b, a));
}

/// A byte sequence XORed with itself is all zeros.
pub proof fn lemma_xor_self(a: Seq<u8>)
    ensures
        xor_bytes(a, a) == zero_bytes(a.len()),
{
    assert forall|i: int| 0 <= i < a.len() implies xor_bytes(a, a)[i] == 0u8 by {
        let x = a[i];
        assert(x ^ x == 0u8) by (bit_vector);
    }
    assert(xor_bytes(a, a) =~= zero_bytes(a.len()));
}

/// All zeros is the identity of bytewise XOR.
pub proof fn lemma_xor_zero(a: Seq<u8>)
    ensures
        xor_bytes(a, zero_bytes(a.len())) == a,
        xor_bytes(zero_bytes(a.len()), a) == a,
{
    assert forall|i: int| 0 <= i < a.len() implies xor_bytes(a, zero_bytes(a.len()))[i] == a[i]
        && xor_bytes(zero_bytes(a.len()), a)[i] == a[i] by {
        let x = a[i];
        assert(x ^ 0u8 == x) by (bit_vector);
        assert(0u8 ^ x == x) by (bit_vector);
    }
    assert(xor_bytes(a, zero_bytes(a.len())) =~= a);
    assert(xor_bytes(zero_bytes(a.len()), a) =~= a);
}

} // verus!
