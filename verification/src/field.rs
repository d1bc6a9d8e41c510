//! Binary polynomials and the two binary fields GF(2^128) and GF(2^256).
//!
//! A `BPoly<N>` is a polynomial over GF(2) with `64 * N` coefficients, stored
//! as `N` little-endian limbs: bit 0 of limb 0 is the constant term. The two
//! fields interpret a `BPoly` of width 2 or 4 modulo a fixed irreducible
//! polynomial. Multiplication scans the bits of one operand and selects the
//! other through a constant-time mask, never through a data-dependent branch.

use vstd::prelude::*;

verus! {

broadcast use vstd::array::group_array_axioms;

/// The all-zero limb sequence of length `n`.
pub open spec fn szero(n: nat) -> Seq<u64> {
    Seq::new(n, |i: int| 0u64)
}

/// The limb sequence of length `n` that encodes the polynomial `1`.
pub open spec fn sone(n: nat) -> Seq<u64> {
    Seq::new(n, |i: int| if i == 0 { 1u64 } else { 0u64 })
}

/// The limb sequence of length `n` with limb 0 equal to `x`: the image of the
/// integer injection into a field of width `n`.
pub open spec fn sinj(x: u64, n: nat) -> Seq<u64> {
    Seq::new(n, |i: int| if i == 0 { x } else { 0u64 })
}

/// Limbwise XOR: addition of binary polynomials.
pub open spec fn sxor(a: Seq<u64>, b: Seq<u64>) -> Seq<u64> {
    Seq::new(a.len(), |i: int| a[i] ^ b[i])
}

/// The whole limb sequence shifted left by one bit; the top bit is dropped.
pub open spec fn sshl1(s: Seq<u64>) -> Seq<u64> {
    Seq::new(s.len(), |i: int| if i == 0 { s[0] << 1u64 } else { (s[i] << 1u64) | (s[i - 1] >> 63u64) })
}

/// The limb sequence shifted left by `count` bits (1 <= count <= 63), the
/// vacated low bits of limb 0 filled from `start`.
pub open spec fn sshift(s: Seq<u64>, start: u64, count: u64) -> Seq<u64> {
    Seq::new(s.len(), |i: int| if i == 0 { (s[0] << count) | start } else { (s[i] << count) | (s[i - 1] >> (64 - count) as u64) })
}

/// `a` widened to twice its length with zero high limbs.
pub open spec fn sext(a: Seq<u64>) -> Seq<u64> {
    a + szero(a.len())
}

/// Bit `p` of a little-endian limb sequence.
pub open spec fn bit_at(s: Seq<u64>, p: int) -> bool {
    ((s[p / 64] >> ((p % 64) as u64)) & 1u64) == 1u64
}

/// The first `i` steps of the bit-serial product of `a` by `b`: the partial
/// product accumulated after scanning the top `i` bits of `b`, each step
/// shifting the accumulator left by one and XOR-ing `a` in when the scanned
/// bit of `b` is set. `pmul(a, b)` below takes all `64 * a.len()` steps, which
/// makes it the unreduced carry-less product `a * b` over GF(2).
pub open spec fn pmul_prefix(a: Seq<u64>, b: Seq<u64>, i: nat) -> Seq<u64>
    decreases i,
{
    if i == 0 {
        szero(2 * a.len())
    } else {
        let prev = sshl1(pmul_prefix(a, b, (i - 1) as nat));
        if bit_at(b, 64 * a.len() - i) {
            sxor(prev, sext(a))
        } else {
            prev
        }
    }
}

/// The unreduced product of two width-`N` binary polynomials, as `2 * N` limbs.
pub open spec fn pmul(a: Seq<u64>, b: Seq<u64>) -> Seq<u64> {
    pmul_prefix(a, b, (64 * a.len()) as nat)
}

/// The facts about `u64` XOR that the addition layer is built on.
pub proof fn lemma_xor_basics()
    by (bit_vector)
    ensures
        forall|x: u64| #[trigger] (x ^ 0u64) == x,
        forall|x: u64| #[trigger] (0u64 ^ x) == x,
        forall|x: u64| #[trigger] (x ^ x) == 0u64,
        forall|x: u64, y: u64| #[trigger] (x ^ y) == (y ^ x),
        forall|x: u64, y: u64, z: u64| #[trigger] ((x ^ y) ^ z) == (x ^ (y ^ z)),
{
}

/// Addition of binary polynomials is commutative.
pub proof fn lemma_add_commutative(a: Seq<u64>, b: Seq<u64>)
    requires
        a.len() == b.len(),
    ensures
        sxor(a, b) == sxor(b, a),
{
    lemma_xor_basics();
    assert(sxor(a, b) =~= sxor(b, a));
}

/// Addition of binary polynomials is associative.
pub proof fn lemma_add_associative(a: Seq<u64>, b: Seq<u64>, c: Seq<u64>)
    requires
        a.len() == b.len(),
        b.len() == c.len(),
    ensures
        sxor(sxor(a, b), c) == sxor(a, sxor(b, c)),
{
    lemma_xor_basics();
    assert(sxor(sxor(a, b), c) =~= sxor(a, sxor(b, c)));
}

/// Zero is the additive identity.
pub proof fn lemma_add_zero(a: Seq<u64>)
    ensures
        sxor(a, szero(a.len())) == a,
        sxor(szero(a.len()), a) == a,
{
    lemma_xor_basics();
    assert(sxor(a, szero(a.len())) =~= a);
    assert(sxor(szero(a.len()), a) =~= a);
}

/// In characteristic 2 every element is its own additive inverse.
pub proof fn lemma_add_self(a: Seq<u64>)
    ensures
        sxor(a, a) == szero(a.len()),
{
    lemma_xor_basics();
    assert(sxor(a, a) =~= szero(a.len()));
}

/// Relies on subtle's `u64::conditional_select` and `Choice::from`: for a
/// choice bit of 0 the call returns `a`, for 1 it returns `b`, computed with a
/// mask instead of a data-dependent branch.
#[verifier::external_body]
fn ct_select_u64(a: u64, b: u64, choice: u8) -> (r: u64)
    requires
        choice == 0 || choice == 1,
    ensures
        r == if choice == 1 { b } else { a },
{
    <u64 as subtle::ConditionallySelectable>::conditional_select(
        &a,
        &b,
        subtle::Choice::from(choice),
    )
}

/// Relies on rand_core's `OsRng`: each call draws 64 bits from the operating
/// system's cryptographically secure entropy source. Nothing is promised of
/// the value.
#[verifier::external_body]
pub(crate) fn os_random_u64() -> u64 {
    rand_core::RngCore::next_u64(&mut rand_core::OsRng)
}

/// A binary polynomial with `64 * N` coefficients, limb `i` holding the
/// coefficients of `z^(64 i)` through `z^(64 i + 63)`.
#[derive(Clone, Copy, Debug)]
pub struct BPoly<const N: usize> {
    pub data: [u64; N],
}

impl<const N: usize> View for BPoly<N> {
    type V = Seq<u64>;

    open spec fn view(&self) -> Seq<u64> {
        self.data@
    }
}

impl<const N: usize> BPoly<N> {
    /// The zero polynomial.
    pub fn zero() -> (r: Self)
        ensures
            r@ == szero(N as nat),
    {
        let r = BPoly { data: [0u64; N] };
        proof {
            assert(r.data == vstd::array::spec_array_fill_for_copy_type::<u64, N>(0u64));
            assert(forall|i: int|
                0 <= i < N ==> vstd::array::spec_array_fill_for_copy_type::<u64, N>(0u64)@[i]
                    == 0u64);
            assert(r@ =~= szero(N as nat));
        }
        r
    }

    /// The polynomial `1`.
    pub fn one() -> (r: Self)
        requires
            N >= 1,
        ensures
            r@ == sone(N as nat),
    {
        let mut r = Self::zero();
        r.data[0] = 1;
        proof {
            assert(r@ =~= sone(N as nat));
        }
        r
    }

    /// Select `a` for a choice bit of 0 and `b` for 1, limb by limb, without
    /// a data-dependent branch.
    pub fn conditional_select(a: &Self, b: &Self, choice: u8) -> (r: Self)
        requires
            choice == 0 || choice == 1,
        ensures
            r@ == if choice == 1 { b@ } else { a@ },
    {
        let mut out = Self::zero();
        let mut i: usize = 0;
        while i < N
            invariant
                choice == 0 || choice == 1,
                i <= N,
                out@.len() == N,
                forall|j: int| 0 <= j < i ==> out@[j] == (if choice == 1 { b@[j] } else { a@[j] }),
            decreases N - i,
        {
            out.data[i] = ct_select_u64(a.data[i], b.data[i], choice);
            i += 1;
        }
        proof {
            if choice == 1 {
                assert(out@ =~= b@);
            } else {
                assert(out@ =~= a@);
            }
        }
        out
    }

    /// Shift left by `count` bits (1 <= count <= 63); the vacated low bits of
    /// limb 0 are filled with the low bits of `start`, and the bits shifted
    /// out of the top limb are returned.
    pub fn shift(&mut self, start: u64, count: u64) -> (top: u64)
        requires
            N >= 1,
            1 <= count <= 63,
        ensures
            final(self)@ == sshift(old(self)@, start, count),
            top == old(self)@[N - 1] >> (64 - count) as u64,
    {
        let mut top: u64 = start;
        let mut i: usize = 0;
        while i < N
            invariant
                N >= 1,
                1 <= count <= 63,
                i <= N,
                self@.len() == N,
                forall|j: int| 0 <= j < i ==> self@[j] == sshift(old(self)@, start, count)[j],
                forall|j: int| i <= j < N ==> self@[j] == old(self)@[j],
                top == if i == 0 { start } else { old(self)@[i - 1] >> (64 - count) as u64 },
            decreases N - i,
        {
            let x = self.data[i];
            let new_top = x >> (64 - count);
            self.data[i] = (x << count) | top;
            top = new_top;
            i += 1;
        }
        proof {
            assert(self@ =~= sshift(old(self)@, start, count));
        }
        top
    }

    /// Add `rhs` in place: limbwise XOR.
    pub fn add_assign(&mut self, rhs: &Self)
        ensures
            final(self)@ == sxor(old(self)@, rhs@),
    {
        let mut i: usize = 0;
        while i < N
            invariant
                i <= N,
                self@.len() == N,
                rhs@.len() == N,
                forall|j: int| 0 <= j < i ==> self@[j] == (old(self)@[j] ^ rhs@[j]),
                forall|j: int| i <= j < N ==> self@[j] == old(self)@[j],
            decreases N - i,
        {
            self.data[i] = self.data[i] ^ rhs.data[i];
            i += 1;
        }
        proof {
            assert(self@ =~= sxor(old(self)@, rhs@));
        }
    }

    /// The sum of two binary polynomials: limbwise XOR.
    pub fn add(self, rhs: Self) -> (r: Self)
        ensures
            r@ == sxor(self@, rhs@),
    {
        let mut out = self;
        out.add_assign(&rhs);
        out
    }

    /// The unreduced product `self * rhs`, returned as the pair
    /// `(high limbs, low limbs)` of the `2 * N`-limb result.
    ///
    /// The loop scans the bits of `rhs` from the highest down; the conditional
    /// XOR of `self` is selected through a constant-time mask, so the sequence
    /// of executed instructions does not depend on the operands' bits.
    pub fn mul_wide(self, rhs: Self) -> (r: (Self, Self))
        requires
            N >= 1,
            64 * (N as int) <= usize::MAX as int,
        ensures
            r.1@ + r.0@ == pmul(self@, rhs@),
    {
        let mut hi = Self::zero();
        let mut lo = Self::zero();
        let zero_p = Self::zero();
        let total: usize = 64 * N;
        let mut k: usize = 0;
        proof {
            assert(lo@ + hi@ =~= pmul_prefix(self@, rhs@, 0));
        }
        while k < total
            invariant
                N >= 1,
                total == 64 * N,
                k <= total,
                hi@.len() == N,
                lo@.len() == N,
                zero_p@ == szero(N as nat),
                lo@ + hi@ == pmul_prefix(self@, rhs@, k as nat),
            decreases total - k,
        {
            proof {
                lemma_xor_basics();
                lemma_bit_basics();
            }
            let ghost full0 = lo@ + hi@;
            let ghost lo0 = lo@;
            let ghost hi0 = hi@;
            let t = lo.shift(0, 1);
            hi.shift(t, 1);
            proof {
                assert(lo@ + hi@ =~= sshl1(full0));
            }
            let ghost full1 = lo@ + hi@;
            let ghost lo1 = lo@;
            let p: usize = total - 1 - k;
            proof {
                assert(p / 64 < N) by (nonlinear_arith)
                    requires
                        p < 64 * N,
                        N >= 1,
                ;
            }
            let limb: u64 = rhs.data[p / 64];
            let sh: u64 = (p % 64) as u64;
            let masked: u64 = (limb >> sh) & 1;
            let bit: u8 = masked as u8;
            proof {
                assert(masked == 0 || masked == 1);
                assert((bit == 1) == bit_at(rhs@, p as int));
            }
            let to_add = Self::conditional_select(&zero_p, &self, bit);
            lo.add_assign(&to_add);
            proof {
                if bit == 1 {
                    assert(lo@ + hi@ =~= sxor(full1, sext(self@)));
                } else {
                    assert forall|j: int| 0 <= j < N as int implies lo@[j] == lo1[j] by {
                        assert(to_add@[j] == 0u64);
                        assert(lo@[j] == lo1[j] ^ 0u64);
                    }
                    assert(lo@ =~= lo1);
                    assert(lo@ + hi@ =~= full1);
                }
                assert(64 * self@.len() - ((k + 1) as nat) == p as int);
                assert(lo@ + hi@ == pmul_prefix(self@, rhs@, (k + 1) as nat));
            }
            k += 1;
        }
        (hi, lo)
    }
}

/// The facts about single-bit masks and OR that the multiplier's proof uses.
proof fn lemma_bit_basics()
    by (bit_vector)
    ensures
        forall|x: u64| #[trigger] (x | 0u64) == x,
        forall|x: u64| ((#[trigger] (x & 1u64)) == 0u64) || ((x & 1u64) == 1u64),
{
}

/// The facts about shifts of the constants 0 and 1 that the identity law uses.
proof fn lemma_shift_constant_facts()
    by (bit_vector)
    ensures
        forall|sh: u64| sh <= 63 ==> (#[trigger] (0u64 >> sh)) == 0u64,
        forall|sh: u64| 1 <= sh <= 63 ==> ((#[trigger] (1u64 >> sh)) & 1u64) == 0u64,
        ((1u64 >> 0u64) & 1u64) == 1u64,
        (0u64 & 1u64) == 0u64,
        (0u64 << 1u64) == 0u64,
        ((0u64 << 1u64) | (0u64 >> 63u64)) == 0u64,
        forall|x: u64| #[trigger] (x & 1u64) != 1u64 ==> (x & 1u64) == 0u64,
{
}

/// While only the top bits of the constant `1` have been scanned, the partial
/// product by `1` is still zero: every scanned bit is clear.
proof fn lemma_pmul_prefix_one_zero(a: Seq<u64>, i: nat)
    requires
        a.len() >= 1,
        i < 64 * a.len(),
    ensures
        pmul_prefix(a, sone(a.len()), i) == szero(2 * a.len()),
    decreases i,
{
    lemma_shift_constant_facts();
    if i != 0 {
        lemma_pmul_prefix_one_zero(a, (i - 1) as nat);
        assert(sshl1(szero(2 * a.len())) =~= szero(2 * a.len()));
        let p = 64 * a.len() - i;
        assert(1 <= p < 64 * a.len());
        assert(p / 64 < a.len()) by (nonlinear_arith)
            requires
                p < 64 * a.len(),
        ;
        let sh = (p % 64) as u64;
        if p / 64 == 0 {
            assert(p % 64 == p);
            assert(1 <= sh <= 63);
            assert(sone(a.len())[p / 64] == 1u64);
            assert(((1u64 >> sh) & 1u64) == 0u64);
            assert(!bit_at(sone(a.len()), p));
        } else {
            assert(sone(a.len())[p / 64] == 0u64);
            assert((0u64 >> sh) == 0u64);
            assert((0u64 & 1u64) == 0u64);
            assert(!bit_at(sone(a.len()), p));
        }
    }
}

/// The polynomial `1` is the multiplicative identity of the unreduced
/// product: `a * 1` is `a`, widened with zero high limbs.
pub proof fn lemma_pmul_one(a: Seq<u64>)
    requires
        a.len() >= 1,
    ensures
        pmul(a, sone(a.len())) == sext(a),
{
    let n = a.len();
    lemma_shift_constant_facts();
    lemma_pmul_prefix_one_zero(a, (64 * n - 1) as nat);
    assert(sshl1(szero(2 * n)) =~= szero(2 * n));
    assert(bit_at(sone(n), 0));
    assert(64 * n - (64 * n) as nat == 0);
    assert(pmul(a, sone(n)) == sxor(szero(2 * n), sext(a)));
    lemma_add_zero(sext(a));
    assert(sext(a).len() == 2 * n);
}

/// Byte `i` of the little-endian byte encoding of a limb sequence.
pub open spec fn byte_of_limbs(ls: Seq<u64>, i: int) -> u8 {
    ((ls[i / 8] >> ((8 * (i % 8)) as u64)) & 0xffu64) as u8
}

/// The little-endian byte encoding of a limb sequence: limb `i` occupies
/// bytes `8 i` through `8 i + 7`, low byte first.
pub open spec fn bytes_of_limbs(ls: Seq<u64>) -> Seq<u8> {
    Seq::new(8 * ls.len(), |i: int| byte_of_limbs(ls, i))
}

/// A limb assembled from eight bytes, low byte first.
pub open spec fn limb_of_8(b0: u8, b1: u8, b2: u8, b3: u8, b4: u8, b5: u8, b6: u8, b7: u8) -> u64 {
    (b0 as u64) | ((b1 as u64) << 8u64) | ((b2 as u64) << 16u64) | ((b3 as u64) << 24u64) | ((
    b4 as u64) << 32u64) | ((b5 as u64) << 40u64) | ((b6 as u64) << 48u64) | ((b7 as u64) << 56u64)
}

/// Limb `j` read from a little-endian byte sequence.
pub open spec fn limb_of_bytes(bs: Seq<u8>, j: int) -> u64 {
    limb_of_8(
        bs[8 * j],
        bs[8 * j + 1],
        bs[8 * j + 2],
        bs[8 * j + 3],
        bs[8 * j + 4],
        bs[8 * j + 5],
        bs[8 * j + 6],
        bs[8 * j + 7],
    )
}

/// The limb sequence read from a little-endian byte sequence.
pub open spec fn limbs_of_bytes(bs: Seq<u8>) -> Seq<u64> {
    Seq::new((bs.len() / 8) as nat, |j: int| limb_of_bytes(bs, j))
}

/// A limb is recovered from its eight bytes, and each byte from the limb.
proof fn lemma_limb_bytes_bv()
    by (bit_vector)
    ensures
        forall|x: u64|
            ((((x >> 0u64) & 0xffu64) as u8 as u64) | ((((x >> 8u64) & 0xffu64) as u8 as u64)
                << 8u64) | ((((x >> 16u64) & 0xffu64) as u8 as u64) << 16u64) | ((((x >> 24u64)
                & 0xffu64) as u8 as u64) << 24u64) | ((((x >> 32u64) & 0xffu64) as u8 as u64)
                << 32u64) | ((((x >> 40u64) & 0xffu64) as u8 as u64) << 40u64) | ((((x >> 48u64)
                & 0xffu64) as u8 as u64) << 48u64) | ((((x >> 56u64) & 0xffu64) as u8 as u64)
                << 56u64)) == x,
        forall|b0: u8, b1: u8, b2: u8, b3: u8, b4: u8, b5: u8, b6: u8, b7: u8|
            {
                let y = #[trigger] limb_of_8(b0, b1, b2, b3, b4, b5, b6, b7);
                (((y >> 0u64) & 0xffu64) as u8 == b0) && (((y >> 8u64) & 0xffu64) as u8 == b1) && ((
                (y >> 16u64) & 0xffu64) as u8 == b2) && (((y >> 24u64) & 0xffu64) as u8 == b3) && ((
                (y >> 32u64) & 0xffu64) as u8 == b4) && (((y >> 40u64) & 0xffu64) as u8 == b5) && ((
                (y >> 48u64) & 0xffu64) as u8 == b6) && (((y >> 56u64) & 0xffu64) as u8 == b7)
            },
{
}

/// Byte round trip, one direction: reading limbs back from the byte encoding
/// of a limb sequence returns the original limbs.
pub proof fn lemma_limbs_bytes_round_trip(ls: Seq<u64>)
    ensures
        limbs_of_bytes(bytes_of_limbs(ls)) == ls,
{
    lemma_limb_bytes_bv();
    let bs = bytes_of_limbs(ls);
    assert forall|j: int| 0 <= j < ls.len() implies limbs_of_bytes(bs)[j] == ls[j] by {
        let x = ls[j];
        assert(bs[8 * j] == ((x >> 0u64) & 0xffu64) as u8);
        assert(bs[8 * j + 1] == ((x >> 8u64) & 0xffu64) as u8);
        assert(bs[8 * j + 2] == ((x >> 16u64) & 0xffu64) as u8);
        assert(bs[8 * j + 3] == ((x >> 24u64) & 0xffu64) as u8);
        assert(bs[8 * j + 4] == ((x >> 32u64) & 0xffu64) as u8);
        assert(bs[8 * j + 5] == ((x >> 40u64) & 0xffu64) as u8);
        assert(bs[8 * j + 6] == ((x >> 48u64) & 0xffu64) as u8);
        assert(bs[8 * j + 7] == ((x >> 56u64) & 0xffu64) as u8);
    }
    assert(limbs_of_bytes(bytes_of_limbs(ls)) =~= ls);
}

/// Reduction of a 4-limb unreduced product modulo the GF(2^128) modulus
/// `z^128 + z^7 + z^2 + z + 1`: each high limb is folded down at the shifts
/// {0, 1, 2, 7}, with the carry bits of the previous high limb, and the at
/// most 7 bits pushed back above the degree by the first fold are folded once
/// more into limb 0.
pub open spec fn reduce128(hi: Seq<u64>, lo: Seq<u64>) -> Seq<u64> {
    let l0 = lo[0] ^ (hi[0] << 7u64) ^ (hi[0] << 2u64) ^ (hi[0] << 1u64) ^ hi[0];
    let l1 = lo[1] ^ (hi[1] << 7u64) ^ (hi[1] << 2u64) ^ (hi[1] << 1u64) ^ hi[1] ^ (hi[0] >> 57u64)
        ^ (hi[0] >> 62u64) ^ (hi[0] >> 63u64);
    let top = (hi[1] >> 57u64) ^ (hi[1] >> 62u64) ^ (hi[1] >> 63u64);
    seq![l0 ^ (top << 7u64) ^ (top << 2u64) ^ (top << 1u64) ^ top, l1]
}

/// Reduction of an 8-limb unreduced product modulo the GF(2^256) modulus
/// `z^256 + z^10 + z^5 + z^2 + 1`, folding at the shifts {0, 2, 5, 10}.
pub open spec fn reduce256(hi: Seq<u64>, lo: Seq<u64>) -> Seq<u64> {
    let l0 = lo[0] ^ (hi[0] << 10u64) ^ (hi[0] << 5u64) ^ (hi[0] << 2u64) ^ hi[0];
    let l1 = lo[1] ^ (hi[1] << 10u64) ^ (hi[1] << 5u64) ^ (hi[1] << 2u64) ^ hi[1] ^ (hi[0]
        >> 54u64) ^ (hi[0] >> 59u64) ^ (hi[0] >> 62u64);
    let l2 = lo[2] ^ (hi[2] << 10u64) ^ (hi[2] << 5u64) ^ (hi[2] << 2u64) ^ hi[2] ^ (hi[1]
        >> 54u64) ^ (hi[1] >> 59u64) ^ (hi[1] >> 62u64);
    let l3 = lo[3] ^ (hi[3] << 10u64) ^ (hi[3] << 5u64) ^ (hi[3] << 2u64) ^ hi[3] ^ (hi[2]
        >> 54u64) ^ (hi[2] >> 59u64) ^ (hi[2] >> 62u64);
    let top = (hi[3] >> 54u64) ^ (hi[3] >> 59u64) ^ (hi[3] >> 62u64);
    seq![l0 ^ (top << 10u64) ^ (top << 5u64) ^ (top << 2u64) ^ top, l1, l2, l3]
}

/// Multiplication in GF(2^128): the unreduced product followed by reduction.
pub open spec fn fmul128(a: Seq<u64>, b: Seq<u64>) -> Seq<u64> {
    let p = pmul(a, b);
    reduce128(p.subrange(2, 4), p.subrange(0, 2))
}

/// Multiplication in GF(2^256): the unreduced product followed by reduction.
pub open spec fn fmul256(a: Seq<u64>, b: Seq<u64>) -> Seq<u64> {
    let p = pmul(a, b);
    reduce256(p.subrange(4, 8), p.subrange(0, 4))
}

/// Byte round trip, the other direction: for a byte sequence whose length is
/// a multiple of eight, encoding the limbs read from it returns the bytes.
pub proof fn lemma_bytes_limbs_round_trip(bs: Seq<u8>)
    requires
        bs.len() % 8 == 0,
    ensures
        bytes_of_limbs(limbs_of_bytes(bs)) == bs,
{
    lemma_limb_bytes_bv();
    let ls = limbs_of_bytes(bs);
    assert forall|i: int| 0 <= i < bs.len() implies bytes_of_limbs(ls)[i] == bs[i] by {
        let j = i / 8;
        let t = i % 8;
        assert(i == 8 * j + t);
        assert(0 <= j < ls.len());
        assert(ls[j] == limb_of_bytes(bs, j));
        assert(bytes_of_limbs(ls)[i] == ((ls[j] >> ((8 * t) as u64)) & 0xffu64) as u8);
    }
    assert(bytes_of_limbs(limbs_of_bytes(bs)) =~= bs);
}

/// A binary field: the capability set the sharing layer draws on. Every
/// operation's result is pinned, on the limb view, by a spec function of the
/// operands' limb views alone.
pub trait Field: Sized + Copy + View<V = Seq<u64>> {
    /// The model of addition on limb views.
    spec fn sp_add(a: Seq<u64>, b: Seq<u64>) -> Seq<u64>;

    /// The model of subtraction on limb views.
    spec fn sp_sub(a: Seq<u64>, b: Seq<u64>) -> Seq<u64>;

    /// The model of multiplication on limb views.
    spec fn sp_mul(a: Seq<u64>, b: Seq<u64>) -> Seq<u64>;

    /// The model of inversion on limb views.
    spec fn sp_inv(a: Seq<u64>) -> Seq<u64>;

    /// The limb view of the additive identity.
    spec fn sp_zero() -> Seq<u64>;

    /// The limb view of the multiplicative identity.
    spec fn sp_one() -> Seq<u64>;

    /// The limb view of the integer injection.
    spec fn sp_from_u64(x: u64) -> Seq<u64>;

    /// Field addition.
    fn add(self, rhs: Self) -> (r: Self)
        ensures
            r@ == Self::sp_add(self@, rhs@),
    ;

    /// Field addition in place.
    fn add_assign(&mut self, rhs: Self)
        ensures
            final(self)@ == Self::sp_add(old(self)@, rhs@),
    ;

    /// Field subtraction; in characteristic 2 it coincides with addition.
    fn sub(self, rhs: Self) -> (r: Self)
        ensures
            r@ == Self::sp_sub(self@, rhs@),
    ;

    /// Field subtraction in place.
    fn sub_assign(&mut self, rhs: Self)
        ensures
            final(self)@ == Self::sp_sub(old(self)@, rhs@),
    ;

    /// Negation: the identity in characteristic 2.
    fn neg(self) -> (r: Self)
        ensures
            r == self,
    ;

    /// Field multiplication.
    fn mul(self, rhs: Self) -> (r: Self)
        ensures
            r@ == Self::sp_mul(self@, rhs@),
    ;

    /// Field multiplication in place.
    fn mul_assign(&mut self, rhs: Self)
        ensures
            final(self)@ == Self::sp_mul(old(self)@, rhs@),
    ;

    /// The multiplicative inverse, computed as `x^(2^m - 2)`; on the zero
    /// element the result is meaningless and the caller must not rely on it.
    fn inverse(self) -> (r: Self)
        ensures
            r@ == Self::sp_inv(self@),
    ;

    /// The multiplicative identity.
    fn one() -> (r: Self)
        ensures
            r@ == Self::sp_one(),
    ;

    /// The additive identity.
    fn zero() -> (r: Self)
        ensures
            r@ == Self::sp_zero(),
    ;

    /// The integer injection: limb 0 is `x`, the higher limbs are zero.
    fn from_u64(x: u64) -> (r: Self)
        ensures
            r@ == Self::sp_from_u64(x),
    ;

    /// A uniformly random element, drawn from the process-wide secure
    /// randomness source. Nothing is promised of the value.
    fn random() -> Self;
}

/// `n` rounds of square-then-multiply in GF(2^128): the value after `n`
/// iterations of `acc := acc^2 * x` starting from `acc`.
pub open spec fn sp_square_multiply128(acc: Seq<u64>, x: Seq<u64>, n: nat) -> Seq<u64>
    decreases n,
{
    if n == 0 {
        acc
    } else {
        let p = sp_square_multiply128(acc, x, (n - 1) as nat);
        fmul128(fmul128(p, p), x)
    }
}

/// `x^(2^128 - 2)` in GF(2^128): 127 square-then-multiply rounds from 1,
/// then one final squaring. By Fermat's little theorem this is the inverse
/// of every non-zero `x`.
pub open spec fn sp_inv128(a: Seq<u64>) -> Seq<u64> {
    let f = sp_square_multiply128(sone(2), a, 127);
    fmul128(f, f)
}

/// `n` rounds of square-then-multiply in GF(2^256).
pub open spec fn sp_square_multiply256(acc: Seq<u64>, x: Seq<u64>, n: nat) -> Seq<u64>
    decreases n,
{
    if n == 0 {
        acc
    } else {
        let p = sp_square_multiply256(acc, x, (n - 1) as nat);
        fmul256(fmul256(p, p), x)
    }
}

/// `x^(2^256 - 2)` in GF(2^256): the inverse of every non-zero `x`.
pub open spec fn sp_inv256(a: Seq<u64>) -> Seq<u64> {
    let f = sp_square_multiply256(sone(4), a, 255);
    fmul256(f, f)
}

/// Shifts of the constant zero, and XOR with zero, used when reducing a
/// product whose high half is zero.
proof fn lemma_zero_shift_facts()
    by (bit_vector)
    ensures
        (0u64 << 10u64) == 0u64,
        (0u64 << 7u64) == 0u64,
        (0u64 << 5u64) == 0u64,
        (0u64 << 2u64) == 0u64,
        (0u64 << 1u64) == 0u64,
        (0u64 >> 54u64) == 0u64,
        (0u64 >> 57u64) == 0u64,
        (0u64 >> 59u64) == 0u64,
        (0u64 >> 62u64) == 0u64,
        (0u64 >> 63u64) == 0u64,
        forall|x: u64| #[trigger] (x ^ 0u64) == x,
        forall|x: u64| #[trigger] (0u64 ^ x) == x,
{
}

/// Reducing a product whose high half is zero returns the low half: a value
/// below the field's degree is already reduced.
pub proof fn lemma_reduce128_zero(lo: Seq<u64>)
    requires
        lo.len() == 2,
    ensures
        reduce128(szero(2), lo) == lo,
{
    lemma_zero_shift_facts();
    assert(reduce128(szero(2), lo) =~= lo);
}

/// Reducing a product whose high half is zero returns the low half.
pub proof fn lemma_reduce256_zero(lo: Seq<u64>)
    requires
        lo.len() == 4,
    ensures
        reduce256(szero(4), lo) == lo,
{
    lemma_zero_shift_facts();
    assert(reduce256(szero(4), lo) =~= lo);
}

/// The addition laws of GF(2^128): commutative, associative, zero is the
/// identity, and every element is its own inverse (characteristic 2).
pub proof fn lemma_gf128_add_laws(a: Seq<u64>, b: Seq<u64>, c: Seq<u64>)
    requires
        a.len() == 2,
        b.len() == 2,
        c.len() == 2,
    ensures
        GF128::sp_add(a, b) == GF128::sp_add(b, a),
        GF128::sp_add(GF128::sp_add(a, b), c) == GF128::sp_add(a, GF128::sp_add(b, c)),
        GF128::sp_add(a, GF128::sp_zero()) == a,
        GF128::sp_add(a, a) == GF128::sp_zero(),
{
    lemma_add_commutative(a, b);
    lemma_add_associative(a, b, c);
    lemma_add_zero(a);
    lemma_add_self(a);
}

/// The addition laws of GF(2^256): commutative, associative, zero is the
/// identity, and every element is its own inverse (characteristic 2).
pub proof fn lemma_gf256_add_laws(a: Seq<u64>, b: Seq<u64>, c: Seq<u64>)
    requires
        a.len() == 4,
        b.len() == 4,
        c.len() == 4,
    ensures
        GF256::sp_add(a, b) == GF256::sp_add(b, a),
        GF256::sp_add(GF256::sp_add(a, b), c) == GF256::sp_add(a, GF256::sp_add(b, c)),
        GF256::sp_add(a, GF256::sp_zero()) == a,
        GF256::sp_add(a, a) == GF256::sp_zero(),
{
    lemma_add_commutative(a, b);
    lemma_add_associative(a, b, c);
    lemma_add_zero(a);
    lemma_add_self(a);
}

/// One is the multiplicative identity of GF(2^128): `a * 1 == a`.
pub proof fn lemma_mul128_one(a: Seq<u64>)
    requires
        a.len() == 2,
    ensures
        fmul128(a, sone(2)) == a,
{
    lemma_pmul_one(a);
    let p = pmul(a, sone(2));
    assert(p.subrange(0, 2) =~= a);
    assert(p.subrange(2, 4) =~= szero(2));
    lemma_reduce128_zero(a);
}

/// One is the multiplicative identity of GF(2^256): `a * 1 == a`.
pub proof fn lemma_mul256_one(a: Seq<u64>)
    requires
        a.len() == 4,
    ensures
        fmul256(a, sone(4)) == a,
{
    lemma_pmul_one(a);
    let p = pmul(a, sone(4));
    assert(p.subrange(0, 4) =~= a);
    assert(p.subrange(4, 8) =~= szero(4));
    lemma_reduce256_zero(a);
}

/// The binary field GF(2^128): a width-2 binary polynomial modulo
/// `z^128 + z^7 + z^2 + z + 1`.
#[derive(Clone, Copy, Debug)]
pub struct GF128(pub BPoly<2>);

impl View for GF128 {
    type V = Seq<u64>;

    open spec fn view(&self) -> Seq<u64> {
        self.0@
    }
}

impl GF128 {
    /// Fold an unreduced 4-limb product `(hi, lo)` down to a field element.
    pub fn reduce(hi: BPoly<2>, lo: BPoly<2>) -> (r: Self)
        ensures
            r@ == reduce128(hi@, lo@),
    {
        let mut l = lo;
        let h0 = hi.data[0];
        let h1 = hi.data[1];
        l.data[0] = l.data[0] ^ (h0 << 7u64) ^ (h0 << 2u64) ^ (h0 << 1u64) ^ h0;
        l.data[1] = l.data[1] ^ (h1 << 7u64) ^ (h1 << 2u64) ^ (h1 << 1u64) ^ h1 ^ (h0 >> 57u64) ^ (
        h0 >> 62u64) ^ (h0 >> 63u64);
        let top = (h1 >> 57u64) ^ (h1 >> 62u64) ^ (h1 >> 63u64);
        l.data[0] = l.data[0] ^ (top << 7u64) ^ (top << 2u64) ^ (top << 1u64) ^ top;
        let r = GF128(l);
        proof {
            assert(r@ =~= reduce128(hi@, lo@));
        }
        r
    }

    /// The little-endian byte encoding: limb `i` occupies bytes `8 i` to
    /// `8 i + 7`, low byte first.
    pub fn to_bytes(self) -> (r: [u8; 16])
        ensures
            r@ == bytes_of_limbs(self@),
    {
        let mut out = [0u8; 16];
        let mut i: usize = 0;
        while i < 16
            invariant
                i <= 16,
                out@.len() == 16,
                forall|j: int| 0 <= j < i ==> out@[j] == byte_of_limbs(self@, j),
            decreases 16 - i,
        {
            out[i] = ((self.0.data[i / 8] >> ((8 * (i % 8)) as u64)) & 0xffu64) as u8;
            i += 1;
        }
        proof {
            assert(out@ =~= bytes_of_limbs(self@));
        }
        out
    }

    /// The field element whose little-endian byte encoding is `data`.
    pub fn from_bytes(data: [u8; 16]) -> (r: Self)
        ensures
            r@ == limbs_of_bytes(data@),
    {
        let mut out = BPoly::<2>::zero();
        let mut j: usize = 0;
        while j < 2
            invariant
                j <= 2,
                out@.len() == 2,
                forall|t: int| 0 <= t < j ==> out@[t] == limb_of_bytes(data@, t),
            decreases 2 - j,
        {
            let o = 8 * j;
            out.data[j] = (data[o] as u64) | ((data[o + 1] as u64) << 8u64) | ((data[o + 2] as u64)
                << 16u64) | ((data[o + 3] as u64) << 24u64) | ((data[o + 4] as u64) << 32u64) | ((
            data[o + 5] as u64) << 40u64) | ((data[o + 6] as u64) << 48u64) | ((data[o + 7] as u64)
                << 56u64);
            j += 1;
        }
        let r = GF128(out);
        proof {
            assert(r@ =~= limbs_of_bytes(data@));
        }
        r
    }
}

impl Field for GF128 {
    open spec fn sp_add(a: Seq<u64>, b: Seq<u64>) -> Seq<u64> {
        sxor(a, b)
    }

    open spec fn sp_sub(a: Seq<u64>, b: Seq<u64>) -> Seq<u64> {
        sxor(a, b)
    }

    open spec fn sp_mul(a: Seq<u64>, b: Seq<u64>) -> Seq<u64> {
        fmul128(a, b)
    }

    open spec fn sp_inv(a: Seq<u64>) -> Seq<u64> {
        sp_inv128(a)
    }

    open spec fn sp_zero() -> Seq<u64> {
        szero(2)
    }

    open spec fn sp_one() -> Seq<u64> {
        sone(2)
    }

    open spec fn sp_from_u64(x: u64) -> Seq<u64> {
        sinj(x, 2)
    }

    fn add(self, rhs: Self) -> (r: Self) {
        GF128(self.0.add(rhs.0))
    }

    fn add_assign(&mut self, rhs: Self) {
        self.0.add_assign(&rhs.0);
    }

    fn sub(self, rhs: Self) -> (r: Self) {
        GF128(self.0.add(rhs.0))
    }

    fn sub_assign(&mut self, rhs: Self) {
        self.0.add_assign(&rhs.0);
    }

    fn neg(self) -> (r: Self) {
        self
    }

    fn mul(self, rhs: Self) -> (r: Self) {
        let (hi, lo) = self.0.mul_wide(rhs.0);
        let ghost p = pmul(self@, rhs@);
        proof {
            assert(p.subrange(0, 2) =~= lo@);
            assert(p.subrange(2, 4) =~= hi@);
        }
        Self::reduce(hi, lo)
    }

    fn mul_assign(&mut self, rhs: Self) {
        let s = *self;
        *self = s.mul(rhs);
    }

    fn inverse(self) -> (r: Self) {
        let mut a = Self::one();
        let mut i: usize = 0;
        while i < 127
            invariant
                i <= 127,
                a@ == sp_square_multiply128(sone(2), self@, i as nat),
            decreases 127 - i,
        {
            a = a.mul(a);
            a = a.mul(self);
            i += 1;
        }
        a.mul(a)
    }

    fn one() -> (r: Self) {
        GF128(BPoly::one())
    }

    fn zero() -> (r: Self) {
        GF128(BPoly::zero())
    }

    fn from_u64(x: u64) -> (r: Self) {
        let mut p = BPoly::<2>::zero();
        p.data[0] = x;
        let r = GF128(p);
        proof {
            assert(r@ =~= sinj(x, 2));
        }
        r
    }

    fn random() -> Self {
        let mut p = BPoly::<2>::zero();
        p.data[0] = os_random_u64();
        p.data[1] = os_random_u64();
        GF128(p)
    }
}

/// The binary field GF(2^256): a width-4 binary polynomial modulo
/// `z^256 + z^10 + z^5 + z^2 + 1`.
#[derive(Clone, Copy, Debug)]
pub struct GF256(pub BPoly<4>);

impl View for GF256 {
    type V = Seq<u64>;

    open spec fn view(&self) -> Seq<u64> {
        self.0@
    }
}

impl GF256 {
    /// Fold an unreduced 8-limb product `(hi, lo)` down to a field element.
    pub fn reduce(hi: BPoly<4>, lo: BPoly<4>) -> (r: Self)
        ensures
            r@ == reduce256(hi@, lo@),
    {
        let mut l = lo;
        let h0 = hi.data[0];
        let h1 = hi.data[1];
        let h2 = hi.data[2];
        let h3 = hi.data[3];
        l.data[0] = l.data[0] ^ (h0 << 10u64) ^ (h0 << 5u64) ^ (h0 << 2u64) ^ h0;
        l.data[1] = l.data[1] ^ (h1 << 10u64) ^ (h1 << 5u64) ^ (h1 << 2u64) ^ h1 ^ (h0 >> 54u64)
            ^ (h0 >> 59u64) ^ (h0 >> 62u64);
        l.data[2] = l.data[2] ^ (h2 << 10u64) ^ (h2 << 5u64) ^ (h2 << 2u64) ^ h2 ^ (h1 >> 54u64)
            ^ (h1 >> 59u64) ^ (h1 >> 62u64);
        l.data[3] = l.data[3] ^ (h3 << 10u64) ^ (h3 << 5u64) ^ (h3 << 2u64) ^ h3 ^ (h2 >> 54u64)
            ^ (h2 >> 59u64) ^ (h2 >> 62u64);
        let top = (h3 >> 54u64) ^ (h3 >> 59u64) ^ (h3 >> 62u64);
        l.data[0] = l.data[0] ^ (top << 10u64) ^ (top << 5u64) ^ (top << 2u64) ^ top;
        let r = GF256(l);
        proof {
            assert(r@ =~= reduce256(hi@, lo@));
        }
        r
    }

    /// The little-endian byte encoding: limb `i` occupies bytes `8 i` to
    /// `8 i + 7`, low byte first.
    pub fn to_bytes(self) -> (r: [u8; 32])
        ensures
            r@ == bytes_of_limbs(self@),
    {
        let mut out = [0u8; 32];
        let mut i: usize = 0;
        while i < 32
            invariant
                i <= 32,
                out@.len() == 32,
                forall|j: int| 0 <= j < i ==> out@[j] == byte_of_limbs(self@, j),
            decreases 32 - i,
        {
            out[i] = ((self.0.data[i / 8] >> ((8 * (i % 8)) as u64)) & 0xffu64) as u8;
            i += 1;
        }
        proof {
            assert(out@ =~= bytes_of_limbs(self@));
        }
        out
    }

    /// The field element whose little-endian byte encoding is `data`.
    pub fn from_bytes(data: [u8; 32]) -> (r: Self)
        ensures
            r@ == limbs_of_bytes(data@),
    {
        let mut out = BPoly::<4>::zero();
        let mut j: usize = 0;
        while j < 4
            invariant
                j <= 4,
                out@.len() == 4,
                forall|t: int| 0 <= t < j ==> out@[t] == limb_of_bytes(data@, t),
            decreases 4 - j,
        {
            let o = 8 * j;
            out.data[j] = (data[o] as u64) | ((data[o + 1] as u64) << 8u64) | ((data[o + 2] as u64)
                << 16u64) | ((data[o + 3] as u64) << 24u64) | ((data[o + 4] as u64) << 32u64) | ((
            data[o + 5] as u64) << 40u64) | ((data[o + 6] as u64) << 48u64) | ((data[o + 7] as u64)
                << 56u64);
            j += 1;
        }
        let r = GF256(out);
        proof {
            assert(r@ =~= limbs_of_bytes(data@));
        }
        r
    }
}

impl Field for GF256 {
    open spec fn sp_add(a: Seq<u64>, b: Seq<u64>) -> Seq<u64> {
        sxor(a, b)
    }

    open spec fn sp_sub(a: Seq<u64>, b: Seq<u64>) -> Seq<u64> {
        sxor(a, b)
    }

    open spec fn sp_mul(a: Seq<u64>, b: Seq<u64>) -> Seq<u64> {
        fmul256(a, b)
    }

    open spec fn sp_inv(a: Seq<u64>) -> Seq<u64> {
        sp_inv256(a)
    }

    open spec fn sp_zero() -> Seq<u64> {
        szero(4)
    }

    open spec fn sp_one() -> Seq<u64> {
        sone(4)
    }

    open spec fn sp_from_u64(x: u64) -> Seq<u64> {
        sinj(x, 4)
    }

    fn add(self, rhs: Self) -> (r: Self) {
        GF256(self.0.add(rhs.0))
    }

    fn add_assign(&mut self, rhs: Self) {
        self.0.add_assign(&rhs.0);
    }

    fn sub(self, rhs: Self) -> (r: Self) {
        GF256(self.0.add(rhs.0))
    }

    fn sub_assign(&mut self, rhs: Self) {
        self.0.add_assign(&rhs.0);
    }

    fn neg(self) -> (r: Self) {
        self
    }

    fn mul(self, rhs: Self) -> (r: Self) {
        let (hi, lo) = self.0.mul_wide(rhs.0);
        let ghost p = pmul(self@, rhs@);
        proof {
            assert(p.subrange(0, 4) =~= lo@);
            assert(p.subrange(4, 8) =~= hi@);
        }
        Self::reduce(hi, lo)
    }

    fn mul_assign(&mut self, rhs: Self) {
        let s = *self;
        *self = s.mul(rhs);
    }

    fn inverse(self) -> (r: Self) {
        let mut a = Self::one();
        let mut i: usize = 0;
        while i < 255
            invariant
                i <= 255,
                a@ == sp_square_multiply256(sone(4), self@, i as nat),
            decreases 255 - i,
        {
            a = a.mul(a);
            a = a.mul(self);
            i += 1;
        }
        a.mul(a)
    }

    fn one() -> (r: Self) {
        GF256(BPoly::one())
    }

    fn zero() -> (r: Self) {
        GF256(BPoly::zero())
    }

    fn from_u64(x: u64) -> (r: Self) {
        let mut p = BPoly::<4>::zero();
        p.data[0] = x;
        let r = GF256(p);
        proof {
            assert(r@ =~= sinj(x, 4));
        }
        r
    }

    fn random() -> Self {
        let mut p = BPoly::<4>::zero();
        p.data[0] = os_random_u64();
        p.data[1] = os_random_u64();
        p.data[2] = os_random_u64();
        p.data[3] = os_random_u64();
        GF256(p)
    }
}


/// `gbit` is `bit_at` guarded by the range of the sequence: bit `p` of `s`,
/// and false outside `[0, 64 * s.len())`.
pub open spec fn gbit(s: Seq<u64>, p: int) -> bool {
    0 <= p < 64 * s.len() && bit_at(s, p)
}

/// The XOR of a sequence of bits.
pub open spec fn xfold(s: Seq<bool>) -> bool
    decreases s.len(),
{
    if s.len() == 0 {
        false
    } else {
        xfold(s.drop_last()) != s.last()
    }
}

/// The sequence of bits reversed.
pub open spec fn srev(s: Seq<bool>) -> Seq<bool> {
    Seq::new(s.len(), |t: int| s[s.len() - 1 - t])
}

/// Bit `q` of the carry-less product of `a` and `b` is the XOR over `j` of
/// `a_j * b_(q-j)`: this sequence lists the terms.
pub open spec fn conv_seq(a: Seq<u64>, b: Seq<u64>, q: int) -> Seq<bool> {
    Seq::new((64 * a.len()) as nat, |j: int| gbit(a, j) && gbit(b, q - j))
}

/// Bit `q` of the carry-less product of `a` and `b`.
pub open spec fn conv_bit(a: Seq<u64>, b: Seq<u64>, q: int) -> bool {
    xfold(conv_seq(a, b, q))
}

/// Bit `r` of the value formed by the top `i` bits of `b`.
spec fn gbit_top(b: Seq<u64>, i: nat, r: int) -> bool {
    0 <= r < i && bit_at(b, r + 64 * b.len() - i)
}

/// The convolution terms against the top `i` bits of `b` only.
spec fn conv_top_seq(a: Seq<u64>, b: Seq<u64>, i: nat, q: int) -> Seq<bool> {
    Seq::new((64 * a.len()) as nat, |j: int| gbit(a, j) && gbit_top(b, i, q - j))
}

/// Bit `q` of the partial product after `i` steps of the bit-serial scan.
spec fn conv_top_bit(a: Seq<u64>, b: Seq<u64>, i: nat, q: int) -> bool {
    xfold(conv_top_seq(a, b, i, q))
}

/// A suffix of false bits does not change the XOR of a sequence.
proof fn lemma_xfold_false_suffix(s: Seq<bool>, m: int)
    requires
        0 <= m <= s.len(),
        forall|t: int| m <= t < s.len() ==> !(#[trigger] s[t]),
    ensures
        xfold(s) == xfold(s.subrange(0, m)),
    decreases s.len() - m,
{
    if m == s.len() {
        assert(s.subrange(0, m) =~= s);
    } else {
        assert(s.drop_last() =~= s.subrange(0, s.len() - 1));
        assert(!s.last());
        lemma_xfold_false_suffix(s.subrange(0, s.len() - 1), m);
        assert(s.subrange(0, s.len() - 1).subrange(0, m) =~= s.subrange(0, m));
    }
}

/// The XOR of a sequence can be peeled at the front as well as at the back.
proof fn lemma_xfold_peel_first(s: Seq<bool>)
    requires
        s.len() >= 1,
    ensures
        xfold(s) == (s[0] != xfold(s.subrange(1, s.len() as int))),
    decreases s.len(),
{
    if s.len() == 1 {
        assert(s.drop_last() =~= Seq::<bool>::empty());
        assert(s.subrange(1, 1) =~= Seq::<bool>::empty());
    } else {
        lemma_xfold_peel_first(s.drop_last());
        assert(s.drop_last() =~= s.subrange(0, s.len() - 1));
        assert(s.drop_last().subrange(1, s.len() - 1) =~= s.subrange(
            1,
            s.len() as int,
        ).drop_last());
        assert(s.subrange(1, s.len() as int).last() == s.last());
        assert(s.drop_last()[0] == s[0]);
    }
}

/// Reversing the bits does not change their XOR.
proof fn lemma_xfold_reverse(s: Seq<bool>)
    ensures
        xfold(srev(s)) == xfold(s),
    decreases s.len(),
{
    if s.len() >= 1 {
        let s1 = s.subrange(1, s.len() as int);
        lemma_xfold_reverse(s1);
        assert(srev(s).drop_last() =~= srev(s1));
        assert(srev(s).last() == s[0]);
        lemma_xfold_peel_first(s);
    }
}

/// Flipping one bit of a sequence by `d` flips its XOR by `d`.
proof fn lemma_xfold_update(s1: Seq<bool>, s2: Seq<bool>, k: int, d: bool)
    requires
        s1.len() == s2.len(),
        0 <= k < s1.len(),
        forall|t: int| 0 <= t < s1.len() && t != k ==> s1[t] == #[trigger] s2[t],
        s1[k] == (s2[k] != d),
    ensures
        xfold(s1) == (xfold(s2) != d),
    decreases s1.len(),
{
    if k == s1.len() - 1 {
        assert(s1.drop_last() =~= s2.drop_last());
    } else {
        lemma_xfold_update(s1.drop_last(), s2.drop_last(), k, d);
        assert(s1.last() == s2.last());
    }
}

/// How shifts and masks move single bits within a limb.
proof fn lemma_bit_ops_bv()
    by (bit_vector)
    ensures
        forall|x: u64| #[trigger] (x >> 0u64) == x,
        forall|x: u64, sh: u64| sh < 64 ==> (#[trigger] ((x >> sh) & 1u64)) < 2,
        forall|x: u64, y: u64, sh: u64|
            sh < 64 ==> ((#[trigger] ((x ^ y) >> sh)) & 1u64) == (((x >> sh) & 1u64) ^ ((y >> sh)
                & 1u64)),
        forall|u: u64, v: u64| u < 2 && v < 2 ==> (((#[trigger] (u ^ v)) == 1u64) <==> ((u == 1u64)
            != (v == 1u64))),
        forall|x: u64, c: u64, sh: u64|
            1 <= sh < 64 && c < 2 ==> ((#[trigger] (((x << 1u64) | c) >> sh)) & 1u64) == ((x >> (
            sh - 1) as u64) & 1u64),
        forall|x: u64, sh: u64|
            1 <= sh < 64 ==> ((#[trigger] ((x << 1u64) >> sh)) & 1u64) == ((x >> (sh - 1) as u64)
                & 1u64),
        forall|x: u64, c: u64| c < 2 ==> ((#[trigger] ((x << 1u64) | c)) & 1u64) == c,
        forall|x: u64| ((#[trigger] (x << 1u64)) & 1u64) == 0u64,
        forall|x: u64| (#[trigger] (x >> 63u64)) < 2,
        forall|sh: u64| sh < 64 ==> ((#[trigger] (0u64 >> sh)) & 1u64) == 0u64,
        forall|c: u64| c < 2 ==> (#[trigger] (c & 1u64)) == c,
{
}

/// The division and remainder of `64 i + sh` by 64 are `i` and `sh`.
proof fn lemma_div_mod_64(i: int, sh: int)
    requires
        0 <= i,
        0 <= sh < 64,
    ensures
        (64 * i + sh) / 64 == i,
        (64 * i + sh) % 64 == sh,
{
    vstd::arithmetic::div_mod::lemma_fundamental_div_mod_converse(64 * i + sh, 64, i, sh);
}

/// The limb index and in-limb shift of a bit position.
proof fn lemma_bit_index(p: int, len: nat)
    requires
        0 <= p < 64 * len,
    ensures
        0 <= p / 64 < len,
        0 <= p % 64 < 64,
        p == 64 * (p / 64) + p % 64,
{
    vstd::arithmetic::div_mod::lemma_fundamental_div_mod(p, 64);
    assert(0 <= p % 64 < 64) by (nonlinear_arith)
        requires
            0 <= p,
    ;
    assert(p / 64 < len) by (nonlinear_arith)
        requires
            0 <= p < 64 * len,
    ;
    assert(0 <= p / 64) by (nonlinear_arith)
        requires
            0 <= p,
    ;
}

/// A bit of a limbwise XOR is the XOR of the two bits.
proof fn lemma_gbit_sxor(a: Seq<u64>, b: Seq<u64>, p: int)
    requires
        a.len() == b.len(),
    ensures
        gbit(sxor(a, b), p) == (gbit(a, p) != gbit(b, p)),
{
    lemma_bit_ops_bv();
    if 0 <= p < 64 * a.len() {
        lemma_bit_index(p, a.len());
        let i = p / 64;
        let sh = (p % 64) as u64;
        let ai = a[i];
        let bi = b[i];
        assert(sxor(a, b)[i] == (ai ^ bi));
        assert((((ai ^ bi) >> sh) & 1u64) == (((ai >> sh) & 1u64) ^ ((bi >> sh) & 1u64)));
        assert(((ai >> sh) & 1u64) < 2 && ((bi >> sh) & 1u64) < 2);
    }
}

/// A bit of the one-bit left shift is the bit below it; bit 0 is clear.
proof fn lemma_gbit_sshl1(s: Seq<u64>, p: int)
    ensures
        gbit(sshl1(s), p) == (1 <= p < 64 * s.len() && gbit(s, p - 1)),
{
    lemma_bit_ops_bv();
    if 0 <= p < 64 * s.len() {
        lemma_bit_index(p, s.len());
        let i = p / 64;
        let sh = (p % 64) as u64;
        let si = s[i];
        if sh >= 1 {
            lemma_div_mod_64(i, p % 64 - 1);
            assert((p - 1) / 64 == i && (p - 1) % 64 == p % 64 - 1);
            if i == 0 {
                assert(sshl1(s)[i] == (si << 1u64));
                assert((((si << 1u64) >> sh) & 1u64) == ((si >> (sh - 1) as u64) & 1u64));
            } else {
                let c = s[i - 1] >> 63u64;
                assert(sshl1(s)[i] == ((si << 1u64) | c));
                assert(c < 2);
                assert(((((si << 1u64) | c) >> sh) & 1u64) == ((si >> (sh - 1) as u64) & 1u64));
            }
        } else {
            assert(p == 64 * i);
            if i == 0 {
                assert(sshl1(s)[0] == (s[0] << 1u64));
                let s0 = s[0];
                assert(((s0 << 1u64) >> 0u64) == (s0 << 1u64));
                assert(((s0 << 1u64) & 1u64) == 0u64);
            } else {
                let c = s[i - 1] >> 63u64;
                assert(sshl1(s)[i] == ((si << 1u64) | c));
                assert(c < 2);
                assert((((si << 1u64) | c) >> 0u64) == ((si << 1u64) | c));
                assert((((si << 1u64) | c) & 1u64) == c);
                assert((c & 1u64) == c);
                lemma_div_mod_64(i - 1, 63);
                assert((p - 1) / 64 == i - 1 && (p - 1) % 64 == 63);
            }
        }
    }
}

/// Widening with zero high limbs does not change any bit.
proof fn lemma_gbit_sext(a: Seq<u64>, p: int)
    ensures
        gbit(sext(a), p) == gbit(a, p),
{
    lemma_bit_ops_bv();
    let e = sext(a);
    if 0 <= p < 64 * e.len() {
        lemma_bit_index(p, e.len());
        let i = p / 64;
        let sh = (p % 64) as u64;
        if i < a.len() {
            assert(e[i] == a[i]);
        } else {
            assert(e[i] == szero(a.len())[i - a.len()]);
            assert(e[i] == 0u64);
            assert(((0u64 >> sh) & 1u64) == 0u64);
        }
    }
}

/// The zero sequence has no set bit.
proof fn lemma_gbit_szero(n: nat, p: int)
    ensures
        !gbit(szero(n), p),
{
    lemma_bit_ops_bv();
    if 0 <= p < 64 * n {
        lemma_bit_index(p, n);
        assert(szero(n)[p / 64] == 0u64);
        assert(((0u64 >> ((p % 64) as u64)) & 1u64) == 0u64);
    }
}

/// The partial products keep the doubled width.
proof fn lemma_pmul_prefix_len(a: Seq<u64>, b: Seq<u64>, i: nat)
    ensures
        pmul_prefix(a, b, i).len() == 2 * a.len(),
    decreases i,
{
    if i != 0 {
        lemma_pmul_prefix_len(a, b, (i - 1) as nat);
    }
}

/// Scanning one more bit of `b` shifts the convolution window by one and, if
/// the newly scanned bit is set, adds bit `q` of `a`.
proof fn lemma_conv_top_step(a: Seq<u64>, b: Seq<u64>, i: nat, q: int)
    requires
        1 <= i,
        a.len() == b.len(),
        a.len() >= 1,
    ensures
        conv_top_bit(a, b, i, q) == (conv_top_bit(a, b, (i - 1) as nat, q - 1) != (gbit(a, q)
            && bit_at(b, 64 * b.len() - i))),
{
    let w = 64 * a.len() as int;
    let s1 = conv_top_seq(a, b, i, q);
    let s2 = conv_top_seq(a, b, (i - 1) as nat, q - 1);
    let scan = bit_at(b, 64 * b.len() - i);
    assert forall|t: int| 0 <= t < w && t != q implies s1[t] == #[trigger] s2[t] by {
        assert(gbit_top(b, i, q - t) == gbit_top(b, (i - 1) as nat, q - 1 - t));
    }
    if 0 <= q < w {
        assert(s1[q] == (gbit(a, q) && scan));
        assert(!gbit_top(b, (i - 1) as nat, -1));
        assert(!s2[q]);
        assert(s1[q] == (s2[q] != (gbit(a, q) && scan)));
        lemma_xfold_update(s1, s2, q, gbit(a, q) && scan);
    } else {
        assert(s1 =~= s2);
        assert(!gbit(a, q));
    }
}

/// Bit `q` of the partial product after `i` scan steps is the convolution of
/// `a` with the top `i` bits of `b`.
proof fn lemma_pmul_prefix_bits(a: Seq<u64>, b: Seq<u64>, i: nat, q: int)
    requires
        a.len() == b.len(),
        a.len() >= 1,
        i <= 64 * a.len(),
    ensures
        gbit(pmul_prefix(a, b, i), q) == conv_top_bit(a, b, i, q),
    decreases i,
{
    let n = a.len();
    let w = 64 * n as int;
    if i == 0 {
        lemma_gbit_szero(2 * n, q);
        let s = conv_top_seq(a, b, 0, q);
        assert forall|t: int| 0 <= t < w implies !(#[trigger] s[t]) by {
            assert(!gbit_top(b, 0, q - t));
        }
        lemma_xfold_false_suffix(s, 0);
        assert(s.subrange(0, 0) =~= Seq::<bool>::empty());
    } else {
        let prev = pmul_prefix(a, b, (i - 1) as nat);
        lemma_pmul_prefix_len(a, b, (i - 1) as nat);
        lemma_pmul_prefix_bits(a, b, (i - 1) as nat, q - 1);
        lemma_gbit_sshl1(prev, q);
        if !(1 <= q < 2 * w) {
            let s = conv_top_seq(a, b, (i - 1) as nat, q - 1);
            assert forall|t: int| 0 <= t < w implies !(#[trigger] s[t]) by {
                assert(!(gbit(a, t) && gbit_top(b, (i - 1) as nat, q - 1 - t)));
            }
            lemma_xfold_false_suffix(s, 0);
            assert(s.subrange(0, 0) =~= Seq::<bool>::empty());
        }
        assert((1 <= q < 2 * w && conv_top_bit(a, b, (i - 1) as nat, q - 1)) == conv_top_bit(
            a,
            b,
            (i - 1) as nat,
            q - 1,
        ));
        lemma_conv_top_step(a, b, i, q);
        let scan = bit_at(b, 64 * b.len() - i);
        if scan {
            lemma_gbit_sxor(sshl1(prev), sext(a), q);
            lemma_gbit_sext(a, q);
            assert(pmul_prefix(a, b, i) == sxor(sshl1(prev), sext(a)));
        } else {
            assert(pmul_prefix(a, b, i) == sshl1(prev));
        }
    }
}

/// Bit `q` of the full product is the convolution of the bits of `a` and `b`.
proof fn lemma_pmul_bits(a: Seq<u64>, b: Seq<u64>, q: int)
    requires
        a.len() == b.len(),
        a.len() >= 1,
    ensures
        gbit(pmul(a, b), q) == conv_bit(a, b, q),
{
    let n = a.len();
    lemma_pmul_prefix_bits(a, b, (64 * n) as nat, q);
    assert(conv_top_seq(a, b, (64 * n) as nat, q) =~= conv_seq(a, b, q));
}

/// The convolution is symmetric in its two arguments.
proof fn lemma_conv_bit_symmetric(a: Seq<u64>, b: Seq<u64>, q: int)
    requires
        a.len() == b.len(),
        a.len() >= 1,
    ensures
        conv_bit(a, b, q) == conv_bit(b, a, q),
{
    let w = 64 * a.len() as int;
    let sa = conv_seq(a, b, q);
    let sb = conv_seq(b, a, q);
    if q < 0 {
        assert forall|t: int| 0 <= t < w implies !(#[trigger] sa[t]) by {
            assert(!gbit(b, q - t));
        }
        assert forall|t: int| 0 <= t < w implies !(#[trigger] sb[t]) by {
            assert(!gbit(a, q - t));
        }
        lemma_xfold_false_suffix(sa, 0);
        lemma_xfold_false_suffix(sb, 0);
        assert(sa.subrange(0, 0) =~= Seq::<bool>::empty());
        assert(sb.subrange(0, 0) =~= sa.subrange(0, 0));
    } else {
        let ea = Seq::new((q + 1) as nat, |j: int| gbit(a, j) && gbit(b, q - j));
        let eb = Seq::new((q + 1) as nat, |j: int| gbit(b, j) && gbit(a, q - j));
        if q + 1 <= w {
            lemma_xfold_false_suffix(sa, q + 1);
            assert(sa.subrange(0, q + 1) =~= ea);
            lemma_xfold_false_suffix(sb, q + 1);
            assert(sb.subrange(0, q + 1) =~= eb);
        } else {
            lemma_xfold_false_suffix(ea, w);
            assert(ea.subrange(0, w) =~= sa);
            lemma_xfold_false_suffix(eb, w);
            assert(eb.subrange(0, w) =~= sb);
        }
        lemma_xfold_reverse(ea);
        assert(srev(ea) =~= eb);
    }
}

/// A limb is determined by its 64 bits.
proof fn lemma_u64_from_bits(x: u64)
    by (bit_vector)
    ensures
        x == ((((x >> 0u64) & 1u64) << 0u64) | (((x >> 1u64) & 1u64) << 1u64) | (((x >> 2u64) & 1u64) << 2u64) | (((x >> 3u64) & 1u64) << 3u64) | (((x >> 4u64) & 1u64) << 4u64) | (((x >> 5u64) & 1u64) << 5u64) | (((x >> 6u64) & 1u64) << 6u64) | (((x >> 7u64) & 1u64) << 7u64) | (((x >> 8u64) & 1u64) << 8u64) | (((x >> 9u64) & 1u64) << 9u64) | (((x >> 10u64) & 1u64) << 10u64) | (((x >> 11u64) & 1u64) << 11u64) | (((x >> 12u64) & 1u64) << 12u64) | (((x >> 13u64) & 1u64) << 13u64) | (((x >> 14u64) & 1u64) << 14u64) | (((x >> 15u64) & 1u64) << 15u64) | (((x >> 16u64) & 1u64) << 16u64) | (((x >> 17u64) & 1u64) << 17u64) | (((x >> 18u64) & 1u64) << 18u64) | (((x >> 19u64) & 1u64) << 19u64) | (((x >> 20u64) & 1u64) << 20u64) | (((x >> 21u64) & 1u64) << 21u64) | (((x >> 22u64) & 1u64) << 22u64) | (((x >> 23u64) & 1u64) << 23u64) | (((x >> 24u64) & 1u64) << 24u64) | (((x >> 25u64) & 1u64) << 25u64) | (((x >> 26u64) & 1u64) << 26u64) | (((x >> 27u64) & 1u64) << 27u64) | (((x >> 28u64) & 1u64) << 28u64) | (((x >> 29u64) & 1u64) << 29u64) | (((x >> 30u64) & 1u64) << 30u64) | (((x >> 31u64) & 1u64) << 31u64) | (((x >> 32u64) & 1u64) << 32u64) | (((x >> 33u64) & 1u64) << 33u64) | (((x >> 34u64) & 1u64) << 34u64) | (((x >> 35u64) & 1u64) << 35u64) | (((x >> 36u64) & 1u64) << 36u64) | (((x >> 37u64) & 1u64) << 37u64) | (((x >> 38u64) & 1u64) << 38u64) | (((x >> 39u64) & 1u64) << 39u64) | (((x >> 40u64) & 1u64) << 40u64) | (((x >> 41u64) & 1u64) << 41u64) | (((x >> 42u64) & 1u64) << 42u64) | (((x >> 43u64) & 1u64) << 43u64) | (((x >> 44u64) & 1u64) << 44u64) | (((x >> 45u64) & 1u64) << 45u64) | (((x >> 46u64) & 1u64) << 46u64) | (((x >> 47u64) & 1u64) << 47u64) | (((x >> 48u64) & 1u64) << 48u64) | (((x >> 49u64) & 1u64) << 49u64) | (((x >> 50u64) & 1u64) << 50u64) | (((x >> 51u64) & 1u64) << 51u64) | (((x >> 52u64) & 1u64) << 52u64) | (((x >> 53u64) & 1u64) << 53u64) | (((x >> 54u64) & 1u64) << 54u64) | (((x >> 55u64) & 1u64) << 55u64) | (((x >> 56u64) & 1u64) << 56u64) | (((x >> 57u64) & 1u64) << 57u64) | (((x >> 58u64) & 1u64) << 58u64) | (((x >> 59u64) & 1u64) << 59u64) | (((x >> 60u64) & 1u64) << 60u64) | (((x >> 61u64) & 1u64) << 61u64) | (((x >> 62u64) & 1u64) << 62u64) | (((x >> 63u64) & 1u64) << 63u64)),
{
}

/// Two limb sequences with the same bits everywhere are equal.
proof fn lemma_seq_bits_equal(x: Seq<u64>, y: Seq<u64>)
    requires
        x.len() == y.len(),
        forall|p: int| #[trigger] gbit(x, p) == gbit(y, p),
    ensures
        x == y,
{
    lemma_bit_ops_bv();
    assert forall|i: int| 0 <= i < x.len() implies x[i] == y[i] by {
        let xi = x[i];
        let yi = y[i];
        lemma_u64_from_bits(xi);
        lemma_u64_from_bits(yi);
        assert forall|sh: u64| sh < 64 implies ((xi >> sh) & 1u64) == ((yi >> sh) & 1u64) by {
            let p = 64 * i + sh as int;
            lemma_div_mod_64(i, sh as int);
            assert(0 <= p < 64 * x.len());
            assert(bit_at(x, p) == (((xi >> sh) & 1u64) == 1u64));
            assert(bit_at(y, p) == (((yi >> sh) & 1u64) == 1u64));
            assert(gbit(x, p) == gbit(y, p));
            assert(((xi >> sh) & 1u64) < 2 && ((yi >> sh) & 1u64) < 2);
        }
    }
    assert(x =~= y);
}

/// Multiplication of binary polynomials is commutative: the unreduced
/// products `a * b` and `b * a` are the same limb sequence.
pub proof fn lemma_pmul_commutative(a: Seq<u64>, b: Seq<u64>)
    requires
        a.len() == b.len(),
        a.len() >= 1,
    ensures
        pmul(a, b) == pmul(b, a),
{
    lemma_pmul_prefix_len(a, b, (64 * a.len()) as nat);
    lemma_pmul_prefix_len(b, a, (64 * b.len()) as nat);
    assert forall|q: int| #[trigger] gbit(pmul(a, b), q) == gbit(pmul(b, a), q) by {
        lemma_pmul_bits(a, b, q);
        lemma_pmul_bits(b, a, q);
        lemma_conv_bit_symmetric(a, b, q);
    }
    lemma_seq_bits_equal(pmul(a, b), pmul(b, a));
}

/// Multiplication in GF(2^128) is commutative.
pub proof fn lemma_mul128_commutative(a: Seq<u64>, b: Seq<u64>)
    requires
        a.len() == 2,
        b.len() == 2,
    ensures
        fmul128(a, b) == fmul128(b, a),
{
    lemma_pmul_commutative(a, b);
}

/// Multiplication in GF(2^256) is commutative.
pub proof fn lemma_mul256_commutative(a: Seq<u64>, b: Seq<u64>)
    requires
        a.len() == 4,
        b.len() == 4,
    ensures
        fmul256(a, b) == fmul256(b, a),
{
    lemma_pmul_commutative(a, b);
}

} // verus!
