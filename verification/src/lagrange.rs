//! Shamir-style threshold sharing over a binary field.
//!
//! `split` evaluates a random polynomial with constant term equal to the
//! secret at the non-zero points `1..=count`; `reconstruct` interpolates the
//! unique polynomial through the supplied shares at zero by the Lagrange
//! formula. Both are exact functions of their inputs on the limb views, up to
//! the random coefficients that `split` draws.

use vstd::prelude::*;

use crate::field::Field;
use crate::field::sinj;
use crate::field::szero;

verus! {

/// Horner evaluation of the coefficient views `c` (low order first) at the
/// point `x`: the zero-degree polynomial returns its constant term, and each
/// further coefficient contributes `rest * x + c[0]`.
pub open spec fn sp_eval<F: Field>(c: Seq<Seq<u64>>, x: Seq<u64>) -> Seq<u64>
    decreases c.len(),
{
    if c.len() <= 1 {
        if c.len() == 1 {
            c[0]
        } else {
            F::sp_zero()
        }
    } else {
        F::sp_add(F::sp_mul(sp_eval::<F>(c.subrange(1, c.len() as int), x), x), c[0])
    }
}

/// A polynomial with coefficients over a field, low order first.
pub struct Polynomial<F> {
    pub coefficients: Vec<F>,
}

impl<F: Field> Polynomial<F> {
    /// The limb views of the coefficients.
    pub open spec fn cview(self) -> Seq<Seq<u64>> {
        self.coefficients@.map_values(|c: F| c@)
    }

    /// A polynomial of the given degree whose constant term is `zero_value`
    /// and whose other coefficients are drawn from the field's uniform
    /// sampler.
    pub fn random(zero_value: F, degree: usize) -> (r: Self)
        requires
            degree < usize::MAX,
        ensures
            r.coefficients@.len() == degree + 1,
            r.cview()[0] == zero_value@,
    {
        let mut coefficients: Vec<F> = Vec::new();
        coefficients.push(zero_value);
        let mut i: usize = 0;
        while i < degree
            invariant
                i <= degree,
                degree < usize::MAX,
                coefficients@.len() == i + 1,
                coefficients@[0] == zero_value,
            decreases degree - i,
        {
            coefficients.push(F::random());
            i += 1;
        }
        let r = Polynomial { coefficients };
        proof {
            assert(r.cview()[0] == zero_value@);
        }
        r
    }

    /// Evaluate this polynomial at `at` by Horner's rule.
    pub fn evaluate(&self, at: F) -> (r: F)
        requires
            self.coefficients.len() >= 1,
        ensures
            r@ == sp_eval::<F>(self.cview(), at@),
    {
        let n = self.coefficients.len();
        let mut acc: F = self.coefficients[n - 1];
        let mut i: usize = n - 1;
        proof {
            assert(self.cview().subrange(n - 1, n as int).len() == 1);
            assert(self.cview().subrange(n - 1, n as int)[0] == self.cview()[n - 1]);
        }
        while i > 0
            invariant
                i < n,
                n == self.coefficients.len(),
                n >= 1,
                acc@ == sp_eval::<F>(self.cview().subrange(i as int, n as int), at@),
            decreases i,
        {
            i -= 1;
            acc = acc.mul(at).add(self.coefficients[i]);
            proof {
                let cs = self.cview();
                assert(cs.subrange(i as int, n as int).subrange(
                    1,
                    cs.subrange(i as int, n as int).len() as int,
                ) =~= cs.subrange(i as int + 1, n as int));
                assert(cs.subrange(i as int, n as int)[0] == cs[i as int]);
            }
        }
        proof {
            assert(self.cview().subrange(0, n as int) =~= self.cview());
        }
        acc
    }
}

/// The index of a share: a wrapper over a small integer. Share `i` is the
/// evaluation at the field point `i + 1`, so no share sits at zero.
#[derive(Clone, Copy, Debug, PartialEq, Eq, Structural)]
pub struct Index(pub u8);

impl Index {
    /// The non-zero field point this index stands for.
    pub fn to_field<F: Field>(self) -> (r: F)
        ensures
            r@ == F::sp_from_u64((self.0 + 1) as u64),
    {
        F::from_u64(self.0 as u64 + 1)
    }
}

impl From<u8> for Index {
    fn from(x: u8) -> (r: Self) {
        Index(x)
    }
}

impl vstd::std_specs::convert::FromSpecImpl<u8> for Index {
    open spec fn obeys_from_spec() -> bool {
        true
    }

    open spec fn from_spec(x: u8) -> Index {
        Index(x)
    }
}

impl From<Index> for u8 {
    fn from(x: Index) -> (r: Self) {
        x.0
    }
}

impl vstd::std_specs::convert::FromSpecImpl<Index> for u8 {
    open spec fn obeys_from_spec() -> bool {
        true
    }

    open spec fn from_spec(x: Index) -> u8 {
        x.0
    }
}

/// Index round trip: converting a byte to an `Index` and back returns it.
pub proof fn lemma_index_round_trip(i: u8)
    ensures
        <u8 as vstd::std_specs::convert::FromSpec<Index>>::from_spec(
            <Index as vstd::std_specs::convert::FromSpec<u8>>::from_spec(i),
        ) == i,
{
}

/// Distinct share indices stand for distinct, non-zero field points of width
/// `n`: the injection of `i + 1` has a non-zero low limb, and two distinct
/// indices inject to sequences that differ at limb 0.
pub proof fn lemma_index_points_distinct(a: u8, b: u8, n: nat)
    requires
        n >= 1,
        a != b,
    ensures
        sinj((a + 1) as u64, n) != sinj((b + 1) as u64, n),
        sinj((a + 1) as u64, n) != szero(n),
{
    assert(sinj((a + 1) as u64, n)[0] == (a + 1) as u64);
    assert(sinj((b + 1) as u64, n)[0] == (b + 1) as u64);
    assert(szero(n)[0] == 0u64);
}

/// A sharing configuration: a threshold and a total share count, with the
/// invariant `1 <= threshold <= count`.
#[derive(Clone, Copy, Debug, PartialEq, Eq, Structural)]
pub struct Sharing {
    pub threshold: u8,
    pub count: u8,
}

impl Sharing {
    /// The configuration invariant: at least one share is needed, and no more
    /// than are produced.
    pub open spec fn wf(self) -> bool {
        1 <= self.threshold <= self.count
    }

    /// Create a new sharing from a threshold and a count.
    pub fn new(threshold: u8, count: u8) -> (r: Self)
        requires
            1 <= threshold <= count,
        ensures
            r == (Sharing { threshold, count }),
            r.wf(),
    {
        Sharing { threshold, count }
    }
}

/// Split a secret into `sharing.count` shares: the evaluations of a random
/// polynomial of degree `sharing.threshold - 1`, with constant term equal to
/// the secret, at the field points `1..=count`. Each run draws fresh random
/// coefficients, so only their existence is promised; share `i` is pinned to
/// the evaluation of those coefficients at the injected point `i + 1`.
pub fn split<F: Field>(secret: F, sharing: Sharing) -> (r: Vec<(Index, F)>)
    requires
        sharing.wf(),
    ensures
        r@.len() == sharing.count as int,
        forall|i: int| 0 <= i < r@.len() ==> (#[trigger] r@[i]).0 == (Index(i as u8)),
        exists|c: Seq<Seq<u64>>|
            c.len() == sharing.threshold as int && c[0] == secret@ && (forall|i: int|
                0 <= i < r@.len() ==> (#[trigger] r@[i]).1@ == sp_eval::<F>(
                    c,
                    F::sp_from_u64((i + 1) as u64),
                )),
{
    let poly = Polynomial::random(secret, (sharing.threshold - 1) as usize);
    let ghost c = poly.cview();
    let mut acc: Vec<(Index, F)> = Vec::new();
    let mut i: u8 = 0;
    while i < sharing.count
        invariant
            i <= sharing.count,
            sharing.wf(),
            poly.coefficients@.len() == sharing.threshold as int,
            c == poly.cview(),
            c.len() == sharing.threshold as int,
            c[0] == secret@,
            acc@.len() == i as int,
            forall|j: int|
                0 <= j < i as int ==> (#[trigger] acc@[j]).0 == (Index(j as u8)) && acc@[j].1@
                    == sp_eval::<F>(c, F::sp_from_u64((j + 1) as u64)),
        decreases sharing.count - i,
    {
        let index = Index(i);
        let f_index = poly.evaluate(index.to_field());
        acc.push((index, f_index));
        i += 1;
    }
    proof {
        assert(c.len() == sharing.threshold as int && c[0] == secret@ && (forall|i: int|
            0 <= i < acc@.len() ==> (#[trigger] acc@[i]).1@ == sp_eval::<F>(
                c,
                F::sp_from_u64((i + 1) as u64),
            )));
    }
    acc
}

/// The product of the first `k` points other than point `j`: the running
/// numerator of the Lagrange basis coefficient of share `j` at zero.
pub open spec fn sp_lag_num<F: Field>(points: Seq<Seq<u64>>, j: int, k: nat) -> Seq<u64>
    decreases k,
{
    if k == 0 {
        F::sp_one()
    } else {
        let p = sp_lag_num::<F>(points, j, (k - 1) as nat);
        if k - 1 == j {
            p
        } else {
            F::sp_mul(p, points[k - 1])
        }
    }
}

/// The running denominator: the product over the first `k` points `i != j`
/// of `points[i] - points[j]`.
pub open spec fn sp_lag_den<F: Field>(points: Seq<Seq<u64>>, j: int, k: nat) -> Seq<u64>
    decreases k,
{
    if k == 0 {
        F::sp_one()
    } else {
        let p = sp_lag_den::<F>(points, j, (k - 1) as nat);
        if k - 1 == j {
            p
        } else {
            F::sp_mul(p, F::sp_sub(points[k - 1], points[j]))
        }
    }
}

/// The Lagrange basis coefficient of share `j` at zero:
/// `prod_{i != j} points[i] * (prod_{i != j} (points[i] - points[j]))^-1`.
/// With a duplicated point the denominator is zero and the value meaningless;
/// the caller must supply distinct indices.
pub open spec fn sp_lagrange_coefficient<F: Field>(points: Seq<Seq<u64>>, j: int) -> Seq<u64> {
    F::sp_mul(
        sp_lag_num::<F>(points, j, points.len()),
        F::sp_inv(sp_lag_den::<F>(points, j, points.len())),
    )
}

/// The Lagrange interpolation at zero of the first `k` shares: the sum of
/// each height weighted by its basis coefficient.
pub open spec fn sp_interpolate<F: Field>(
    points: Seq<Seq<u64>>,
    heights: Seq<Seq<u64>>,
    k: nat,
) -> Seq<u64>
    decreases k,
{
    if k == 0 {
        F::sp_zero()
    } else {
        F::sp_add(
            sp_interpolate::<F>(points, heights, (k - 1) as nat),
            F::sp_mul(sp_lagrange_coefficient::<F>(points, k - 1 as int), heights[k - 1]),
        )
    }
}

/// The field points of a share list: each index injected as `index + 1`.
pub open spec fn sp_points_of<F: Field>(shares: Seq<(Index, F)>) -> Seq<Seq<u64>> {
    shares.map_values(|s: (Index, F)| F::sp_from_u64((s.0.0 + 1) as u64))
}

/// The heights of a share list: the limb views of the evaluations.
pub open spec fn sp_heights_of<F: Field>(shares: Seq<(Index, F)>) -> Seq<Seq<u64>> {
    shares.map_values(|s: (Index, F)| s.1@)
}

/// What `reconstruct` returns: the Lagrange interpolation at zero of the
/// shares' points and heights. A pure function of the share list.
pub open spec fn sp_reconstruct<F: Field>(shares: Seq<(Index, F)>) -> Seq<u64> {
    sp_interpolate::<F>(sp_points_of::<F>(shares), sp_heights_of::<F>(shares), shares.len())
}

/// The points a polynomial was evaluated at, with the matching evaluations.
pub struct EvaluationPoints<F> {
    pub points: Vec<F>,
    pub heights: Vec<F>,
}

impl<F: Field> EvaluationPoints<F> {
    /// The limb views of the points.
    pub open spec fn pview(self) -> Seq<Seq<u64>> {
        self.points@.map_values(|p: F| p@)
    }

    /// The limb views of the heights.
    pub open spec fn hview(self) -> Seq<Seq<u64>> {
        self.heights@.map_values(|p: F| p@)
    }

    /// The Lagrange basis coefficient of point `j` at zero.
    pub fn lagrange_coefficient(&self, j: usize) -> (r: F)
        requires
            j < self.points.len(),
        ensures
            r@ == sp_lagrange_coefficient::<F>(self.pview(), j as int),
    {
        let mut top = F::one();
        let mut bot = F::one();
        let a_j = self.points[j];
        let mut i: usize = 0;
        while i < self.points.len()
            invariant
                i <= self.points.len(),
                j < self.points.len(),
                a_j == self.points@[j as int],
                top@ == sp_lag_num::<F>(self.pview(), j as int, i as nat),
                bot@ == sp_lag_den::<F>(self.pview(), j as int, i as nat),
            decreases self.points.len() - i,
        {
            if i != j {
                let a_i = self.points[i];
                top = top.mul(a_i);
                bot = bot.mul(a_i.sub(a_j));
            }
            i += 1;
        }
        top.mul(bot.inverse())
    }

    /// Interpolate the polynomial these points determine at zero.
    pub fn reconstruct_zero(&self) -> (r: F)
        requires
            self.heights.len() == self.points.len(),
        ensures
            r@ == sp_interpolate::<F>(self.pview(), self.hview(), self.points@.len() as nat),
    {
        let mut out = F::zero();
        let mut j: usize = 0;
        while j < self.heights.len()
            invariant
                j <= self.heights.len(),
                self.heights.len() == self.points.len(),
                out@ == sp_interpolate::<F>(self.pview(), self.hview(), j as nat),
            decreases self.heights.len() - j,
        {
            let f_j = self.heights[j];
            out.add_assign(self.lagrange_coefficient(j).mul(f_j));
            j += 1;
        }
        out
    }

    /// The points and heights of a share list: share `i` sits at the field
    /// point `index + 1` and carries its evaluation.
    pub fn from_shares(shares: &[(Index, F)]) -> (r: Self)
        ensures
            r.pview() == sp_points_of::<F>(shares@),
            r.hview() == sp_heights_of::<F>(shares@),
            r.points@.len() == shares@.len(),
            r.heights@.len() == shares@.len(),
    {
        let n = shares.len();
        let mut points: Vec<F> = Vec::new();
        let mut heights: Vec<F> = Vec::new();
        let mut i: usize = 0;
        while i < n
            invariant
                i <= n,
                n == shares@.len(),
                points@.len() == i,
                heights@.len() == i,
                forall|t: int|
                    0 <= t < i as int ==> (#[trigger] points@[t])@ == F::sp_from_u64(
                        (shares@[t].0.0 + 1) as u64,
                    ),
                forall|t: int| 0 <= t < i as int ==> (#[trigger] heights@[t]) == shares@[t].1,
            decreases n - i,
        {
            let share = shares[i];
            points.push(share.0.to_field());
            heights.push(share.1);
            i += 1;
        }
        let r = EvaluationPoints { points, heights };
        proof {
            assert(r.pview() =~= sp_points_of::<F>(shares@));
            assert(r.hview() =~= sp_heights_of::<F>(shares@));
        }
        r
    }
}

/// Reconstruct a secret from a list of shares with distinct indices: the
/// Lagrange interpolation of the shares at zero. The result is a pure
/// function of the share list; with fewer shares than the threshold used at
/// split time it is a valid field element that is almost surely not the
/// secret, and this function does not detect that condition.
pub fn reconstruct<F: Field>(shares: &[(Index, F)]) -> (r: F)
    ensures
        r@ == sp_reconstruct::<F>(shares@),
{
    EvaluationPoints::from_shares(shares).reconstruct_zero()
}

} // verus!
