//! Circular harmonics: a truncated real Fourier series over an angle.
//!
//! The coefficients are laid out by band:
//!
//! ```text
//! band:   0 |   1    |   2    |   3    | ...
//! terms:  0 | [1, 2] | [3, 4] | [5, 6] | ...
//! ```
//!
//! Term 0 is the constant term. Band `n >= 1` owns the cosine term `2n - 1`
//! and the sine term `2n`.
use crate::fold::{fold_requires, folds_to, lemma_fold_step, lemma_fold_unchanged};
use vstd::prelude::*;

verus! {

/// One function of the circular basis.
#[derive(Clone, Copy, Debug, PartialEq, Eq, Structural)]
pub enum BasisTerm {
    /// The constant function of band 0.
    Constant,
    /// The cosine of `band` times the angle, `band >= 1`.
    Cosine { band: usize },
    /// The sine of `band` times the angle, `band >= 1`.
    Sine { band: usize },
}

/// The band that term `term` belongs to.
pub open spec fn spec_term_to_band(term: int) -> int {
    (term + 1) / 2
}

/// The basis function that term `term` stands for.
pub open spec fn spec_basis_term(term: int) -> BasisTerm {
    if term == 0 {
        BasisTerm::Constant
    } else if term % 2 == 1 {
        BasisTerm::Cosine { band: spec_term_to_band(term) as usize }
    } else {
        BasisTerm::Sine { band: spec_term_to_band(term) as usize }
    }
}

/// The number of coefficients of a series with `band_count` bands.
pub open spec fn spec_coeff_count(band_count: int) -> int {
    2 * band_count - 1
}

/// The number of bands of a series with `coeff_count` coefficients.
pub open spec fn spec_band_count(coeff_count: int) -> int {
    (coeff_count + 1) / 2
}

/// Maps a term index to the band it belongs to. Defined for every index:
/// the sum is formed without adding one to `term`.
pub fn term_to_band(term: usize) -> (band: usize)
    ensures
        band == spec_term_to_band(term as int),
{
    term / 2 + term % 2
}

/// Classifies a term index: the constant term, or the cosine or sine term of
/// its band.
pub fn basis_term(term: usize) -> (t: BasisTerm)
    ensures
        t == spec_basis_term(term as int),
{
    let band: usize = term_to_band(term);
    if term == 0 {
        BasisTerm::Constant
    } else if term % 2 != 0 {
        BasisTerm::Cosine { band }
    } else {
        BasisTerm::Sine { band }
    }
}

/// The two term indices of band `band`: its cosine term, then its sine term.
pub fn band_terms(band: usize) -> (terms: (usize, usize))
    requires
        band >= 1,
        2 * band <= usize::MAX,
    ensures
        terms.0 == 2 * band - 1,
        terms.1 == 2 * band,
{
    (band * 2 - 1, band * 2)
}

/// The two terms of a band are the cosine and the sine of that band, and no
/// other term belongs to it.
pub proof fn lemma_band_terms(band: int)
    requires
        1 <= band,
        2 * band <= usize::MAX,
    ensures
        spec_basis_term(2 * band - 1) == (BasisTerm::Cosine { band: band as usize }),
        spec_basis_term(2 * band) == (BasisTerm::Sine { band: band as usize }),
        forall|term: int|
            spec_term_to_band(term) == band <==> term == 2 * band - 1 || term == 2 * band,
{
}

/// The band count undoes the coefficient count: a series built for `b` bands
/// has `2b - 1` coefficients, and a series of `2b - 1` coefficients has `b`
/// bands.
pub proof fn lemma_band_count_inverts_coeff_count(band_count: int)
    requires
        band_count >= 1,
    ensures
        spec_coeff_count(band_count) >= 1,
        spec_coeff_count(band_count) % 2 == 1,
        spec_band_count(spec_coeff_count(band_count)) == band_count,
{
}

/// The cosine and sine coefficients of band `n >= 1` in `coeffs`.
pub open spec fn spec_band<T>(coeffs: Seq<T>, n: int) -> (T, T) {
    (coeffs[2 * n - 1], coeffs[2 * n])
}

/// Coefficient `i` of `coeffs`, or `zero` where `coeffs` has no such term.
pub open spec fn spec_padded<T>(coeffs: Seq<T>, i: int, zero: T) -> T {
    if 0 <= i < coeffs.len() {
        coeffs[i]
    } else {
        zero
    }
}

/// What an evaluation runs over: every coefficient beside the basis function
/// of its term, term 0 first.
pub open spec fn spec_terms<T>(coeffs: Seq<T>) -> Seq<(BasisTerm, T)> {
    Seq::new(coeffs.len(), |i: int| (spec_basis_term(i), coeffs[i]))
}

/// `to` is what projecting onto `band_count` bands with `coeff` can give:
/// coefficient `i` is a value that `coeff` returns for the basis function of
/// term `i`.
pub open spec fn projects_to<T, F: Fn(BasisTerm) -> T>(coeff: F, band_count: int, to: Seq<T>) -> bool {
    &&& to.len() == spec_coeff_count(band_count)
    &&& forall|i: int| 0 <= i < to.len() ==> coeff.ensures((spec_basis_term(i),), #[trigger] to[i])
}

/// `to` is what rotating `from` with `turn` can give: the same number of
/// coefficients, band 0 untouched, and the pair of every band `n >= 1` a
/// value that `turn` returns for `n` and the pair of `from`.
pub open spec fn rotates_to<T, F: Fn(usize, T, T) -> (T, T)>(turn: F, from: Seq<T>, to: Seq<T>) -> bool {
    &&& to.len() == from.len()
    &&& to[0] == from[0]
    &&& forall|n: int|
        1 <= n < spec_band_count(from.len() as int) ==> turn.ensures(
            (n as usize, spec_band(from, n).0, spec_band(from, n).1),
            #[trigger] spec_band(to, n),
        )
}

/// `to` is what combining `left` and `right` term by term with `op` can
/// give: as long as the longer of the two, and coefficient `i` a value that
/// `op` returns for coefficient `i` of each, `zero` standing in where the
/// shorter one has ended.
pub open spec fn combines_to<T, F: Fn(T, T) -> T>(
    op: F,
    left: Seq<T>,
    right: Seq<T>,
    zero: T,
    to: Seq<T>,
) -> bool {
    &&& to.len() == if left.len() >= right.len() {
        left.len()
    } else {
        right.len()
    }
    &&& forall|i: int|
        0 <= i < to.len() ==> op.ensures(
            (spec_padded(left, i, zero), spec_padded(right, i, zero)),
            #[trigger] to[i],
        )
}

/// Evaluating a series whose coefficients are all `zero` gives back the
/// starting value, for every `step` that leaves the running value as it is
/// when the coefficient is `zero`.
pub proof fn lemma_evaluate_zero<T, F: Fn(T, (BasisTerm, T)) -> T>(
    step: F,
    init: T,
    coeffs: Seq<T>,
    zero: T,
    out: T,
)
    requires
        forall|i: int| 0 <= i < coeffs.len() ==> coeffs[i] == zero,
        forall|acc: T, term: BasisTerm, next: T| #[trigger]
            step.ensures((acc, (term, zero)), next) ==> next == acc,
        folds_to(step, init, spec_terms(coeffs), out),
    ensures
        out == init,
{
    lemma_fold_unchanged(step, init, spec_terms(coeffs), out);
}

/// Rotating with a `turn` that hands every pair back unchanged changes
/// nothing.
pub proof fn lemma_rotate_identity<T, F: Fn(usize, T, T) -> (T, T)>(
    turn: F,
    from: Seq<T>,
    to: Seq<T>,
)
    requires
        from.len() % 2 == 1,
        rotates_to(turn, from, to),
        forall|n: usize, x: T, y: T, pair: (T, T)| #[trigger]
            turn.ensures((n, x, y), pair) ==> pair == (x, y),
    ensures
        to == from,
{
    assert forall|i: int| 0 <= i < from.len() implies to[i] == from[i] by {
        if i > 0 {
            let n: int = spec_term_to_band(i);
            assert(spec_band(to, n) == spec_band(from, n));
        }
    }
}

/// Two rotations in a row are one rotation: if `both` does to the pair of
/// every band what `first` and then `second` do to it, then rotating with
/// `first` and rotating the result with `second` is a rotation with `both`.
pub proof fn lemma_rotate_twice<
    T,
    F: Fn(usize, T, T) -> (T, T),
    G: Fn(usize, T, T) -> (T, T),
    H: Fn(usize, T, T) -> (T, T),
>(first: F, second: G, both: H, from: Seq<T>, mid: Seq<T>, to: Seq<T>)
    requires
        rotates_to(first, from, mid),
        rotates_to(second, mid, to),
        forall|n: usize, x: T, y: T, m: (T, T), pair: (T, T)|
            #[trigger] first.ensures((n, x, y), m) && #[trigger] second.ensures(
                (n, m.0, m.1),
                pair,
            ) ==> both.ensures((n, x, y), pair),
    ensures
        rotates_to(both, from, to),
{
    assert forall|n: int| 1 <= n < spec_band_count(from.len() as int) implies both.ensures(
        (n as usize, spec_band(from, n).0, spec_band(from, n).1),
        #[trigger] spec_band(to, n),
    ) by {
        let m: (T, T) = spec_band(mid, n);
        assert(first.ensures((n as usize, spec_band(from, n).0, spec_band(from, n).1), m));
        assert(second.ensures((n as usize, m.0, m.1), spec_band(to, n)));
    }
}

/// Combining with `plus` and then with `minus` against the same series gives
/// back the first series, padded with `zero` to the common length, whenever
/// `minus` undoes `plus` on every pair of scalars.
pub proof fn lemma_combine_undoes<T, F: Fn(T, T) -> T, G: Fn(T, T) -> T>(
    plus: F,
    minus: G,
    left: Seq<T>,
    right: Seq<T>,
    zero: T,
    sum: Seq<T>,
    back: Seq<T>,
)
    requires
        combines_to(plus, left, right, zero, sum),
        combines_to(minus, sum, right, zero, back),
        forall|x: T, y: T, s: T, d: T|
            #[trigger] plus.ensures((x, y), s) && #[trigger] minus.ensures((s, y), d) ==> d == x,
    ensures
        back.len() == sum.len(),
        forall|i: int| 0 <= i < back.len() ==> back[i] == spec_padded(left, i, zero),
{
    assert forall|i: int| 0 <= i < back.len() implies back[i] == spec_padded(left, i, zero) by {
        assert(plus.ensures(
            (spec_padded(left, i, zero), spec_padded(right, i, zero)),
            sum[i],
        ));
        assert(minus.ensures((spec_padded(sum, i, zero), spec_padded(right, i, zero)), back[i]));
    }
}

/// A truncated Fourier series over an angle, held as its coefficients.
///
/// The number of coefficients is odd: one for band 0 and two for every
/// further band. The band count is derived from it and never stored.
pub struct CircularHarmonics<T> {
    coeffs: Vec<T>,
}

impl<T> View for CircularHarmonics<T> {
    type V = Seq<T>;

    /// The coefficients, term 0 first.
    closed spec fn view(&self) -> Seq<T> {
        self.coeffs@
    }
}

impl<T> CircularHarmonics<T> {
    #[verifier::type_invariant]
    spec fn coeff_count_is_odd(&self) -> bool {
        self.coeffs@.len() % 2 == 1
    }

    /// The number of bands of this series.
    pub open spec fn spec_band_count(&self) -> int {
        spec_band_count(self@.len() as int)
    }
}

impl<T: Copy> CircularHarmonics<T> {

    /// A series of `band_count` bands whose coefficients are all `zero`.
    pub fn new(band_count: usize, zero: T) -> (ch: Self)
        requires
            band_count >= 1,
            spec_coeff_count(band_count as int) <= usize::MAX,
        ensures
            ch@.len() == spec_coeff_count(band_count as int),
            ch.spec_band_count() == band_count,
            forall|i: int| 0 <= i < ch@.len() ==> ch@[i] == zero,
    {
        let coeff_count: usize = band_count - 1 + band_count;
        let mut coeffs: Vec<T> = Vec::with_capacity(coeff_count);
        while coeffs.len() < coeff_count
            invariant
                coeffs@.len() <= coeff_count,
                forall|i: int| 0 <= i < coeffs@.len() ==> coeffs@[i] == zero,
            decreases coeff_count - coeffs@.len(),
        {
            coeffs.push(zero);
        }
        CircularHarmonics { coeffs }
    }

    /// Takes the coefficients as they are. Their number must be odd; a
    /// single coefficient is a series of band 0 alone.
    pub fn from_coeffs(coeffs: Vec<T>) -> (ch: Self)
        requires
            coeffs@.len() % 2 == 1,
        ensures
            ch@ == coeffs@,
    {
        CircularHarmonics { coeffs }
    }

    /// The number of coefficients, which is odd.
    pub fn coeff_count(&self) -> (count: usize)
        ensures
            count == self@.len(),
            count % 2 == 1,
    {
        proof {
            use_type_invariant(self);
        }
        self.coeffs.len()
    }

    /// The number of bands `b`, for which the series has `2b - 1`
    /// coefficients.
    pub fn band_count(&self) -> (count: usize)
        ensures
            count == self.spec_band_count(),
            count >= 1,
            self@.len() == spec_coeff_count(count as int),
    {
        proof {
            use_type_invariant(self);
        }
        let len: usize = self.coeffs.len();
        len / 2 + len % 2
    }

    /// The cosine and sine coefficients of band `n`. Band 0 has a single
    /// coefficient and is read with [`Self::band0`].
    pub fn band(&self, n: usize) -> (pair: (T, T))
        requires
            1 <= n < self.spec_band_count(),
        ensures
            pair.0 == self@[2 * n - 1],
            pair.1 == self@[2 * n],
    {
        proof {
            use_type_invariant(self);
            assert(self.coeffs@.len() == self.coeffs.len());
        }
        let (cosine, sine) = band_terms(n);
        (self.coeffs[cosine], self.coeffs[sine])
    }

    /// The coefficient of band 0.
    pub fn band0(&self) -> (v: T)
        ensures
            self@.len() >= 1,
            v == self@[0],
    {
        proof {
            use_type_invariant(self);
        }
        self.coeffs[0]
    }

    /// Overwrites the cosine and sine coefficients of band `n` and leaves
    /// every other coefficient as it was. Band 0 is written with
    /// [`Self::set_band0`].
    pub fn set_band(&mut self, n: usize, a: T, b: T)
        requires
            1 <= n < old(self).spec_band_count(),
        ensures
            final(self)@ == old(self)@.update(2 * n - 1, a).update(2 * n, b),
    {
        proof {
            use_type_invariant(&*self);
            assert(self.coeffs@.len() == self.coeffs.len());
        }
        let (cosine, sine) = band_terms(n);
        self.coeffs[cosine] = a;
        self.coeffs[sine] = b;
    }

    /// Overwrites the coefficient of band 0 and leaves the others as they
    /// were.
    pub fn set_band0(&mut self, v: T)
        ensures
            old(self)@.len() >= 1,
            final(self)@ == old(self)@.update(0, v),
    {
        proof {
            use_type_invariant(&*self);
        }
        self.coeffs[0] = v;
    }

    /// Projects a signal onto `band_count` bands: coefficient `i` is what
    /// `coeff` returns for the basis function of term `i`. `coeff` is called
    /// once for each term, term 0 first.
    pub fn from_projection<F: Fn(BasisTerm) -> T>(band_count: usize, coeff: F) -> (ch: Self)
        requires
            band_count >= 1,
            spec_coeff_count(band_count as int) <= usize::MAX,
            forall|i: int|
                0 <= i < spec_coeff_count(band_count as int) ==> coeff.requires(
                    (#[trigger] spec_basis_term(i),),
                ),
        ensures
            projects_to(coeff, band_count as int, ch@),
            ch.spec_band_count() == band_count,
    {
        let coeff_count: usize = band_count - 1 + band_count;
        let mut coeffs: Vec<T> = Vec::with_capacity(coeff_count);
        while coeffs.len() < coeff_count
            invariant
                coeffs@.len() <= coeff_count,
                coeff_count == spec_coeff_count(band_count as int),
                forall|i: int|
                    0 <= i < coeff_count ==> coeff.requires((#[trigger] spec_basis_term(i),)),
                forall|i: int|
                    0 <= i < coeffs@.len() ==> coeff.ensures(
                        (spec_basis_term(i),),
                        #[trigger] coeffs@[i],
                    ),
            decreases coeff_count - coeffs@.len(),
        {
            let term: BasisTerm = basis_term(coeffs.len());
            let value: T = coeff(term);
            coeffs.push(value);
        }
        CircularHarmonics { coeffs }
    }

    /// Evaluates the series: starting from `init`, hands `step` the running
    /// value and each coefficient with the basis function of its term, term
    /// 0 first, and returns the last running value.
    pub fn evaluate<F: Fn(T, (BasisTerm, T)) -> T>(&self, init: T, step: F) -> (out: T)
        requires
            fold_requires(step, init, spec_terms(self@)),
        ensures
            folds_to(step, init, spec_terms(self@), out),
    {
        let ghost items: Seq<(BasisTerm, T)> = spec_terms(self@);
        let mut accum: T = init;
        let mut i: usize = 0;
        proof {
            assert(items.take(0) == Seq::<(BasisTerm, T)>::empty());
        }
        while i < self.coeffs.len()
            invariant
                i <= self.coeffs@.len(),
                items == spec_terms(self@),
                self@ == self.coeffs@,
                fold_requires(step, init, items),
                folds_to(step, init, items.take(i as int), accum),
            decreases self.coeffs@.len() - i,
        {
            let term: BasisTerm = basis_term(i);
            let next: T = step(accum, (term, self.coeffs[i]));
            proof {
                lemma_fold_step(step, init, items.take(i as int), accum, items[i as int], next);
                assert(items.take(i as int).push(items[i as int]) == items.take(i + 1));
            }
            accum = next;
            i += 1;
        }
        proof {
            assert(items.take(i as int) == items);
        }
        accum
    }

    /// Rotates the series band by band. Band 0 is copied. For every band
    /// `n >= 1`, in rising order, `turn` is handed `n` and the band's cosine
    /// and sine coefficients and returns the pair that takes their place.
    pub fn rotate<F: Fn(usize, T, T) -> (T, T)>(&self, turn: F) -> (ch: Self)
        requires
            forall|n: int|
                1 <= n < self.spec_band_count() ==> turn.requires(
                    (n as usize, (#[trigger] spec_band(self@, n)).0, spec_band(self@, n).1),
                ),
        ensures
            rotates_to(turn, self@, ch@),
    {
        let band_count: usize = self.band_count();
        let mut coeffs: Vec<T> = Vec::with_capacity(self.coeffs.len());
        coeffs.push(self.band0());
        let mut n: usize = 1;
        while n < band_count
            invariant
                1 <= n <= band_count,
                band_count == self.spec_band_count(),
                self@.len() == spec_coeff_count(band_count as int),
                coeffs@.len() == 2 * n - 1,
                coeffs@[0] == self@[0],
                forall|k: int|
                    1 <= k < self.spec_band_count() ==> turn.requires(
                        (k as usize, (#[trigger] spec_band(self@, k)).0, spec_band(self@, k).1),
                    ),
                forall|k: int|
                    1 <= k < n ==> turn.ensures(
                        (k as usize, spec_band(self@, k).0, spec_band(self@, k).1),
                        #[trigger] spec_band(coeffs@, k),
                    ),
            decreases band_count - n,
        {
            let (x, y) = self.band(n);
            let ghost before: Seq<T> = coeffs@;
            proof {
                assert(spec_band(self@, n as int) == (x, y));
            }
            let (rx, ry) = turn(n, x, y);
            coeffs.push(rx);
            coeffs.push(ry);
            proof {
                assert(spec_band(coeffs@, n as int) == (rx, ry));
                assert forall|k: int| 1 <= k < n + 1 implies turn.ensures(
                    (k as usize, spec_band(self@, k).0, spec_band(self@, k).1),
                    #[trigger] spec_band(coeffs@, k),
                ) by {
                    if k < n {
                        assert(spec_band(coeffs@, k) == spec_band(before, k));
                    }
                }
            }
            n += 1;
        }
        CircularHarmonics { coeffs }
    }

    /// Combines two series term by term. The result is as long as the longer
    /// of the two; coefficient `i` is what `op` returns for coefficient `i`
    /// of `self` and of `other`, with `zero` in place of a coefficient that
    /// the shorter series does not have. `op` is called for term 0 first.
    pub fn combine<F: Fn(T, T) -> T>(&self, other: &Self, zero: T, op: F) -> (ch: Self)
        requires
            forall|i: int|
                0 <= i < self@.len() || 0 <= i < other@.len() ==> op.requires(
                    (#[trigger] spec_padded(self@, i, zero), spec_padded(other@, i, zero)),
                ),
        ensures
            combines_to(op, self@, other@, zero, ch@),
    {
        proof {
            use_type_invariant(self);
            use_type_invariant(other);
        }
        let count: usize = if self.coeffs.len() >= other.coeffs.len() {
            self.coeffs.len()
        } else {
            other.coeffs.len()
        };
        let mut coeffs: Vec<T> = Vec::with_capacity(count);
        while coeffs.len() < count
            invariant
                coeffs@.len() <= count,
                count == if self@.len() >= other@.len() {
                    self@.len()
                } else {
                    other@.len()
                },
                self@ == self.coeffs@,
                other@ == other.coeffs@,
                forall|i: int|
                    0 <= i < self@.len() || 0 <= i < other@.len() ==> op.requires(
                        (#[trigger] spec_padded(self@, i, zero), spec_padded(other@, i, zero)),
                    ),
                forall|i: int|
                    0 <= i < coeffs@.len() ==> op.ensures(
                        (spec_padded(self@, i, zero), spec_padded(other@, i, zero)),
                        #[trigger] coeffs@[i],
                    ),
            decreases count - coeffs@.len(),
        {
            let i: usize = coeffs.len();
            let a: T = if i < self.coeffs.len() {
                self.coeffs[i]
            } else {
                zero
            };
            let b: T = if i < other.coeffs.len() {
                other.coeffs[i]
            } else {
                zero
            };
            proof {
                assert(a == spec_padded(self@, i as int, zero));
                assert(b == spec_padded(other@, i as int, zero));
            }
            let value: T = op(a, b);
            coeffs.push(value);
        }
        CircularHarmonics { coeffs }
    }
}

} // verus!
