//! Spherical harmonics: a truncated real basis over directions on the unit
//! sphere, up to level 4.
//!
//! The terms are laid out level by level. Level `l` owns `2l + 1` terms, so
//! a representation of levels `0..=l` has `(l + 1)^2` of them:
//!
//! ```text
//! level:  0 |    1    |    2    |    3     |     4
//! terms:  0 | 1 ..= 3 | 4 ..= 8 | 9 ..= 15 | 16 ..= 24
//! ```
use crate::fold::{fold_requires, folds_to, lemma_fold_step, lemma_fold_unchanged};
use vstd::prelude::*;

verus! {

/// The highest level for which the basis is defined.
pub const MAX_LEVELS: usize = 4;

/// The number of terms of a representation of levels `0..=levels`.
pub open spec fn spec_term_count(levels: int) -> int {
    (levels + 1) * (levels + 1)
}

/// The level that term `term` belongs to, for the terms of levels 0 to 4.
pub open spec fn spec_term_level(term: int) -> int {
    if term < 1 {
        0
    } else if term < 4 {
        1
    } else if term < 9 {
        2
    } else if term < 16 {
        3
    } else {
        4
    }
}

/// The entry of the five-entry zonal kernel that weighs the terms of level
/// `level`. Every level has its own entry but level 3, which shares that of
/// level 2.
pub open spec fn spec_kernel_slot(level: int) -> int {
    if level == 3 {
        2
    } else {
        level
    }
}

/// What an evaluation runs over: for each of the first `count` terms, the
/// kernel entry of its level, its coefficient and the basis value beside it.
pub open spec fn spec_weighted<T>(terms: Seq<T>, basis: Seq<T>, count: int) -> Seq<(usize, T, T)> {
    Seq::new(
        count as nat,
        |i: int| (spec_kernel_slot(spec_term_level(i)) as usize, terms[i], basis[i]),
    )
}

/// The levels 0 to 4 end at 1, 4, 9, 16 and 25 terms.
pub proof fn lemma_term_counts()
    ensures
        spec_term_count(-1) == 0,
        spec_term_count(0) == 1,
        spec_term_count(1) == 4,
        spec_term_count(2) == 9,
        spec_term_count(3) == 16,
        spec_term_count(4) == 25,
{
}

/// The level of a term is the one `l` with `l^2 <= term < (l + 1)^2`: the
/// terms of the levels below `l` come first, and there are `l^2` of them.
pub proof fn lemma_level_bounds(term: int)
    requires
        0 <= term < spec_term_count(MAX_LEVELS as int),
    ensures
        0 <= spec_term_level(term) <= MAX_LEVELS,
        spec_term_count(spec_term_level(term) - 1) <= term < spec_term_count(spec_term_level(term)),
        forall|level: int|
            0 <= level && spec_term_count(level - 1) <= term < #[trigger] spec_term_count(level)
                ==> level == spec_term_level(term),
{
    lemma_term_counts();
    assert forall|level: int|
        0 <= level && spec_term_count(level - 1) <= term < #[trigger] spec_term_count(
            level,
        ) implies level == spec_term_level(term) by {
        if level > 4 {
            assert(spec_term_count(level - 1) >= 25) by (nonlinear_arith)
                requires
                    level >= 5,
            ;
        }
    }
}

/// `(levels + 1)^2` for a supported number of levels.
fn supported_term_count(levels: usize) -> (count: usize)
    requires
        levels <= MAX_LEVELS,
    ensures
        count == spec_term_count(levels as int),
        1 <= count <= spec_term_count(MAX_LEVELS as int),
{
    proof {
        lemma_term_counts();
    }
    (levels + 1) * (levels + 1)
}

/// The number of terms of a representation of levels `0..=levels`, or `None`
/// where `levels` is above [`MAX_LEVELS`].
pub fn term_count(levels: usize) -> (count: Option<usize>)
    ensures
        match count {
            Some(c) => levels <= MAX_LEVELS && c == spec_term_count(levels as int),
            None => levels > MAX_LEVELS,
        },
{
    if levels <= MAX_LEVELS {
        Some(supported_term_count(levels))
    } else {
        None
    }
}

/// The level of term `term`: the `l` with `l^2 <= term < (l + 1)^2`.
pub fn term_level(term: usize) -> (level: usize)
    requires
        term < spec_term_count(MAX_LEVELS as int),
    ensures
        level == spec_term_level(term as int),
        level <= MAX_LEVELS,
        spec_term_count(level - 1) <= term < spec_term_count(level as int),
{
    proof {
        lemma_level_bounds(term as int);
    }
    if term < 1 {
        0
    } else if term < 4 {
        1
    } else if term < 9 {
        2
    } else if term < 16 {
        3
    } else {
        4
    }
}

/// The kernel entry that weighs the terms of level `level`.
pub fn kernel_slot(level: usize) -> (slot: usize)
    requires
        level <= MAX_LEVELS,
    ensures
        slot == spec_kernel_slot(level as int),
        slot <= MAX_LEVELS,
{
    if level == 3 {
        2
    } else {
        level
    }
}

/// Coefficients against the spherical basis, with the number of levels they
/// are meant for.
///
/// The terms are open to the caller, who may write any of them. Nothing
/// keeps their number in step with `levels`: [`Self::wf`] says when it is,
/// and [`Self::is_valid`] tests it.
pub struct SphericalHarmonics<T> {
    /// The declared number of levels above level 0.
    pub levels: usize,
    /// The coefficients, term 0 first.
    pub terms: Vec<T>,
}

impl<T: Copy> SphericalHarmonics<T> {
    /// The levels are ones that the basis has, and no term of them is
    /// missing. Terms beyond them are allowed and never read.
    pub open spec fn wf(&self) -> bool {
        &&& self.levels <= MAX_LEVELS
        &&& self.terms@.len() >= spec_term_count(self.levels as int)
    }

    /// Takes the levels and the terms as they are, unchecked.
    pub fn from_terms(levels: usize, terms: Vec<T>) -> (sh: Self)
        ensures
            sh.levels == levels,
            sh.terms == terms,
    {
        SphericalHarmonics { levels, terms }
    }

    /// Tests whether the levels are supported and every term of them is
    /// there.
    pub fn is_valid(&self) -> (valid: bool)
        ensures
            valid == self.wf(),
    {
        match term_count(self.levels) {
            Some(count) => self.terms.len() >= count,
            None => false,
        }
    }

    /// Evaluates the representation against the basis values of one
    /// direction: starting from `init`, hands `step` the running value and,
    /// for each term of the declared levels in order, the kernel entry of
    /// the term's level, the term's coefficient and its basis value, and
    /// returns the last running value. Terms beyond the declared levels are
    /// not read.
    pub fn evaluate<F: Fn(T, (usize, T, T)) -> T>(&self, basis: &Self, init: T, step: F) -> (out: T)
        requires
            self.wf(),
            basis.terms@.len() >= spec_term_count(self.levels as int),
            fold_requires(
                step,
                init,
                spec_weighted(self.terms@, basis.terms@, spec_term_count(self.levels as int)),
            ),
        ensures
            folds_to(
                step,
                init,
                spec_weighted(self.terms@, basis.terms@, spec_term_count(self.levels as int)),
                out,
            ),
    {
        let count: usize = supported_term_count(self.levels);
        let ghost items: Seq<(usize, T, T)> = spec_weighted(
            self.terms@,
            basis.terms@,
            count as int,
        );
        let mut accum: T = init;
        let mut i: usize = 0;
        proof {
            assert(items.take(0) == Seq::<(usize, T, T)>::empty());
        }
        while i < count
            invariant
                i <= count,
                count == spec_term_count(self.levels as int),
                count <= spec_term_count(MAX_LEVELS as int),
                count <= self.terms@.len(),
                count <= basis.terms@.len(),
                items == spec_weighted(self.terms@, basis.terms@, count as int),
                fold_requires(step, init, items),
                folds_to(step, init, items.take(i as int), accum),
            decreases count - i,
        {
            let slot: usize = kernel_slot(term_level(i));
            let next: T = step(accum, (slot, self.terms[i], basis.terms[i]));
            proof {
                lemma_fold_step(step, init, items.take(i as int), accum, items[i as int], next);
                assert(items.take(i as int).push(items[i as int]) == items.take(i + 1));
            }
            accum = next;
            i += 1;
        }
        proof {
            assert(items.take(i as int) == items);
        }
        accum
    }
}

/// Tabulates the basis for `levels` levels: term `i` of the result is what
/// `term` returns for `i`. `term` is called once for each of the
/// `(levels + 1)^2` terms, term 0 first, and for no other index.
pub fn sh_basis<T: Copy, F: Fn(usize) -> T>(levels: usize, term: F) -> (basis: SphericalHarmonics<T>)
    requires
        levels <= MAX_LEVELS,
        forall|i: usize| i < spec_term_count(levels as int) ==> #[trigger] term.requires((i,)),
    ensures
        basis.levels == levels,
        basis.terms@.len() == spec_term_count(levels as int),
        forall|i: int| 0 <= i < basis.terms@.len() ==> term.ensures((i as usize,), #[trigger] basis.terms@[i]),
        basis.wf(),
{
    let count: usize = supported_term_count(levels);
    let mut terms: Vec<T> = Vec::with_capacity(count);
    while terms.len() < count
        invariant
            terms@.len() <= count,
            count == spec_term_count(levels as int),
            forall|i: usize| i < count ==> #[trigger] term.requires((i,)),
            forall|i: int| 0 <= i < terms@.len() ==> term.ensures((i as usize,), #[trigger] terms@[i]),
        decreases count - terms@.len(),
    {
        let value: T = term(terms.len());
        terms.push(value);
    }
    SphericalHarmonics { levels, terms }
}

/// Evaluating a representation whose terms are all `zero` gives back the
/// starting value, whatever the basis values are, for every `step` that
/// leaves the running value as it is when the coefficient is `zero`.
pub proof fn lemma_evaluate_zero<T, F: Fn(T, (usize, T, T)) -> T>(
    step: F,
    init: T,
    terms: Seq<T>,
    basis: Seq<T>,
    count: int,
    zero: T,
    out: T,
)
    requires
        0 <= count <= terms.len(),
        forall|i: int| 0 <= i < count ==> terms[i] == zero,
        forall|acc: T, slot: usize, b: T, next: T| #[trigger]
            step.ensures((acc, (slot, zero, b)), next) ==> next == acc,
        folds_to(step, init, spec_weighted(terms, basis, count), out),
    ensures
        out == init,
{
    lemma_fold_unchanged(step, init, spec_weighted(terms, basis, count), out);
}

} // verus!
