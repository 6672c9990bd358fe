//! Algebraic decoding of Reed-Solomon codes: finding the error locator polynomial Λ(x)
//! from the syndromes by the Berlekamp-Massey iteration, finding its roots by trying every
//! power of α (the Chien search), and computing each error's location and pattern from a
//! root by Forney's formula.
//!
//! Received words are untrusted, so nothing here relies on the syndromes coming from a
//! correctable word: a word whose locator has too few roots, or whose locator's derivative
//! vanishes at a root, has no error list.

use vstd::prelude::*;
use crate::coding::galois::{
    antilog, codeword_values, gf_div, gf_inv, lemma_add_zero, lemma_antilog_step, log,
    P25Codeword, FIELD_ORDER,
};
use crate::coding::polynomial::{
    degree_below, lemma_degree_one, lemma_eval_one, lemma_syndrome_count, poly_add,
    poly_degree, poly_deriv, poly_eval, poly_from, poly_mul, poly_product_fits, poly_scale,
    poly_shift, poly_truncate, poly_unit_power, poly_zero, spec_syndromes, syndrome_count,
    Polynomial, PolynomialCoefs,
};

verus! {

/// The polynomials and degree terms that one step of the Berlekamp-Massey iteration works
/// on. After step i, `p_cur` and `q_cur` are p<sub>i</sub>(x) and q<sub>i</sub>(x), and the
/// saved ones are those of the last step at which the saved state was replaced.
pub struct LocatorState {
    pub p_saved: Seq<u8>,
    pub p_cur: Seq<u8>,
    pub q_saved: Seq<u8>,
    pub q_cur: Seq<u8>,
    pub deg_saved: nat,
    pub deg_cur: nat,
}

/// The state before the first step, for the syndrome polynomial s(x) with `t2` syndromes:
/// q<sub>-1</sub> = 1 + xs(x), q<sub>0</sub> = s(x), p<sub>-1</sub> =
/// x<sup>2t+1</sup> and p<sub>0</sub> = x<sup>2t</sup>.
pub open spec fn locator_start(syn: Seq<u8>, t2: nat) -> LocatorState {
    LocatorState {
        q_saved: poly_from(syn.len(), seq![1u8] + syn.take(t2 as int)),
        q_cur: syn,
        p_saved: poly_unit_power(syn.len(), t2 + 1),
        p_cur: poly_unit_power(syn.len(), t2),
        deg_saved: 0,
        deg_cur: 1,
    }
}

/// One step of the iteration. If q(x) has no constant term, both current polynomials are
/// divided by x. Otherwise the multiple of the saved polynomials that cancels the constant
/// term of q(x) is added first, and the state before the step is saved if its degree term
/// is at least the saved one.
pub open spec fn locator_step(s: LocatorState) -> LocatorState {
    if s.q_cur[0] == 0 {
        LocatorState {
            q_cur: poly_shift(s.q_cur),
            p_cur: poly_shift(s.p_cur),
            deg_cur: 2 + s.deg_cur,
            ..s
        }
    } else {
        let mult = gf_div(s.q_cur[0], s.q_saved[0]);
        let q = poly_shift(poly_add(s.q_cur, poly_scale(s.q_saved, mult)));
        let p = poly_shift(poly_add(s.p_cur, poly_scale(s.p_saved, mult)));
        let d = 2 + (if s.deg_cur <= s.deg_saved { s.deg_cur } else { s.deg_saved });
        if s.deg_cur >= s.deg_saved {
            LocatorState {
                q_saved: s.q_cur,
                p_saved: s.p_cur,
                deg_saved: s.deg_cur,
                q_cur: q,
                p_cur: p,
                deg_cur: d,
            }
        } else {
            LocatorState { q_cur: q, p_cur: p, deg_cur: d, ..s }
        }
    }
}

/// The state after `steps` steps from the state `s`.
pub open spec fn locator_run(s: LocatorState, steps: nat) -> LocatorState
    decreases steps,
{
    if steps == 0 {
        s
    } else {
        locator_step(locator_run(s, (steps - 1) as nat))
    }
}

/// The error locator polynomial Λ(x) for the syndrome polynomial s(x) with `t2` syndromes:
/// p(x) after `t2` steps.
pub open spec fn error_locator(syn: Seq<u8>, t2: nat) -> Seq<u8> {
    locator_run(locator_start(syn, t2), t2).p_cur
}

/// The roots of the polynomial `loc` among the first `m` powers of α, by rising power.
pub open spec fn roots_below(loc: Seq<u8>, m: nat) -> Seq<u8>
    decreases m,
{
    if m == 0 {
        Seq::empty()
    } else {
        let found = roots_below(loc, (m - 1) as nat);
        if poly_eval(loc, antilog(m - 1)) == 0 {
            found.push(antilog(m - 1))
        } else {
            found
        }
    }
}

/// The nonzero roots of the polynomial `loc`, by rising power of α.
pub open spec fn locator_roots(loc: Seq<u8>) -> Seq<u8> {
    roots_below(loc, 63)
}

/// The error evaluator polynomial Ω(x) = Λ(x)s(x) mod x<sup>2t</sup>.
pub open spec fn error_evaluator(syn: Seq<u8>, loc: Seq<u8>, t2: nat) -> Seq<u8> {
    poly_truncate(poly_mul(loc, syn), (t2 - 1) as nat)
}

/// The error that the root X<sup>-1</sup> of Λ(x) stands for: its location i, where
/// α<sup>i</sup> = X, and its pattern Ω(X<sup>-1</sup>) / Λ'(X<sup>-1</sup>). There is none
/// if Λ'(x) vanishes at the root.
pub open spec fn error_at(vals: Seq<u8>, deriv: Seq<u8>, root: u8) -> Option<(nat, u8)> {
    let slope = poly_eval(deriv, root);
    if slope == 0 {
        None
    } else {
        Some((log(gf_inv(root)) as nat, gf_div(poly_eval(vals, root), slope)))
    }
}

/// The errors that the given roots stand for, in the order of the roots, or `None` if one
/// of the roots stands for none.
pub open spec fn errors_at(vals: Seq<u8>, deriv: Seq<u8>, roots: Seq<u8>) -> Option<
    Seq<(nat, u8)>,
>
    decreases roots.len(),
{
    if roots.len() == 0 {
        Some(Seq::empty())
    } else {
        match (errors_at(vals, deriv, roots.drop_last()), error_at(vals, deriv, roots.last())) {
            (Some(found), Some(e)) => Some(found.push(e)),
            _ => None,
        }
    }
}

/// The errors in a word with the syndrome polynomial s(x) with `t2` syndromes, each with
/// its location (the degree of the term it is in) and its pattern, or `None` if the word is
/// unrecoverable: Λ(x) does not have as many nonzero roots as its degree, or a root stands
/// for no error.
pub open spec fn error_list(syn: Seq<u8>, t2: nat) -> Option<Seq<(nat, u8)>> {
    let loc = error_locator(syn, t2);
    let roots = locator_roots(loc);
    if poly_degree(loc) != Some(roots.len()) {
        None
    } else {
        errors_at(error_evaluator(syn, loc, t2), poly_deriv(loc), roots)
    }
}

/// Finds the error locator polynomial Λ(x) from the syndrome polynomial s(x).
pub struct ErrorLocator<P: PolynomialCoefs> {
    /// Saved p polynomial.
    p_saved: Polynomial<P>,
    /// Current p polynomial.
    p_cur: Polynomial<P>,
    /// Saved q polynomial.
    q_saved: Polynomial<P>,
    /// Current q polynomial.
    q_cur: Polynomial<P>,
    /// Degree term of the saved p polynomial.
    deg_saved: usize,
    /// Degree term of the current p polynomial.
    deg_cur: usize,
    /// Number of steps performed so far.
    steps: usize,
}

impl<P: PolynomialCoefs> ErrorLocator<P> {
    /// The saved q polynomial always has a constant term, so it can cancel the one of the
    /// current q polynomial. The degree terms grow by at most two per step, and no more
    /// than 2t steps are performed.
    #[verifier::type_invariant]
    spec fn well_formed(self) -> bool {
        &&& self.q_saved@[0] != 0
        &&& self.steps <= spec_syndromes::<P>()
        &&& self.deg_cur <= 1 + 2 * self.steps
        &&& self.deg_saved <= 1 + 2 * self.steps
    }

    /// The number of steps performed so far, which is at most 2t.
    pub closed spec fn steps_done(&self) -> nat {
        self.steps as nat
    }

    /// The state of the iteration.
    pub closed spec fn view(&self) -> LocatorState {
        LocatorState {
            p_saved: self.p_saved@,
            p_cur: self.p_cur@,
            q_saved: self.q_saved@,
            q_cur: self.q_cur@,
            deg_saved: self.deg_saved as nat,
            deg_cur: self.deg_cur as nat,
        }
    }

    /// Start the iteration for the given syndrome polynomial s(x).
    pub fn new(syn: Polynomial<P>) -> (locator: ErrorLocator<P>)
        ensures
            locator@ == locator_start(syn@, spec_syndromes::<P>()),
            locator.steps_done() == 0,
    {
        let t2: usize = syndrome_count::<P>();
        proof {
            syn.lemma_view();
            lemma_antilog_step(0);
        }
        // Compute 1 + xs(x).
        let mut init: Vec<P25Codeword> = Vec::new();
        init.push(P25Codeword::for_power(0));
        let mut i: usize = 0;
        while i < t2
            invariant
                i <= t2,
                t2 <= P::spec_capacity(),
                syn@.len() == P::spec_capacity(),
                init@.len() == i + 1,
                init@[0]@ == 1,
                forall|j: int| 1 <= j <= i ==> (#[trigger] init@[j])@ == syn@[j - 1],
            decreases t2 - i,
        {
            init.push(syn.coef(i));
            i = i + 1;
        }
        let q_saved = Polynomial::new(init.as_slice());
        proof {
            assert(codeword_values(init@) =~= seq![1u8] + syn@.take(t2 as int));
        }
        ErrorLocator {
            q_saved,
            q_cur: syn,
            // Compute x^(2t+1).
            p_saved: Polynomial::unit_power(t2 + 1),
            // Compute x^(2t).
            p_cur: Polynomial::unit_power(t2),
            deg_saved: 0,
            deg_cur: 1,
            steps: 0,
        }
    }

    /// Run the steps that remain of the 2t steps and return p(x), which for a locator
    /// fresh from `new` is the error locator polynomial Λ(x).
    pub fn build(self) -> (loc: Polynomial<P>)
        ensures
            self.steps_done() <= spec_syndromes::<P>(),
            loc@ == locator_run(
                self@,
                (spec_syndromes::<P>() - self.steps_done()) as nat,
            ).p_cur,
    {
        let t2: usize = syndrome_count::<P>();
        proof {
            use_type_invariant(&self);
        }
        let mut state = self;
        while state.steps < t2
            invariant
                t2 == spec_syndromes::<P>(),
                self.steps <= state.steps <= t2,
                state@ == locator_run(self@, (state.steps - self.steps) as nat),
            decreases t2 - state.steps,
        {
            state.step();
        }
        state.p_cur
    }

    /// Perform one step of the iteration.
    fn step(&mut self)
        requires
            old(self).steps < spec_syndromes::<P>(),
        ensures
            final(self)@ == locator_step(old(self)@),
            final(self).steps == old(self).steps + 1,
    {
        proof {
            use_type_invariant(&*self);
            P::lemma_geometry();
        }
        self.steps = self.steps + 1;
        if self.q_cur.constant().zero() {
            // Simply shift the polynomials, since q(x) has no constant term.
            self.q_cur = self.q_cur.shift();
            self.p_cur = self.p_cur.shift();
            self.deg_cur = 2 + self.deg_cur;
        } else {
            // Cancel the constant term of q(x), then shift.
            let mult = self.q_cur.constant() / self.q_saved.constant();
            let q = (self.q_cur + self.q_saved * mult).shift();
            let p = (self.p_cur + self.p_saved * mult).shift();
            let d: usize = 2 + (if self.deg_cur <= self.deg_saved {
                self.deg_cur
            } else {
                self.deg_saved
            });
            if self.deg_cur >= self.deg_saved {
                self.q_saved = self.q_cur;
                self.p_saved = self.p_cur;
                self.deg_saved = self.deg_cur;
            }
            self.q_cur = q;
            self.p_cur = p;
            self.deg_cur = d;
        }
    }
}

/// The polynomials of the iteration keep to their degree bounds: p(x) has no term above
/// x<sup>2t</sup> and the saved p(x) none above x<sup>2t+1</sup>.
proof fn lemma_locator_degree(syn: Seq<u8>, t2: nat, steps: nat)
    ensures
        degree_below(locator_run(locator_start(syn, t2), steps).p_cur, t2 + 1),
        degree_below(locator_run(locator_start(syn, t2), steps).p_saved, t2 + 2),
        locator_run(locator_start(syn, t2), steps).p_cur.len() == syn.len(),
        locator_run(locator_start(syn, t2), steps).p_saved.len() == syn.len(),
    decreases steps,
{
    if steps > 0 {
        lemma_locator_degree(syn, t2, (steps - 1) as nat);
        let before = locator_run(locator_start(syn, t2), (steps - 1) as nat);
        let after = locator_step(before);
        lemma_add_zero(0);
        assert forall|i: int| t2 + 1 <= i < after.p_cur.len() implies #[trigger] after.p_cur[i]
            == 0 by {
            if i + 1 < before.p_cur.len() {
                assert(before.p_cur[i + 1] == 0);
                assert(before.p_saved[i + 1] == 0);
            }
        }
    }
}

/// The error locator polynomial has no term above x<sup>2t</sup>, so its product with a
/// syndrome polynomial fits in 4t coefficients.
pub proof fn lemma_locator_product_fits(syn: Seq<u8>, t2: nat)
    requires
        2 * t2 <= syn.len(),
        degree_below(syn, t2),
    ensures
        error_locator(syn, t2).len() == syn.len(),
        degree_below(error_locator(syn, t2), t2 + 1),
        poly_product_fits(error_locator(syn, t2), syn),
{
    lemma_locator_degree(syn, t2, t2);
    let loc = error_locator(syn, t2);
    assert forall|i: int, j: int|
        0 <= i < loc.len() && 0 <= j < syn.len() && i + j >= loc.len() implies #[trigger] loc[i]
        == 0 || #[trigger] syn[j] == 0 by {
        if i <= t2 {
            assert(j >= t2);
        }
    }
}

/// While q(x) is zero, each step only divides p(x) by x: from x<sup>2t</sup> it comes down
/// to x<sup>2t-i</sup> in i steps.
proof fn lemma_locator_run_zero(len: nat, t2: nat, steps: nat)
    requires
        steps <= t2 < len,
    ensures
        locator_run(locator_start(poly_zero(len), t2), steps).q_cur == poly_zero(len),
        locator_run(locator_start(poly_zero(len), t2), steps).p_cur == poly_unit_power(
            len,
            (t2 - steps) as nat,
        ),
    decreases steps,
{
    if steps > 0 {
        lemma_locator_run_zero(len, t2, (steps - 1) as nat);
        let before = locator_run(locator_start(poly_zero(len), t2), (steps - 1) as nat);
        assert(poly_shift(before.q_cur) =~= poly_zero(len));
        assert(poly_shift(before.p_cur) =~= poly_unit_power(len, (t2 - steps) as nat));
    }
}

/// The constant polynomial 1 has no roots.
proof fn lemma_roots_of_one(len: nat, m: nat)
    requires
        0 < len,
    ensures
        roots_below(poly_unit_power(len, 0), m) == Seq::<u8>::empty(),
    decreases m,
{
    if m > 0 {
        lemma_roots_of_one(len, (m - 1) as nat);
        lemma_eval_one(len, antilog(m - 1));
    }
}

/// A word whose syndromes are all zero has no errors: its error locator polynomial is the
/// constant 1, which has degree 0 and no roots.
pub proof fn lemma_no_errors(len: nat, t2: nat)
    requires
        t2 < len,
    ensures
        error_locator(poly_zero(len), t2) == poly_unit_power(len, 0),
        error_list(poly_zero(len), t2) == Some(Seq::<(nat, u8)>::empty()),
{
    lemma_locator_run_zero(len, t2, t2);
    lemma_degree_one(len);
    lemma_roots_of_one(len, 63);
}

/// Find the nonzero roots of the polynomial by evaluating it at every power of α.
pub fn polynomial_roots<P: PolynomialCoefs>(loc: &Polynomial<P>) -> (roots: Vec<P25Codeword>)
    ensures
        codeword_values(roots@) == locator_roots(loc@),
        forall|i: int| 0 <= i < roots@.len() ==> (#[trigger] roots@[i])@ != 0,
{
    let mut roots: Vec<P25Codeword> = Vec::new();
    let mut pow: usize = 0;
    assert(codeword_values(roots@) =~= roots_below(loc@, 0));
    while pow < FIELD_ORDER
        invariant
            pow <= 63,
            codeword_values(roots@) == roots_below(loc@, pow as nat),
            forall|i: int| 0 <= i < roots@.len() ==> (#[trigger] roots@[i])@ != 0,
        decreases 63 - pow,
    {
        // Current element: α^pow.
        let cur = P25Codeword::for_power(pow);
        if loc.eval(cur).zero() {
            let ghost before = roots@;
            roots.push(cur);
            assert(codeword_values(roots@) =~= codeword_values(before).push(cur@));
        }
        pow = pow + 1;
    }
    roots
}

/// Computes error locations and patterns from the roots of the error locator polynomial.
pub struct ErrorDescriptions<P: PolynomialCoefs> {
    /// Derivative of the error locator polynomial: Λ'(x).
    deriv: Polynomial<P>,
    /// Error evaluator polynomial: Ω(x) = Λ(x)s(x) mod x<sup>2t</sup>.
    vals: Polynomial<P>,
}

impl<P: PolynomialCoefs> ErrorDescriptions<P> {
    /// The coefficients of Λ'(x).
    pub closed spec fn deriv_view(&self) -> Seq<u8> {
        self.deriv@
    }

    /// The coefficients of Ω(x).
    pub closed spec fn vals_view(&self) -> Seq<u8> {
        self.vals@
    }

    /// Prepare the two polynomials from the syndrome polynomial s(x) and the error locator
    /// polynomial Λ(x), whose product must fit.
    pub fn new(syn: &Polynomial<P>, loc: &Polynomial<P>) -> (descs: ErrorDescriptions<P>)
        requires
            poly_product_fits(loc@, syn@),
        ensures
            descs.deriv_view() == poly_deriv(loc@),
            descs.vals_view() == error_evaluator(syn@, loc@, spec_syndromes::<P>()),
    {
        let t2: usize = syndrome_count::<P>();
        ErrorDescriptions {
            // Compute Λ'(x).
            deriv: loc.deriv(),
            // Compute Ω(x).
            vals: (*loc * *syn).truncate(t2 - 1),
        }
    }

    /// The location and pattern of the error that the given nonzero root
    /// X<sup>-1</sup> of Λ(x) stands for, or `None` if Λ'(x) vanishes at the root, which
    /// it does at no root of a locator that splits into distinct linear factors.
    pub fn for_root(&self, root: P25Codeword) -> (e: Option<(usize, P25Codeword)>)
        requires
            root@ != 0,
        ensures
            match e {
                Some((loc, pat)) => error_at(self.vals_view(), self.deriv_view(), root@) == Some(
                    (loc as nat, pat@),
                ),
                None => error_at(self.vals_view(), self.deriv_view(), root@) is None,
            },
    {
        let slope = self.deriv.eval(root);
        if slope.zero() {
            return None;
        }
        // The error location i is the power of X = (X^-1)^-1.
        match root.invert().power() {
            // Forney's formula gives the error pattern.
            Some(loc) => Some((loc, self.vals.eval(root) / slope)),
            None => None,
        }
    }
}

/// The location and the pattern of each error in a word.
pub struct Errors {
    found: Vec<(usize, P25Codeword)>,
}

impl Errors {
    /// The errors as pairs of a location and the bit pattern to add there.
    pub closed spec fn view(&self) -> Seq<(nat, u8)> {
        Seq::new(self.found@.len(), |i: int| (self.found@[i].0 as nat, self.found@[i].1@))
    }

    /// Decode the syndrome polynomial s(x), which has no term above
    /// x<sup>2t-1</sup>.
    ///
    /// If the word is recoverable, return `Some((nerr, errs))`, where `nerr` is the number
    /// of errors and `errs` holds them. Otherwise return `None`.
    pub fn new<P: PolynomialCoefs>(syn: Polynomial<P>) -> (r: Option<(usize, Errors)>)
        requires
            degree_below(syn@, spec_syndromes::<P>()),
        ensures
            match r {
                Some((nerr, errs)) => error_list(syn@, spec_syndromes::<P>()) == Some(errs@)
                    && nerr == errs@.len(),
                None => error_list(syn@, spec_syndromes::<P>()) is None,
            },
    {
        let ghost t2 = spec_syndromes::<P>();
        proof {
            syn.lemma_view();
            lemma_syndrome_count::<P>();
            lemma_locator_product_fits(syn@, t2);
        }
        // Compute the error locator polynomial Λ(x).
        let loc = ErrorLocator::new(syn).build();
        let roots = polynomial_roots(&loc);
        // A locator that does not have as many roots as its degree locates nothing.
        match loc.degree() {
            Some(d) => {
                if roots.len() != d {
                    return None;
                }
            },
            None => {
                return None;
            },
        }
        let descs = ErrorDescriptions::new(&syn, &loc);
        let ghost vals = descs.vals_view();
        let ghost deriv = descs.deriv_view();
        let mut errs = Errors { found: Vec::new() };
        let mut i: usize = 0;
        assert(codeword_values(roots@).take(0) =~= Seq::empty());
        assert(errs@ =~= Seq::empty());
        while i < roots.len()
            invariant
                i <= roots@.len(),
                t2 == spec_syndromes::<P>(),
                vals == descs.vals_view(),
                deriv == descs.deriv_view(),
                vals == error_evaluator(syn@, loc@, t2),
                deriv == poly_deriv(loc@),
                loc@ == error_locator(syn@, t2),
                codeword_values(roots@) == locator_roots(loc@),
                poly_degree(loc@) == Some(roots@.len()),
                forall|j: int| 0 <= j < roots@.len() ==> (#[trigger] roots@[j])@ != 0,
                errors_at(vals, deriv, codeword_values(roots@).take(i as int)) == Some(errs@),
                errs@.len() == i,
            decreases roots@.len() - i,
        {
            proof {
                let upto = codeword_values(roots@).take(i + 1);
                assert(upto.drop_last() =~= codeword_values(roots@).take(i as int));
                assert(upto.last() == roots@[i as int]@);
            }
            match descs.for_root(roots[i]) {
                Some(e) => {
                    let ghost before = errs@;
                    errs.found.push(e);
                    assert(errs@ =~= before.push((e.0 as nat, e.1@)));
                },
                None => {
                    proof {
                        lemma_errors_at_prefix(vals, deriv, codeword_values(roots@), i + 1);
                    }
                    return None;
                },
            }
            i = i + 1;
        }
        assert(codeword_values(roots@).take(i as int) =~= codeword_values(roots@));
        Some((i, errs))
    }

    /// The number of errors.
    pub fn len(&self) -> (n: usize)
        ensures
            n == self@.len(),
    {
        self.found.len()
    }

    /// The location and the pattern of the error with the given index.
    pub fn get(&self, i: usize) -> (e: (usize, P25Codeword))
        requires
            i < self@.len(),
        ensures
            (e.0 as nat, e.1@) == self@[i as int],
    {
        self.found[i]
    }
}

/// If some run of the first roots stands for no error list, neither does the whole run.
proof fn lemma_errors_at_prefix(vals: Seq<u8>, deriv: Seq<u8>, roots: Seq<u8>, n: int)
    requires
        0 <= n <= roots.len(),
        errors_at(vals, deriv, roots.take(n)) is None,
    ensures
        errors_at(vals, deriv, roots) is None,
    decreases roots.len() - n,
{
    if n < roots.len() {
        assert(roots.take(n + 1).drop_last() =~= roots.take(n));
        lemma_errors_at_prefix(vals, deriv, roots, n + 1);
    } else {
        assert(roots.take(n) =~= roots);
    }
}

} // verus!
