//! Decoding a word that is within half the distance of the code from a codeword.
//!
//! The symbols in which a received word differs from a codeword are listed as errors, in
//! the order in which the decoder finds their roots. The decoder finds exactly this list if
//! it is no longer than half the number of syndromes, and adding the patterns to the
//! received word gives the codeword.

use vstd::prelude::*;
use crate::coding::algebra::{
    lemma_add_cancels, lemma_add_laws, lemma_div_cancels, lemma_log_power, lemma_mul_basics,
    lemma_powers_equal,
};
use crate::coding::bmcf::{error_at, error_evaluator, error_list, errors_at, roots_below};
use crate::coding::correction::{
    errors_syndromes, errors_valid, evaluator_of, inverse_power, lemma_errors_syndromes,
    lemma_factor_at_root, lemma_locator_at_zero, lemma_locator_of, lemma_locator_product,
    lemma_locator_recurrence, lemma_pattern_at_root, lemma_times_linear, lemma_values,
    lemma_values_range, locator_of, root_of, slope_at,
};
use crate::coding::evaluation::lemma_eval_add;
use crate::coding::galois::{antilog, gf_add, gf_inv, gf_mul, lemma_antilog_range, log};
use crate::coding::polynomial::{
    lemma_eval_zero, poly_add, poly_degree, poly_deriv, poly_eval, poly_zero,
};
use crate::coding::recurrence::{
    coefficients, lemma_coefficients, lemma_product_sum_range, product_coef,
};
use crate::coding::reed_solomon::systematic::{
    in_field, lemma_word_eval, lemma_word_eval_single, single,
};
use crate::coding::reed_solomon::{
    apply_errors, corrected_word, decoded_data, reversed, syndrome_poly,
};
use crate::coding::unique::{
    lemma_extended_product, lemma_locator_found, lemma_recurrence_evaluator,
};

verus! {

/// The location that Forney's formula gives for the root that belongs to an error in the
/// term x<sup>d</sup> is d.
pub proof fn lemma_location_at_root(d: nat)
    requires
        d < 63,
    ensures
        0 < root_of(d) < 64,
        log(gf_inv(root_of(d))) == d,
        inverse_power(inverse_power(d)) == d,
{
    let r = inverse_power(d);
    lemma_antilog_range(r as int);
    lemma_log_power(r as int);
    lemma_log_power(d as int);
    lemma_powers_equal(63 - r, d as int);
}

/// The polynomial whose terms are the patterns of the first `m` errors, each in the term
/// of its location.
pub open spec fn error_poly(errs: Seq<(nat, u8)>, n: nat, m: nat) -> Seq<u8>
    decreases m,
{
    if m == 0 {
        poly_zero(n)
    } else {
        poly_add(
            error_poly(errs, n, (m - 1) as nat),
            single(n, errs[m - 1].0 as int, errs[m - 1].1),
        )
    }
}

/// Whether the locations of the errors are within a word of `n` symbols and their patterns
/// are field elements.
pub open spec fn errors_in_range(errs: Seq<(nat, u8)>, n: nat) -> bool {
    forall|l: int| 0 <= l < errs.len() ==> (#[trigger] errs[l]).0 < n && errs[l].1 < 64
}

/// The error polynomial is a polynomial over the field.
pub proof fn lemma_error_poly(errs: Seq<(nat, u8)>, n: nat, m: nat)
    requires
        errors_in_range(errs, n),
        m <= errs.len(),
    ensures
        error_poly(errs, n, m).len() == n,
        in_field(error_poly(errs, n, m)),
    decreases m,
{
    if m > 0 {
        lemma_error_poly(errs, n, (m - 1) as nat);
        let before = error_poly(errs, n, (m - 1) as nat);
        let added = single(n, errs[m - 1].0 as int, errs[m - 1].1);
        assert forall|j: int| 0 <= j < n implies #[trigger] poly_add(before, added)[j] < 64 by {
            lemma_add_laws(before[j], added[j], 0);
        }
    }
}

/// Applying errors to a word adds the error polynomial to it.
pub proof fn lemma_apply_errors(word: Seq<u8>, errs: Seq<(nat, u8)>, m: nat)
    requires
        errors_in_range(errs, word.len()),
        m <= errs.len(),
    ensures
        apply_errors(word, errs, m) == Some(poly_add(word, error_poly(errs, word.len(), m))),
    decreases m,
{
    let n = word.len();
    if m == 0 {
        assert(poly_add(word, poly_zero(n)) =~= word) by {
            assert forall|j: int| 0 <= j < n implies #[trigger] poly_add(word, poly_zero(n))[j]
                == word[j] by {
                lemma_add_laws(word[j], 0, 0);
            }
        }
    } else {
        lemma_apply_errors(word, errs, (m - 1) as nat);
        lemma_error_poly(errs, n, (m - 1) as nat);
        let before = error_poly(errs, n, (m - 1) as nat);
        let fixed = poly_add(word, before);
        let loc = errs[m - 1].0;
        let pat = errs[m - 1].1;
        let next = fixed.update(loc as int, gf_add(fixed[loc as int], pat));
        assert(next =~= poly_add(word, error_poly(errs, n, m))) by {
            assert forall|j: int| 0 <= j < n implies #[trigger] next[j] == poly_add(
                word,
                error_poly(errs, n, m),
            )[j] by {
                lemma_add_laws(word[j], before[j], if j == loc { pat } else { 0 });
                lemma_add_laws(before[j], 0, 0);
                lemma_add_laws(fixed[j], 0, 0);
            }
        }
    }
}

/// The locator polynomial of `m` errors has the degree `m`.
pub proof fn lemma_locator_degree(errs: Seq<(nat, u8)>, n: nat, m: nat)
    requires
        errors_valid(errs, n),
        m <= errs.len(),
        m < n,
    ensures
        locator_of(errs, n, m)[m as int] != 0,
        poly_degree(locator_of(errs, n, m)) == Some(m),
    decreases m,
{
    let loc = locator_of(errs, n, m);
    lemma_locator_of(errs, n, m);
    if m > 0 {
        let before = locator_of(errs, n, (m - 1) as nat);
        let x = antilog(errs[m - 1].0 as int);
        lemma_antilog_range(errs[m - 1].0 as int);
        lemma_locator_degree(errs, n, (m - 1) as nat);
        lemma_locator_of(errs, n, (m - 1) as nat);
        lemma_times_linear(before, x, (m - 1) as nat);
        assert(before[m as int] == 0);
        lemma_mul_basics(before[m - 1], x);
        lemma_add_laws(gf_mul(before[m - 1], x), 0, 0);
    }
    lemma_degree(loc, m);
}

/// The degree of a polynomial is the index of its highest nonzero coefficient.
pub proof fn lemma_degree(c: Seq<u8>, d: nat)
    requires
        d < c.len(),
        c[d as int] != 0,
        forall|j: int| d < j < c.len() ==> #[trigger] c[j] == 0,
    ensures
        poly_degree(c) == Some(d),
    decreases c.len(),
{
    if c.len() - 1 > d {
        assert(c.last() == 0);
        lemma_degree(c.drop_last(), d);
    }
}

/// The evaluator polynomial that the decoder computes from the locator polynomial of the
/// errors and their syndromes is the evaluator polynomial of the errors.
pub proof fn lemma_evaluator_found(errs: Seq<(nat, u8)>, n: nat, t2: nat)
    requires
        errors_valid(errs, n),
        2 <= t2,
        2 * t2 <= n,
        errs.len() <= t2,
    ensures
        error_evaluator(
            errors_syndromes(errs, n, t2, errs.len()),
            locator_of(errs, n, errs.len()),
            t2,
        ) == evaluator_of(errs, n, errs.len()),
{
    let m = errs.len();
    let syn = errors_syndromes(errs, n, t2, m);
    let loc = locator_of(errs, n, m);
    let val = evaluator_of(errs, n, m);
    let found = error_evaluator(syn, loc, t2);
    let f = coefficients(syn);
    lemma_errors_syndromes(errs, n, t2, m);
    lemma_locator_of(errs, n, m);
    lemma_locator_recurrence(errs, n, t2);
    lemma_recurrence_evaluator(loc, m, syn, t2);
    lemma_coefficients(syn);
    assert forall|j: int| 0 <= j < n implies #[trigger] found[j] == val[j] by {
        if j < t2 {
            lemma_locator_product(errs, n, t2, m, j + 1);
            lemma_extended_product(loc, syn, t2, j + 1, n);
            lemma_product_sum_range(loc, f, j, n);
            lemma_add_cancels(product_coef(loc, f, j), loc[j + 1]);
            lemma_add_cancels(val[j], loc[j + 1]);
            lemma_add_laws(loc[j + 1], val[j], 0);
            lemma_add_laws(product_coef(loc, f, j), loc[j + 1], 0);
        }
    }
    assert(found =~= val);
}

/// The roots that belong to the errors, in the order of the errors.
pub open spec fn roots_of(errs: Seq<(nat, u8)>) -> Seq<u8> {
    Seq::new(errs.len(), |l: int| root_of(errs[l].0))
}

/// Forney's formula gives every error back from its root.
pub proof fn lemma_errors_at_roots(errs: Seq<(nat, u8)>, n: nat, k: nat)
    requires
        errors_valid(errs, n),
        errs.len() < n,
        k <= errs.len(),
    ensures
        errors_at(
            evaluator_of(errs, n, errs.len()),
            poly_deriv(locator_of(errs, n, errs.len())),
            roots_of(errs).take(k as int),
        ) == Some(errs.take(k as int)),
    decreases k,
{
    let m = errs.len();
    let vals = evaluator_of(errs, n, m);
    let deriv = poly_deriv(locator_of(errs, n, m));
    let roots = roots_of(errs).take(k as int);
    if k == 0 {
        assert(errs.take(0) =~= Seq::<(nat, u8)>::empty());
    } else {
        lemma_errors_at_roots(errs, n, (k - 1) as nat);
        let l = k - 1;
        let d = errs[l].0;
        let e = errs[l].1;
        let y = root_of(d);
        assert(roots.drop_last() =~= roots_of(errs).take(k - 1));
        assert(roots.last() == y);
        lemma_location_at_root(d);
        lemma_values(errs, n, y, m);
        lemma_values_range(errs, n, y, m);
        lemma_pattern_at_root(errs, n, l, m);
        lemma_div_cancels(e, slope_at(errs, y, m));
        assert(error_at(vals, deriv, y) == Some((d, e)));
        assert(errs.take(k as int) =~= errs.take(k - 1).push((d, e)));
    }
}

/// The value of a polynomial with a single term ex<sup>d</sup> at α<sup>i</sup> is e times
/// α<sup>id</sup>.
pub proof fn lemma_eval_single(n: nat, d: nat, e: u8, i: int)
    requires
        d < n,
        e < 64,
        0 <= i,
    ensures
        poly_eval(single(n, d as int, e), antilog(i)) == gf_mul(e, antilog(i * d)),
{
    let c = single(n, d as int, e);
    let word = single(n, n - 1 - d, e);
    assert(reversed(c) =~= word);
    assert(reversed(word) =~= c);
    lemma_word_eval(word, antilog(i), n);
    assert(reversed(word).skip(0) =~= c);
    lemma_word_eval_single(n, n - 1 - d, e, i, n);
    assert(n - 1 - (n - 1 - d) == d);
}

/// The syndromes of a codeword with errors are the syndromes of the errors.
pub proof fn lemma_received_syndromes(word: Seq<u8>, errs: Seq<(nat, u8)>, t2: nat)
    requires
        in_field(word),
        t2 <= word.len(),
        syndrome_poly(word, t2) == poly_zero(word.len()),
        errors_in_range(errs, word.len()),
    ensures
        syndrome_poly(poly_add(word, error_poly(errs, word.len(), errs.len())), t2)
            == errors_syndromes(errs, word.len(), t2, errs.len()),
{
    let n = word.len();
    let m = errs.len();
    let ep = error_poly(errs, n, m);
    let received = poly_add(word, ep);
    lemma_error_poly(errs, n, m);
    lemma_error_poly_syndromes(errs, n, t2, m);
    let syn = syndrome_poly(received, t2);
    let expected = errors_syndromes(errs, n, t2, m);
    assert forall|i: int| 0 <= i < n implies #[trigger] syn[i] == expected[i] by {
        if i < t2 {
            let a = antilog(i + 1);
            lemma_antilog_range(i + 1);
            lemma_eval_add(word, ep, a);
            lemma_eval_add(ep, ep, a);
            assert(poly_eval(word, a) == 0) by {
                assert(syndrome_poly(word, t2)[i] == poly_zero(n)[i]);
            }
            lemma_add_laws(poly_eval(ep, a), 0, 0);
            assert(syndrome_poly(ep, t2)[i] == poly_eval(ep, a));
        }
    }
    assert(syn =~= expected);
}

/// The syndromes of the error polynomial are the syndromes of the errors.
proof fn lemma_error_poly_syndromes(errs: Seq<(nat, u8)>, n: nat, t2: nat, m: nat)
    requires
        errors_in_range(errs, n),
        t2 <= n,
        m <= errs.len(),
    ensures
        syndrome_poly(error_poly(errs, n, m), t2) == errors_syndromes(errs, n, t2, m),
        errors_syndromes(errs, n, t2, m).len() == n,
    decreases m,
{
    let ep = error_poly(errs, n, m);
    lemma_error_poly(errs, n, m);
    if m == 0 {
        assert forall|i: int| 0 <= i < n implies #[trigger] syndrome_poly(ep, t2)[i] == 0 by {
            if i < t2 {
                lemma_eval_zero(n, antilog(i + 1));
            }
        }
        assert(syndrome_poly(ep, t2) =~= poly_zero(n));
    } else {
        lemma_error_poly_syndromes(errs, n, t2, (m - 1) as nat);
        lemma_error_poly(errs, n, (m - 1) as nat);
        let before = error_poly(errs, n, (m - 1) as nat);
        let d = errs[m - 1].0;
        let e = errs[m - 1].1;
        let mono = single(n, d as int, e);
        let syn = syndrome_poly(ep, t2);
        let expected = errors_syndromes(errs, n, t2, m);
        assert forall|i: int| 0 <= i < n implies #[trigger] syn[i] == expected[i] by {
            if i < t2 {
                let a = antilog(i + 1);
                lemma_antilog_range(i + 1);
                lemma_eval_add(before, mono, a);
                lemma_eval_single(n, d, e, i + 1);
                assert(syndrome_poly(before, t2)[i] == poly_eval(before, a));
            } else {
                assert(syndrome_poly(before, t2)[i] == 0);
                lemma_add_laws(0, 0, 0);
            }
        }
        assert(syn =~= expected);
    }
}

/// The symbols in which the received word differs from the word, as errors, for the
/// locations whose roots are among the first `m` powers of α, in the order of the roots.
pub open spec fn errors_between(word: Seq<u8>, received: Seq<u8>, m: nat) -> Seq<(nat, u8)>
    decreases m,
{
    if m == 0 {
        Seq::empty()
    } else {
        let before = errors_between(word, received, (m - 1) as nat);
        let d = inverse_power((m - 1) as nat);
        if d < word.len() && word[d as int] != received[d as int] {
            before.push((d, gf_add(word[d as int], received[d as int])))
        } else {
            before
        }
    }
}

/// The symbols in which the received word differs from the word, as errors: for each, its
/// location and the pattern that is the difference of the two symbols.
pub open spec fn symbol_errors(word: Seq<u8>, received: Seq<u8>) -> Seq<(nat, u8)> {
    errors_between(word, received, 63)
}

/// The word with the symbols of the received word at the locations whose roots are among
/// the first `m` powers of α.
pub open spec fn partly_received(word: Seq<u8>, received: Seq<u8>, m: nat) -> Seq<u8> {
    Seq::new(
        word.len(),
        |j: int| if inverse_power(j as nat) < m { received[j] } else { word[j] },
    )
}

/// The error polynomial of the first errors does not depend on the errors after them.
proof fn lemma_error_poly_prefix(errs: Seq<(nat, u8)>, next: (nat, u8), n: nat, m: nat)
    requires
        m <= errs.len(),
    ensures
        error_poly(errs.push(next), n, m) == error_poly(errs, n, m),
    decreases m,
{
    if m > 0 {
        lemma_error_poly_prefix(errs, next, n, (m - 1) as nat);
        assert(errs.push(next)[m - 1] == errs[m - 1]);
    }
}

/// Whether the word and the received word are words over the field of the same length,
/// which is at most 63.
pub open spec fn words_fit(word: Seq<u8>, received: Seq<u8>) -> bool {
    &&& in_field(word)
    &&& in_field(received)
    &&& word.len() == received.len()
    &&& word.len() <= 63
}

/// Every error between two words is at a location where the words differ, and its root is
/// among the first `m` powers of α.
pub proof fn lemma_errors_between_differ(word: Seq<u8>, received: Seq<u8>, m: nat)
    requires
        words_fit(word, received),
        m <= 63,
    ensures
        errors_between(word, received, m).len() <= m,
        forall|l: int|
            0 <= l < errors_between(word, received, m).len() ==> {
                let err = #[trigger] errors_between(word, received, m)[l];
                &&& err.0 < word.len()
                &&& inverse_power(err.0) < m
                &&& word[err.0 as int] != received[err.0 as int]
                &&& err.1 == gf_add(word[err.0 as int], received[err.0 as int])
            },
    decreases m,
{
    if m > 0 {
        let before = errors_between(word, received, (m - 1) as nat);
        let errs = errors_between(word, received, m);
        lemma_errors_between_differ(word, received, (m - 1) as nat);
        assert forall|l: int| 0 <= l < errs.len() implies {
            let err = #[trigger] errs[l];
            &&& err.0 < word.len()
            &&& inverse_power(err.0) < m
            &&& word[err.0 as int] != received[err.0 as int]
            &&& err.1 == gf_add(word[err.0 as int], received[err.0 as int])
        } by {
            if l < before.len() {
                assert(errs[l] == before[l]);
            }
        }
    }
}

/// The errors between two words are errors in a word of their length.
pub proof fn lemma_errors_between_valid(word: Seq<u8>, received: Seq<u8>, m: nat)
    requires
        words_fit(word, received),
        m <= 63,
    ensures
        errors_valid(errors_between(word, received, m), word.len()),
    decreases m,
{
    let errs = errors_between(word, received, m);
    lemma_errors_between_differ(word, received, m);
    assert forall|l: int| 0 <= l < errs.len() implies (#[trigger] errs[l]).0 < word.len() && 0
        < errs[l].1 < 64 by {
        let d = errs[l].0 as int;
        lemma_add_laws(word[d], received[d], 0);
        lemma_add_cancels(word[d], received[d]);
    }
    if m > 0 {
        let before = errors_between(word, received, (m - 1) as nat);
        lemma_errors_between_valid(word, received, (m - 1) as nat);
        lemma_errors_between_differ(word, received, (m - 1) as nat);
        assert forall|l: int, j: int|
            0 <= l < errs.len() && 0 <= j < errs.len() && l != j implies (#[trigger] errs[l]).0
            != (#[trigger] errs[j]).0 by {
            if l < before.len() {
                assert(errs[l] == before[l]);
            }
            if j < before.len() {
                assert(errs[j] == before[j]);
            }
        }
    }
}

/// There is an error between two words for every symbol in which they differ.
pub proof fn lemma_errors_between_all(word: Seq<u8>, received: Seq<u8>, m: nat, d: int)
    requires
        words_fit(word, received),
        m <= 63,
        0 <= d < word.len(),
        inverse_power(d as nat) < m,
        word[d] != received[d],
    ensures
        exists|l: int|
            0 <= l < errors_between(word, received, m).len() && (#[trigger] errors_between(
                word,
                received,
                m,
            )[l]).0 == d,
    decreases m,
{
    let errs = errors_between(word, received, m);
    let before = errors_between(word, received, (m - 1) as nat);
    if inverse_power(d as nat) == m - 1 {
        assert(errs[errs.len() - 1].0 == d);
    } else {
        lemma_errors_between_all(word, received, (m - 1) as nat, d);
        let l = choose|l: int| 0 <= l < before.len() && (#[trigger] before[l]).0 == d;
        assert(errs[l] == before[l]);
    }
}

/// Adding the difference of the two symbols at the location whose root is α<sup>p</sup>
/// to a word that has the received symbols at the locations with lower roots gives the
/// word that has the received symbol at that location too.
proof fn lemma_error_applied(word: Seq<u8>, received: Seq<u8>, ep: Seq<u8>, p: nat)
    requires
        words_fit(word, received),
        p < 63,
        ep.len() == word.len(),
        poly_add(word, ep) == partly_received(word, received, p),
    ensures
        ({
            let d = inverse_power(p);
            let e = gf_add(word[d as int], received[d as int]);
            d < word.len() ==> poly_add(word, poly_add(ep, single(word.len(), d as int, e)))
                == partly_received(word, received, p + 1)
        }),
        inverse_power(p) >= word.len() ==> poly_add(word, ep) == partly_received(
            word,
            received,
            p + 1,
        ),
{
    let n = word.len();
    let d = inverse_power(p);
    if d < n {
        let e = gf_add(word[d as int], received[d as int]);
        let next = poly_add(ep, single(n, d as int, e));
        // No error before this one is at the same location.
        assert(partly_received(word, received, p)[d as int] == word[d as int]);
        assert(poly_add(word, ep)[d as int] == gf_add(word[d as int], ep[d as int]));
        lemma_add_cancels(word[d as int], gf_add(word[d as int], ep[d as int]));
        lemma_add_cancels(word[d as int], ep[d as int]);
        lemma_add_laws(word[d as int], word[d as int], 0);
        assert(ep[d as int] == 0);
        lemma_add_laws(e, 0, 0);
        lemma_add_cancels(word[d as int], received[d as int]);
        assert(poly_add(word, next)[d as int] == received[d as int]);
        assert forall|j: int| 0 <= j < n implies #[trigger] poly_add(word, next)[j]
            == partly_received(word, received, p + 1)[j] by {
            lemma_location_at_root(j as nat);
            lemma_location_at_root(p);
            if j != d {
                assert(partly_received(word, received, p)[j] == poly_add(word, ep)[j]);
                lemma_add_laws(ep[j], 0, 0);
                assert(next[j] == ep[j]);
                assert(inverse_power(j as nat) != p);
                assert(partly_received(word, received, p + 1)[j] == partly_received(
                    word,
                    received,
                    p,
                )[j]);
                assert(poly_add(word, next)[j] == poly_add(word, ep)[j]);
            } else {
                assert(inverse_power(j as nat) == p);
                assert(partly_received(word, received, p + 1)[j] == received[j]);
                assert(poly_add(word, next)[j] == received[j]);
            }
        }
        assert(poly_add(word, next) =~= partly_received(word, received, p + 1));
    } else {
        assert forall|j: int| 0 <= j < n implies #[trigger] poly_add(word, ep)[j]
            == partly_received(word, received, p + 1)[j] by {
            assert(partly_received(word, received, p)[j] == poly_add(word, ep)[j]);
            lemma_location_at_root(j as nat);
            lemma_location_at_root(p);
            assert(inverse_power(j as nat) != p);
        }
        assert(poly_add(word, ep) =~= partly_received(word, received, p + 1));
    }
}

/// Applying the errors between two words to the word gives the received word, as far as
/// the errors go.
pub proof fn lemma_errors_between_applied(word: Seq<u8>, received: Seq<u8>, m: nat)
    requires
        words_fit(word, received),
        m <= 63,
    ensures
        poly_add(
            word,
            error_poly(
                errors_between(word, received, m),
                word.len(),
                errors_between(word, received, m).len(),
            ),
        ) == partly_received(word, received, m),
    decreases m,
{
    let n = word.len();
    let errs = errors_between(word, received, m);
    lemma_errors_between_valid(word, received, m);
    lemma_error_poly(errs, n, errs.len());
    let next = error_poly(errs, n, errs.len());
    if m == 0 {
        assert forall|j: int| 0 <= j < n implies #[trigger] poly_add(word, next)[j]
            == word[j] by {
            lemma_add_laws(word[j], 0, 0);
        }
        assert(poly_add(word, next) =~= partly_received(word, received, 0));
    } else {
        let p = (m - 1) as nat;
        let before = errors_between(word, received, p);
        let d = inverse_power(p);
        lemma_errors_between_applied(word, received, p);
        lemma_errors_between_valid(word, received, p);
        lemma_error_poly(before, n, before.len());
        let ep = error_poly(before, n, before.len());
        lemma_error_applied(word, received, ep, p);
        if d < n && word[d as int] != received[d as int] {
            let e = gf_add(word[d as int], received[d as int]);
            lemma_error_poly_prefix(before, (d, e), n, before.len());
            assert(next == poly_add(ep, single(n, d as int, e)));
        } else if d < n {
            // The symbols are the same, and their difference adds nothing.
            lemma_add_laws(word[d as int], word[d as int], 0);
            assert(poly_add(ep, single(n, d as int, 0)) =~= ep) by {
                assert forall|j: int| 0 <= j < n implies #[trigger] poly_add(
                    ep,
                    single(n, d as int, 0),
                )[j] == ep[j] by {
                    lemma_add_laws(ep[j], 0, 0);
                }
            }
        }
    }
}

/// The roots of the locator polynomial of the symbol errors among the first `m` powers of
/// α are the roots that belong to the errors at the locations with these roots.
proof fn lemma_roots_found(word: Seq<u8>, received: Seq<u8>, m: nat)
    requires
        words_fit(word, received),
        symbol_errors(word, received).len() < word.len(),
        m <= 63,
    ensures
        roots_below(
            locator_of(
                symbol_errors(word, received),
                word.len(),
                symbol_errors(word, received).len(),
            ),
            m,
        ) == roots_of(errors_between(word, received, m)),
    decreases m,
{
    let n = word.len();
    let errs = symbol_errors(word, received);
    let loc = locator_of(errs, n, errs.len());
    if m == 0 {
        assert(roots_of(errors_between(word, received, 0)) =~= Seq::<u8>::empty());
    } else {
        let p = (m - 1) as nat;
        let d = inverse_power(p);
        let y = antilog(p as int);
        let before = errors_between(word, received, p);
        lemma_roots_found(word, received, p);
        lemma_errors_between_valid(word, received, 63);
        lemma_errors_between_differ(word, received, 63);
        lemma_antilog_range(p as int);
        lemma_values(errs, n, y, errs.len());
        lemma_locator_at_zero(errs, n, y, errs.len());
        lemma_location_at_root(p);
        assert(root_of(d) == y);
        let in_error = d < n && word[d as int] != received[d as int];
        if in_error {
            lemma_errors_between_all(word, received, 63, d as int);
            let l = choose|l: int| 0 <= l < errs.len() && (#[trigger] errs[l]).0 == d;
            lemma_factor_at_root(d, d);
            assert(gf_add(1, gf_mul(antilog(errs[l].0 as int), y)) == 0);
            assert(poly_eval(loc, y) == 0);
            let e = gf_add(word[d as int], received[d as int]);
            assert(roots_of(before.push((d, e))) =~= roots_of(before).push(y));
        } else {
            if poly_eval(loc, y) == 0 {
                let j = choose|j: int|
                    0 <= j < errs.len() && gf_add(
                        1,
                        #[trigger] gf_mul(antilog(errs[j].0 as int), y),
                    ) == 0;
                lemma_factor_at_root(errs[j].0, d);
                assert(errs[j].0 == d);
                assert(false);
            }
        }
    }
}

/// A word that differs from a codeword in no more symbols than half the number of
/// syndromes is corrected to the codeword, and the symbols in which it differs are
/// counted.
pub proof fn lemma_corrected_errors(word: Seq<u8>, received: Seq<u8>, t2: nat)
    requires
        in_field(word),
        in_field(received),
        word.len() == received.len(),
        2 <= t2,
        2 * t2 <= word.len() <= 63,
        syndrome_poly(word, t2) == poly_zero(word.len()),
        2 * symbol_errors(word, received).len() <= t2,
    ensures
        corrected_word(received, t2) == Some((word, symbol_errors(word, received).len())),
{
    let n = word.len();
    let errs = symbol_errors(word, received);
    let m = errs.len();
    let syn = syndrome_poly(received, t2);
    let loc = locator_of(errs, n, m);
    lemma_errors_between_valid(word, received, 63);
    lemma_errors_between_differ(word, received, 63);
    lemma_errors_between_applied(word, received, 63);
    assert(partly_received(word, received, 63) =~= received);
    lemma_error_poly(errs, n, m);
    let ep = error_poly(errs, n, m);
    // The decoder finds the errors.
    lemma_received_syndromes(word, errs, t2);
    lemma_locator_found(errs, n, t2);
    lemma_roots_found(word, received, 63);
    lemma_locator_degree(errs, n, m);
    lemma_evaluator_found(errs, n, t2);
    lemma_errors_at_roots(errs, n, m);
    assert(roots_of(errs).take(m as int) =~= roots_of(errs));
    assert(errs.take(m as int) =~= errs);
    assert(error_list(syn, t2) == Some(errs));
    // Adding the patterns again takes them away.
    lemma_apply_errors(received, errs, m);
    assert(poly_add(received, ep) =~= word) by {
        assert forall|j: int| 0 <= j < n implies #[trigger] poly_add(received, ep)[j]
            == word[j] by {
            assert(received[j] == poly_add(word, ep)[j]);
            lemma_add_cancels(word[j], ep[j]);
        }
    }
}

/// The number of symbols among the first `m` in which two words differ.
pub open spec fn distance_upto(a: Seq<u8>, b: Seq<u8>, m: nat) -> nat
    decreases m,
{
    if m == 0 {
        0
    } else {
        distance_upto(a, b, (m - 1) as nat) + if a[m - 1] != b[m - 1] { 1nat } else { 0nat }
    }
}

/// The number of symbols in which two words of the same length differ.
pub open spec fn symbol_distance(a: Seq<u8>, b: Seq<u8>) -> nat {
    distance_upto(a, b, a.len())
}

/// The errors between two words, listed by their roots, are as many as the symbols in
/// which the words differ: the root 1 belongs to the last symbol, and the roots after it
/// to the symbols from the first on.
proof fn lemma_error_count(a: Seq<u8>, b: Seq<u8>, m: nat)
    requires
        a.len() == b.len(),
        0 < a.len() <= 63,
        m <= 63,
    ensures
        errors_between(reversed(a), reversed(b), m).len() == (if m >= 1 && a[a.len() - 1]
            != b[a.len() - 1] {
            1nat
        } else {
            0nat
        }) + distance_upto(a, b, if a.len() + m >= 64 { (a.len() + m - 64) as nat } else { 0 }),
    decreases m,
{
    let n = a.len();
    if m > 0 {
        lemma_error_count(a, b, (m - 1) as nat);
        let p = (m - 1) as nat;
        let d = inverse_power(p);
        if p >= 1 && d < n {
            assert(reversed(a)[d as int] == a[n + m - 65]);
            assert(reversed(b)[d as int] == b[n + m - 65]);
        }
    }
}

/// A word that differs from a codeword, given in transmission order, in no more symbols
/// than half the number of syndromes decodes to the first `k` symbols of the codeword, and
/// the symbols in which it differs are counted.
pub proof fn lemma_decoded_errors(word: Seq<u8>, received: Seq<u8>, t2: nat, k: nat)
    requires
        in_field(word),
        in_field(received),
        word.len() == received.len(),
        2 <= t2,
        2 * t2 <= word.len() <= 63,
        syndrome_poly(reversed(word), t2) == poly_zero(word.len()),
        2 * symbol_distance(word, received) <= t2,
    ensures
        decoded_data(received, t2, k) == Some(
            (word.take(k as int), symbol_distance(word, received)),
        ),
{
    lemma_error_count(word, received, 63);
    assert(in_field(reversed(word)));
    assert(in_field(reversed(received)));
    lemma_corrected_errors(reversed(word), reversed(received), t2);
    assert(reversed(reversed(word)) =~= word);
}

/// Replacing one symbol of a word by another symbol gives a word at the distance 1.
pub proof fn lemma_distance_one(word: Seq<u8>, pos: int, symbol: u8, m: nat)
    requires
        0 <= pos < word.len(),
        symbol != word[pos],
        m <= word.len(),
    ensures
        distance_upto(word, word.update(pos, symbol), m) == (if pos < m {
            1nat
        } else {
            0nat
        }),
    decreases m,
{
    if m > 0 {
        lemma_distance_one(word, pos, symbol, (m - 1) as nat);
    }
}

} // verus!
