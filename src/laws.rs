use vstd::prelude::*;
use vstd::arithmetic::div_mod::{lemma_add_mod_noop, lemma_mod_twice, lemma_mul_mod_noop};

use crate::backend::{pow_mod, EcBackend, FFTSettings, Fr, G1};
use crate::bitrev::{bit_reversed, is_pow2, lemma_bit_reversed_involution};
use crate::poly::{COSET_SHIFT, low_times_linear, shifted, vanishing_coeffs, vanishing_low};

verus! {

/// Coefficient `j` of `p`, zero outside its range.
pub open spec fn coef(p: Seq<int>, j: int) -> int {
    if 0 <= j < p.len() {
        p[j]
    } else {
        0
    }
}

/// The value at `x` of the polynomial with coefficients `p`, lowest first.
pub open spec fn poly_eval(p: Seq<int>, x: int) -> int
    decreases p.len(),
{
    if p.len() == 0 {
        0
    } else {
        p[0] + x * poly_eval(p.drop_first(), x)
    }
}

/// The product of `(x - r)` over the roots `r`.
pub open spec fn roots_product(roots: Seq<int>, x: int) -> int
    decreases roots.len(),
{
    if roots.len() == 0 {
        1
    } else {
        roots_product(roots.drop_last(), x) * (x - roots.last())
    }
}

/// The coefficients, over the integers, of the product of `(x - r)` over the roots.
pub open spec fn vanishing_exact(roots: Seq<int>) -> Seq<int>
    decreases roots.len(),
{
    if roots.len() == 0 {
        seq![1int]
    } else {
        let p = vanishing_exact(roots.drop_last());
        let r = roots.last();
        Seq::new(p.len() + 1, |j: int| coef(p, j) * (-r) + coef(p, j - 1))
    }
}

proof fn lemma_vanishing_exact_len(roots: Seq<int>)
    ensures
        vanishing_exact(roots).len() == roots.len() + 1,
    decreases roots.len(),
{
    if roots.len() > 0 {
        lemma_vanishing_exact_len(roots.drop_last());
    }
}

/// Multiplying by `(x + c)` and adding `a` to the constant coefficient.
proof fn lemma_eval_times_linear(p: Seq<int>, q: Seq<int>, c: int, a: int, x: int)
    requires
        q.len() == p.len() + 1,
        forall|j: int| 0 <= j < q.len() ==> #[trigger] q[j] == coef(p, j) * c + coef(p, j - 1) + if j == 0 {
            a
        } else {
            0
        },
    ensures
        poly_eval(q, x) == poly_eval(p, x) * (x + c) + a,
    decreases p.len(),
{
    if p.len() == 0 {
        assert(q[0] == a);
        assert(poly_eval(q.drop_first(), x) == 0);
    } else {
        let p1 = p.drop_first();
        let q1 = q.drop_first();
        assert forall|j: int| 0 <= j < q1.len() implies #[trigger] q1[j] == coef(p1, j) * c + coef(p1, j - 1) + if j
            == 0 {
            p[0]
        } else {
            0
        } by {
            assert(q1[j] == q[j + 1]);
            assert(coef(p, j + 1) == coef(p1, j));
            if j > 0 {
                assert(coef(p, j) == coef(p1, j - 1));
            }
        }
        lemma_eval_times_linear(p1, q1, c, p[0], x);
        let e1 = poly_eval(p1, x);
        assert(q[0] == p[0] * c + a);
        assert(poly_eval(q, x) == q[0] + x * poly_eval(q1, x));
        assert(poly_eval(p, x) == p[0] + x * e1);
        assert(q[0] + x * (e1 * (x + c) + p[0]) == (p[0] + x * e1) * (x + c) + a) by (nonlinear_arith)
            requires
                q[0] == p[0] * c + a,
        ;
    }
}

/// The integer coefficients evaluate to the product of the linear factors.
proof fn lemma_vanishing_exact_eval(roots: Seq<int>, x: int)
    ensures
        poly_eval(vanishing_exact(roots), x) == roots_product(roots, x),
    decreases roots.len(),
{
    if roots.len() == 0 {
        let p = seq![1int];
        assert(p.drop_first() =~= Seq::<int>::empty());
        assert(poly_eval(p.drop_first(), x) == 0);
        assert(x * 0 == 0);
        assert(poly_eval(p, x) == 1 + x * 0);
    } else {
        let prev = roots.drop_last();
        lemma_vanishing_exact_eval(prev, x);
        let p = vanishing_exact(prev);
        let q = vanishing_exact(roots);
        lemma_eval_times_linear(p, q, -roots.last(), 0, x);
    }
}

/// A product of linear factors vanishes at each of its roots.
proof fn lemma_roots_product_at_root(roots: Seq<int>, i: int)
    requires
        0 <= i < roots.len(),
    ensures
        roots_product(roots, roots[i]) == 0,
    decreases roots.len(),
{
    let x = roots[i];
    if i == roots.len() - 1 {
        assert(x - roots.last() == 0);
        assert(roots_product(roots.drop_last(), x) * 0 == 0);
    } else {
        lemma_roots_product_at_root(roots.drop_last(), i);
        assert(roots.drop_last()[i] == x);
        assert(0 * (x - roots.last()) == 0);
    }
}

/// Coefficients that agree modulo `m` give values that agree modulo `m`.
proof fn lemma_eval_congruent(p: Seq<int>, q: Seq<int>, x: int, m: int)
    requires
        m > 0,
        p.len() == q.len(),
        forall|j: int| 0 <= j < p.len() ==> #[trigger] p[j] % m == q[j] % m,
    ensures
        poly_eval(p, x) % m == poly_eval(q, x) % m,
    decreases p.len(),
{
    if p.len() > 0 {
        let p1 = p.drop_first();
        let q1 = q.drop_first();
        assert forall|j: int| 0 <= j < p1.len() implies #[trigger] p1[j] % m == q1[j] % m by {
            assert(p1[j] == p[j + 1] && q1[j] == q[j + 1]);
        }
        lemma_eval_congruent(p1, q1, x, m);
        let ep = poly_eval(p1, x);
        let eq = poly_eval(q1, x);
        lemma_mul_mod_noop(x, ep, m);
        lemma_mul_mod_noop(x, eq, m);
        lemma_add_mod_noop(p[0], x * ep, m);
        lemma_add_mod_noop(q[0], x * eq, m);
    }
}

/// The reduced coefficients that the library computes agree with the integer ones
/// modulo `m`.
proof fn lemma_vanishing_coeffs_congruent(roots: Seq<int>, m: int)
    requires
        m > 0,
        roots.len() >= 1,
    ensures
        vanishing_coeffs(roots, m).len() == vanishing_exact(roots).len(),
        forall|j: int|
            0 <= j < vanishing_exact(roots).len() ==> #[trigger] vanishing_coeffs(roots, m)[j] % m
                == vanishing_exact(roots)[j] % m,
    decreases roots.len(),
{
    lemma_vanishing_exact_len(roots);
    let r = roots.last();
    let c = (-r) % m;
    let e = vanishing_exact(roots);
    let v = vanishing_coeffs(roots, m);
    if roots.len() == 1 {
        let prev = roots.drop_last();
        assert(vanishing_exact(prev) == seq![1int]);
        assert(e[0] == -r);
        assert(e[1] == 1);
        assert(v[0] == (-roots[0]) % m);
        assert(roots[0] == r);
        lemma_mod_twice(-r, m);
        lemma_mod_twice(1, m);
        assert(v[1] == 1int % m);
        assert forall|j: int| 0 <= j < e.len() implies #[trigger] v[j] % m == e[j] % m by {
            if j == 0 {
                assert(v[0] % m == e[0] % m);
            } else {
                assert(v[1] % m == e[1] % m);
            }
        }
    } else {
        let prev = roots.drop_last();
        lemma_vanishing_coeffs_congruent(prev, m);
        let low = vanishing_low(prev, m);
        let p = vanishing_exact(prev);
        let d = low.len();
        crate::poly::lemma_vanishing_low_len(prev, m);
        lemma_vanishing_exact_len(prev);
        assert(p.len() == d + 1);
        assert(v == low_times_linear(low, c, m).push(1int % m));
        let vp = vanishing_coeffs(prev, m);
        assert(vp == low.push(1int % m));
        lemma_mod_twice(-r, m);
        lemma_mod_twice(1, m);
        assert(vp[d as int] == 1int % m);
        assert forall|j: int| 0 <= j < e.len() implies #[trigger] v[j] % m == e[j] % m by {
            assert(e[j] == coef(p, j) * (-r) + coef(p, j - 1));
            if j == d + 1 {
                assert(coef(p, j) == 0);
                assert(coef(p, j) * (-r) == 0);
                assert(coef(p, j - 1) == p[d as int]);
                assert(e[j] == p[d as int]);
                assert(p[d as int] % m == vp[d as int] % m);
                assert(v[j] == 1int % m);
            } else if j == d {
                let b = low[j - 1];
                assert(vp[j - 1] == b);
                assert(p[j - 1] % m == b % m);
                assert(p[j] % m == 1int % m);
                lemma_mul_mod_noop(p[j], -r, m);
                lemma_mul_mod_noop(1, -r, m);
                assert((p[j] * (-r)) % m == c);
                lemma_add_mod_noop(p[j] * (-r), p[j - 1], m);
                lemma_add_mod_noop(c, b, m);
                assert(v[j] == (c + b) % m);
                lemma_mod_twice(c + b, m);
            } else if j == 0 {
                let a = low[0];
                assert(vp[0] == a);
                assert(p[0] % m == a % m);
                assert(e[0] == p[0] * (-r));
                lemma_mul_mod_noop(p[0], -r, m);
                lemma_mul_mod_noop(a, c, m);
                assert(v[0] == (a * c) % m);
                lemma_mod_twice(a * c, m);
            } else {
                let a = low[j];
                let b = low[j - 1];
                assert(vp[j] == a && vp[j - 1] == b);
                assert(p[j] % m == a % m);
                assert(p[j - 1] % m == b % m);
                lemma_add_mod_noop(p[j] * (-r), p[j - 1], m);
                lemma_mul_mod_noop(p[j], -r, m);
                lemma_mul_mod_noop(a, c, m);
                assert((p[j] * (-r)) % m == (a * c) % m);
                lemma_add_mod_noop((a * c) % m, b, m);
                lemma_mod_twice(a * c, m);
                assert(v[j] == ((a * c) % m + b) % m);
                lemma_mod_twice((a * c) % m + b, m);
            }
        }
    }
}

/// The vanishing polynomial that the library builds from `roots` takes, at every
/// `x`, the value of the product of `(x - r)` over the roots, modulo `m`; so it is
/// zero at each root.
pub proof fn lemma_vanishing_polynomial_values(roots: Seq<int>, x: int, m: int)
    requires
        m > 0,
        roots.len() >= 1,
    ensures
        poly_eval(vanishing_coeffs(roots, m), x) % m == roots_product(roots, x) % m,
        forall|i: int| 0 <= i < roots.len() ==> poly_eval(vanishing_coeffs(roots, m), #[trigger] roots[i]) % m == 0,
{
    lemma_vanishing_coeffs_congruent(roots, m);
    lemma_eval_congruent(vanishing_coeffs(roots, m), vanishing_exact(roots), x, m);
    lemma_vanishing_exact_eval(roots, x);
    assert forall|i: int| 0 <= i < roots.len() implies poly_eval(vanishing_coeffs(roots, m), #[trigger] roots[i]) % m
        == 0 by {
        assert(0int % m == 0);
        lemma_eval_congruent(vanishing_coeffs(roots, m), vanishing_exact(roots), roots[i], m);
        lemma_vanishing_exact_eval(roots, roots[i]);
        lemma_roots_product_at_root(roots, i);
    }
}

/// Powers of two inverse elements are inverse.
proof fn lemma_pow_mod_inverse(g: int, h: int, i: nat, m: int)
    requires
        m > 0,
        (g * h) % m == 1int % m,
    ensures
        (pow_mod(g, i, m) * pow_mod(h, i, m)) % m == 1int % m,
    decreases i,
{
    if i == 0 {
        lemma_mul_mod_noop(1, 1, m);
    } else {
        let a = pow_mod(g, (i - 1) as nat, m);
        let b = pow_mod(h, (i - 1) as nat, m);
        lemma_pow_mod_inverse(g, h, (i - 1) as nat, m);
        lemma_mul_mod_noop(g * a, h * b, m);
        assert((g * a) * (h * b) == (g * h) * (a * b)) by (nonlinear_arith);
        lemma_mul_mod_noop(g * h, a * b, m);
        lemma_mul_mod_noop(1, 1, m);
    }
}

/// Shifting coefficients by `g` and then by an inverse of `g` gives back every
/// coefficient modulo `m`: the shifts on either side of the coset transforms undo
/// each other.
pub proof fn lemma_shift_by_inverse(p: Seq<int>, g: int, h: int, m: int)
    requires
        m > 0,
        (g * h) % m == 1int % m,
    ensures
        shifted(shifted(p, g, m), h, m).len() == p.len(),
        forall|i: int| 0 <= i < p.len() ==> #[trigger] shifted(shifted(p, g, m), h, m)[i] % m == p[i] % m,
{
    assert forall|i: int| 0 <= i < p.len() implies #[trigger] shifted(shifted(p, g, m), h, m)[i] % m == p[i] % m by {
        if i > 0 {
            let a = pow_mod(g, i as nat, m);
            let b = pow_mod(h, i as nat, m);
            lemma_pow_mod_inverse(g, h, i as nat, m);
            let once = (p[i] * a) % m;
            assert(shifted(shifted(p, g, m), h, m)[i] == (once * b) % m);
            lemma_mul_mod_noop(p[i] * a, b, m);
            lemma_mod_twice(h * pow_mod(h, (i - 1) as nat, m), m);
            assert(b % m == b);
            lemma_mod_twice(p[i] * a, m);
            lemma_mod_twice(once * b, m);
            assert((p[i] * a) * b == p[i] * (a * b)) by (nonlinear_arith);
            lemma_mul_mod_noop(p[i], a * b, m);
            lemma_mul_mod_noop(p[i], 1, m);
            lemma_mod_twice(p[i], m);
        }
    }
}

/// Over the scalar field of a backend, the vanishing polynomial built from `roots`
/// takes the value of the product of `(x - r)` at every `x`, and is zero at each root.
pub proof fn lemma_vanishing_polynomial_in_field<F: Fr>(roots: Seq<int>, x: int)
    requires
        roots.len() >= 1,
    ensures
        poly_eval(vanishing_coeffs(roots, F::modulus()), x) % F::modulus() == roots_product(roots, x) % F::modulus(),
        forall|i: int|
            0 <= i < roots.len() ==> poly_eval(vanishing_coeffs(roots, F::modulus()), #[trigger] roots[i]) % F::modulus()
                == 0,
{
    F::lemma_modulus();
    lemma_vanishing_polynomial_values(roots, x, F::modulus());
}

/// The coset transforms undo each other: shifting by the coset generator and
/// transforming, then transforming back and shifting by the generator's inverse,
/// gives back every coefficient modulo the field order. These are the values that
/// `coset_fft` and then `coset_ifft` compute.
pub proof fn lemma_coset_round_trip<B: EcBackend>(fs: &B::FFTSettings, a: Seq<int>)
    requires
        is_pow2(a.len()),
        a.len() <= fs.max_width_spec(),
        is_pow2(fs.max_width_spec()),
        COSET_SHIFT as int % B::Fr::modulus() != 0,
    ensures
        ({
            let m = B::Fr::modulus();
            let g = COSET_SHIFT as int % m;
            let back = shifted(
                fs.fft_fr_spec(fs.fft_fr_spec(shifted(a, g, m), false), true),
                B::Fr::div_spec(1int % m, g),
                m,
            );
            back.len() == a.len() && forall|i: int| 0 <= i < a.len() ==> #[trigger] back[i] % m == a[i] % m
        }),
{
    let m = B::Fr::modulus();
    B::Fr::lemma_modulus();
    let g = COSET_SHIFT as int % m;
    let h = B::Fr::div_spec(1int % m, g);
    lemma_mod_twice(COSET_SHIFT as int, m);
    B::Fr::lemma_div(1int % m, g);
    lemma_mod_twice(1, m);
    assert(h * g == g * h) by (nonlinear_arith);
    let sa = shifted(a, g, m);
    fs.lemma_fft_fr_round_trip(sa);
    let x = fs.fft_fr_spec(fs.fft_fr_spec(sa, false), true);
    lemma_shift_by_inverse(a, g, h, m);
    let back = shifted(x, h, m);
    assert forall|i: int| 0 <= i < a.len() implies #[trigger] back[i] % m == a[i] % m by {
        if i == 0 {
            assert(x[0] == sa[0] % m);
            lemma_mod_twice(a[0], m);
        } else {
            lemma_mod_twice(a[i] * pow_mod(g, i as nat, m), m);
            assert(x[i] == sa[i]);
            assert(back[i] == shifted(sa, h, m)[i]);
        }
    }
}

/// Converting the bit-reversed Lagrange form of a polynomial back to monomial form
/// gives its coefficients back, modulo the field order: the two bit-reversals cancel
/// and the inverse transform undoes the forward one.
pub proof fn lemma_lagrange_round_trip<F: Fr, TG1: G1, S: FFTSettings<F, TG1>>(fs: &S, mono: Seq<int>)
    requires
        is_pow2(mono.len()),
        mono.len() <= fs.max_width_spec(),
        is_pow2(fs.max_width_spec()),
    ensures
        ({
            let back = fs.fft_fr_spec(bit_reversed(bit_reversed(fs.fft_fr_spec(mono, false))), true);
            back.len() == mono.len() && forall|i: int| 0 <= i < mono.len() ==> #[trigger] back[i] == mono[i] % F::modulus()
        }),
{
    fs.lemma_fft_fr_round_trip(mono);
    lemma_bit_reversed_involution(fs.fft_fr_spec(mono, false));
}

} // verus!
