use vstd::prelude::*;

use crate::backend::{preset_ok, Preset, dft, pow_mod, lemma_pow_mod_step, vals, EcBackend, FFTSettings, Fr};
use crate::bitrev::is_pow2;
use crate::DasError;

verus! {

/// The coset generator.
pub const COSET_SHIFT: u64 = 7;

/// `p[i]` multiplied by `f^i` for every `i >= 1`; `p[0]` unchanged.
pub open spec fn shifted(p: Seq<int>, f: int, m: int) -> Seq<int> {
    Seq::new(
        p.len(),
        |i: int|
            if i == 0 {
                p[0]
            } else {
                (p[i] * pow_mod(f, i as nat, m)) % m
            },
    )
}

/// Multiplies coefficient `i` of `poly` by `shift_factor^i`.
pub fn shift_poly<B: EcBackend>(poly: &mut Vec<B::Fr>, shift_factor: &B::Fr)
    requires
        forall|i: int| 0 <= i < old(poly)@.len() ==> !(#[trigger] old(poly)@[i]).is_null_spec(),
    ensures
        final(poly)@.len() == old(poly)@.len(),
        vals(final(poly)@) == shifted(vals(old(poly)@), shift_factor.val(), B::Fr::modulus()),
        forall|i: int| 0 <= i < final(poly)@.len() ==> !(#[trigger] final(poly)@[i]).is_null_spec(),
{
    let ghost m = B::Fr::modulus();
    let ghost f = shift_factor.val();
    let ghost orig = poly@;
    let n = poly.len();
    let mut factor_power = B::Fr::one();
    let mut i: usize = 1;
    while i < n
        invariant
            m == B::Fr::modulus(),
            f == shift_factor.val(),
            n == poly@.len(),
            orig.len() == n,
            1 <= i,
            i <= n || n == 0,
            factor_power.val() == pow_mod(f, (i - 1) as nat, m),
            forall|j: int| 0 <= j < n ==> !(#[trigger] poly@[j]).is_null_spec(),
            forall|j: int|
                0 <= j < n ==> #[trigger] poly@[j].val() == if 1 <= j < i {
                    (orig[j].val() * pow_mod(f, j as nat, m)) % m
                } else {
                    orig[j].val()
                },
        decreases n - i,
    {
        factor_power = factor_power.mul(shift_factor);
        proof {
            lemma_pow_mod_step(f, i as nat, m);
        }
        let c = poly[i].mul(&factor_power);
        poly.set(i, c);
        assert(poly@[i as int].val() == (orig[i as int].val() * pow_mod(f, i as nat, m)) % m);
        i = i + 1;
    }
    assert(vals(poly@) =~= shifted(vals(orig), f, m));
}

/// Evaluates the polynomial with coefficients `input` on the coset of the domain
/// shifted by the coset generator.
pub fn coset_fft<B: EcBackend>(input: Vec<B::Fr>, fft_settings: &B::FFTSettings) -> (r: Result<
    Vec<B::Fr>,
    DasError,
>)
    requires
        forall|i: int| 0 <= i < input@.len() ==> !(#[trigger] input@[i]).is_null_spec(),
    ensures
        input@.len() == 0 ==> r == Err::<Vec<B::Fr>, DasError>(DasError::EmptyInput),
        is_pow2(input@.len()) && input@.len() <= fft_settings.max_width_spec() && is_pow2(fft_settings.max_width_spec())
            ==> r is Ok,
        r matches Ok(v) ==> vals(v@) == fft_settings.fft_fr_spec(
            shifted(vals(input@), COSET_SHIFT as int % B::Fr::modulus(), B::Fr::modulus()),
            false,
        ),
        r matches Ok(v) ==> vals(v@) == dft(
            shifted(vals(input@), COSET_SHIFT as int % B::Fr::modulus(), B::Fr::modulus()),
            fft_settings.root_spec(fft_settings.max_width_spec() / input@.len()),
            B::Fr::modulus(),
        ) && (forall|i: int| 0 <= i < v@.len() ==> !(#[trigger] v@[i]).is_null_spec()),
{
    if input.len() == 0 {
        return Err(DasError::EmptyInput);
    }
    let mut input = input;
    shift_poly::<B>(&mut input, &B::Fr::from_u64(COSET_SHIFT));
    fft_settings.fft_fr(input.as_slice(), false)
}

/// The values whose `n`-fold multiples are the inverse transform of `a`.
pub open spec fn is_inverse_dft(u: Seq<int>, a: Seq<int>, w_inv: int, m: int) -> bool {
    &&& u.len() == a.len()
    &&& forall|k: int| 0 <= k < u.len() ==> (a.len() * #[trigger] u[k]) % m == dft(a, w_inv, m)[k]
}

/// The root of unity that inverts a transform of length `n`.
pub open spec fn inverse_root<F: Fr, G: crate::backend::G1, S: FFTSettings<F, G>>(s: &S, n: nat) -> int {
    s.root_spec((s.max_width_spec() - s.max_width_spec() / n) as nat)
}

/// Interpolates from values on the coset back to coefficients: the inverse of
/// `coset_fft`.
pub fn coset_ifft<B: EcBackend>(input: &[B::Fr], fft_settings: &B::FFTSettings) -> (r: Result<
    Vec<B::Fr>,
    DasError,
>)
    ensures
        input@.len() == 0 ==> r == Err::<Vec<B::Fr>, DasError>(DasError::EmptyInput),
        is_pow2(input@.len()) && input@.len() <= fft_settings.max_width_spec() && is_pow2(fft_settings.max_width_spec())
            && COSET_SHIFT as int % B::Fr::modulus() != 0 ==> r is Ok,
        r matches Ok(v) ==> vals(v@) == shifted(
            fft_settings.fft_fr_spec(vals(input@), true),
            B::Fr::div_spec(1int % B::Fr::modulus(), COSET_SHIFT as int % B::Fr::modulus()),
            B::Fr::modulus(),
        ),
        r matches Ok(v) ==> (forall|i: int| 0 <= i < v@.len() ==> !(#[trigger] v@[i]).is_null_spec())
            && exists|u: Seq<int>, g: int|
            #![trigger shifted(u, g, B::Fr::modulus())]
            (g * (COSET_SHIFT as int % B::Fr::modulus())) % B::Fr::modulus() == (1int % B::Fr::modulus())
                % B::Fr::modulus() && is_inverse_dft(
                u,
                vals(input@),
                inverse_root(fft_settings, input@.len()),
                B::Fr::modulus(),
            ) && vals(v@) == shifted(u, g, B::Fr::modulus()),
{
    if input.len() == 0 {
        return Err(DasError::EmptyInput);
    }
    let mut output = match fft_settings.fft_fr(input, true) {
        Ok(v) => v,
        Err(e) => {
            return Err(e);
        },
    };
    proof {
        B::Fr::lemma_modulus();
        vstd::arithmetic::div_mod::lemma_mod_twice(COSET_SHIFT as int, B::Fr::modulus());
    }
    let inv_shift = match B::Fr::one().div(&B::Fr::from_u64(COSET_SHIFT)) {
        Ok(q) => q,
        Err(e) => {
            return Err(e);
        },
    };
    let ghost u = vals(output@);
    shift_poly::<B>(&mut output, &inv_shift);
    assert(is_inverse_dft(u, vals(input@), inverse_root(fft_settings, input@.len()), B::Fr::modulus()));
    assert(vals(output@) == shifted(u, inv_shift.val(), B::Fr::modulus()));
    Ok(output)
}

/// One step of the product `(x - r_0)(x - r_1)...`: the coefficients below the
/// leading one of a monic polynomial `low`, multiplied by `(x + c)`.
pub open spec fn low_times_linear(low: Seq<int>, c: int, m: int) -> Seq<int> {
    Seq::new(
        low.len() + 1,
        |j: int|
            if j == low.len() {
                (c + low[j - 1]) % m
            } else if j == 0 {
                (low[0] * c) % m
            } else {
                ((low[j] * c) % m + low[j - 1]) % m
            },
    )
}

/// The coefficients below the leading one of the product of `(x - r)` over the
/// roots `r`.
pub open spec fn vanishing_low(roots: Seq<int>, m: int) -> Seq<int>
    recommends
        roots.len() >= 1,
    decreases roots.len(),
{
    if roots.len() <= 1 {
        seq![(-roots[0]) % m]
    } else {
        low_times_linear(vanishing_low(roots.drop_last(), m), (-roots.last()) % m, m)
    }
}

/// The coefficients, lowest first, of the monic product of `(x - r)` over the roots.
pub open spec fn vanishing_coeffs(roots: Seq<int>, m: int) -> Seq<int> {
    vanishing_low(roots, m).push(1int % m)
}

/// A monic product of `d` linear factors has `d` coefficients below its leading one.
pub proof fn lemma_vanishing_low_len(roots: Seq<int>, m: int)
    requires
        roots.len() >= 1,
    ensures
        vanishing_low(roots, m).len() == roots.len(),
    decreases roots.len(),
{
    if roots.len() > 1 {
        lemma_vanishing_low_len(roots.drop_last(), m);
    }
}

/// The coefficients of the product of `(x - r)` over `roots`, lowest first, with
/// the leading one last.
pub fn compute_vanishing_polynomial_from_roots<B: EcBackend>(roots: &[B::Fr]) -> (r: Result<
    Vec<B::Fr>,
    DasError,
>)
    ensures
        roots@.len() == 0 <==> r is Err,
        r is Err ==> r == Err::<Vec<B::Fr>, DasError>(DasError::EmptyInput),
        r matches Ok(p) ==> vals(p@) == vanishing_coeffs(vals(roots@), B::Fr::modulus()) && (forall|
            i: int,
        | 0 <= i < p@.len() ==> !(#[trigger] p@[i]).is_null_spec()),
{
    if roots.len() == 0 {
        return Err(DasError::EmptyInput);
    }
    let ghost m = B::Fr::modulus();
    let ghost rs = vals(roots@);
    let mut poly: Vec<B::Fr> = Vec::new();
    poly.push(roots[0].negate());
    assert(vals(poly@) =~= vanishing_low(rs.take(1), m));
    let n = roots.len();
    let mut i: usize = 1;
    while i < n
        invariant
            m == B::Fr::modulus(),
            rs == vals(roots@),
            n == roots@.len(),
            1 <= i <= n,
            vals(poly@) == vanishing_low(rs.take(i as int), m),
            forall|t: int| 0 <= t < poly@.len() ==> !(#[trigger] poly@[t]).is_null_spec(),
        decreases n - i,
    {
        proof {
            lemma_vanishing_low_len(rs.take(i as int), m);
        }
        let ghost low = vals(poly@);
        let neg_root = roots[i].negate();
        let ghost c = neg_root.val();
        let top = neg_root.add(&poly[i - 1]);
        poly.push(top);
        let ghost target = low_times_linear(low, c, m);
        let mut j: usize = i - 1;
        while j >= 1
            invariant
                m == B::Fr::modulus(),
                c == neg_root.val(),
                low.len() == i,
                target == low_times_linear(low, c, m),
                poly@.len() == i + 1,
                j < i,
                poly@[i as int].val() == target[i as int],
                forall|t: int| 0 <= t <= j ==> #[trigger] poly@[t].val() == low[t],
                forall|t: int| j < t <= i ==> #[trigger] poly@[t].val() == target[t],
                forall|t: int| 0 <= t < poly@.len() ==> !(#[trigger] poly@[t]).is_null_spec(),
            decreases j,
        {
            let v = poly[j].mul(&neg_root).add(&poly[j - 1]);
            poly.set(j, v);
            j = j - 1;
        }
        let v0 = poly[0].mul(&neg_root);
        poly.set(0, v0);
        proof {
            let next = rs.take(i as int + 1);
            assert(next.drop_last() =~= rs.take(i as int));
            assert(next.last() == rs[i as int]);
            assert(vals(poly@) =~= target);
        }
        i = i + 1;
    }
    poly.push(B::Fr::one());
    assert(rs.take(n as int) =~= rs);
    assert(vals(poly@) =~= vanishing_coeffs(rs, m));
    Ok(poly)
}

/// A vector of `n` zeros.
pub fn zeros<B: EcBackend>(n: usize) -> (r: Vec<B::Fr>)
    ensures
        r@.len() == n,
        forall|x: int| 0 <= x < n ==> (#[trigger] r@[x]).val() == 0 && !r@[x].is_null_spec(),
{
    let mut v: Vec<B::Fr> = Vec::new();
    let mut t: usize = 0;
    while t < n
        invariant
            v@.len() == t,
            t <= n,
            forall|x: int| 0 <= x < t ==> (#[trigger] v@[x]).val() == 0 && !v@[x].is_null_spec(),
        decreases n - t,
    {
        v.push(B::Fr::zero());
        t = t + 1;
    }
    v
}

/// Entry `x` of the sequence that holds `short[i]` at `i * l` and zeros elsewhere.
pub open spec fn spread(short: Seq<int>, l: int, x: int) -> int {
    if x % l == 0 && x / l < short.len() {
        short[x / l]
    } else {
        0
    }
}

/// The roots whose vanishing polynomial blanks out the missing cells: for each
/// missing index, the root of unity at that index times the stride.
pub open spec fn missing_cell_roots<F: Fr, G: crate::backend::G1, S: FFTSettings<F, G>>(
    s: &S,
    missing: Seq<usize>,
    stride: nat,
) -> Seq<int> {
    Seq::new(missing.len(), |i: int| s.root_spec(missing[i] as nat * stride))
}

/// The vanishing polynomial of the missing cells, spread over the extended domain:
/// coefficient `i` of the short polynomial stands at `i * FIELD_ELEMENTS_PER_CELL`,
/// zeros elsewhere.
pub fn vanishing_polynomial_for_missing_cells<const FIELD_ELEMENTS_PER_CELL: usize, B: EcBackend, P: Preset>(
    missing_cell_indicies: &[usize],
    fft_settings: &B::FFTSettings,
) -> (r: Result<Vec<B::Fr>, DasError>)
    requires
        preset_ok::<P>(FIELD_ELEMENTS_PER_CELL as nat),
    ensures
        missing_cell_indicies@.len() == 0 ==> r == Err::<Vec<B::Fr>, DasError>(DasError::EmptyInput),
        missing_cell_indicies@.len() >= P::CELLS_PER_EXT_BLOB ==> r == Err::<Vec<B::Fr>, DasError>(
            DasError::InsufficientCells,
        ),
        0 < missing_cell_indicies@.len() < P::CELLS_PER_EXT_BLOB ==> (r is Err <==> exists|i: int|
            0 <= i < missing_cell_indicies@.len() && #[trigger] missing_cell_indicies@[i]
                * FIELD_ELEMENTS_PER_CELL > fft_settings.max_width_spec()),
        r is Err ==> r == Err::<Vec<B::Fr>, DasError>(DasError::EmptyInput) || r == Err::<Vec<B::Fr>, DasError>(DasError::InsufficientCells)
            || r == Err::<Vec<B::Fr>, DasError>(DasError::InvalidIndex),
        r matches Ok(v) ==> v@.len() == P::FIELD_ELEMENTS_PER_EXT_BLOB && (forall|t: int|
            0 <= t < v@.len() ==> !(#[trigger] v@[t]).is_null_spec()) && (forall|t: int|
            0 <= t < v@.len() ==> #[trigger] v@[t].val() == spread(
                vanishing_coeffs(
                    missing_cell_roots(fft_settings, missing_cell_indicies@, FIELD_ELEMENTS_PER_CELL as nat),
                    B::Fr::modulus(),
                ),
                FIELD_ELEMENTS_PER_CELL as int,
                t,
            )),
{
    if missing_cell_indicies.len() == 0 {
        return Err(DasError::EmptyInput);
    }
    if missing_cell_indicies.len() >= P::CELLS_PER_EXT_BLOB {
        return Err(DasError::InsufficientCells);
    }
    let stride = P::FIELD_ELEMENTS_PER_EXT_BLOB / P::CELLS_PER_EXT_BLOB;
    assert(stride == FIELD_ELEMENTS_PER_CELL) by (nonlinear_arith)
        requires
            P::CELLS_PER_EXT_BLOB * FIELD_ELEMENTS_PER_CELL == P::FIELD_ELEMENTS_PER_EXT_BLOB,
            P::CELLS_PER_EXT_BLOB >= 2,
            stride == P::FIELD_ELEMENTS_PER_EXT_BLOB / P::CELLS_PER_EXT_BLOB,
    ;
    let max_width = fft_settings.get_max_width();
    let n = missing_cell_indicies.len();
    let mut roots: Vec<B::Fr> = Vec::new();
    let mut i: usize = 0;
    while i < n
        invariant
            n == missing_cell_indicies@.len(),
            0 < n < P::CELLS_PER_EXT_BLOB,
            stride == FIELD_ELEMENTS_PER_CELL,
            stride >= 1,
            max_width == fft_settings.max_width_spec(),
            i <= n,
            roots@.len() == i,
            vals(roots@) == missing_cell_roots(fft_settings, missing_cell_indicies@, stride as nat).take(i as int),
            forall|t: int| 0 <= t < i ==> #[trigger] missing_cell_indicies@[t] * stride <= max_width,
        decreases n - i,
    {
        let idx = missing_cell_indicies[i];
        if idx > max_width / stride {
            proof {
                assert(idx * stride > max_width) by (nonlinear_arith)
                    requires
                        idx > max_width / stride,
                        stride >= 1,
                ;
            }
            return Err(DasError::InvalidIndex);
        }
        proof {
            assert(idx * stride <= max_width) by (nonlinear_arith)
                requires
                    idx <= max_width / stride,
                    stride >= 1,
            ;
        }
        let root = fft_settings.get_roots_of_unity_at(idx * stride);
        roots.push(root);
        i = i + 1;
        assert(vals(roots@) =~= missing_cell_roots(fft_settings, missing_cell_indicies@, stride as nat).take(i as int));
    }
    let short_vanishing_poly = match compute_vanishing_polynomial_from_roots::<B>(roots.as_slice()) {
        Ok(p) => p,
        Err(e) => {
            return Err(e);
        },
    };
    let ghost short = vals(short_vanishing_poly@);
    assert(roots@.len() == n);
    assert(missing_cell_roots(fft_settings, missing_cell_indicies@, stride as nat).take(n as int)
        =~= missing_cell_roots(fft_settings, missing_cell_indicies@, stride as nat));
    proof {
        lemma_vanishing_low_len(vals(roots@), B::Fr::modulus());
    }
    let ext = P::FIELD_ELEMENTS_PER_EXT_BLOB;
    let mut vanishing_poly = zeros::<B>(ext);
    let slen = short_vanishing_poly.len();
    proof {
        lemma_vanishing_low_len(vals(roots@), B::Fr::modulus());
        assert(vals(roots@).len() == n);
        assert(vals(short_vanishing_poly@) == vanishing_coeffs(vals(roots@), B::Fr::modulus()));
        assert(vals(short_vanishing_poly@).len() == slen);
        assert(slen == n + 1);
        assert forall|x: int| 0 <= x < ext implies #[trigger] spread(short.take(0), FIELD_ELEMENTS_PER_CELL as int, x) == 0 by {
            assert(x / (FIELD_ELEMENTS_PER_CELL as int) >= 0) by (nonlinear_arith)
                requires
                    x >= 0,
                    FIELD_ELEMENTS_PER_CELL >= 1,
            ;
        }
    }
    let mut i: usize = 0;
    while i < slen
        invariant
            slen == short.len(),
            slen == n + 1,
            n < P::CELLS_PER_EXT_BLOB,
            preset_ok::<P>(FIELD_ELEMENTS_PER_CELL as nat),
            short == vals(short_vanishing_poly@),
            forall|x: int| 0 <= x < slen ==> !(#[trigger] short_vanishing_poly@[x]).is_null_spec(),
            ext == P::FIELD_ELEMENTS_PER_EXT_BLOB,
            vanishing_poly@.len() == ext,
            i <= slen,
            forall|x: int|
                0 <= x < ext ==> !(#[trigger] vanishing_poly@[x]).is_null_spec()
                    && vanishing_poly@[x].val() == spread(short.take(i as int), FIELD_ELEMENTS_PER_CELL as int, x),
        decreases slen - i,
    {
        proof {
            assert(i * FIELD_ELEMENTS_PER_CELL < ext) by (nonlinear_arith)
                requires
                    i < P::CELLS_PER_EXT_BLOB,
                    P::CELLS_PER_EXT_BLOB * FIELD_ELEMENTS_PER_CELL == ext,
                    FIELD_ELEMENTS_PER_CELL >= 1,
            ;
        }
        let pos = i * FIELD_ELEMENTS_PER_CELL;
        vanishing_poly.set(pos, short_vanishing_poly[i]);
        proof {
            assert forall|x: int| 0 <= x < ext implies !(#[trigger] vanishing_poly@[x]).is_null_spec()
                && vanishing_poly@[x].val() == spread(short.take(i + 1), FIELD_ELEMENTS_PER_CELL as int, x) by {
                let l = FIELD_ELEMENTS_PER_CELL as int;
                if x == pos {
                    assert(x % l == 0 && x / l == i) by (nonlinear_arith)
                        requires
                            x == i * l,
                            l >= 1,
                    ;
                } else if x % l == 0 && x / l == i {
                    assert(x == pos) by (nonlinear_arith)
                        requires
                            x % l == 0,
                            x / l == i,
                            l >= 1,
                            pos == i * l,
                    ;
                }
            }
        }
        i = i + 1;
    }
    assert(short.take(slen as int) =~= short);
    Ok(vanishing_poly)
}

} // verus!
