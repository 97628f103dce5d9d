use vstd::prelude::*;

use crate::backend::{vals, EcBackend, FFTSettings, Fr, G1, G1LinComb, KZGSettings};
use crate::bitrev::{bit_reversed, is_pow2, reverse_bit_order};
use crate::poly::{inverse_root, is_inverse_dft, zeros};
use crate::DasError;

verus! {

/// Turns a polynomial in bit-reversed Lagrange form into monomial form: bit-reversal,
/// then the inverse transform.
pub fn poly_lagrange_to_monomial<B: EcBackend>(
    lagrange_poly: &mut Vec<B::Fr>,
    fft_settings: &B::FFTSettings,
) -> (r: Result<(), DasError>)
    ensures
        !is_pow2(old(lagrange_poly)@.len()) ==> r == Err::<(), DasError>(DasError::InvalidLength),
        is_pow2(old(lagrange_poly)@.len()) && old(lagrange_poly)@.len() <= fft_settings.max_width_spec() && is_pow2(
            fft_settings.max_width_spec(),
        ) ==> r is Ok,
        old(lagrange_poly)@.len() > fft_settings.max_width_spec() > 0 ==> r is Err,
        r is Err ==> final(lagrange_poly)@ == old(lagrange_poly)@,
        r is Ok ==> final(lagrange_poly)@.len() == old(lagrange_poly)@.len() && vals(final(lagrange_poly)@)
            == fft_settings.fft_fr_spec(vals(bit_reversed(old(lagrange_poly)@)), true) && is_inverse_dft(
            vals(final(lagrange_poly)@),
            vals(bit_reversed(old(lagrange_poly)@)),
            inverse_root(fft_settings, old(lagrange_poly)@.len()),
            B::Fr::modulus(),
        ) && (forall|i: int|
            0 <= i < final(lagrange_poly)@.len() ==> !(#[trigger] final(lagrange_poly)@[i]).is_null_spec()),
{
    let mut poly = crate::recover::copy_of(lagrange_poly.as_slice());
    let ghost orig = poly@;
    match reverse_bit_order(&mut poly) {
        Ok(()) => {},
        Err(e) => {
            return Err(e);
        },
    }
    let ghost brp = poly@;
    proof {
        if poly@.len() > fft_settings.max_width_spec() > 0 {
            vstd::arithmetic::div_mod::lemma_small_mod(fft_settings.max_width_spec(), poly@.len() as nat);
        }
    }
    match fft_settings.fft_fr(poly.as_slice(), true) {
        Ok(v) => {
            *lagrange_poly = v;
            assert(vals(brp).len() == brp.len());
            assert(is_inverse_dft(vals(lagrange_poly@), vals(brp), inverse_root(fft_settings, orig.len()), B::Fr::modulus()));
            Ok(())
        },
        Err(e) => Err(e),
    }
}

/// Entry `i` of the Toeplitz coefficient vector for column `offset`: the coefficient
/// `n - 1 - offset` first, zeros up to `k + 1`, then every `stride`-th coefficient
/// from `2 * stride - offset - 1`, where `k = n / stride`.
pub open spec fn toeplitz_entry(input: Seq<int>, n: int, offset: int, stride: int, i: int) -> int {
    if i == 0 {
        input[n - 1 - offset]
    } else if i <= n / stride + 1 {
        0
    } else {
        input[2 * stride - offset - 1 + (i - (n / stride + 2)) * stride]
    }
}

/// The inputs on which a Toeplitz vector can be built into `out_len` entries.
pub open spec fn toeplitz_ok(out_len: nat, input_len: nat, n: nat, offset: nat, stride: nat) -> bool {
    stride > 0 ==> {
        &&& n / stride >= 1
        &&& out_len >= 2 * (n / stride)
        &&& offset < stride
        &&& n <= input_len
    }
}

/// Fills `out` with the Toeplitz coefficient vector of `input` for column `offset`.
pub fn toeplitz_coeffs_stride<B: EcBackend>(
    out: &mut Vec<B::Fr>,
    input: &[B::Fr],
    n: usize,
    offset: usize,
    stride: usize,
) -> (r: Result<(), DasError>)
    requires
        toeplitz_ok(old(out)@.len(), input@.len(), n as nat, offset as nat, stride as nat),
        forall|i: int| 0 <= i < input@.len() ==> !(#[trigger] input@[i]).is_null_spec(),
    ensures
        stride == 0 <==> r is Err,
        r is Err ==> r == Err::<(), DasError>(DasError::InvalidLength),
        final(out)@.len() == old(out)@.len(),
        r is Err ==> final(out)@ == old(out)@,
        r is Ok ==> forall|i: int|
            2 * (n as int / stride as int) <= i < final(out)@.len() ==> #[trigger] final(out)@[i] == old(out)@[i],
        r is Ok ==> forall|i: int|
            0 <= i < 2 * (n as int / stride as int) ==> (#[trigger] final(out)@[i]).val() == toeplitz_entry(
                vals(input@),
                n as int,
                offset as int,
                stride as int,
                i,
            ) && !final(out)@[i].is_null_spec(),
{
    if stride == 0 {
        return Err(DasError::InvalidLength);
    }
    let k = n / stride;
    let len = out.len();
    assert(k * 2 <= len);
    let k2 = k * 2;
    let ghost orig = out@;
    proof {
        assert(k * stride <= n) by (nonlinear_arith)
            requires
                k == n / stride,
                stride > 0,
        ;
        assert(stride <= n) by (nonlinear_arith)
            requires
                k == n / stride,
                k >= 1,
                stride > 0,
                k * stride <= n,
        ;
    }
    let ghost iv = vals(input@);
    out.set(0, input[n - 1 - offset]);
    assert(forall|t: int| k2 <= t < orig.len() ==> #[trigger] out@[t] == orig[t]);
    let mut i: usize = 1;
    while i <= k + 1 && i < k2
        invariant
            out@.len() == orig.len(),
            k2 <= orig.len(),
            forall|t: int| k2 <= t < orig.len() ==> #[trigger] out@[t] == orig[t],
            k2 == 2 * k,
            k == n / stride,
            k >= 1,
            1 <= i <= k + 2,
            i <= k2 || k2 == 1,
            iv == vals(input@),
            n <= input@.len(),
            offset < stride,
            forall|t: int| 0 <= t < input@.len() ==> !(#[trigger] input@[t]).is_null_spec(),
            forall|t: int|
                0 <= t < i ==> (#[trigger] out@[t]).val() == toeplitz_entry(iv, n as int, offset as int, stride as int, t)
                    && !out@[t].is_null_spec(),
        decreases k + 2 - i,
    {
        out.set(i, B::Fr::zero());
        i = i + 1;
    }
    if k2 <= k + 2 {
        return Ok(());
    }
    proof {
        assert(2 * stride <= n) by (nonlinear_arith)
            requires
                k >= 3,
                k * stride <= n,
                stride > 0,
        ;
    }
    let mut i: usize = k + 2;
    let mut j: usize = stride - offset - 1 + stride;
    while i < k2
        invariant
            out@.len() == orig.len(),
            k2 <= orig.len(),
            forall|t: int| k2 <= t < orig.len() ==> #[trigger] out@[t] == orig[t],
            k2 == 2 * k,
            k == n / stride,
            k * stride <= n,
            stride > 0,
            offset < stride,
            n <= input@.len(),
            iv == vals(input@),
            k + 2 <= i,
            j == 2 * stride - offset - 1 + (i - (k + 2)) * stride,
            forall|t: int| 0 <= t < input@.len() ==> !(#[trigger] input@[t]).is_null_spec(),
            forall|t: int|
                0 <= t < i && t < k2 ==> (#[trigger] out@[t]).val() == toeplitz_entry(
                    iv,
                    n as int,
                    offset as int,
                    stride as int,
                    t,
                ) && !out@[t].is_null_spec(),
        decreases k2 - i,
    {
        proof {
            assert(j < n) by (nonlinear_arith)
                requires
                    j == 2 * stride - offset - 1 + (i - (k + 2)) * stride,
                    i < 2 * k,
                    k * stride <= n,
                    offset < stride,
                    k + 2 <= i,
            ;
            assert(j + stride <= n) by (nonlinear_arith)
                requires
                    j == 2 * stride - offset - 1 + (i - (k + 2)) * stride,
                    i < 2 * k,
                    k * stride <= n,
                    offset < stride,
                    k + 2 <= i,
            ;
            assert(j + stride == 2 * stride - offset - 1 + (i + 1 - (k + 2)) * stride) by (nonlinear_arith)
                requires
                    j == 2 * stride - offset - 1 + (i - (k + 2)) * stride,
            ;
        }
        out.set(i, input[j]);
        i = i + 1;
        j = j + stride;
    }
    Ok(())
}

/// The Toeplitz coefficient vector of `poly` for column `offset`, `2 * (n / l)` long.
pub open spec fn toeplitz_vals(poly: Seq<int>, n: nat, offset: nat, l: nat) -> Seq<int> {
    Seq::new(2 * (n / l), |t: int| toeplitz_entry(poly, n as int, offset as int, l as int, t))
}

/// Row `j` of the transformed Toeplitz vectors: entry `i` is entry `j` of the
/// transform of the vector for column `i`.
pub open spec fn fk20_row<F: Fr, TG1: G1, S: FFTSettings<F, TG1>>(
    s: &S,
    poly: Seq<int>,
    n: nat,
    l: nat,
    j: int,
) -> Seq<int> {
    Seq::new(l, |i: int| s.fft_fr_spec(toeplitz_vals(poly, n, i as nat, l), false)[j])
}

/// The points whose inverse transform gives the FK20 intermediate `h`: row `j`
/// combined with setup column `j`, cut to the cell size.
pub open spec fn fk20_h_ext<B: EcBackend>(
    fs: &B::FFTSettings,
    ks: &B::KZGSettings,
    poly: Seq<int>,
    n: nat,
    l: nat,
) -> Seq<B::G1> {
    Seq::new(
        2 * (n / l),
        |j: int| B::G1::lincomb_spec(ks.x_ext_fft_column_spec(j as nat).take(l as int), fk20_row(fs, poly, n, l, j)),
    )
}

/// `h` with every entry from `k` on replaced by the identity.
pub open spec fn zero_upper<TG1: G1>(h: Seq<TG1>, k: nat) -> Seq<TG1> {
    Seq::new(h.len(), |i: int| if i >= k { TG1::identity_spec() } else { h[i] })
}

/// The inverse group transform of `v` has `2 * k` points, and those from `k` on
/// encode as the identity.
pub open spec fn fk20_round_trip<B: EcBackend>(fs: &B::FFTSettings, v: Seq<B::G1>, k: nat) -> bool {
    &&& fs.fft_g1_spec(v, true).len() == 2 * k
    &&& forall|i: int|
        k <= i < 2 * k ==> (#[trigger] fs.fft_g1_spec(v, true)[i]).bytes_spec() == B::G1::identity_spec().bytes_spec()
}

/// The FK20 output for the first `n` coefficients of `poly`, with cells of `l`.
pub open spec fn fk20_spec<B: EcBackend>(
    fs: &B::FFTSettings,
    ks: &B::KZGSettings,
    poly: Seq<int>,
    n: nat,
    l: nat,
) -> Seq<B::G1> {
    fs.fft_g1_spec(zero_upper(fs.fft_g1_spec(fk20_h_ext::<B>(fs, ks, poly, n, l), true), n / l), false)
}

/// Computes the FK20 proofs of the polynomial of `n` coefficients in monomial form:
/// `2 * (n / FIELD_ELEMENTS_PER_CELL)` points, the cell proofs in bit-reversed order
/// first and identities after them.
pub fn compute_fk20_proofs<const FIELD_ELEMENTS_PER_CELL: usize, B: EcBackend>(
    poly: &[B::Fr],
    n: usize,
    fft_settings: &B::FFTSettings,
    kzg_settings: &B::KZGSettings,
) -> (r: Result<Vec<B::G1>, DasError>)
    requires
        FIELD_ELEMENTS_PER_CELL >= 1,
        (n as nat) / (FIELD_ELEMENTS_PER_CELL as nat) >= 1,
        n <= poly@.len(),
        2 * n <= usize::MAX,
        forall|i: int| 0 <= i < poly@.len() ==> !(#[trigger] poly@[i]).is_null_spec(),
    ensures
        r matches Ok(v) ==> (is_pow2(2 * ((n as nat) / (FIELD_ELEMENTS_PER_CELL as nat))) && 2 * ((n as nat) / (
            FIELD_ELEMENTS_PER_CELL as nat)) <= fft_settings.max_width_spec() && is_pow2(fft_settings.max_width_spec())
            ==> fk20_round_trip::<B>(fft_settings, v@, (n as nat) / (FIELD_ELEMENTS_PER_CELL as nat))),
        r matches Ok(v) ==> v@.len() == 2 * ((n as nat) / (FIELD_ELEMENTS_PER_CELL as nat)) && v@ == fk20_spec::<B>(
            fft_settings,
            kzg_settings,
            vals(poly@),
            n as nat,
            FIELD_ELEMENTS_PER_CELL as nat,
        ),
        (exists|j: nat|
            j < 2 * ((n as nat) / (FIELD_ELEMENTS_PER_CELL as nat)) && #[trigger] kzg_settings.x_ext_fft_column_spec(j).len()
                < FIELD_ELEMENTS_PER_CELL) ==> r is Err,
        (forall|j: nat|
            j < 2 * ((n as nat) / (FIELD_ELEMENTS_PER_CELL as nat)) ==> #[trigger] kzg_settings.x_ext_fft_column_spec(j).len()
                >= FIELD_ELEMENTS_PER_CELL) && is_pow2(2 * ((n as nat) / (FIELD_ELEMENTS_PER_CELL as nat))) && 2 * ((n as nat)
            / (FIELD_ELEMENTS_PER_CELL as nat)) <= fft_settings.max_width_spec() && is_pow2(fft_settings.max_width_spec())
            ==> r is Ok,
{
    let k = n / FIELD_ELEMENTS_PER_CELL;
    proof {
        assert(k <= n) by (nonlinear_arith)
            requires
                k == n / FIELD_ELEMENTS_PER_CELL,
                FIELD_ELEMENTS_PER_CELL >= 1,
        ;
    }
    let k2 = k * 2;
    let ghost pv = vals(poly@);
    let ghost l = FIELD_ELEMENTS_PER_CELL as nat;
    let ghost ok_sizes = is_pow2(k2 as nat) && k2 <= fft_settings.max_width_spec() && is_pow2(fft_settings.max_width_spec());
    let mut toeplitz_coeffs = zeros::<B>(k2);
    let mut columns: Vec<Vec<B::Fr>> = Vec::new();
    let mut i: usize = 0;
    while i < FIELD_ELEMENTS_PER_CELL
        invariant
            k == (n as nat) / (FIELD_ELEMENTS_PER_CELL as nat),
            k >= 1,
            k2 == 2 * k,
            pv == vals(poly@),
            l == FIELD_ELEMENTS_PER_CELL,
            ok_sizes == (is_pow2(k2 as nat) && k2 <= fft_settings.max_width_spec() && is_pow2(fft_settings.max_width_spec())),
            n <= poly@.len(),
            toeplitz_coeffs@.len() == k2,
            forall|t: int| 0 <= t < poly@.len() ==> !(#[trigger] poly@[t]).is_null_spec(),
            columns@.len() == i,
            i <= FIELD_ELEMENTS_PER_CELL,
            forall|t: int| 0 <= t < i ==> (#[trigger] columns@[t])@.len() == k2,
            forall|t: int|
                0 <= t < i ==> vals((#[trigger] columns@[t])@) == fft_settings.fft_fr_spec(
                    toeplitz_vals(pv, n as nat, t as nat, l),
                    false,
                ),
        decreases FIELD_ELEMENTS_PER_CELL - i,
    {
        match toeplitz_coeffs_stride::<B>(&mut toeplitz_coeffs, poly, n, i, FIELD_ELEMENTS_PER_CELL) {
            Ok(()) => {},
            Err(e) => {
                return Err(e);
            },
        }
        assert(vals(toeplitz_coeffs@) =~= toeplitz_vals(pv, n as nat, i as nat, l));
        match fft_settings.fft_fr(toeplitz_coeffs.as_slice(), false) {
            Ok(v) => {
                columns.push(v);
            },
            Err(e) => {
                return Err(e);
            },
        }
        i = i + 1;
    }
    let ghost h_ext = fk20_h_ext::<B>(fft_settings, kzg_settings, pv, n as nat, l);
    let mut h_ext_fft: Vec<B::G1> = Vec::new();
    let mut j: usize = 0;
    while j < k2
        invariant
            k2 == 2 * k,
            k == (n as nat) / (FIELD_ELEMENTS_PER_CELL as nat),
            l == FIELD_ELEMENTS_PER_CELL,
            ok_sizes == (is_pow2(k2 as nat) && k2 <= fft_settings.max_width_spec() && is_pow2(fft_settings.max_width_spec())),
            h_ext == fk20_h_ext::<B>(fft_settings, kzg_settings, pv, n as nat, l),
            columns@.len() == FIELD_ELEMENTS_PER_CELL,
            forall|t: int| 0 <= t < FIELD_ELEMENTS_PER_CELL ==> (#[trigger] columns@[t])@.len() == k2,
            forall|t: int|
                0 <= t < FIELD_ELEMENTS_PER_CELL ==> vals((#[trigger] columns@[t])@) == fft_settings.fft_fr_spec(
                    toeplitz_vals(pv, n as nat, t as nat, l),
                    false,
                ),
            h_ext_fft@.len() == j,
            j <= k2,
            h_ext_fft@ == h_ext.take(j as int),
            forall|t: nat| t < j ==> #[trigger] kzg_settings.x_ext_fft_column_spec(t).len() >= FIELD_ELEMENTS_PER_CELL,
        decreases k2 - j,
    {
        let mut row: Vec<B::Fr> = Vec::new();
        let mut i: usize = 0;
        while i < FIELD_ELEMENTS_PER_CELL
            invariant
                j < k2,
                l == FIELD_ELEMENTS_PER_CELL,
                columns@.len() == FIELD_ELEMENTS_PER_CELL,
                forall|t: int| 0 <= t < FIELD_ELEMENTS_PER_CELL ==> (#[trigger] columns@[t])@.len() == k2,
                forall|t: int|
                    0 <= t < FIELD_ELEMENTS_PER_CELL ==> vals((#[trigger] columns@[t])@) == fft_settings.fft_fr_spec(
                        toeplitz_vals(pv, n as nat, t as nat, l),
                        false,
                    ),
                row@.len() == i,
                i <= FIELD_ELEMENTS_PER_CELL,
                vals(row@) == fk20_row(fft_settings, pv, n as nat, l, j as int).take(i as int),
            decreases FIELD_ELEMENTS_PER_CELL - i,
        {
            assert(vals(columns@[i as int]@)[j as int] == columns@[i as int]@[j as int].val());
            row.push(columns[i][j]);
            i = i + 1;
            assert(vals(row@) =~= fk20_row(fft_settings, pv, n as nat, l, j as int).take(i as int));
        }
        let column = kzg_settings.get_x_ext_fft_column(j);
        if column.len() < FIELD_ELEMENTS_PER_CELL {
            return Err(DasError::InvalidLength);
        }
        assert(vals(row@).take(l as int) =~= fk20_row(fft_settings, pv, n as nat, l, j as int));
        h_ext_fft.push(B::G1::g1_lincomb(column, row.as_slice(), FIELD_ELEMENTS_PER_CELL));
        j = j + 1;
        assert(h_ext_fft@ =~= h_ext.take(j as int));
    }
    assert(h_ext.take(k2 as int) =~= h_ext);
    let mut h = match fft_settings.fft_g1(h_ext_fft.as_slice(), true) {
        Ok(v) => v,
        Err(e) => {
            return Err(e);
        },
    };
    let ghost h0 = h@;
    let mut t: usize = k;
    while t < k2
        invariant
            h0.len() == k2,
            h@.len() == k2,
            k <= t,
            forall|x: int| 0 <= x < k2 ==> #[trigger] h@[x] == if k <= x < t { B::G1::identity_spec() } else { h0[x] },
        decreases k2 - t,
    {
        h.set(t, B::G1::identity());
        t = t + 1;
    }
    assert(h@ =~= zero_upper(h0, k as nat));
    let r = fft_settings.fft_g1(h.as_slice(), false);
    proof {
        if r is Ok && is_pow2(k2 as nat) && k2 <= fft_settings.max_width_spec() && is_pow2(fft_settings.max_width_spec()) {
            fft_settings.lemma_fft_g1_round_trip(h@);
            let back = fft_settings.fft_g1_spec(fft_settings.fft_g1_spec(h@, false), true);
            assert forall|i: int| k <= i < 2 * k implies (#[trigger] back[i]).bytes_spec()
                == B::G1::identity_spec().bytes_spec() by {
                assert(h@[i] == B::G1::identity_spec());
            }
        }
    }
    r
}

} // verus!
