use vstd::prelude::*;

use crate::backend::{dft, preset_ok, vals, EcBackend, FFTSettings, Fr, Preset};
use crate::bitrev::{bit_reversed, is_pow2, lemma_rev_index_bound, reverse_bit_order, reverse_bits_limited, rev_index};
use crate::poly::{coset_fft, coset_ifft, missing_cell_roots, shifted, spread, vanishing_coeffs, vanishing_polynomial_for_missing_cells, COSET_SHIFT};
use crate::DasError;

verus! {

/// A copy of `s`.
pub fn copy_of<T: Copy>(s: &[T]) -> (r: Vec<T>)
    ensures
        r@ == s@,
{
    let mut v: Vec<T> = Vec::new();
    let mut i: usize = 0;
    while i < s.len()
        invariant
            i <= s@.len(),
            v@ == s@.take(i as int),
        decreases s@.len() - i,
    {
        v.push(s[i]);
        i = i + 1;
        assert(v@ =~= s@.take(i as int));
    }
    assert(s@.take(s@.len() as int) =~= s@);
    v
}

/// Whether `s` holds `x`.
pub fn contains(s: &[usize], x: usize) -> (r: bool)
    ensures
        r == s@.contains(x),
{
    let mut i: usize = 0;
    while i < s.len()
        invariant
            i <= s@.len(),
            forall|t: int| 0 <= t < i ==> s@[t] != x,
        decreases s@.len() - i,
    {
        if s[i] == x {
            return true;
        }
        i = i + 1;
    }
    false
}

/// The bit-reversed indices, within `n` cells, of the cells below `c` that
/// `present` does not hold, in increasing order of the cell index.
pub open spec fn missing_cells(c: nat, n: nat, present: Seq<usize>) -> Seq<usize>
    decreases c,
{
    if c == 0 {
        Seq::empty()
    } else {
        let prev = missing_cells((c - 1) as nat, n, present);
        if present.contains((c - 1) as usize) {
            prev
        } else {
            prev.push(rev_index(n, (c - 1) as nat) as usize)
        }
    }
}

/// The missing cells are bit-reversed cell indices, so each is below `n`.
proof fn lemma_missing_cells_bound(c: nat, n: nat, present: Seq<usize>)
    requires
        is_pow2(n),
        c <= n,
        n <= usize::MAX,
    ensures
        forall|i: int| 0 <= i < missing_cells(c, n, present).len() ==> #[trigger] missing_cells(c, n, present)[i] < n,
    decreases c,
{
    if c > 0 {
        let prev = missing_cells((c - 1) as nat, n, present);
        lemma_missing_cells_bound((c - 1) as nat, n, present);
        lemma_rev_index_bound(n, (c - 1) as nat);
        let cur = missing_cells(c, n, present);
        assert forall|i: int| 0 <= i < cur.len() implies #[trigger] cur[i] < n by {
            if i < prev.len() {
                assert(cur[i] == prev[i]);
            } else {
                assert(cur[i] == rev_index(n, (c - 1) as nat) as usize);
            }
        }
    }
}

/// Recovery can run to the end: between one and half of the cells are missing, the
/// extended domain fits the root table, the coset generator and the vanishing
/// polynomial's values on the coset are non-zero.
pub open spec fn recovery_possible<const L: usize, B: EcBackend, P: Preset>(
    fs: &B::FFTSettings,
    present: Seq<usize>,
) -> bool {
    let m = B::Fr::modulus();
    &&& 0 < missing_cells(P::CELLS_PER_EXT_BLOB as nat, P::CELLS_PER_EXT_BLOB as nat, present).len()
        <= P::CELLS_PER_EXT_BLOB / 2
    &&& P::FIELD_ELEMENTS_PER_EXT_BLOB <= fs.max_width_spec()
    &&& is_pow2(fs.max_width_spec())
    &&& COSET_SHIFT as int % m != 0
    &&& forall|i: int|
        0 <= i < P::FIELD_ELEMENTS_PER_EXT_BLOB ==> #[trigger] coset_values::<B>(
            fs,
            missing_vanishing::<L, B, P>(fs, present),
        )[i] % m != 0
}

/// The vanishing polynomial of the cells that `present` lacks, spread over the
/// extended domain.
pub open spec fn missing_vanishing<const L: usize, B: EcBackend, P: Preset>(
    fs: &B::FFTSettings,
    present: Seq<usize>,
) -> Seq<int> {
    let roots = missing_cell_roots(
        fs,
        missing_cells(P::CELLS_PER_EXT_BLOB as nat, P::CELLS_PER_EXT_BLOB as nat, present),
        L as nat,
    );
    Seq::new(
        P::FIELD_ELEMENTS_PER_EXT_BLOB as nat,
        |t: int| spread(vanishing_coeffs(roots, B::Fr::modulus()), L as int, t),
    )
}

/// The known evaluations times the vanishing polynomial's, zero where missing.
pub open spec fn times_vanishing<F: Fr>(evaluations: Seq<F>, zeval: Seq<int>) -> Seq<int> {
    Seq::new(
        evaluations.len(),
        |i: int|
            if evaluations[i].is_null_spec() {
                0
            } else {
                (evaluations[i].val() * zeval[i]) % F::modulus()
            },
    )
}

/// The values on the coset that the polynomial with coefficients `coeffs` takes.
pub open spec fn coset_values<B: EcBackend>(fs: &B::FFTSettings, coeffs: Seq<int>) -> Seq<int> {
    dft(
        shifted(coeffs, COSET_SHIFT as int % B::Fr::modulus(), B::Fr::modulus()),
        fs.root_spec(fs.max_width_spec() / coeffs.len()),
        B::Fr::modulus(),
    )
}

/// The extended blob, in bit-reversed order, that recovery computes from `output`
/// (missing entries null) and the present cells: the known evaluations times the
/// vanishing polynomial, moved to the coset, divided there by the vanishing
/// polynomial, interpolated back and evaluated on the domain.
pub open spec fn recovered_evaluations<const L: usize, B: EcBackend, P: Preset>(
    fs: &B::FFTSettings,
    output: Seq<B::Fr>,
    present: Seq<usize>,
) -> Seq<int> {
    let m = B::Fr::modulus();
    let z = missing_vanishing::<L, B, P>(fs, present);
    let ez = times_vanishing(bit_reversed(output), fs.fft_fr_spec(z, false));
    let ez_coset = coset_values::<B>(fs, fs.fft_fr_spec(ez, true));
    let z_coset = coset_values::<B>(fs, z);
    let quotient = Seq::new(ez_coset.len(), |i: int| B::Fr::div_spec(ez_coset[i], z_coset[i]));
    let coeffs = shifted(fs.fft_fr_spec(quotient, true), B::Fr::div_spec(1int % m, COSET_SHIFT as int % m), m);
    bit_reversed(fs.fft_fr_spec(coeffs, false))
}

/// Restores the missing cells of the extended blob in `output`, whose missing
/// entries hold the null sentinel and whose present cells are those of
/// `cell_indicies`.
pub fn recover_cells<const FIELD_ELEMENTS_PER_CELL: usize, B: EcBackend, P: Preset>(
    output: &mut Vec<B::Fr>,
    cell_indicies: &[usize],
    fft_settings: &B::FFTSettings,
) -> (r: Result<(), DasError>)
    requires
        preset_ok::<P>(FIELD_ELEMENTS_PER_CELL as nat),
        old(output)@.len() == P::FIELD_ELEMENTS_PER_EXT_BLOB,
    ensures
        r == Err::<(), DasError>(DasError::InsufficientCells) <== missing_cells(
            P::CELLS_PER_EXT_BLOB as nat,
            P::CELLS_PER_EXT_BLOB as nat,
            cell_indicies@,
        ).len() > P::CELLS_PER_EXT_BLOB / 2,
        missing_cells(P::CELLS_PER_EXT_BLOB as nat, P::CELLS_PER_EXT_BLOB as nat, cell_indicies@).len()
            == 0 ==> r == Err::<(), DasError>(DasError::EmptyInput),
        r is Err ==> final(output)@ == old(output)@,
        recovery_possible::<FIELD_ELEMENTS_PER_CELL, B, P>(fft_settings, cell_indicies@) ==> r is Ok,
        r is Ok ==> vals(final(output)@) == recovered_evaluations::<FIELD_ELEMENTS_PER_CELL, B, P>(
            fft_settings,
            old(output)@,
            cell_indicies@,
        ),
        r is Ok ==> final(output)@.len() == old(output)@.len() && forall|i: int|
            0 <= i < final(output)@.len() ==> !(#[trigger] final(output)@[i]).is_null_spec(),
{
    let ext = P::FIELD_ELEMENTS_PER_EXT_BLOB;
    let cells_count = P::CELLS_PER_EXT_BLOB;
    let mut cells_brp = copy_of(output.as_slice());
    match reverse_bit_order(&mut cells_brp) {
        Ok(()) => {},
        Err(e) => {
            return Err(e);
        },
    }
    let ghost present = cell_indicies@;
    let mut missing_cell_indicies: Vec<usize> = Vec::new();
    let mut i: usize = 0;
    while i < cells_count
        invariant
            cells_count == P::CELLS_PER_EXT_BLOB,
            preset_ok::<P>(FIELD_ELEMENTS_PER_CELL as nat),
            present == cell_indicies@,
            i <= cells_count,
            missing_cell_indicies@ == missing_cells(i as nat, cells_count as nat, present),
        decreases cells_count - i,
    {
        if !contains(cell_indicies, i) {
            let rbl = reverse_bits_limited(cells_count, i);
            missing_cell_indicies.push(rbl);
        }
        i = i + 1;
    }
    if missing_cell_indicies.len() > cells_count / 2 {
        return Err(DasError::InsufficientCells);
    }
    let ghost good = recovery_possible::<FIELD_ELEMENTS_PER_CELL, B, P>(fft_settings, cell_indicies@);
    proof {
        lemma_missing_cells_bound(cells_count as nat, cells_count as nat, cell_indicies@);
        if good {
            assert forall|i: int| 0 <= i < missing_cell_indicies@.len() implies #[trigger] missing_cell_indicies@[i]
                * FIELD_ELEMENTS_PER_CELL <= fft_settings.max_width_spec() by {
                crate::verify::lemma_cell_position_bound(
                    missing_cell_indicies@[i] as int,
                    0,
                    FIELD_ELEMENTS_PER_CELL as int,
                    cells_count as int,
                );
            }
        }
    }
    let ghost few = missing_cell_indicies@.len() <= P::CELLS_PER_EXT_BLOB / 2 && missing_cell_indicies@ == missing_cells(
        P::CELLS_PER_EXT_BLOB as nat,
        P::CELLS_PER_EXT_BLOB as nat,
        cell_indicies@,
    );
    assert(few);
    let vanishing_poly_coeff = match vanishing_polynomial_for_missing_cells::<FIELD_ELEMENTS_PER_CELL, B, P>(
        missing_cell_indicies.as_slice(),
        fft_settings,
    ) {
        Ok(v) => v,
        Err(e) => {
            return Err(e);
        },
    };
    let vanishing_poly_eval = match fft_settings.fft_fr(vanishing_poly_coeff.as_slice(), false) {
        Ok(v) => v,
        Err(e) => {
            return Err(e);
        },
    };
    if vanishing_poly_eval.len() != ext {
        return Err(DasError::InvalidLength);
    }
    let ghost z = missing_vanishing::<FIELD_ELEMENTS_PER_CELL, B, P>(fft_settings, cell_indicies@);
    let ghost vanishing_poly_coeff_view = vanishing_poly_coeff@;
    assert(vals(vanishing_poly_coeff@) =~= z);
    let ghost zv = vals(vanishing_poly_eval@);
    let ghost cb = cells_brp@;
    let mut extended_evaluation_times_zero: Vec<B::Fr> = Vec::new();
    let mut i: usize = 0;
    while i < ext
        invariant
            few,
            few == (missing_cell_indicies@.len() <= P::CELLS_PER_EXT_BLOB / 2 && missing_cell_indicies@ == missing_cells(
                P::CELLS_PER_EXT_BLOB as nat,
                P::CELLS_PER_EXT_BLOB as nat,
                cell_indicies@,
            )),
            missing_cell_indicies@.len() > 0,
            cells_brp@.len() == ext,
            vanishing_poly_eval@.len() == ext,
            zv == vals(vanishing_poly_eval@),
            cb == cells_brp@,
            vals(extended_evaluation_times_zero@) == times_vanishing(cb, zv).take(i as int),
            extended_evaluation_times_zero@.len() == i,
            i <= ext,
        decreases ext - i,
    {
        if cells_brp[i].is_null() {
            extended_evaluation_times_zero.push(B::Fr::zero());
        } else {
            extended_evaluation_times_zero.push(cells_brp[i].mul(&vanishing_poly_eval[i]));
        }
        i = i + 1;
        assert(vals(extended_evaluation_times_zero@) =~= times_vanishing(cb, zv).take(i as int));
    }
    assert(times_vanishing(cb, zv).take(ext as int) =~= times_vanishing(cb, zv));
    let extended_evaluation_times_zero_coeffs = match fft_settings.fft_fr(
        extended_evaluation_times_zero.as_slice(),
        true,
    ) {
        Ok(v) => v,
        Err(e) => {
            return Err(e);
        },
    };
    let ghost extended_evaluation_times_zero_coeffs_len = extended_evaluation_times_zero_coeffs@.len();
    let mut extended_evaluations_over_coset = match coset_fft::<B>(
        extended_evaluation_times_zero_coeffs,
        fft_settings,
    ) {
        Ok(v) => v,
        Err(e) => {
            return Err(e);
        },
    };
    let vanishing_poly_over_coset = match coset_fft::<B>(vanishing_poly_coeff, fft_settings) {
        Ok(v) => v,
        Err(e) => {
            return Err(e);
        },
    };
    assert(vals(extended_evaluations_over_coset@).len() == extended_evaluations_over_coset@.len());
    assert(vals(vanishing_poly_over_coset@).len() == vanishing_poly_over_coset@.len());
    assert(extended_evaluation_times_zero_coeffs_len == ext);
    assert(vanishing_poly_coeff_view.len() == ext);
    if extended_evaluations_over_coset.len() != ext || vanishing_poly_over_coset.len() != ext {
        return Err(DasError::InvalidLength);
    }
    let ghost ezc = vals(extended_evaluations_over_coset@);
    let ghost zc = vals(vanishing_poly_over_coset@);
    assert(extended_evaluations_over_coset@.len() == vals(extended_evaluations_over_coset@).len());
    assert(zc.len() == vanishing_poly_over_coset@.len());
    proof {
        if good {
            assert(z == vals(vanishing_poly_coeff_view));
            assert(zc == coset_values::<B>(fft_settings, z));
            assert forall|x: int| 0 <= x < ext implies #[trigger] zc[x] % B::Fr::modulus() != 0 by {
                assert(coset_values::<B>(fft_settings, missing_vanishing::<FIELD_ELEMENTS_PER_CELL, B, P>(
                    fft_settings,
                    cell_indicies@,
                ))[x] % B::Fr::modulus() != 0);
            }
        }
    }
    let mut i: usize = 0;
    while i < ext
        invariant
            few,
            few == (missing_cell_indicies@.len() <= P::CELLS_PER_EXT_BLOB / 2 && missing_cell_indicies@ == missing_cells(
                P::CELLS_PER_EXT_BLOB as nat,
                P::CELLS_PER_EXT_BLOB as nat,
                cell_indicies@,
            )),
            missing_cell_indicies@.len() > 0,
            extended_evaluations_over_coset@.len() == ext,
            vanishing_poly_over_coset@.len() == ext,
            good == recovery_possible::<FIELD_ELEMENTS_PER_CELL, B, P>(fft_settings, cell_indicies@),
            good ==> forall|x: int| 0 <= x < ext ==> #[trigger] zc[x] % B::Fr::modulus() != 0,
            ezc.len() == ext,
            zc == vals(vanishing_poly_over_coset@),
            forall|x: int|
                0 <= x < ext ==> #[trigger] extended_evaluations_over_coset@[x].val() == if x < i {
                    B::Fr::div_spec(ezc[x], zc[x])
                } else {
                    ezc[x]
                },
            i <= ext,
        decreases ext - i,
    {
        assert(zc[i as int] == vanishing_poly_over_coset@[i as int].val());
        let q = match extended_evaluations_over_coset[i].div(&vanishing_poly_over_coset[i]) {
            Ok(q) => q,
            Err(e) => {
                return Err(e);
            },
        };
        extended_evaluations_over_coset.set(i, q);
        i = i + 1;
    }
    assert(vals(extended_evaluations_over_coset@) =~= Seq::new(ext as nat, |x: int| B::Fr::div_spec(ezc[x], zc[x])));
    let reconstructed_poly_coeff = match coset_ifft::<B>(extended_evaluations_over_coset.as_slice(), fft_settings) {
        Ok(v) => v,
        Err(e) => {
            return Err(e);
        },
    };
    let out = match fft_settings.fft_fr(reconstructed_poly_coeff.as_slice(), false) {
        Ok(v) => v,
        Err(e) => {
            return Err(e);
        },
    };
    if out.len() != ext {
        return Err(DasError::InvalidLength);
    }
    let ghost out_view = out@;
    proof {
        crate::bitrev::lemma_bit_reversed_map(out_view, |x: B::Fr| x.val());
    }
    *output = out;
    let r = reverse_bit_order(output);
    proof {
        if r is Ok {
            assert forall|i: int| 0 <= i < output@.len() implies !(#[trigger] output@[i]).is_null_spec() by {
                lemma_rev_index_bound(ext as nat, i as nat);
                assert(output@[i] == out_view[rev_index(ext as nat, i as nat) as int]);
            }
        }
    }
    r
}

} // verus!
