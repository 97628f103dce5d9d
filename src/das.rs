use vstd::prelude::*;

use crate::backend::{dft, preset_ok, vals, EcBackend, FFTSettings, Fr, G1, KZGSettings, Preset};
use crate::bitrev::{bit_reversed, is_pow2, rev_index, lemma_bit_reversed_map, reverse_bit_order};
use crate::fk20::{compute_fk20_proofs, fk20_spec, poly_lagrange_to_monomial};
use crate::poly::{inverse_root, is_inverse_dft, zeros};
use crate::recover::{copy_of, recover_cells, recovered_evaluations, recovery_possible};
use crate::verify::{is_first_occurrence, aggregated_interpolation, challenge_input, keys_of, powers, unique_keys, weighted_powers_spec, weights_spec, lemma_cell_position_bound, compute_commitment_to_aggregated_interpolation_poly, compute_r_powers_for_verify_cell_kzg_proof_batch, compute_weighted_sum_of_commitments, computed_weighted_sum_of_proofs, deduplicate_commitments};
use crate::backend::{G1LinComb, G2, PairingVerify};
use crate::DasError;

verus! {

/// `mono` is the monomial form of the polynomial whose bit-reversed Lagrange form
/// is `blob`, zero-padded to the extended width.
pub open spec fn is_blob_monomial<F: Fr, TG1: G1, S: FFTSettings<F, TG1>>(
    s: &S,
    blob: Seq<int>,
    ext: nat,
    mono: Seq<int>,
) -> bool {
    &&& mono.len() == ext
    &&& blob.len() <= ext
    &&& is_inverse_dft(mono.take(blob.len() as int), bit_reversed(blob), inverse_root(s, blob.len()), F::modulus())
    &&& forall|t: int| blob.len() <= t < ext ==> mono[t] == 0
}

/// The extension of the blob, in bit-reversed order, that the monomial form `mono`
/// evaluates to.
pub open spec fn extended_cells<F: Fr, TG1: G1, S: FFTSettings<F, TG1>>(s: &S, mono: Seq<int>) -> Seq<int> {
    bit_reversed(dft(mono, s.root_spec(s.max_width_spec() / mono.len()), F::modulus()))
}

/// The monomial form of the polynomial whose bit-reversed Lagrange form is `blob`,
/// zero-padded to `ext` coefficients.
pub open spec fn blob_monomial_spec<F: Fr, TG1: G1, S: FFTSettings<F, TG1>>(s: &S, blob: Seq<int>, ext: nat) -> Seq<int> {
    Seq::new(ext, |t: int| if t < blob.len() { s.fft_fr_spec(bit_reversed(blob), true)[t] } else { 0 })
}

/// The monomial form of `blob`, zero-padded to the extended width.
pub fn blob_to_extended_monomial<B: EcBackend, P: Preset>(blob: &[B::Fr], fft_settings: &B::FFTSettings) -> (r: Result<
    Vec<B::Fr>,
    DasError,
>)
    requires
        P::FIELD_ELEMENTS_PER_BLOB <= P::FIELD_ELEMENTS_PER_EXT_BLOB,
    ensures
        blob@.len() != P::FIELD_ELEMENTS_PER_BLOB ==> r == Err::<Vec<B::Fr>, DasError>(DasError::InvalidLength),
        blob@.len() == P::FIELD_ELEMENTS_PER_BLOB && is_pow2(P::FIELD_ELEMENTS_PER_BLOB as nat)
            && P::FIELD_ELEMENTS_PER_BLOB <= fft_settings.max_width_spec() && is_pow2(fft_settings.max_width_spec()) ==> r is Ok,
        r matches Ok(v) ==> vals(v@) == blob_monomial_spec(fft_settings, vals(blob@), P::FIELD_ELEMENTS_PER_EXT_BLOB as nat),
        r matches Ok(v) ==> is_blob_monomial(fft_settings, vals(blob@), P::FIELD_ELEMENTS_PER_EXT_BLOB as nat, vals(v@))
            && forall|i: int| 0 <= i < v@.len() ==> !(#[trigger] v@[i]).is_null_spec(),
{
    if blob.len() != P::FIELD_ELEMENTS_PER_BLOB {
        return Err(DasError::InvalidLength);
    }
    let n = blob.len();
    let mut poly = copy_of(blob);
    match poly_lagrange_to_monomial::<B>(&mut poly, fft_settings) {
        Ok(()) => {},
        Err(e) => {
            return Err(e);
        },
    }
    proof {
        lemma_bit_reversed_map(blob@, |x: B::Fr| x.val());
    }
    let ghost low = vals(poly@);
    assert(low == fft_settings.fft_fr_spec(bit_reversed(vals(blob@)), true));
    let ext = P::FIELD_ELEMENTS_PER_EXT_BLOB;
    let mut t: usize = n;
    while t < ext
        invariant
            n <= ext,
            n <= t <= ext,
            poly@.len() == t,
            vals(poly@).take(n as int) == low,
            forall|x: int| 0 <= x < t ==> !(#[trigger] poly@[x]).is_null_spec(),
            forall|x: int| n <= x < t ==> (#[trigger] poly@[x]).val() == 0,
        decreases ext - t,
    {
        poly.push(B::Fr::zero());
        t = t + 1;
        assert(vals(poly@).take(n as int) =~= low);
    }
    assert(vals(poly@) =~= blob_monomial_spec(fft_settings, vals(blob@), ext as nat));
    Ok(poly)
}

/// The cells laid end to end.
pub open spec fn flatten_cells<F, const L: usize>(cells: Seq<[F; L]>) -> Seq<F> {
    Seq::new(cells.len() * (L as nat), |x: int| cells[x / (L as int)]@[x % (L as int)])
}

/// A buffer that holds entry `y` of cell `x` at `x * L + y` is the flattened cells.
pub proof fn lemma_flatten_cells<F, const L: usize>(flat: Seq<F>, cells: Seq<[F; L]>)
    requires
        L >= 1,
        flat.len() == cells.len() * (L as nat),
        forall|x: int, y: int| 0 <= x < cells.len() && 0 <= y < L ==> #[trigger] flat[x * L + y] == cells[x]@[y],
    ensures
        flat == flatten_cells(cells),
{
    assert forall|t: int| 0 <= t < flat.len() implies #[trigger] flat[t] == flatten_cells(cells)[t] by {
        let l = L as int;
        let x = t / l;
        let y = t % l;
        vstd::arithmetic::div_mod::lemma_fundamental_div_mod(t, l);
        assert(0 <= y < l);
        assert(0 <= x < cells.len()) by (nonlinear_arith)
            requires
                t == l * x + y,
                0 <= t < cells.len() * l,
                0 <= y < l,
                l >= 1,
        ;
        assert(x * l + y == t) by (nonlinear_arith)
            requires
                t == l * x + y,
        ;
    }
    assert(flat =~= flatten_cells(cells));
}

/// `unique` holds the distinct commitments, each the first point with its encoding,
/// in the order of their first occurrence,
/// and `indices[i]` is the position of commitment `i` among them.
pub open spec fn is_dedup_of<TG1: G1>(commitments: Seq<TG1>, unique: Seq<TG1>, indices: Seq<usize>) -> bool {
    &&& keys_of(unique) == unique_keys(keys_of(commitments))
    &&& forall|j: int|
        0 <= j < unique.len() ==> exists|t: int|
            0 <= t < commitments.len() && #[trigger] unique[j] == commitments[t] && is_first_occurrence(commitments, t)
    &&& indices.len() == commitments.len()
    &&& forall|i: int|
        0 <= i < commitments.len() ==> #[trigger] indices[i] < unique.len() && unique[indices[i] as int].bytes_spec()
            == commitments[i].bytes_spec()
}

/// The single pairing check of a batch: with `r` the challenge powers, whether
/// `e(C - I + W, G2) == e(P, [s^L])`, where `C` weighs the unique commitments, `I`
/// commits to the aggregated interpolation polynomial, `W` weighs the proofs by
/// the powers times the coset factors to the cell size, and `P` weighs the proofs
/// by the powers.
pub open spec fn batch_check<const L: usize, B: EcBackend, P: Preset>(
    ks: &B::KZGSettings,
    unique: Seq<B::G1>,
    indices: Seq<usize>,
    cell_indices: Seq<usize>,
    cells: Seq<[B::Fr; L]>,
    proofs: Seq<B::G1>,
) -> bool {
    let fs = ks.fft_settings_spec();
    let m = B::Fr::modulus();
    let r = powers(
        B::Fr::hash_to_field_spec(challenge_input(unique, indices, cell_indices, cells, proofs)),
        cells.len() as nat,
        m,
    );
    let c = B::G1::lincomb_spec(unique, weights_spec(unique.len() as nat, indices, r, m));
    let i = B::G1::lincomb_spec(
        ks.g1_monomial_spec().take(L as int),
        aggregated_interpolation::<L, B, P>(&fs, cell_indices, cells, r, P::CELLS_PER_EXT_BLOB as nat),
    );
    let w = B::G1::lincomb_spec(proofs, weighted_powers_spec::<L, B, P>(r, cell_indices, &fs));
    B::G1::verify_spec(
        B::G1::add_spec(B::G1::sub_spec(c, i), w),
        B::G2::generator_spec(),
        B::G1::lincomb_spec(proofs, r),
        ks.g2_monomial_spec()[L as int],
    )
}

/// `flat` holds the given cells at their indices, each cell `L` entries long, and
/// null entries in every cell that is not given.
pub open spec fn is_scattered<F: Fr, const L: usize>(
    flat: Seq<F>,
    cell_indices: Seq<usize>,
    cells: Seq<[F; L]>,
    ncells: nat,
) -> bool {
    &&& flat.len() == ncells * L
    &&& forall|t: int, y: int|
        0 <= t < cells.len() && 0 <= y < L ==> #[trigger] flat[cell_indices[t] * L + y] == cells[t]@[y]
    &&& forall|x: int, y: int|
        0 <= x < ncells && 0 <= y < L && !cell_indices.contains(x as usize) ==> (#[trigger] flat[x * L + y]).is_null_spec()
}

/// Whether two rows of `s` are equal.
pub open spec fn has_duplicates(s: Seq<usize>) -> bool {
    exists|i: int, j: int| 0 <= i < j < s.len() && s[i] == s[j]
}

/// A blob holds half as many cells as its extension.
pub proof fn lemma_half_cells<P: Preset>(l: nat)
    requires
        preset_ok::<P>(l),
    ensures
        2 * (P::FIELD_ELEMENTS_PER_BLOB as nat / l) == P::CELLS_PER_EXT_BLOB,
        P::FIELD_ELEMENTS_PER_BLOB as nat / l >= 1,
        is_pow2(P::FIELD_ELEMENTS_PER_BLOB as nat),
        P::CELLS_PER_EXT_BLOB <= P::FIELD_ELEMENTS_PER_EXT_BLOB,
{
    assert(P::CELLS_PER_EXT_BLOB <= P::FIELD_ELEMENTS_PER_EXT_BLOB) by (nonlinear_arith)
        requires
            P::CELLS_PER_EXT_BLOB * l == P::FIELD_ELEMENTS_PER_EXT_BLOB,
            l >= 1,
    ;
    assert((P::FIELD_ELEMENTS_PER_EXT_BLOB as nat) / 2 == P::FIELD_ELEMENTS_PER_BLOB);
    let c = P::CELLS_PER_EXT_BLOB as nat;
    assert(c % 2 == 0);
    let h = c / 2;
    assert(c == 2 * h);
    assert(P::FIELD_ELEMENTS_PER_BLOB == h * l) by (nonlinear_arith)
        requires
            c * l == P::FIELD_ELEMENTS_PER_EXT_BLOB,
            2 * P::FIELD_ELEMENTS_PER_BLOB == P::FIELD_ELEMENTS_PER_EXT_BLOB,
            c == 2 * h,
    ;
    vstd::arithmetic::div_mod::lemma_div_by_multiple(h as int, l as int);
}

/// Data-availability sampling over a backend, with cells of `FIELD_ELEMENTS_PER_CELL`
/// scalars and the sizes of preset `P`.
pub trait DAS<B: EcBackend, const FIELD_ELEMENTS_PER_CELL: usize, P: Preset> {
    spec fn settings_spec(&self) -> B::KZGSettings;

    fn kzg_settings(&self) -> (r: &B::KZGSettings)
        ensures
            *r == self.settings_spec(),
    ;

    /// Extends `blob` and writes its cells, in natural order, to `cells`, and the
    /// proof of each cell to `proofs`.
    fn compute_cells_and_kzg_proofs(
        &self,
        cells: Option<&mut Vec<[B::Fr; FIELD_ELEMENTS_PER_CELL]>>,
        proofs: Option<&mut Vec<B::G1>>,
        blob: &[B::Fr],
    ) -> (r: Result<(), DasError>)
        requires
            preset_ok::<P>(FIELD_ELEMENTS_PER_CELL as nat),
        ensures
            cells is None && proofs is None ==> r == Err::<(), DasError>(DasError::InvalidLength),
            blob@.len() != P::FIELD_ELEMENTS_PER_BLOB ==> r == Err::<(), DasError>(DasError::InvalidLength),
            cells matches Some(c) ==> (c@.len() != P::CELLS_PER_EXT_BLOB ==> r is Err),
            proofs matches Some(p) ==> (p@.len() != P::CELLS_PER_EXT_BLOB ==> r is Err),
            r is Ok ==> (cells matches Some(c) ==> final(c)@.len() == P::CELLS_PER_EXT_BLOB && exists|mono: Seq<int>|
                is_blob_monomial(
                    &self.settings_spec().fft_settings_spec(),
                    vals(blob@),
                    P::FIELD_ELEMENTS_PER_EXT_BLOB as nat,
                    mono,
                ) && forall|i: int, j: int|
                    0 <= i < P::CELLS_PER_EXT_BLOB && 0 <= j < FIELD_ELEMENTS_PER_CELL ==> (#[trigger] final(c)@[i]@[j]).val()
                        == extended_cells(&self.settings_spec().fft_settings_spec(), mono)[i * FIELD_ELEMENTS_PER_CELL + j]),
            r is Ok ==> (cells matches Some(c) ==> forall|i: int, j: int|
                0 <= i < P::CELLS_PER_EXT_BLOB && 0 <= j < FIELD_ELEMENTS_PER_CELL ==> (#[trigger] final(c)@[i]@[j]).val()
                    == extended_cells(
                    &self.settings_spec().fft_settings_spec(),
                    blob_monomial_spec(
                        &self.settings_spec().fft_settings_spec(),
                        vals(blob@),
                        P::FIELD_ELEMENTS_PER_EXT_BLOB as nat,
                    ),
                )[i * FIELD_ELEMENTS_PER_CELL + j]),
            r is Ok ==> (proofs matches Some(p) ==> final(p)@.len() == P::CELLS_PER_EXT_BLOB && final(p)@ == bit_reversed(
                fk20_spec::<B>(
                    &self.settings_spec().fft_settings_spec(),
                    &self.settings_spec(),
                    blob_monomial_spec(
                        &self.settings_spec().fft_settings_spec(),
                        vals(blob@),
                        P::FIELD_ELEMENTS_PER_EXT_BLOB as nat,
                    ),
                    P::FIELD_ELEMENTS_PER_BLOB as nat,
                    FIELD_ELEMENTS_PER_CELL as nat,
                ),
            )),
            (cells is Some || proofs is Some) && blob@.len() == P::FIELD_ELEMENTS_PER_BLOB && (cells matches Some(c)
                ==> c@.len() == P::CELLS_PER_EXT_BLOB) && (proofs matches Some(p) ==> p@.len() == P::CELLS_PER_EXT_BLOB)
                && P::FIELD_ELEMENTS_PER_EXT_BLOB <= self.settings_spec().fft_settings_spec().max_width_spec() && is_pow2(
                self.settings_spec().fft_settings_spec().max_width_spec(),
            ) && (proofs is Some ==> forall|j: nat|
                j < P::CELLS_PER_EXT_BLOB ==> #[trigger] self.settings_spec().x_ext_fft_column_spec(j).len()
                    >= FIELD_ELEMENTS_PER_CELL) ==> r is Ok,
    {
        proof {
            lemma_half_cells::<P>(FIELD_ELEMENTS_PER_CELL as nat);
        }
        if cells.is_none() && proofs.is_none() {
            return Err(DasError::InvalidLength);
        }
        let fft_settings = self.kzg_settings().get_fft_settings();
        let ghost fs = self.settings_spec().fft_settings_spec();
        let poly_monomial = match blob_to_extended_monomial::<B, P>(blob, fft_settings) {
            Ok(v) => v,
            Err(e) => {
                return Err(e);
            },
        };
        let l = FIELD_ELEMENTS_PER_CELL;
        let ncells = P::CELLS_PER_EXT_BLOB;
        let ext = P::FIELD_ELEMENTS_PER_EXT_BLOB;
        match cells {
            Some(c) => {
                if c.len() != ncells {
                    return Err(DasError::InvalidLength);
                }
                let mut flat = match fft_settings.fft_fr(poly_monomial.as_slice(), false) {
                    Ok(v) => v,
                    Err(e) => {
                        return Err(e);
                    },
                };
                let ghost evals = vals(flat@);
                let ghost before = flat@;
                match reverse_bit_order(&mut flat) {
                    Ok(()) => {},
                    Err(e) => {
                        return Err(e);
                    },
                }
                proof {
                    lemma_bit_reversed_map(before, |x: B::Fr| x.val());
                }
                let ghost expected = bit_reversed(evals);
                let mut i: usize = 0;
                while i < ncells
                    invariant
                        preset_ok::<P>(FIELD_ELEMENTS_PER_CELL as nat),
                        l == FIELD_ELEMENTS_PER_CELL,
                        ncells == P::CELLS_PER_EXT_BLOB,
                        flat@.len() == ext,
                        ext == P::FIELD_ELEMENTS_PER_EXT_BLOB,
                        vals(flat@) == expected,
                        c@.len() == ncells,
                        i <= ncells,
                        forall|x: int, j: int|
                            0 <= x < i && 0 <= j < l ==> (#[trigger] c@[x]@[j]).val() == expected[x * l + j],
                    decreases ncells - i,
                {
                    let mut cell = [B::Fr::zero(); FIELD_ELEMENTS_PER_CELL];
                    let mut j: usize = 0;
                    while j < l
                        invariant
                            preset_ok::<P>(FIELD_ELEMENTS_PER_CELL as nat),
                            l == FIELD_ELEMENTS_PER_CELL,
                            ncells == P::CELLS_PER_EXT_BLOB,
                            flat@.len() == ext,
                            ext == P::FIELD_ELEMENTS_PER_EXT_BLOB,
                            vals(flat@) == expected,
                            i < ncells,
                            j <= l,
                            forall|y: int| 0 <= y < j ==> (#[trigger] cell@[y]).val() == expected[i * l + y],
                        decreases l - j,
                    {
                        proof {
                            crate::verify::lemma_cell_position_bound(i as int, j as int, l as int, ncells as int);
                        }
                        cell[j] = flat[i * l + j];
                        j = j + 1;
                    }
                    c.set(i, cell);
                    i = i + 1;
                }
                assert(is_blob_monomial(&fs, vals(blob@), P::FIELD_ELEMENTS_PER_EXT_BLOB as nat, vals(poly_monomial@)));
            },
            None => {},
        }
        match proofs {
            Some(p) => {
                if p.len() != ncells {
                    return Err(DasError::InvalidLength);
                }
                proof {
                    assert(2 * P::FIELD_ELEMENTS_PER_BLOB <= usize::MAX);
                    lemma_half_cells::<P>(FIELD_ELEMENTS_PER_CELL as nat);
                }
                let mut result = match compute_fk20_proofs::<FIELD_ELEMENTS_PER_CELL, B>(
                    poly_monomial.as_slice(),
                    P::FIELD_ELEMENTS_PER_BLOB,
                    fft_settings,
                    self.kzg_settings(),
                ) {
                    Ok(v) => v,
                    Err(e) => {
                        return Err(e);
                    },
                };
                proof {
                    lemma_half_cells::<P>(FIELD_ELEMENTS_PER_CELL as nat);
                }
                match reverse_bit_order(&mut result) {
                    Ok(()) => {},
                    Err(e) => {
                        return Err(e);
                    },
                }
                *p = result;
            },
            None => {},
        }
        Ok(())
    }

    /// Restores all cells of an extended blob from at least half of them, given
    /// with their indices, into `recovered_cells`, and the proofs of all cells into
    /// `recovered_proofs`.
    fn recover_cells_and_kzg_proofs(
        &self,
        recovered_cells: &mut Vec<[B::Fr; FIELD_ELEMENTS_PER_CELL]>,
        recovered_proofs: Option<&mut Vec<B::G1>>,
        cell_indices: &[usize],
        cells: &[[B::Fr; FIELD_ELEMENTS_PER_CELL]],
    ) -> (r: Result<(), DasError>)
        requires
            preset_ok::<P>(FIELD_ELEMENTS_PER_CELL as nat),
            forall|i: int, j: int|
                0 <= i < cells@.len() && 0 <= j < FIELD_ELEMENTS_PER_CELL ==> !(#[trigger] cells@[i]@[j]).is_null_spec(),
        ensures
            old(recovered_cells)@.len() != P::CELLS_PER_EXT_BLOB ==> r == Err::<(), DasError>(DasError::InvalidLength),
            recovered_proofs matches Some(p) ==> (p@.len() != P::CELLS_PER_EXT_BLOB ==> r == Err::<(), DasError>(
                DasError::InvalidLength,
            )),
            cells@.len() != cell_indices@.len() ==> r == Err::<(), DasError>(DasError::InvalidLength),
            cells@.len() > P::CELLS_PER_EXT_BLOB ==> r == Err::<(), DasError>(DasError::InvalidLength),
            ({
                let lengths_ok = old(recovered_cells)@.len() == P::CELLS_PER_EXT_BLOB && (recovered_proofs matches Some(p)
                    ==> p@.len() == P::CELLS_PER_EXT_BLOB) && cells@.len() == cell_indices@.len() && cells@.len()
                    <= P::CELLS_PER_EXT_BLOB;
                let indices_ok = forall|i: int| 0 <= i < cell_indices@.len() ==> #[trigger] cell_indices@[i] < P::CELLS_PER_EXT_BLOB;
                &&& lengths_ok && cells@.len() < P::CELLS_PER_EXT_BLOB / 2 ==> r == Err::<(), DasError>(DasError::InsufficientCells)
                &&& lengths_ok && cells@.len() >= P::CELLS_PER_EXT_BLOB / 2 && !indices_ok ==> r == Err::<(), DasError>(
                    DasError::InvalidIndex,
                )
                &&& lengths_ok && cells@.len() >= P::CELLS_PER_EXT_BLOB / 2 && indices_ok && has_duplicates(cell_indices@)
                    ==> r == Err::<(), DasError>(DasError::DuplicateIndex)
                &&& !(lengths_ok && cells@.len() >= P::CELLS_PER_EXT_BLOB / 2 && indices_ok && !has_duplicates(cell_indices@))
                    ==> final(recovered_cells)@ == old(recovered_cells)@ && (recovered_proofs matches Some(p) ==> final(p)@ == p@)
                &&& lengths_ok && indices_ok && !has_duplicates(cell_indices@) && cells@.len() == P::CELLS_PER_EXT_BLOB
                    && recovered_proofs is None ==> r is Ok
                &&& lengths_ok && indices_ok && !has_duplicates(cell_indices@) && P::CELLS_PER_EXT_BLOB / 2 <= cells@.len()
                    < P::CELLS_PER_EXT_BLOB && recovery_possible::<FIELD_ELEMENTS_PER_CELL, B, P>(
                    &self.settings_spec().fft_settings_spec(),
                    cell_indices@,
                ) && (recovered_proofs is Some ==> forall|j: nat|
                    j < P::CELLS_PER_EXT_BLOB ==> #[trigger] self.settings_spec().x_ext_fft_column_spec(j).len()
                        >= FIELD_ELEMENTS_PER_CELL) ==> r is Ok
                &&& lengths_ok && indices_ok && !has_duplicates(cell_indices@) && cells@.len() == P::CELLS_PER_EXT_BLOB
                    && P::FIELD_ELEMENTS_PER_EXT_BLOB <= self.settings_spec().fft_settings_spec().max_width_spec() && is_pow2(
                    self.settings_spec().fft_settings_spec().max_width_spec(),
                ) && (forall|j: nat|
                    j < P::CELLS_PER_EXT_BLOB ==> #[trigger] self.settings_spec().x_ext_fft_column_spec(j).len()
                        >= FIELD_ELEMENTS_PER_CELL) ==> r is Ok
            }),
            r is Ok ==> final(recovered_cells)@.len() == P::CELLS_PER_EXT_BLOB,
            r is Ok && cells@.len() < P::CELLS_PER_EXT_BLOB ==> exists|scattered: Seq<B::Fr>|
                is_scattered::<B::Fr, FIELD_ELEMENTS_PER_CELL>(scattered, cell_indices@, cells@, P::CELLS_PER_EXT_BLOB as nat)
                    && vals(flatten_cells(final(recovered_cells)@)) == recovered_evaluations::<FIELD_ELEMENTS_PER_CELL, B, P>(
                    &self.settings_spec().fft_settings_spec(),
                    scattered,
                    cell_indices@,
                ),
            r is Ok && cells@.len() == P::CELLS_PER_EXT_BLOB ==> forall|i: int|
                0 <= i < cells@.len() ==> #[trigger] final(recovered_cells)@[cell_indices@[i] as int] == cells@[i],
            r is Ok ==> (recovered_proofs matches Some(p) ==> final(p)@.len() == P::CELLS_PER_EXT_BLOB && final(p)@
                == bit_reversed(
                fk20_spec::<B>(
                    &self.settings_spec().fft_settings_spec(),
                    &self.settings_spec(),
                    self.settings_spec().fft_settings_spec().fft_fr_spec(
                        vals(bit_reversed(flatten_cells(final(recovered_cells)@))),
                        true,
                    ),
                    P::FIELD_ELEMENTS_PER_BLOB as nat,
                    FIELD_ELEMENTS_PER_CELL as nat,
                ),
            )),
    {
        let ncells = P::CELLS_PER_EXT_BLOB;
        let l = FIELD_ELEMENTS_PER_CELL;
        if recovered_cells.len() != ncells {
            return Err(DasError::InvalidLength);
        }
        let proofs_len_ok = match &recovered_proofs {
            Some(p) => p.len() == ncells,
            None => true,
        };
        if !proofs_len_ok {
            return Err(DasError::InvalidLength);
        }
        if cells.len() != cell_indices.len() {
            return Err(DasError::InvalidLength);
        }
        if cells.len() > ncells {
            return Err(DasError::InvalidLength);
        }
        if cells.len() < ncells / 2 {
            return Err(DasError::InsufficientCells);
        }
        let mut i: usize = 0;
        while i < cell_indices.len()
            invariant
                old(recovered_cells)@.len() == P::CELLS_PER_EXT_BLOB,
                recovered_proofs matches Some(p) ==> p@.len() == P::CELLS_PER_EXT_BLOB,
                cells@.len() == cell_indices@.len(),
                P::CELLS_PER_EXT_BLOB / 2 <= cells@.len() <= P::CELLS_PER_EXT_BLOB,
                ncells == P::CELLS_PER_EXT_BLOB,
                i <= cell_indices@.len(),
                forall|t: int| 0 <= t < i ==> #[trigger] cell_indices@[t] < ncells,
            decreases cell_indices@.len() - i,
        {
            if cell_indices[i] >= ncells {
                return Err(DasError::InvalidIndex);
            }
            i = i + 1;
        }
        let mut written: Vec<bool> = Vec::new();
        let mut u: usize = 0;
        while u < ncells
            invariant
                written@.len() == u,
                u <= ncells,
                forall|t: int| 0 <= t < u ==> !written@[t],
            decreases ncells - u,
        {
            written.push(false);
            u = u + 1;
        }
        let mut i: usize = 0;
        while i < cells.len()
            invariant
                old(recovered_cells)@.len() == P::CELLS_PER_EXT_BLOB,
                recovered_proofs matches Some(p) ==> p@.len() == P::CELLS_PER_EXT_BLOB,
                P::CELLS_PER_EXT_BLOB / 2 <= cells@.len() <= P::CELLS_PER_EXT_BLOB,
                ncells == P::CELLS_PER_EXT_BLOB,
                cells@.len() == cell_indices@.len(),
                written@.len() == ncells,
                i <= cells@.len(),
                forall|t: int| 0 <= t < cell_indices@.len() ==> #[trigger] cell_indices@[t] < ncells,
                forall|t: int| 0 <= t < i ==> written@[#[trigger] cell_indices@[t] as int],
                forall|x: int| 0 <= x < ncells && written@[x] ==> exists|t: int| 0 <= t < i && #[trigger] cell_indices@[t] == x,
                forall|a: int, b: int| 0 <= a < b < i ==> cell_indices@[a] != cell_indices@[b],
            decreases cells@.len() - i,
        {
            let index = cell_indices[i];
            if written[index] {
                proof {
                    let t = choose|t: int| 0 <= t < i && #[trigger] cell_indices@[t] == index;
                    assert(has_duplicates(cell_indices@)) by {
                        assert(0 <= t < i as int && cell_indices@[t] == cell_indices@[i as int]);
                    }
                }
                return Err(DasError::DuplicateIndex);
            }
            written.set(index, true);
            i = i + 1;
        }
        proof {
            assert(!has_duplicates(cell_indices@));
        }
        let mut i: usize = 0;
        while i < cells.len()
            invariant
                ncells == P::CELLS_PER_EXT_BLOB,
                cells@.len() == cell_indices@.len(),
                recovered_cells@.len() == ncells,
                i <= cells@.len(),
                forall|t: int| 0 <= t < cell_indices@.len() ==> #[trigger] cell_indices@[t] < ncells,
                forall|a: int, b: int| 0 <= a < b < cells@.len() ==> cell_indices@[a] != cell_indices@[b],
                forall|t: int| 0 <= t < i ==> #[trigger] recovered_cells@[cell_indices@[t] as int] == cells@[t],
            decreases cells@.len() - i,
        {
            recovered_cells.set(cell_indices[i], cells[i]);
            i = i + 1;
        }
        let all_present = cells.len() == ncells;
        let mut flat: Vec<B::Fr> = Vec::new();
        let mut c: usize = 0;
        while c < ncells
            invariant
                preset_ok::<P>(FIELD_ELEMENTS_PER_CELL as nat),
                ncells == P::CELLS_PER_EXT_BLOB,
                l == FIELD_ELEMENTS_PER_CELL,
                written@.len() == ncells,
                recovered_cells@.len() == ncells,
                c <= ncells,
                flat@.len() == c * l,
                forall|t: int| 0 <= t < cells@.len() ==> #[trigger] recovered_cells@[cell_indices@[t] as int] == cells@[t],
                forall|t: int| 0 <= t < cell_indices@.len() ==> #[trigger] cell_indices@[t] < ncells,
                forall|t: int| 0 <= t < cells@.len() ==> written@[#[trigger] cell_indices@[t] as int],
                forall|x: int| 0 <= x < ncells && written@[x] ==> exists|t: int| 0 <= t < cells@.len() && #[trigger] cell_indices@[t] == x,
                cells@.len() == cell_indices@.len(),
                all_present == (cells@.len() == ncells),
                forall|x: int, y: int|
                    0 <= x < c && 0 <= y < l ==> if all_present || written@[x] {
                        #[trigger] flat@[x * l + y] == recovered_cells@[x]@[y]
                    } else {
                        flat@[x * l + y].is_null_spec()
                    },
            decreases ncells - c,
        {
            let mut j: usize = 0;
            while j < l
                invariant
                    preset_ok::<P>(FIELD_ELEMENTS_PER_CELL as nat),
                    ncells == P::CELLS_PER_EXT_BLOB,
                    l == FIELD_ELEMENTS_PER_CELL,
                    written@.len() == ncells,
                    recovered_cells@.len() == ncells,
                    c < ncells,
                    j <= l,
                    flat@.len() == c * l + j,
                    forall|x: int, y: int|
                        0 <= x < c && 0 <= y < l ==> if all_present || written@[x] {
                            #[trigger] flat@[x * l + y] == recovered_cells@[x]@[y]
                        } else {
                            flat@[x * l + y].is_null_spec()
                        },
                    forall|y: int| 0 <= y < j ==> if all_present || written@[c as int] {
                        #[trigger] flat@[c * l + y] == recovered_cells@[c as int]@[y]
                    } else {
                        flat@[c * l + y].is_null_spec()
                    },
                decreases l - j,
            {
                let ghost before = flat@;
                if all_present || written[c] {
                    flat.push(recovered_cells[c][j]);
                } else {
                    flat.push(B::Fr::null());
                }
                proof {
                    assert forall|x: int, y: int| 0 <= x < c && 0 <= y < l implies #[trigger] flat@[x * l + y]
                        == before[x * l + y] by {
                        lemma_cell_position_bound(x, y, l as int, c as int);
                    }
                    assert forall|y: int| 0 <= y < j implies #[trigger] flat@[c * l + y] == before[c * l + y] by {
                        lemma_cell_position_bound(c as int, y, l as int, c as int + 1);
                    }
                }
                proof {
                    lemma_cell_position_bound(c as int, j as int, l as int, ncells as int);
                }
                j = j + 1;
            }
            proof {
                assert(c * l + l == (c + 1) * l) by (nonlinear_arith);
                assert forall|x: int, y: int| 0 <= x < c + 1 && 0 <= y < l implies if all_present || written@[x] {
                    #[trigger] flat@[x * l + y] == recovered_cells@[x]@[y]
                } else {
                    flat@[x * l + y].is_null_spec()
                } by {
                    if x == c {
                    }
                }
            }
            c = c + 1;
        }
        let fft_settings = self.kzg_settings().get_fft_settings();
        let ghost scattered = flat@;
        proof {
            if !all_present {
                assert forall|t: int, y: int| 0 <= t < cells@.len() && 0 <= y < l implies #[trigger] scattered[cell_indices@[t]
                    * l + y] == cells@[t]@[y] by {
                    assert(written@[cell_indices@[t] as int]);
                }
                assert forall|x: int, y: int|
                    0 <= x < ncells && 0 <= y < l && !cell_indices@.contains(x as usize) implies (#[trigger] scattered[x * l
                    + y]).is_null_spec() by {
                    if written@[x] {
                        let t = choose|t: int| 0 <= t < cells@.len() && #[trigger] cell_indices@[t] == x;
                        assert(cell_indices@[t] == x as usize);
                    }
                }
            }
        }
        if !all_present {
            match recover_cells::<FIELD_ELEMENTS_PER_CELL, B, P>(&mut flat, cell_indices, fft_settings) {
                Ok(()) => {},
                Err(e) => {
                    return Err(e);
                },
            }
            let mut c: usize = 0;
            while c < ncells
                invariant
                    preset_ok::<P>(FIELD_ELEMENTS_PER_CELL as nat),
                    ncells == P::CELLS_PER_EXT_BLOB,
                    l == FIELD_ELEMENTS_PER_CELL,
                    flat@.len() == P::FIELD_ELEMENTS_PER_EXT_BLOB,
                    vals(flat@) == recovered_evaluations::<FIELD_ELEMENTS_PER_CELL, B, P>(
                        &self.settings_spec().fft_settings_spec(),
                        scattered,
                        cell_indices@,
                    ),
                    recovered_cells@.len() == ncells,
                    c <= ncells,
                    forall|x: int, y: int|
                        0 <= x < c && 0 <= y < l ==> #[trigger] flat@[x * l + y] == recovered_cells@[x]@[y],
                decreases ncells - c,
            {
                let mut cell = [B::Fr::zero(); FIELD_ELEMENTS_PER_CELL];
                let mut j: usize = 0;
                while j < l
                    invariant
                        preset_ok::<P>(FIELD_ELEMENTS_PER_CELL as nat),
                        ncells == P::CELLS_PER_EXT_BLOB,
                        l == FIELD_ELEMENTS_PER_CELL,
                        flat@.len() == P::FIELD_ELEMENTS_PER_EXT_BLOB,
                        c < ncells,
                        j <= l,
                        forall|y: int| 0 <= y < j ==> #[trigger] cell@[y] == flat@[c * l + y],
                    decreases l - j,
                {
                    proof {
                        lemma_cell_position_bound(c as int, j as int, l as int, ncells as int);
                    }
                    cell[j] = flat[c * l + j];
                    j = j + 1;
                }
                recovered_cells.set(c, cell);
                proof {
                    assert forall|x: int, y: int| 0 <= x < c + 1 && 0 <= y < l implies #[trigger] flat@[x * l + y]
                        == recovered_cells@[x]@[y] by {
                        if x == c {
                        }
                    }
                }
                c = c + 1;
            }
            assert(vals(flat@) == recovered_evaluations::<FIELD_ELEMENTS_PER_CELL, B, P>(
                &self.settings_spec().fft_settings_spec(),
                scattered,
                cell_indices@,
            ));
            proof {
                lemma_flatten_cells::<B::Fr, FIELD_ELEMENTS_PER_CELL>(flat@, recovered_cells@);
                assert(is_scattered::<B::Fr, FIELD_ELEMENTS_PER_CELL>(scattered, cell_indices@, cells@, ncells as nat));
                assert(vals(flatten_cells(recovered_cells@)) == recovered_evaluations::<FIELD_ELEMENTS_PER_CELL, B, P>(
                    &self.settings_spec().fft_settings_spec(),
                    scattered,
                    cell_indices@,
                ));
            }
        }
        proof {
            lemma_flatten_cells::<B::Fr, FIELD_ELEMENTS_PER_CELL>(flat@, recovered_cells@);
        }
        match recovered_proofs {
            Some(p) => {
                proof {
                    lemma_half_cells::<P>(FIELD_ELEMENTS_PER_CELL as nat);
                }
                let mut poly = flat;
                match poly_lagrange_to_monomial::<B>(&mut poly, fft_settings) {
                    Ok(()) => {},
                    Err(e) => {
                        return Err(e);
                    },
                }
                let mut result = match compute_fk20_proofs::<FIELD_ELEMENTS_PER_CELL, B>(
                    poly.as_slice(),
                    P::FIELD_ELEMENTS_PER_BLOB,
                    fft_settings,
                    self.kzg_settings(),
                ) {
                    Ok(v) => v,
                    Err(e) => {
                        return Err(e);
                    },
                };
                match reverse_bit_order(&mut result) {
                    Ok(()) => {},
                    Err(e) => {
                        return Err(e);
                    },
                }
                *p = result;
            },
            None => {},
        }
        Ok(())
    }

    /// Checks a batch of cells against their commitments and proofs with one
    /// pairing check. A well-formed batch that does not verify gives `Ok(false)`.
    fn verify_cell_kzg_proof_batch(
        &self,
        commitments: &[B::G1],
        cell_indices: &[usize],
        cells: &[[B::Fr; FIELD_ELEMENTS_PER_CELL]],
        proofs: &[B::G1],
    ) -> (r: Result<bool, DasError>)
        requires
            preset_ok::<P>(FIELD_ELEMENTS_PER_CELL as nat),
        ensures
            ({
                let lengths_ok = cells@.len() == cell_indices@.len() && commitments@.len() == cells@.len()
                    && proofs@.len() == cells@.len();
                let indices_ok = forall|i: int| 0 <= i < cell_indices@.len() ==> #[trigger] cell_indices@[i] < P::CELLS_PER_EXT_BLOB;
                let proofs_ok = forall|i: int| 0 <= i < proofs@.len() ==> (#[trigger] proofs@[i]).is_valid_spec();
                let commitments_ok = forall|i: int| 0 <= i < commitments@.len() ==> (#[trigger] commitments@[i]).is_valid_spec();
                &&& !lengths_ok ==> r == Err::<bool, DasError>(DasError::InvalidLength)
                &&& lengths_ok && cells@.len() == 0 ==> r == Ok::<bool, DasError>(true)
                &&& lengths_ok && cells@.len() > 0 && !indices_ok ==> r == Err::<bool, DasError>(DasError::InvalidIndex)
                &&& lengths_ok && cells@.len() > 0 && indices_ok && !proofs_ok ==> r == Err::<bool, DasError>(DasError::InvalidPoint)
                &&& lengths_ok && cells@.len() > 0 && indices_ok && proofs_ok && !commitments_ok ==> r == Err::<bool, DasError>(
                    DasError::InvalidPoint,
                )
                &&& lengths_ok && indices_ok && proofs_ok && commitments_ok && is_pow2(FIELD_ELEMENTS_PER_CELL as nat)
                    && self.settings_spec().fft_settings_spec().max_width_spec() == P::FIELD_ELEMENTS_PER_EXT_BLOB
                    && self.settings_spec().g1_monomial_spec().len() >= FIELD_ELEMENTS_PER_CELL
                    && self.settings_spec().g2_monomial_spec().len() > FIELD_ELEMENTS_PER_CELL ==> r is Ok
            }),
            cells@.len() > 0 ==> (r matches Ok(b) ==> exists|unique: Seq<B::G1>, indices: Seq<usize>|
                is_dedup_of(commitments@, unique, indices) && b == batch_check::<FIELD_ELEMENTS_PER_CELL, B, P>(
                    &self.settings_spec(),
                    unique,
                    indices,
                    cell_indices@,
                    cells@,
                    proofs@,
                )),
    {
        if cells.len() != cell_indices.len() || commitments.len() != cells.len() || proofs.len() != cells.len() {
            return Err(DasError::InvalidLength);
        }
        if cells.len() == 0 {
            return Ok(true);
        }
        let ncells = P::CELLS_PER_EXT_BLOB;
        let n = cells.len();
        let mut i: usize = 0;
        while i < n
            invariant
                n == cells@.len(),
                n > 0,
                cells@.len() == cell_indices@.len() && commitments@.len() == cells@.len() && proofs@.len() == cells@.len(),
                n == cell_indices@.len(),
                ncells == P::CELLS_PER_EXT_BLOB,
                i <= n,
                forall|t: int| 0 <= t < i ==> #[trigger] cell_indices@[t] < ncells,
            decreases n - i,
        {
            if cell_indices[i] >= ncells {
                return Err(DasError::InvalidIndex);
            }
            i = i + 1;
        }
        let mut i: usize = 0;
        while i < n
            invariant
                n == cells@.len(),
                cells@.len() == cell_indices@.len() && commitments@.len() == cells@.len() && proofs@.len() == cells@.len(),
                forall|t: int| 0 <= t < cell_indices@.len() ==> #[trigger] cell_indices@[t] < P::CELLS_PER_EXT_BLOB,
                n == proofs@.len(),
                i <= n,
                forall|t: int| 0 <= t < i ==> (#[trigger] proofs@[t]).is_valid_spec(),
            decreases n - i,
        {
            if !proofs[i].is_valid() {
                return Err(DasError::InvalidPoint);
            }
            i = i + 1;
        }
        let mut i: usize = 0;
        while i < n
            invariant
                n == cells@.len(),
                cells@.len() == cell_indices@.len() && commitments@.len() == cells@.len() && proofs@.len() == cells@.len(),
                forall|t: int| 0 <= t < cell_indices@.len() ==> #[trigger] cell_indices@[t] < P::CELLS_PER_EXT_BLOB,
                forall|t: int| 0 <= t < proofs@.len() ==> (#[trigger] proofs@[t]).is_valid_spec(),
                n == commitments@.len(),
                i <= n,
                forall|t: int| 0 <= t < i ==> (#[trigger] commitments@[t]).is_valid_spec(),
            decreases n - i,
        {
            if !commitments[i].is_valid() {
                return Err(DasError::InvalidPoint);
            }
            i = i + 1;
        }
        let mut new_count = n;
        let mut unique_commitments = copy_of(commitments);
        let mut commitment_indices: Vec<usize> = Vec::new();
        let mut i: usize = 0;
        while i < n
            invariant
                commitment_indices@.len() == i,
                i <= n,
            decreases n - i,
        {
            commitment_indices.push(0);
            i = i + 1;
        }
        deduplicate_commitments(&mut unique_commitments, &mut commitment_indices, &mut new_count);
        proof {
            assert(commitments@.take(n as int) =~= commitments@);
            crate::verify::lemma_unique_keys_distinct(crate::verify::keys_of(commitments@));
        }
        let ghost copied = unique_commitments@;
        unique_commitments.truncate(new_count);
        assert(is_dedup_of(commitments@, unique_commitments@, commitment_indices@)) by {
            assert(keys_of(unique_commitments@).len() == unique_commitments@.len());
            assert forall|j: int| 0 <= j < unique_commitments@.len() implies exists|t: int|
                0 <= t < commitments@.len() && #[trigger] unique_commitments@[j] == commitments@[t] && is_first_occurrence(
                    commitments@,
                    t,
                ) by {
                assert(unique_commitments@[j] == copied[j]);
            }
            assert forall|i: int| 0 <= i < commitments@.len() implies #[trigger] commitment_indices@[i] < unique_commitments@.len()
                && unique_commitments@[commitment_indices@[i] as int].bytes_spec() == commitments@[i].bytes_spec() by {
            }
        }
        let fft_settings = self.kzg_settings().get_fft_settings();
        let r_powers = match compute_r_powers_for_verify_cell_kzg_proof_batch::<FIELD_ELEMENTS_PER_CELL, B::Fr, B::G1>(
            unique_commitments.as_slice(),
            commitment_indices.as_slice(),
            cell_indices,
            cells,
            proofs,
        ) {
            Ok(v) => v,
            Err(e) => {
                return Err(e);
            },
        };
        let proof_lincomb = B::G1::g1_lincomb(proofs, r_powers.as_slice(), n);
        assert(proofs@.take(n as int) =~= proofs@);
        assert(vals(r_powers@).take(n as int) =~= vals(r_powers@));
        let final_g1_sum = compute_weighted_sum_of_commitments::<B>(
            unique_commitments.as_slice(),
            commitment_indices.as_slice(),
            r_powers.as_slice(),
        );
        let interpolation_poly_commit = match compute_commitment_to_aggregated_interpolation_poly::<FIELD_ELEMENTS_PER_CELL, B, P>(
            r_powers.as_slice(),
            cell_indices,
            cells,
            fft_settings,
            self.kzg_settings().get_g1_monomial(),
        ) {
            Ok(v) => v,
            Err(e) => {
                return Err(e);
            },
        };
        let final_g1_sum = final_g1_sum.sub(&interpolation_poly_commit);
        proof {
            if fft_settings.max_width_spec() == P::FIELD_ELEMENTS_PER_EXT_BLOB {
                assert forall|i: int| 0 <= i < cell_indices@.len() implies rev_index(
                    P::CELLS_PER_EXT_BLOB as nat,
                    #[trigger] cell_indices@[i] as nat,
                ) * FIELD_ELEMENTS_PER_CELL <= fft_settings.max_width_spec() by {
                    crate::bitrev::lemma_rev_index_bound(P::CELLS_PER_EXT_BLOB as nat, cell_indices@[i] as nat);
                    lemma_cell_position_bound(
                        rev_index(P::CELLS_PER_EXT_BLOB as nat, cell_indices@[i] as nat) as int,
                        0,
                        FIELD_ELEMENTS_PER_CELL as int,
                        P::CELLS_PER_EXT_BLOB as int,
                    );
                }
            }
        }
        let weighted_sum_of_proofs = match computed_weighted_sum_of_proofs::<FIELD_ELEMENTS_PER_CELL, B, P>(
            proofs,
            r_powers.as_slice(),
            cell_indices,
            fft_settings,
        ) {
            Ok(v) => v,
            Err(e) => {
                return Err(e);
            },
        };
        let final_g1_sum = final_g1_sum.add(&weighted_sum_of_proofs);
        let g2_monomial = self.kzg_settings().get_g2_monomial();
        if g2_monomial.len() <= FIELD_ELEMENTS_PER_CELL {
            return Err(DasError::InvalidLength);
        }
        let power_of_s = &g2_monomial[FIELD_ELEMENTS_PER_CELL];
        Ok(B::G1::verify(&final_g1_sum, &B::G2::generator(), &proof_lincomb, power_of_s))
    }
}

impl<B: EcBackend, const FIELD_ELEMENTS_PER_CELL: usize, P: Preset> DAS<B, FIELD_ELEMENTS_PER_CELL, P> for B::KZGSettings {
    open spec fn settings_spec(&self) -> B::KZGSettings {
        *self
    }

    fn kzg_settings(&self) -> (r: &B::KZGSettings) {
        self
    }
}

} // verus!
