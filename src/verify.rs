use vstd::prelude::*;

use crate::backend::{pow_mod, lemma_pow_mod_step, preset_ok, vals, EcBackend, FFTSettings, Fr, G1, G1LinComb, Preset};
use crate::bitrev::{rev_index, reverse_bits_limited, lemma_rev_index_bound};
use crate::poly::{shift_poly, shifted, zeros};
use crate::bitrev::{bit_reversed, is_pow2, reverse_bit_order};
use crate::recover::copy_of;
use crate::DasError;

verus! {

/// The distinct keys of `keys`, in the order of their first occurrence.
pub open spec fn unique_keys(keys: Seq<Seq<u8>>) -> Seq<Seq<u8>>
    decreases keys.len(),
{
    if keys.len() == 0 {
        Seq::empty()
    } else {
        let prev = unique_keys(keys.drop_last());
        if prev.contains(keys.last()) {
            prev
        } else {
            prev.push(keys.last())
        }
    }
}

/// The encodings of a sequence of points.
pub open spec fn keys_of<TG1: G1>(s: Seq<TG1>) -> Seq<Seq<u8>> {
    s.map_values(|p: TG1| p.bytes_spec())
}

/// The distinct keys are distinct, no more than the keys, and hold exactly the keys.
pub proof fn lemma_unique_keys_distinct(keys: Seq<Seq<u8>>)
    ensures
        unique_keys(keys).no_duplicates(),
        unique_keys(keys).len() <= keys.len(),
        forall|i: int| 0 <= i < keys.len() ==> unique_keys(keys).contains(#[trigger] keys[i]),
        forall|j: int| 0 <= j < unique_keys(keys).len() ==> keys.contains(#[trigger] unique_keys(keys)[j]),
    decreases keys.len(),
{
    if keys.len() > 0 {
        let prev = keys.drop_last();
        lemma_unique_keys_distinct(prev);
        let pu = unique_keys(prev);
        let u = unique_keys(keys);
        assert forall|x: Seq<u8>| pu.contains(x) implies u.contains(x) by {
            let t = choose|t: int| 0 <= t < pu.len() && pu[t] == x;
            if !pu.contains(keys.last()) {
                assert(u[t] == x);
            }
        }
        assert(u.contains(keys.last())) by {
            if !pu.contains(keys.last()) {
                assert(u[u.len() - 1] == keys.last());
            }
        }
        assert forall|i: int| 0 <= i < keys.len() implies unique_keys(keys).contains(#[trigger] keys[i]) by {
            if i < keys.len() - 1 {
                assert(prev[i] == keys[i]);
                assert(pu.contains(prev[i]));
            }
        }
        assert forall|j: int| 0 <= j < unique_keys(keys).len() implies keys.contains(#[trigger] unique_keys(keys)[j]) by {
            if j < unique_keys(prev).len() {
                let x = unique_keys(prev)[j];
                assert(prev.contains(x));
                let t = choose|t: int| 0 <= t < prev.len() && prev[t] == x;
                assert(keys[t] == x);
            } else {
                assert(keys[keys.len() - 1] == keys.last());
            }
        }
    }
}

/// No point before position `t` of `s` has the encoding of the point at `t`.
pub open spec fn is_first_occurrence<TG1: G1>(s: Seq<TG1>, t: int) -> bool {
    forall|u: int| 0 <= u < t ==> (#[trigger] s[u]).bytes_spec() != s[t].bytes_spec()
}

/// Gathers the distinct commitments among the first `count` at the front of
/// `commitments`, in the order of their first occurrence, sets `indicies[i]` to the
/// position of commitment `i` among them, and sets `count` to their number.
pub fn deduplicate_commitments<TG1: G1>(
    commitments: &mut Vec<TG1>,
    indicies: &mut Vec<usize>,
    count: &mut usize,
)
    requires
        *old(count) <= old(commitments)@.len(),
        *old(count) <= old(indicies)@.len(),
    ensures
        final(commitments)@.len() == old(commitments)@.len(),
        final(indicies)@.len() == old(indicies)@.len(),
        forall|t: int| *final(count) <= t < old(commitments)@.len() ==> #[trigger] final(commitments)@[t] == old(commitments)@[t],
        forall|j: int|
            0 <= j < *final(count) ==> exists|t: int|
                0 <= t < *old(count) && #[trigger] final(commitments)@[j] == old(commitments)@[t] && is_first_occurrence(
                    old(commitments)@,
                    t,
                ),
        forall|t: int| *old(count) <= t < old(indicies)@.len() ==> #[trigger] final(indicies)@[t] == old(indicies)@[t],
        *final(count) == unique_keys(keys_of(old(commitments)@.take(*old(count) as int))).len(),
        keys_of(final(commitments)@.take(*final(count) as int)) == unique_keys(
            keys_of(old(commitments)@.take(*old(count) as int)),
        ),
        forall|i: int|
            0 <= i < *old(count) ==> #[trigger] final(indicies)@[i] < *final(count)
                && final(commitments)@[final(indicies)@[i] as int].bytes_spec() == old(commitments)@[i].bytes_spec(),
{
    let ghost keys = keys_of(commitments@.take(*count as int));
    let ghost orig = commitments@;
    let ghost ind_len = indicies@.len();
    let ghost orig_ind = indicies@;
    let n = *count;
    if n == 0 {
        assert(keys =~= Seq::<Seq<u8>>::empty());
        return;
    }
    indicies.set(0, 0);
    let mut new_count: usize = 1;
    proof {
        assert(keys.take(1).drop_last() =~= Seq::<Seq<u8>>::empty());
        assert(unique_keys(keys.take(1).drop_last()) =~= Seq::<Seq<u8>>::empty());
        assert(keys.take(1).last() == orig[0].bytes_spec());
        assert(unique_keys(keys.take(1)) =~= seq![orig[0].bytes_spec()]);
        assert(keys_of(commitments@.take(1)) =~= seq![orig[0].bytes_spec()]);
    }
    let mut i: usize = 1;
    while i < n
        invariant
            n <= commitments@.len(),
            n <= indicies@.len(),
            indicies@.len() == ind_len,
            orig_ind.len() == ind_len,
            forall|t: int| n <= t < ind_len ==> #[trigger] indicies@[t] == orig_ind[t],
            commitments@.len() == orig.len(),
            keys == keys_of(orig.take(n as int)),
            1 <= i <= n,
            1 <= new_count <= i,
            forall|t: int| new_count <= t < orig.len() ==> #[trigger] commitments@[t] == orig[t],
            forall|j: int|
                0 <= j < new_count ==> exists|t: int|
                    0 <= t < i && #[trigger] commitments@[j] == orig[t] && is_first_occurrence(orig, t),
            keys_of(commitments@.take(new_count as int)) == unique_keys(keys.take(i as int)),
            forall|t: int|
                0 <= t < i ==> #[trigger] indicies@[t] < new_count && commitments@[indicies@[t] as int].bytes_spec()
                    == orig[t].bytes_spec(),
        decreases n - i,
    {
        let ghost prev_unique = unique_keys(keys.take(i as int));
        let ghost key = orig[i as int].bytes_spec();
        assert(keys.take(i as int + 1).drop_last() =~= keys.take(i as int));
        assert(keys.take(i as int + 1).last() == key);
        let mut found = false;
        let mut j: usize = 0;
        while j < new_count && !found
            invariant
                new_count <= i,
                i < n,
                n <= commitments@.len(),
                commitments@.len() == orig.len(),
                j <= new_count,
                commitments@[i as int] == orig[i as int],
                key == orig[i as int].bytes_spec(),
                keys_of(commitments@.take(new_count as int)) == prev_unique,
                prev_unique.len() == new_count,
                found ==> j < new_count && prev_unique[j as int] == key,
                !found ==> forall|t: int| 0 <= t < j ==> prev_unique[t] != key,
            decreases new_count - j + if found { 0int } else { 1int },
        {
            assert(prev_unique[j as int] == commitments@[j as int].bytes_spec());
            if commitments[i].equals(&commitments[j]) {
                found = true;
            } else {
                j = j + 1;
            }
        }
        let ghost nc0 = new_count as int;
        let ghost c0 = commitments@;
        if found {
            indicies.set(i, j);
            assert(prev_unique.contains(key));
            assert(commitments@[j as int].bytes_spec() == prev_unique[j as int]);
        } else {
            assert(!prev_unique.contains(key));
            let c = commitments[i];
            commitments.set(new_count, c);
            indicies.set(i, new_count);
            new_count = new_count + 1;
            assert(keys_of(commitments@.take(new_count as int)) =~= prev_unique.push(key));
            proof {
                lemma_unique_keys_distinct(keys.take(i as int));
                assert forall|u: int| 0 <= u < i implies (#[trigger] orig[u]).bytes_spec() != orig[i as int].bytes_spec() by {
                    assert(keys.take(i as int)[u] == orig[u].bytes_spec());
                }
                assert(is_first_occurrence(orig, i as int));
            }
        }
        proof {
            assert forall|jj: int| 0 <= jj < new_count implies exists|t: int|
                0 <= t < i + 1 && #[trigger] commitments@[jj] == orig[t] && is_first_occurrence(orig, t) by {
                if jj < nc0 {
                    let t = choose|t: int| 0 <= t < i && #[trigger] c0[jj] == orig[t] && is_first_occurrence(orig, t);
                    assert(commitments@[jj] == c0[jj]);
                    assert(0 <= t < i + 1 && commitments@[jj] == orig[t] && is_first_occurrence(orig, t));
                } else {
                    assert(commitments@[jj] == orig[i as int]);
                    assert(is_first_occurrence(orig, i as int));
                }
            }
        }
        i = i + 1;
    }
    assert(keys.take(n as int) =~= keys);
    *count = new_count;
}

/// The domain separator that starts the challenge input: `RCKZGCBATCH__V1_`.
pub open spec fn challenge_domain() -> Seq<u8> {
    seq![82u8, 67, 75, 90, 71, 67, 66, 65, 84, 67, 72, 95, 95, 86, 49, 95]
}

/// The 8-byte big-endian encoding of `x`.
pub open spec fn u64_be(x: u64) -> Seq<u8> {
    seq![
        (x >> 56u64) as u8,
        (x >> 48u64) as u8,
        (x >> 40u64) as u8,
        (x >> 32u64) as u8,
        (x >> 24u64) as u8,
        (x >> 16u64) as u8,
        (x >> 8u64) as u8,
        x as u8,
    ]
}

/// The encodings of points, one after the other.
pub open spec fn points_bytes<TG1: G1>(s: Seq<TG1>) -> Seq<u8>
    decreases s.len(),
{
    if s.len() == 0 {
        Seq::empty()
    } else {
        points_bytes(s.drop_last()) + s.last().bytes_spec()
    }
}

/// The encodings of scalars, one after the other.
pub open spec fn scalars_bytes<F: Fr>(s: Seq<F>) -> Seq<u8>
    decreases s.len(),
{
    if s.len() == 0 {
        Seq::empty()
    } else {
        scalars_bytes(s.drop_last()) + s.last().bytes_spec()
    }
}

/// The bytes of the first `i` rows of the challenge input: for each, the commitment
/// index, the cell index, the cell's scalars and the proof.
pub open spec fn rows_bytes<F: Fr, TG1: G1, const L: usize>(
    commitment_indices: Seq<usize>,
    cell_indices: Seq<usize>,
    cells: Seq<[F; L]>,
    proofs: Seq<TG1>,
    i: nat,
) -> Seq<u8>
    decreases i,
{
    if i == 0 {
        Seq::empty()
    } else {
        let t = i - 1;
        rows_bytes(commitment_indices, cell_indices, cells, proofs, t as nat) + u64_be(
            commitment_indices[t] as u64,
        ) + u64_be(cell_indices[t] as u64) + scalars_bytes(cells[t]@) + proofs[t].bytes_spec()
    }
}

/// The bytes that the batch challenge hashes.
pub open spec fn challenge_input<F: Fr, TG1: G1, const L: usize>(
    commitments: Seq<TG1>,
    commitment_indices: Seq<usize>,
    cell_indices: Seq<usize>,
    cells: Seq<[F; L]>,
    proofs: Seq<TG1>,
) -> Seq<u8> {
    challenge_domain() + u64_be(L as u64) + u64_be(commitments.len() as u64) + u64_be(cells.len() as u64)
        + points_bytes(commitments) + rows_bytes(commitment_indices, cell_indices, cells, proofs, cells.len())
}

/// The powers `1, r, r^2, ...` of `r`, `n` of them.
pub open spec fn powers(r: int, n: nat, m: int) -> Seq<int> {
    Seq::new(n, |i: int| pow_mod(r, i as nat, m))
}

fn append_bytes(v: &mut Vec<u8>, b: &[u8])
    ensures
        final(v)@ == old(v)@ + b@,
{
    let ghost start = v@;
    let mut i: usize = 0;
    while i < b.len()
        invariant
            i <= b@.len(),
            v@ == start + b@.take(i as int),
        decreases b@.len() - i,
    {
        v.push(b[i]);
        i = i + 1;
        assert(v@ =~= start + b@.take(i as int));
    }
    assert(b@.take(b@.len() as int) =~= b@);
}

fn append_u64(v: &mut Vec<u8>, x: u64)
    ensures
        final(v)@ == old(v)@ + u64_be(x),
{
    let ghost start = v@;
    v.push((x >> 56u64) as u8);
    v.push((x >> 48u64) as u8);
    v.push((x >> 40u64) as u8);
    v.push((x >> 32u64) as u8);
    v.push((x >> 24u64) as u8);
    v.push((x >> 16u64) as u8);
    v.push((x >> 8u64) as u8);
    v.push(x as u8);
    assert(v@ =~= start + u64_be(x));
}

/// The bytes that the batch challenge hashes, laid out as the challenge input is.
pub fn challenge_bytes<const FIELD_ELEMENTS_PER_CELL: usize, F: Fr, TG1: G1>(
    commitments: &[TG1],
    commitment_indices: &[usize],
    cell_indices: &[usize],
    cells: &[[F; FIELD_ELEMENTS_PER_CELL]],
    proofs: &[TG1],
) -> (r: Vec<u8>)
    requires
        commitment_indices@.len() == cells@.len(),
        cell_indices@.len() == cells@.len(),
        proofs@.len() == cells@.len(),
    ensures
        r@ == challenge_input(commitments@, commitment_indices@, cell_indices@, cells@, proofs@),
{
    let mut bytes: Vec<u8> = Vec::new();
    bytes.push(82u8);
    bytes.push(67u8);
    bytes.push(75u8);
    bytes.push(90u8);
    bytes.push(71u8);
    bytes.push(67u8);
    bytes.push(66u8);
    bytes.push(65u8);
    bytes.push(84u8);
    bytes.push(67u8);
    bytes.push(72u8);
    bytes.push(95u8);
    bytes.push(95u8);
    bytes.push(86u8);
    bytes.push(49u8);
    bytes.push(95u8);
    assert(bytes@ =~= challenge_domain());
    append_u64(&mut bytes, FIELD_ELEMENTS_PER_CELL as u64);
    append_u64(&mut bytes, commitments.len() as u64);
    append_u64(&mut bytes, cells.len() as u64);
    let ghost header = bytes@;
    let mut i: usize = 0;
    while i < commitments.len()
        invariant
            i <= commitments@.len(),
            bytes@ == header + points_bytes(commitments@.take(i as int)),
        decreases commitments@.len() - i,
    {
        let enc = commitments[i].to_bytes();
        append_bytes(&mut bytes, &enc);
        proof {
            assert(commitments@.take(i as int + 1).drop_last() =~= commitments@.take(i as int));
        }
        i = i + 1;
        assert(bytes@ =~= header + points_bytes(commitments@.take(i as int)));
    }
    assert(commitments@.take(commitments@.len() as int) =~= commitments@);
    let ghost before_rows = bytes@;
    let mut i: usize = 0;
    while i < cells.len()
        invariant
            i <= cells@.len(),
            commitment_indices@.len() == cells@.len(),
            cell_indices@.len() == cells@.len(),
            proofs@.len() == cells@.len(),
            bytes@ == before_rows + rows_bytes(commitment_indices@, cell_indices@, cells@, proofs@, i as nat),
        decreases cells@.len() - i,
    {
        let ghost row_start = bytes@;
        append_u64(&mut bytes, commitment_indices[i] as u64);
        append_u64(&mut bytes, cell_indices[i] as u64);
        let cell = &cells[i];
        let mut t: usize = 0;
        while t < FIELD_ELEMENTS_PER_CELL
            invariant
                t <= FIELD_ELEMENTS_PER_CELL,
                cell@.len() == FIELD_ELEMENTS_PER_CELL,
                bytes@ == row_start + u64_be(commitment_indices@[i as int] as u64) + u64_be(
                    cell_indices@[i as int] as u64,
                ) + scalars_bytes(cell@.take(t as int)),
            decreases FIELD_ELEMENTS_PER_CELL - t,
        {
            let enc = cell[t].to_bytes();
            append_bytes(&mut bytes, &enc);
            proof {
                assert(cell@.take(t as int + 1).drop_last() =~= cell@.take(t as int));
            }
            t = t + 1;
            assert(bytes@ =~= row_start + u64_be(commitment_indices@[i as int] as u64) + u64_be(
                cell_indices@[i as int] as u64,
            ) + scalars_bytes(cell@.take(t as int)));
        }
        assert(cell@.take(FIELD_ELEMENTS_PER_CELL as int) =~= cell@);
        let enc = proofs[i].to_bytes();
        append_bytes(&mut bytes, &enc);
        i = i + 1;
        assert(bytes@ =~= before_rows + rows_bytes(commitment_indices@, cell_indices@, cells@, proofs@, i as nat));
    }
    bytes
}

/// The powers of the batch challenge, one for each row: `1, r, r^2, ...` where `r`
/// is the challenge derived from the challenge input.
pub fn compute_r_powers_for_verify_cell_kzg_proof_batch<const FIELD_ELEMENTS_PER_CELL: usize, F: Fr, TG1: G1>(
    commitments: &[TG1],
    commitment_indices: &[usize],
    cell_indices: &[usize],
    cells: &[[F; FIELD_ELEMENTS_PER_CELL]],
    proofs: &[TG1],
) -> (r: Result<Vec<F>, DasError>)
    ensures
        (commitment_indices@.len() == cells@.len() && cell_indices@.len() == cells@.len() && proofs@.len()
            == cells@.len()) <==> r is Ok,
        r is Err ==> r == Err::<Vec<F>, DasError>(DasError::InvalidLength),
        r matches Ok(v) ==> v@.len() == cells@.len() && vals(v@) == powers(
            F::hash_to_field_spec(challenge_input(commitments@, commitment_indices@, cell_indices@, cells@, proofs@)),
            cells@.len() as nat,
            F::modulus(),
        ) && (forall|i: int| 0 <= i < v@.len() ==> !(#[trigger] v@[i]).is_null_spec()),
{
    if commitment_indices.len() != cells.len() || cell_indices.len() != cells.len() || proofs.len() != cells.len() {
        return Err(DasError::InvalidLength);
    }
    let bytes = challenge_bytes(commitments, commitment_indices, cell_indices, cells, proofs);
    let r = F::hash_to_field(bytes.as_slice());
    let ghost rv = r.val();
    let ghost m = F::modulus();
    let n = cells.len();
    let mut out: Vec<F> = Vec::new();
    let mut current = F::one();
    let mut i: usize = 0;
    while i < n
        invariant
            rv == r.val(),
            m == F::modulus(),
            i <= n,
            out@.len() == i,
            current.val() == pow_mod(rv, i as nat, m),
            !current.is_null_spec(),
            vals(out@) == powers(rv, i as nat, m),
            forall|t: int| 0 <= t < out@.len() ==> !(#[trigger] out@[t]).is_null_spec(),
        decreases n - i,
    {
        let ghost prev = out@;
        out.push(current);
        assert(out@ == prev.push(current));
        assert forall|t: int| 0 <= t < i implies #[trigger] vals(out@)[t] == pow_mod(rv, t as nat, m) by {
            assert(out@[t] == prev[t]);
            assert(vals(prev)[t] == powers(rv, i as nat, m)[t]);
        }
        assert(vals(out@)[i as int] == pow_mod(rv, i as nat, m));
        current = current.mul(&r);
        proof {
            lemma_pow_mod_step(rv, (i + 1) as nat, m);
        }
        i = i + 1;
        assert(vals(out@) =~= powers(rv, i as nat, m));
    }
    Ok(out)
}

/// The weight of unique commitment `j` over the first `n` rows: the sum of the
/// powers of the rows whose commitment it is.
pub open spec fn weight_sum(indices: Seq<usize>, r: Seq<int>, j: int, n: nat, m: int) -> int
    decreases n,
{
    if n == 0 {
        0
    } else {
        let prev = weight_sum(indices, r, j, (n - 1) as nat, m);
        if indices[n - 1] == j {
            (prev + r[n - 1]) % m
        } else {
            prev
        }
    }
}

/// The weight of each of the `count` unique commitments.
pub fn compute_commitment_weights<B: EcBackend>(
    count: usize,
    commitment_indices: &[usize],
    r_powers: &[B::Fr],
) -> (r: Vec<B::Fr>)
    requires
        r_powers@.len() == commitment_indices@.len(),
        forall|i: int| 0 <= i < commitment_indices@.len() ==> #[trigger] commitment_indices@[i] < count,
    ensures
        r@.len() == count,
        forall|j: int|
            0 <= j < count ==> (#[trigger] r@[j]).val() == weight_sum(
                commitment_indices@,
                vals(r_powers@),
                j,
                commitment_indices@.len() as nat,
                B::Fr::modulus(),
            ),
{
    let ghost m = B::Fr::modulus();
    let mut weights = zeros::<B>(count);
    let n = r_powers.len();
    let mut i: usize = 0;
    while i < n
        invariant
            m == B::Fr::modulus(),
            n == r_powers@.len(),
            n == commitment_indices@.len(),
            weights@.len() == count,
            i <= n,
            forall|t: int| 0 <= t < commitment_indices@.len() ==> #[trigger] commitment_indices@[t] < count,
            forall|j: int|
                0 <= j < count ==> (#[trigger] weights@[j]).val() == weight_sum(
                    commitment_indices@,
                    vals(r_powers@),
                    j,
                    i as nat,
                    m,
                ),
        decreases n - i,
    {
        let idx = commitment_indices[i];
        let w = weights[idx].add(&r_powers[i]);
        weights.set(idx, w);
        i = i + 1;
    }
    weights
}

/// The weights of `count` unique commitments.
pub open spec fn weights_spec(count: nat, indices: Seq<usize>, r: Seq<int>, m: int) -> Seq<int> {
    Seq::new(count, |j: int| weight_sum(indices, r, j, indices.len() as nat, m))
}

/// The sum of the unique commitments, each scaled by its weight.
pub fn compute_weighted_sum_of_commitments<B: EcBackend>(
    commitments: &[B::G1],
    commitment_indices: &[usize],
    r_powers: &[B::Fr],
) -> (r: B::G1)
    requires
        r_powers@.len() == commitment_indices@.len(),
        forall|i: int| 0 <= i < commitment_indices@.len() ==> #[trigger] commitment_indices@[i] < commitments@.len(),
    ensures
        r == B::G1::lincomb_spec(
            commitments@,
            weights_spec(commitments@.len() as nat, commitment_indices@, vals(r_powers@), B::Fr::modulus()),
        ),
{
    let weights = compute_commitment_weights::<B>(commitments.len(), commitment_indices, r_powers);
    assert(vals(weights@).take(commitments@.len() as int) =~= weights_spec(
        commitments@.len() as nat,
        commitment_indices@,
        vals(r_powers@),
        B::Fr::modulus(),
    ));
    assert(commitments@.take(commitments@.len() as int) =~= commitments@);
    B::G1::g1_lincomb(commitments, weights.as_slice(), commitments.len())
}

/// The inverse of the coset factor of a cell: the root of unity at the extended
/// width minus the bit-reversed cell index.
pub fn get_inv_coset_shift_for_cell<const FIELD_ELEMENTS_PER_CELL: usize, B: EcBackend, P: Preset>(
    cell_index: usize,
    fft_settings: &B::FFTSettings,
) -> (r: Result<B::Fr, DasError>)
    requires
        preset_ok::<P>(FIELD_ELEMENTS_PER_CELL as nat),
        cell_index < P::CELLS_PER_EXT_BLOB,
    ensures
        r is Err <==> P::FIELD_ELEMENTS_PER_EXT_BLOB - rev_index(P::CELLS_PER_EXT_BLOB as nat, cell_index as nat)
            > fft_settings.max_width_spec(),
        r is Err ==> r == Err::<B::Fr, DasError>(DasError::InvalidIndex),
        r matches Ok(v) ==> !v.is_null_spec() && v.val() == fft_settings.root_spec(
            (P::FIELD_ELEMENTS_PER_EXT_BLOB - rev_index(P::CELLS_PER_EXT_BLOB as nat, cell_index as nat)) as nat,
        ),
        r matches Ok(v) ==> (fft_settings.max_width_spec() == P::FIELD_ELEMENTS_PER_EXT_BLOB ==> (v.val()
            * fft_settings.root_spec(rev_index(P::CELLS_PER_EXT_BLOB as nat, cell_index as nat))) % B::Fr::modulus() == 1int
            % B::Fr::modulus()),
{
    proof {
        fft_settings.lemma_roots();
    }
    let cell_index_rbl = reverse_bits_limited(P::CELLS_PER_EXT_BLOB, cell_index);
    proof {
        assert(P::CELLS_PER_EXT_BLOB <= P::FIELD_ELEMENTS_PER_EXT_BLOB) by (nonlinear_arith)
            requires
                P::CELLS_PER_EXT_BLOB * FIELD_ELEMENTS_PER_CELL == P::FIELD_ELEMENTS_PER_EXT_BLOB,
                FIELD_ELEMENTS_PER_CELL >= 1,
        ;
    }
    if cell_index_rbl > P::FIELD_ELEMENTS_PER_EXT_BLOB {
        return Err(DasError::InvalidIndex);
    }
    let inv_coset_factor_idx = P::FIELD_ELEMENTS_PER_EXT_BLOB - cell_index_rbl;
    if inv_coset_factor_idx > fft_settings.get_max_width() {
        return Err(DasError::InvalidIndex);
    }
    let v = fft_settings.get_roots_of_unity_at(inv_coset_factor_idx);
    proof {
        let a = fft_settings.root_spec(cell_index_rbl as nat);
        let b = v.val();
        assert(a * b == b * a) by (nonlinear_arith);
        if fft_settings.max_width_spec() == P::FIELD_ELEMENTS_PER_EXT_BLOB {
            assert(cell_index_rbl <= fft_settings.max_width_spec());
            assert((a * fft_settings.root_spec((fft_settings.max_width_spec() - cell_index_rbl) as nat)) % B::Fr::modulus()
                == 1int % B::Fr::modulus());
        }
    }
    Ok(v)
}

/// The coset factor of a cell raised to the cell size: the root of unity at the
/// bit-reversed cell index times the cell size.
pub fn get_coset_shift_pow_for_cell<const FIELD_ELEMENTS_PER_CELL: usize, B: EcBackend, P: Preset>(
    cell_index: usize,
    fft_settings: &B::FFTSettings,
) -> (r: Result<B::Fr, DasError>)
    requires
        preset_ok::<P>(FIELD_ELEMENTS_PER_CELL as nat),
        cell_index < P::CELLS_PER_EXT_BLOB,
    ensures
        r is Err <==> rev_index(P::CELLS_PER_EXT_BLOB as nat, cell_index as nat) * FIELD_ELEMENTS_PER_CELL
            > fft_settings.max_width_spec(),
        r is Err ==> r == Err::<B::Fr, DasError>(DasError::InvalidIndex),
        r matches Ok(v) ==> !v.is_null_spec() && v.val() == fft_settings.root_spec(
            rev_index(P::CELLS_PER_EXT_BLOB as nat, cell_index as nat) * (FIELD_ELEMENTS_PER_CELL as nat),
        ),
        r matches Ok(v) ==> v.val() == pow_mod(
            fft_settings.root_spec(rev_index(P::CELLS_PER_EXT_BLOB as nat, cell_index as nat)),
            FIELD_ELEMENTS_PER_CELL as nat,
            B::Fr::modulus(),
        ),
{
    proof {
        fft_settings.lemma_roots();
        B::Fr::lemma_modulus();
    }
    let cell_idx_rbl = reverse_bits_limited(P::CELLS_PER_EXT_BLOB, cell_index);
    proof {
        assert(cell_idx_rbl * FIELD_ELEMENTS_PER_CELL < P::FIELD_ELEMENTS_PER_EXT_BLOB) by (nonlinear_arith)
            requires
                cell_idx_rbl < P::CELLS_PER_EXT_BLOB,
                P::CELLS_PER_EXT_BLOB * FIELD_ELEMENTS_PER_CELL == P::FIELD_ELEMENTS_PER_EXT_BLOB,
                FIELD_ELEMENTS_PER_CELL >= 1,
        ;
    }
    let h_k_pow_idx = cell_idx_rbl * FIELD_ELEMENTS_PER_CELL;
    if h_k_pow_idx > P::FIELD_ELEMENTS_PER_EXT_BLOB || h_k_pow_idx > fft_settings.get_max_width() {
        return Err(DasError::InvalidIndex);
    }
    proof {
        let w = fft_settings.root_spec(1);
        let a = cell_idx_rbl as nat;
        let l = FIELD_ELEMENTS_PER_CELL as nat;
        assert(a <= h_k_pow_idx) by (nonlinear_arith)
            requires
                h_k_pow_idx == a * l,
                l >= 1,
        ;
        assert(fft_settings.root_spec(a) == pow_mod(w, a, B::Fr::modulus()));
        assert(fft_settings.root_spec(a * l) == pow_mod(w, a * l, B::Fr::modulus()));
        crate::backend::lemma_pow_mod_mul(w, a, l, B::Fr::modulus());
    }
    Ok(fft_settings.get_roots_of_unity_at(h_k_pow_idx))
}

/// Entry `j` of the aggregated column of cell `c` over the first `n` rows: the sum
/// of `cells[i][j] * r[i]` over the rows `i` whose cell index is `c`.
pub open spec fn column_sum<F: Fr, const L: usize>(
    cell_indices: Seq<usize>,
    cells: Seq<[F; L]>,
    r: Seq<int>,
    c: int,
    j: int,
    n: nat,
    m: int,
) -> int
    decreases n,
{
    if n == 0 {
        0
    } else {
        let prev = column_sum(cell_indices, cells, r, c, j, (n - 1) as nat, m);
        if cell_indices[n - 1] == c {
            (prev + (cells[n - 1]@[j].val() * r[n - 1]) % m) % m
        } else {
            prev
        }
    }
}

/// Distinct cell entries have distinct positions.
proof fn lemma_cell_position(c1: int, j1: int, c2: int, j2: int, l: int)
    requires
        0 <= j1 < l,
        0 <= j2 < l,
        0 <= c1,
        0 <= c2,
        c1 * l + j1 == c2 * l + j2,
    ensures
        c1 == c2 && j1 == j2,
{
    if c1 < c2 {
        assert((c1 + 1) * l <= c2 * l) by (nonlinear_arith)
            requires
                c1 + 1 <= c2,
                l >= 0,
        ;
        assert(false) by (nonlinear_arith)
            requires
                (c1 + 1) * l <= c2 * l,
                c1 * l + j1 == c2 * l + j2,
                j1 < l,
                j2 >= 0,
        ;
    } else if c2 < c1 {
        assert((c2 + 1) * l <= c1 * l) by (nonlinear_arith)
            requires
                c2 + 1 <= c1,
                l >= 0,
        ;
        assert(false) by (nonlinear_arith)
            requires
                (c2 + 1) * l <= c1 * l,
                c1 * l + j1 == c2 * l + j2,
                j2 < l,
                j1 >= 0,
        ;
    }
}

/// Position `c * l + j` of a cell entry lies within `cells` cells of `l` entries.
pub proof fn lemma_cell_position_bound(c: int, j: int, l: int, cells: int)
    requires
        0 <= c < cells,
        0 <= j < l,
    ensures
        0 <= c * l + j < cells * l,
{
    assert(0 <= c * l + j < cells * l) by (nonlinear_arith)
        requires
            0 <= c < cells,
            0 <= j < l,
    ;
}

/// The cells scaled by their row's power and summed per cell index: entry
/// `c * FIELD_ELEMENTS_PER_CELL + j` holds the aggregated column `j` of cell `c`.
pub fn aggregate_columns<const FIELD_ELEMENTS_PER_CELL: usize, B: EcBackend, P: Preset>(
    r_powers: &[B::Fr],
    cell_indices: &[usize],
    cells: &[[B::Fr; FIELD_ELEMENTS_PER_CELL]],
) -> (r: Vec<B::Fr>)
    requires
        preset_ok::<P>(FIELD_ELEMENTS_PER_CELL as nat),
        r_powers@.len() == cells@.len(),
        cell_indices@.len() == cells@.len(),
        forall|i: int| 0 <= i < cell_indices@.len() ==> #[trigger] cell_indices@[i] < P::CELLS_PER_EXT_BLOB,
    ensures
        r@.len() == P::FIELD_ELEMENTS_PER_EXT_BLOB,
        forall|i: int| 0 <= i < r@.len() ==> !(#[trigger] r@[i]).is_null_spec(),
        forall|c: int, j: int|
            0 <= c < P::CELLS_PER_EXT_BLOB && 0 <= j < FIELD_ELEMENTS_PER_CELL ==> (#[trigger] r@[c
                * FIELD_ELEMENTS_PER_CELL + j]).val() == column_sum(
                cell_indices@,
                cells@,
                vals(r_powers@),
                c,
                j,
                cells@.len() as nat,
                B::Fr::modulus(),
            ),
{
    let ghost m = B::Fr::modulus();
    let ghost rv = vals(r_powers@);
    let l = FIELD_ELEMENTS_PER_CELL;
    let ghost ncells = P::CELLS_PER_EXT_BLOB as int;
    let mut agg = zeros::<B>(P::FIELD_ELEMENTS_PER_EXT_BLOB);
    proof {
        assert forall|c: int, j: int| 0 <= c < ncells && 0 <= j < l implies (#[trigger] agg@[c * l + j]).val()
            == column_sum(cell_indices@, cells@, rv, c, j, 0, m) by {
            lemma_cell_position_bound(c, j, l as int, ncells);
        }
    }
    let n = cells.len();
    let mut i: usize = 0;
    while i < n
        invariant
            m == B::Fr::modulus(),
            rv == vals(r_powers@),
            l == FIELD_ELEMENTS_PER_CELL,
            ncells == P::CELLS_PER_EXT_BLOB,
            preset_ok::<P>(FIELD_ELEMENTS_PER_CELL as nat),
            n == cells@.len(),
            r_powers@.len() == n,
            cell_indices@.len() == n,
            forall|t: int| 0 <= t < cell_indices@.len() ==> #[trigger] cell_indices@[t] < P::CELLS_PER_EXT_BLOB,
            agg@.len() == P::FIELD_ELEMENTS_PER_EXT_BLOB,
            i <= n,
            forall|t: int| 0 <= t < agg@.len() ==> !(#[trigger] agg@[t]).is_null_spec(),
            forall|c: int, j: int|
                0 <= c < ncells && 0 <= j < l ==> (#[trigger] agg@[c * l + j]).val() == column_sum(
                    cell_indices@,
                    cells@,
                    rv,
                    c,
                    j,
                    i as nat,
                    m,
                ),
        decreases n - i,
    {
        let column_index = cell_indices[i];
        let mut t: usize = 0;
        while t < l
            invariant
                m == B::Fr::modulus(),
                rv == vals(r_powers@),
                l == FIELD_ELEMENTS_PER_CELL,
                ncells == P::CELLS_PER_EXT_BLOB,
                preset_ok::<P>(FIELD_ELEMENTS_PER_CELL as nat),
                n == cells@.len(),
                r_powers@.len() == n,
                cell_indices@.len() == n,
                i < n,
                column_index == cell_indices@[i as int],
                column_index < ncells,
                agg@.len() == P::FIELD_ELEMENTS_PER_EXT_BLOB,
                t <= l,
                forall|x: int| 0 <= x < agg@.len() ==> !(#[trigger] agg@[x]).is_null_spec(),
                forall|c: int, j: int|
                    0 <= c < ncells && 0 <= j < l ==> (#[trigger] agg@[c * l + j]).val() == column_sum(
                        cell_indices@,
                        cells@,
                        rv,
                        c,
                        j,
                        if c == column_index && j < t {
                            i as nat + 1
                        } else {
                            i as nat
                        },
                        m,
                    ),
            decreases l - t,
        {
            proof {
                lemma_cell_position_bound(column_index as int, t as int, l as int, ncells);
            }
            let pos = column_index * l + t;
            let scaled = cells[i][t].mul(&r_powers[i]);
            let v = agg[pos].add(&scaled);
            agg.set(pos, v);
            proof {
                assert forall|c: int, j: int| 0 <= c < ncells && 0 <= j < l implies (#[trigger] agg@[c * l + j]).val()
                    == column_sum(
                    cell_indices@,
                    cells@,
                    rv,
                    c,
                    j,
                    if c == column_index && j < t + 1 {
                        i as nat + 1
                    } else {
                        i as nat
                    },
                    m,
                ) by {
                    lemma_cell_position_bound(c, j, l as int, ncells);
                    if c * l + j == pos {
                        lemma_cell_position(c, j, column_index as int, t as int, l as int);
                    } else if c == column_index && j == t {
                    }
                }
            }
            t = t + 1;
        }
        i = i + 1;
    }
    agg
}

/// Each row's power times its cell's coset factor raised to the cell size.
pub open spec fn weighted_powers_spec<const L: usize, B: EcBackend, P: Preset>(
    r: Seq<int>,
    cell_indices: Seq<usize>,
    fft_settings: &B::FFTSettings,
) -> Seq<int> {
    Seq::new(
        r.len(),
        |i: int|
            (r[i] * fft_settings.root_spec(rev_index(P::CELLS_PER_EXT_BLOB as nat, cell_indices[i] as nat) * (L as nat)))
                % B::Fr::modulus(),
    )
}

/// The powers of the rows, each multiplied by its cell's coset factor raised to the
/// cell size.
pub fn compute_weighted_powers_of_r<const FIELD_ELEMENTS_PER_CELL: usize, B: EcBackend, P: Preset>(
    r_powers: &[B::Fr],
    cell_indices: &[usize],
    fft_settings: &B::FFTSettings,
) -> (r: Result<Vec<B::Fr>, DasError>)
    requires
        preset_ok::<P>(FIELD_ELEMENTS_PER_CELL as nat),
        r_powers@.len() == cell_indices@.len(),
        forall|i: int| 0 <= i < cell_indices@.len() ==> #[trigger] cell_indices@[i] < P::CELLS_PER_EXT_BLOB,
    ensures
        r is Err <==> exists|i: int|
            0 <= i < cell_indices@.len() && rev_index(P::CELLS_PER_EXT_BLOB as nat, #[trigger] cell_indices@[i] as nat)
                * FIELD_ELEMENTS_PER_CELL > fft_settings.max_width_spec(),
        r is Err ==> r == Err::<Vec<B::Fr>, DasError>(DasError::InvalidIndex),
        r matches Ok(w) ==> w@.len() == r_powers@.len() && forall|i: int|
            0 <= i < w@.len() ==> (#[trigger] w@[i]).val() == (r_powers@[i].val() * fft_settings.root_spec(
                rev_index(P::CELLS_PER_EXT_BLOB as nat, cell_indices@[i] as nat) * (FIELD_ELEMENTS_PER_CELL as nat),
            )) % B::Fr::modulus(),
{
    let n = r_powers.len();
    let mut weighted: Vec<B::Fr> = Vec::new();
    let mut i: usize = 0;
    while i < n
        invariant
            preset_ok::<P>(FIELD_ELEMENTS_PER_CELL as nat),
            n == r_powers@.len(),
            n == cell_indices@.len(),
            forall|t: int| 0 <= t < cell_indices@.len() ==> #[trigger] cell_indices@[t] < P::CELLS_PER_EXT_BLOB,
            i <= n,
            weighted@.len() == i,
            forall|t: int|
                0 <= t < i ==> !(rev_index(P::CELLS_PER_EXT_BLOB as nat, #[trigger] cell_indices@[t] as nat)
                    * FIELD_ELEMENTS_PER_CELL > fft_settings.max_width_spec()),
            forall|t: int|
                0 <= t < i ==> (#[trigger] weighted@[t]).val() == (r_powers@[t].val() * fft_settings.root_spec(
                    rev_index(P::CELLS_PER_EXT_BLOB as nat, cell_indices@[t] as nat) * (FIELD_ELEMENTS_PER_CELL as nat),
                )) % B::Fr::modulus(),
        decreases n - i,
    {
        let h_k_pow = match get_coset_shift_pow_for_cell::<FIELD_ELEMENTS_PER_CELL, B, P>(cell_indices[i], fft_settings) {
            Ok(v) => v,
            Err(e) => {
                return Err(e);
            },
        };
        weighted.push(r_powers[i].mul(&h_k_pow));
        i = i + 1;
    }
    Ok(weighted)
}

/// The sum of the proofs, each scaled by its row's power times its cell's coset
/// factor raised to the cell size.
pub fn computed_weighted_sum_of_proofs<const FIELD_ELEMENTS_PER_CELL: usize, B: EcBackend, P: Preset>(
    proofs: &[B::G1],
    r_powers: &[B::Fr],
    cell_indices: &[usize],
    fft_settings: &B::FFTSettings,
) -> (r: Result<B::G1, DasError>)
    requires
        preset_ok::<P>(FIELD_ELEMENTS_PER_CELL as nat),
        forall|i: int| 0 <= i < cell_indices@.len() ==> #[trigger] cell_indices@[i] < P::CELLS_PER_EXT_BLOB,
    ensures
        (r_powers@.len() != proofs@.len() || cell_indices@.len() != proofs@.len()) ==> r == Err::<B::G1, DasError>(
            DasError::InvalidLength,
        ),
        (r_powers@.len() == proofs@.len() && cell_indices@.len() == proofs@.len() && forall|i: int|
            0 <= i < cell_indices@.len() ==> rev_index(P::CELLS_PER_EXT_BLOB as nat, #[trigger] cell_indices@[i] as nat)
                * FIELD_ELEMENTS_PER_CELL <= fft_settings.max_width_spec()) ==> r is Ok,
        r matches Ok(g) ==> g == B::G1::lincomb_spec(
            proofs@,
            weighted_powers_spec::<FIELD_ELEMENTS_PER_CELL, B, P>(vals(r_powers@), cell_indices@, fft_settings),
        ),
{
    let num_cells = proofs.len();
    if r_powers.len() != num_cells || cell_indices.len() != num_cells {
        return Err(DasError::InvalidLength);
    }
    let weighted = match compute_weighted_powers_of_r::<FIELD_ELEMENTS_PER_CELL, B, P>(r_powers, cell_indices, fft_settings) {
        Ok(w) => w,
        Err(e) => {
            return Err(e);
        },
    };
    assert(vals(weighted@).take(num_cells as int) =~= weighted_powers_spec::<FIELD_ELEMENTS_PER_CELL, B, P>(
        vals(r_powers@),
        cell_indices@,
        fft_settings,
    ));
    assert(proofs@.take(num_cells as int) =~= proofs@);
    Ok(B::G1::g1_lincomb(proofs, weighted.as_slice(), num_cells))
}

/// The aggregated column of cell `c`: its entries, summed over the rows of that cell.
pub open spec fn column_vals<F: Fr, const L: usize>(
    cell_indices: Seq<usize>,
    cells: Seq<[F; L]>,
    r: Seq<int>,
    c: int,
) -> Seq<int> {
    Seq::new(L as nat, |j: int| column_sum(cell_indices, cells, r, c, j, cells.len() as nat, F::modulus()))
}

/// The interpolation polynomial of the aggregated column of cell `c`, shifted back
/// from the cell's coset.
pub open spec fn cell_interpolation<const L: usize, B: EcBackend, P: Preset>(
    fs: &B::FFTSettings,
    cell_indices: Seq<usize>,
    cells: Seq<[B::Fr; L]>,
    r: Seq<int>,
    c: int,
) -> Seq<int> {
    shifted(
        fs.fft_fr_spec(bit_reversed(column_vals(cell_indices, cells, r, c)), true),
        fs.root_spec((P::FIELD_ELEMENTS_PER_EXT_BLOB - rev_index(P::CELLS_PER_EXT_BLOB as nat, c as nat)) as nat),
        B::Fr::modulus(),
    )
}

/// The sum of the interpolation polynomials of the cells below `u` that are in use.
pub open spec fn aggregated_interpolation<const L: usize, B: EcBackend, P: Preset>(
    fs: &B::FFTSettings,
    cell_indices: Seq<usize>,
    cells: Seq<[B::Fr; L]>,
    r: Seq<int>,
    u: nat,
) -> Seq<int>
    decreases u,
{
    if u == 0 {
        Seq::new(L as nat, |k: int| 0)
    } else {
        let prev = aggregated_interpolation::<L, B, P>(fs, cell_indices, cells, r, (u - 1) as nat);
        if cell_indices.contains((u - 1) as usize) {
            let add = cell_interpolation::<L, B, P>(fs, cell_indices, cells, r, u - 1);
            Seq::new(L as nat, |k: int| (prev[k] + add[k]) % B::Fr::modulus())
        } else {
            prev
        }
    }
}

/// The commitment to the sum, over the cells in use, of the interpolation
/// polynomials of their aggregated columns, each shifted back from its coset.
pub fn compute_commitment_to_aggregated_interpolation_poly<const FIELD_ELEMENTS_PER_CELL: usize, B: EcBackend, P: Preset>(
    r_powers: &[B::Fr],
    cell_indices: &[usize],
    cells: &[[B::Fr; FIELD_ELEMENTS_PER_CELL]],
    fft_settings: &B::FFTSettings,
    g1_monomial: &[B::G1],
) -> (r: Result<B::G1, DasError>)
    requires
        preset_ok::<P>(FIELD_ELEMENTS_PER_CELL as nat),
        r_powers@.len() == cells@.len(),
        cell_indices@.len() == cells@.len(),
        forall|i: int| 0 <= i < cell_indices@.len() ==> #[trigger] cell_indices@[i] < P::CELLS_PER_EXT_BLOB,
    ensures
        g1_monomial@.len() < FIELD_ELEMENTS_PER_CELL ==> r is Err,
        !is_pow2(FIELD_ELEMENTS_PER_CELL as nat) && cells@.len() > 0 ==> r == Err::<B::G1, DasError>(
            DasError::InvalidLength,
        ),
        is_pow2(FIELD_ELEMENTS_PER_CELL as nat) && fft_settings.max_width_spec() == P::FIELD_ELEMENTS_PER_EXT_BLOB
            && g1_monomial@.len() >= FIELD_ELEMENTS_PER_CELL ==> r is Ok,
        r matches Ok(g) ==> g == B::G1::lincomb_spec(
            g1_monomial@.take(FIELD_ELEMENTS_PER_CELL as int),
            aggregated_interpolation::<FIELD_ELEMENTS_PER_CELL, B, P>(
                fft_settings,
                cell_indices@,
                cells@,
                vals(r_powers@),
                P::CELLS_PER_EXT_BLOB as nat,
            ),
        ),
{
    let l = FIELD_ELEMENTS_PER_CELL;
    let ncells = P::CELLS_PER_EXT_BLOB;
    let ghost m = B::Fr::modulus();
    let ghost rv = vals(r_powers@);
    let aggregated_column_cells = aggregate_columns::<FIELD_ELEMENTS_PER_CELL, B, P>(r_powers, cell_indices, cells);
    let mut is_cell_used: Vec<bool> = Vec::new();
    let mut u: usize = 0;
    while u < ncells
        invariant
            is_cell_used@.len() == u,
            u <= ncells,
            forall|t: int| 0 <= t < u ==> !is_cell_used@[t],
        decreases ncells - u,
    {
        is_cell_used.push(false);
        u = u + 1;
    }
    let mut i: usize = 0;
    while i < cell_indices.len()
        invariant
            is_cell_used@.len() == ncells,
            ncells == P::CELLS_PER_EXT_BLOB,
            forall|t: int| 0 <= t < cell_indices@.len() ==> #[trigger] cell_indices@[t] < P::CELLS_PER_EXT_BLOB,
            i <= cell_indices@.len(),
            forall|x: int|
                0 <= x < ncells ==> (is_cell_used@[x] <==> exists|t: int| 0 <= t < i && #[trigger] cell_indices@[t] == x),
        decreases cell_indices@.len() - i,
    {
        is_cell_used.set(cell_indices[i], true);
        i = i + 1;
        proof {
            assert forall|x: int| 0 <= x < ncells implies (is_cell_used@[x] <==> exists|t: int|
                0 <= t < i && #[trigger] cell_indices@[t] == x) by {
                if x == cell_indices@[i - 1] as int {
                    assert(cell_indices@[i - 1] == x);
                } else if is_cell_used@[x] {
                    let t = choose|t: int| 0 <= t < i - 1 && #[trigger] cell_indices@[t] == x;
                    assert(0 <= t < i && cell_indices@[t] == x);
                } else {
                    assert forall|t: int| 0 <= t < i implies #[trigger] cell_indices@[t] != x by {
                        if t < i - 1 {
                        }
                    }
                }
            }
        }
    }
    proof {
        assert forall|x: int| 0 <= x < ncells implies (is_cell_used@[x] <==> cell_indices@.contains(x as usize)) by {
            if is_cell_used@[x] {
                let t = choose|t: int| 0 <= t < cell_indices@.len() && #[trigger] cell_indices@[t] == x;
                assert(cell_indices@[t] == x as usize);
            }
            if cell_indices@.contains(x as usize) {
                let t = choose|t: int| 0 <= t < cell_indices@.len() && cell_indices@[t] == x as usize;
                assert(cell_indices@[t] == x);
            }
        }
    }
    let mut aggregated_interpolation_poly = zeros::<B>(l);
    proof {
        if cells@.len() > 0 {
            assert(cell_indices@[0] < ncells);
            assert(is_cell_used@[cell_indices@[0] as int]);
        }
        assert(vals(aggregated_interpolation_poly@) =~= aggregated_interpolation::<FIELD_ELEMENTS_PER_CELL, B, P>(
            fft_settings,
            cell_indices@,
            cells@,
            rv,
            0,
        ));
    }
    let total = aggregated_column_cells.len();
    let mut u: usize = 0;
    while u < ncells
        invariant
            preset_ok::<P>(FIELD_ELEMENTS_PER_CELL as nat),
            l == FIELD_ELEMENTS_PER_CELL,
            ncells == P::CELLS_PER_EXT_BLOB,
            m == B::Fr::modulus(),
            rv == vals(r_powers@),
            r_powers@.len() == cells@.len(),
            cell_indices@.len() == cells@.len(),
            forall|i: int| 0 <= i < cell_indices@.len() ==> #[trigger] cell_indices@[i] < P::CELLS_PER_EXT_BLOB,
            is_cell_used@.len() == ncells,
            forall|x: int| 0 <= x < ncells ==> (is_cell_used@[x] <==> cell_indices@.contains(x as usize)),
            aggregated_column_cells@.len() == P::FIELD_ELEMENTS_PER_EXT_BLOB,
            total == aggregated_column_cells@.len(),
            forall|t: int| 0 <= t < aggregated_column_cells@.len() ==> !(#[trigger] aggregated_column_cells@[t]).is_null_spec(),
            forall|c: int, j: int|
                0 <= c < P::CELLS_PER_EXT_BLOB && 0 <= j < FIELD_ELEMENTS_PER_CELL ==> (#[trigger] aggregated_column_cells@[c
                    * FIELD_ELEMENTS_PER_CELL + j]).val() == column_sum(
                    cell_indices@,
                    cells@,
                    rv,
                    c,
                    j,
                    cells@.len() as nat,
                    m,
                ),
            aggregated_interpolation_poly@.len() == l,
            vals(aggregated_interpolation_poly@) == aggregated_interpolation::<FIELD_ELEMENTS_PER_CELL, B, P>(
                fft_settings,
                cell_indices@,
                cells@,
                rv,
                u as nat,
            ),
            u <= ncells,
            cells@.len() > 0 ==> exists|t: int| 0 <= t < ncells && is_cell_used@[t],
            !is_pow2(FIELD_ELEMENTS_PER_CELL as nat) ==> forall|t: int| 0 <= t < u ==> !is_cell_used@[t],
        decreases ncells - u,
    {
        let ghost prev = vals(aggregated_interpolation_poly@);
        if is_cell_used[u] {
            proof {
                lemma_cell_position_bound(u as int, l as int - 1, l as int, ncells as int);
            }
            let index = u * l;
            let mut column: Vec<B::Fr> = Vec::new();
            let mut t: usize = 0;
            while t < l
                invariant
                    l == FIELD_ELEMENTS_PER_CELL,
                    u < ncells,
                    ncells == P::CELLS_PER_EXT_BLOB,
                    index == u * l,
                    index + l <= aggregated_column_cells@.len(),
                    total == aggregated_column_cells@.len(),
                    forall|x: int| 0 <= x < aggregated_column_cells@.len() ==> !(#[trigger] aggregated_column_cells@[x]).is_null_spec(),
                    forall|c: int, j: int|
                        0 <= c < P::CELLS_PER_EXT_BLOB && 0 <= j < FIELD_ELEMENTS_PER_CELL ==> (#[trigger] aggregated_column_cells@[c
                            * FIELD_ELEMENTS_PER_CELL + j]).val() == column_sum(
                            cell_indices@,
                            cells@,
                            rv,
                            c,
                            j,
                            cells@.len() as nat,
                            m,
                        ),
                    m == B::Fr::modulus(),
                    column@.len() == t,
                    t <= l,
                    forall|x: int| 0 <= x < t ==> !(#[trigger] column@[x]).is_null_spec(),
                    vals(column@) == column_vals(cell_indices@, cells@, rv, u as int).take(t as int),
                decreases l - t,
            {
                column.push(aggregated_column_cells[index + t]);
                assert(aggregated_column_cells@[u * l + t].val() == column_sum(
                    cell_indices@,
                    cells@,
                    rv,
                    u as int,
                    t as int,
                    cells@.len() as nat,
                    m,
                ));
                t = t + 1;
                assert(vals(column@) =~= column_vals(cell_indices@, cells@, rv, u as int).take(t as int));
            }
            assert(column_vals(cell_indices@, cells@, rv, u as int).take(l as int) =~= column_vals(
                cell_indices@,
                cells@,
                rv,
                u as int,
            ));
            let ghost before = column@;
            proof {
                assert(FIELD_ELEMENTS_PER_CELL <= P::FIELD_ELEMENTS_PER_EXT_BLOB) by (nonlinear_arith)
                    requires
                        P::CELLS_PER_EXT_BLOB * FIELD_ELEMENTS_PER_CELL == P::FIELD_ELEMENTS_PER_EXT_BLOB,
                        P::CELLS_PER_EXT_BLOB >= 2,
                ;
            }
            match reverse_bit_order(&mut column) {
                Ok(()) => {},
                Err(e) => {
                    return Err(e);
                },
            }
            proof {
                crate::bitrev::lemma_bit_reversed_map(before, |x: B::Fr| x.val());
            }
            let mut column_interpolation_poly = match fft_settings.fft_fr(column.as_slice(), true) {
                Ok(v) => v,
                Err(e) => {
                    return Err(e);
                },
            };
            let inv_coset_factor = match get_inv_coset_shift_for_cell::<FIELD_ELEMENTS_PER_CELL, B, P>(u, fft_settings) {
                Ok(v) => v,
                Err(e) => {
                    return Err(e);
                },
            };
            shift_poly::<B>(&mut column_interpolation_poly, &inv_coset_factor);
            let ghost add = vals(column_interpolation_poly@);
            assert(add == cell_interpolation::<FIELD_ELEMENTS_PER_CELL, B, P>(
                fft_settings,
                cell_indices@,
                cells@,
                rv,
                u as int,
            ));
            let mut k: usize = 0;
            while k < l
                invariant
                    l == FIELD_ELEMENTS_PER_CELL,
                    m == B::Fr::modulus(),
                    column_interpolation_poly@.len() == l,
                    add == vals(column_interpolation_poly@),
                    aggregated_interpolation_poly@.len() == l,
                    prev.len() == l,
                    k <= l,
                    forall|x: int|
                        0 <= x < l ==> #[trigger] vals(aggregated_interpolation_poly@)[x] == if x < k {
                            (prev[x] + add[x]) % m
                        } else {
                            prev[x]
                        },
                decreases l - k,
            {
                let ghost old_acc = aggregated_interpolation_poly@;
                assert(vals(old_acc)[k as int] == prev[k as int]);
                assert(vals(column_interpolation_poly@)[k as int] == column_interpolation_poly@[k as int].val());
                let v = aggregated_interpolation_poly[k].add(&column_interpolation_poly[k]);
                aggregated_interpolation_poly.set(k, v);
                proof {
                    assert forall|x: int| 0 <= x < l implies #[trigger] vals(aggregated_interpolation_poly@)[x] == if x
                        < k + 1 {
                        (prev[x] + add[x]) % m
                    } else {
                        prev[x]
                    } by {
                        if x != k {
                            assert(aggregated_interpolation_poly@[x] == old_acc[x]);
                            assert(vals(old_acc)[x] == old_acc[x].val());
                        }
                    }
                }
                k = k + 1;
            }
            assert(cell_indices@.contains(u as usize));
            assert(vals(aggregated_interpolation_poly@) =~= aggregated_interpolation::<FIELD_ELEMENTS_PER_CELL, B, P>(
                fft_settings,
                cell_indices@,
                cells@,
                rv,
                u as nat + 1,
            ));
        } else {
            assert(!cell_indices@.contains(u as usize));
            assert(vals(aggregated_interpolation_poly@) == aggregated_interpolation::<FIELD_ELEMENTS_PER_CELL, B, P>(
                fft_settings,
                cell_indices@,
                cells@,
                rv,
                u as nat + 1,
            ));
        }
        u = u + 1;
    }
    if g1_monomial.len() < l {
        return Err(DasError::InvalidLength);
    }
    assert(vals(aggregated_interpolation_poly@).take(l as int) =~= vals(aggregated_interpolation_poly@));
    Ok(B::G1::g1_lincomb(g1_monomial, aggregated_interpolation_poly.as_slice(), l))
}

/// Repeating a commitment that already occurs leaves the distinct commitments, and
/// so the challenge input's list of them, unchanged.
pub proof fn lemma_repeated_commitment_changes_nothing(keys: Seq<Seq<u8>>, i: int)
    requires
        0 <= i < keys.len(),
    ensures
        unique_keys(keys.push(keys[i])) == unique_keys(keys),
{
    lemma_unique_keys_distinct(keys);
    assert(keys.push(keys[i]).drop_last() =~= keys);
}

/// The challenge powers depend on the inputs alone: equal inputs give equal powers.
pub proof fn lemma_challenge_deterministic<F: Fr, TG1: G1, const L: usize>(
    commitments: Seq<TG1>,
    commitment_indices: Seq<usize>,
    cell_indices: Seq<usize>,
    cells: Seq<[F; L]>,
    proofs: Seq<TG1>,
    commitments2: Seq<TG1>,
    commitment_indices2: Seq<usize>,
    cell_indices2: Seq<usize>,
    cells2: Seq<[F; L]>,
    proofs2: Seq<TG1>,
)
    requires
        keys_of(commitments) == keys_of(commitments2),
        commitment_indices == commitment_indices2,
        cell_indices == cell_indices2,
        cells.len() == cells2.len(),
        forall|i: int, j: int|
            0 <= i < cells.len() && 0 <= j < L ==> (#[trigger] cells[i]@[j]).bytes_spec() == cells2[i]@[j].bytes_spec(),
        keys_of(proofs) == keys_of(proofs2),
        proofs.len() == cells.len(),
    ensures
        challenge_input(commitments, commitment_indices, cell_indices, cells, proofs) == challenge_input(
            commitments2,
            commitment_indices2,
            cell_indices2,
            cells2,
            proofs2,
        ),
        powers(
            F::hash_to_field_spec(challenge_input(commitments, commitment_indices, cell_indices, cells, proofs)),
            cells.len() as nat,
            F::modulus(),
        ) == powers(
            F::hash_to_field_spec(challenge_input(commitments2, commitment_indices2, cell_indices2, cells2, proofs2)),
            cells2.len() as nat,
            F::modulus(),
        ),
{
    assert(commitments.len() == keys_of(commitments).len());
    assert(commitments2.len() == keys_of(commitments2).len());
    assert(proofs.len() == keys_of(proofs).len());
    lemma_points_bytes_keys(commitments, commitments2);
    lemma_rows_bytes_equal(commitment_indices, cell_indices, cells, proofs, cells2, proofs2, cells.len());
}

proof fn lemma_points_bytes_keys<TG1: G1>(a: Seq<TG1>, b: Seq<TG1>)
    requires
        keys_of(a) == keys_of(b),
    ensures
        points_bytes(a) == points_bytes(b),
    decreases a.len(),
{
    assert(a.len() == keys_of(a).len() && b.len() == keys_of(b).len());
    if a.len() > 0 {
        assert(keys_of(a.drop_last()) =~= keys_of(a).drop_last());
        assert(keys_of(b.drop_last()) =~= keys_of(b).drop_last());
        lemma_points_bytes_keys(a.drop_last(), b.drop_last());
        assert(keys_of(a)[a.len() - 1] == keys_of(b)[b.len() - 1]);
    }
}

proof fn lemma_scalars_bytes_equal<F: Fr, const L: usize>(a: Seq<F>, b: Seq<F>)
    requires
        a.len() == b.len(),
        forall|j: int| 0 <= j < a.len() ==> (#[trigger] a[j]).bytes_spec() == b[j].bytes_spec(),
    ensures
        scalars_bytes(a) == scalars_bytes(b),
    decreases a.len(),
{
    if a.len() > 0 {
        lemma_scalars_bytes_equal::<F, L>(a.drop_last(), b.drop_last());
        assert(a.last().bytes_spec() == b.last().bytes_spec());
    }
}

proof fn lemma_rows_bytes_equal<F: Fr, TG1: G1, const L: usize>(
    commitment_indices: Seq<usize>,
    cell_indices: Seq<usize>,
    cells: Seq<[F; L]>,
    proofs: Seq<TG1>,
    cells2: Seq<[F; L]>,
    proofs2: Seq<TG1>,
    n: nat,
)
    requires
        n <= cells.len(),
        cells.len() == cells2.len(),
        forall|i: int, j: int|
            0 <= i < cells.len() && 0 <= j < L ==> (#[trigger] cells[i]@[j]).bytes_spec() == cells2[i]@[j].bytes_spec(),
        keys_of(proofs) == keys_of(proofs2),
        n <= proofs.len(),
    ensures
        rows_bytes(commitment_indices, cell_indices, cells, proofs, n) == rows_bytes(
            commitment_indices,
            cell_indices,
            cells2,
            proofs2,
            n,
        ),
    decreases n,
{
    if n > 0 {
        let t = n - 1;
        lemma_rows_bytes_equal(commitment_indices, cell_indices, cells, proofs, cells2, proofs2, t as nat);
        lemma_scalars_bytes_equal::<F, L>(cells[t]@, cells2[t]@);
        assert(proofs.len() == keys_of(proofs).len() && proofs2.len() == keys_of(proofs2).len());
        assert(keys_of(proofs)[t] == keys_of(proofs2)[t]);
    }
}

} // verus!
