use kzg::backend::{
    EcBackend, FFTSettings, Fr, G1LinComb, KZGSettings, PairingVerify, Preset, G1, G2,
};
use kzg::bitrev::{reverse_bit_order, reverse_bits_limited};
use kzg::das::DAS;
use kzg::DasError;
use vstd::prelude::{int, nat, Seq};

const P: u64 = 0xffff_ffff_0000_0001;
const CELL: usize = 64;
const SECRET: u64 = 0x1234_5678_9abc_def1;

fn mul_mod(a: u64, b: u64) -> u64 {
    ((a as u128 * b as u128) % P as u128) as u64
}

fn add_mod(a: u64, b: u64) -> u64 {
    ((a as u128 + b as u128) % P as u128) as u64
}

fn sub_mod(a: u64, b: u64) -> u64 {
    add_mod(a, P - b % P)
}

fn pow_mod(mut b: u64, mut e: u64) -> u64 {
    let mut r = 1u64;
    while e > 0 {
        if e & 1 == 1 {
            r = mul_mod(r, b);
        }
        b = mul_mod(b, b);
        e >>= 1;
    }
    r
}

fn inv_mod(a: u64) -> u64 {
    pow_mod(a, P - 2)
}

#[derive(Clone, Copy, Debug, PartialEq)]
struct ToyFr {
    v: u64,
    null: bool,
}

impl ToyFr {
    fn of(v: u64) -> ToyFr {
        ToyFr { v: v % P, null: false }
    }
}

impl Fr for ToyFr {
    // Models for the verifier only: never called at run time.
    fn modulus() -> int {
        unreachable!()
    }
    fn val(&self) -> int {
        unreachable!()
    }
    fn is_null_spec(&self) -> bool {
        unreachable!()
    }
    fn bytes_spec(&self) -> Seq<u8> {
        unreachable!()
    }
    fn hash_to_field_spec(_data: Seq<u8>) -> int {
        unreachable!()
    }
    fn div_spec(_a: int, _b: int) -> int {
        unreachable!()
    }
    fn lemma_modulus() {}
    fn lemma_div(_a: int, _b: int) {}
    fn null() -> Self {
        ToyFr { v: 0, null: true }
    }
    fn zero() -> Self {
        ToyFr::of(0)
    }
    fn one() -> Self {
        ToyFr::of(1)
    }
    fn from_u64(n: u64) -> Self {
        ToyFr::of(n)
    }
    fn is_null(&self) -> bool {
        self.null
    }
    fn add(&self, b: &Self) -> Self {
        ToyFr::of(add_mod(self.v, b.v))
    }
    fn sub(&self, b: &Self) -> Self {
        ToyFr::of(sub_mod(self.v, b.v))
    }
    fn mul(&self, b: &Self) -> Self {
        ToyFr::of(mul_mod(self.v, b.v))
    }
    fn negate(&self) -> Self {
        ToyFr::of(sub_mod(0, self.v))
    }
    fn div(&self, b: &Self) -> Result<Self, DasError> {
        if b.v % P == 0 {
            Err(DasError::ArithmeticFailure)
        } else {
            Ok(ToyFr::of(mul_mod(self.v, inv_mod(b.v))))
        }
    }
    fn to_bytes(&self) -> [u8; 32] {
        let mut out = [0u8; 32];
        out[24..].copy_from_slice(&self.v.to_be_bytes());
        out
    }
    fn hash_to_field(data: &[u8]) -> Self {
        let mut h = 0xcbf2_9ce4_8422_2325u64;
        for b in data {
            h ^= *b as u64;
            h = h.wrapping_mul(0x0000_0100_0000_01b3);
        }
        ToyFr::of(h)
    }
}

/// A point, written as its discrete logarithm; `valid` is false for points outside
/// the subgroup.
#[derive(Clone, Copy, Debug, PartialEq)]
struct ToyG1 {
    v: u64,
    valid: bool,
}

impl ToyG1 {
    fn of(v: u64) -> ToyG1 {
        ToyG1 { v: v % P, valid: true }
    }
}

impl G1 for ToyG1 {
    // Models for the verifier only: never called at run time.
    fn is_valid_spec(&self) -> bool {
        unreachable!()
    }
    fn bytes_spec(&self) -> Seq<u8> {
        unreachable!()
    }
    fn identity_spec() -> Self {
        unreachable!()
    }
    fn add_spec(_a: Self, _b: Self) -> Self {
        unreachable!()
    }
    fn sub_spec(_a: Self, _b: Self) -> Self {
        unreachable!()
    }
    fn identity() -> Self {
        ToyG1::of(0)
    }
    fn add(&self, b: &Self) -> Self {
        ToyG1::of(add_mod(self.v, b.v))
    }
    fn sub(&self, b: &Self) -> Self {
        ToyG1::of(sub_mod(self.v, b.v))
    }
    fn is_valid(&self) -> bool {
        self.valid
    }
    fn equals(&self, b: &Self) -> bool {
        self.to_bytes() == b.to_bytes()
    }
    fn to_bytes(&self) -> [u8; 48] {
        let mut out = [0u8; 48];
        out[0] = if self.valid { 0x80 } else { 0x40 };
        out[40..].copy_from_slice(&self.v.to_be_bytes());
        out
    }
}

impl G1LinComb<ToyFr> for ToyG1 {
    fn lincomb_spec(_points: Seq<Self>, _scalars: Seq<int>) -> Self {
        unreachable!()
    }
    fn g1_lincomb(points: &[Self], scalars: &[ToyFr], len: usize) -> Self {
        let mut acc = 0u64;
        for i in 0..len {
            acc = add_mod(acc, mul_mod(points[i].v, scalars[i].v));
        }
        ToyG1::of(acc)
    }
}

#[derive(Clone, Copy, Debug, PartialEq)]
struct ToyG2 {
    v: u64,
}

impl G2 for ToyG2 {
    fn generator_spec() -> Self {
        unreachable!()
    }
    fn generator() -> Self {
        ToyG2 { v: 1 }
    }
}

impl PairingVerify<ToyG2> for ToyG1 {
    fn verify_spec(_a: Self, _b: ToyG2, _c: Self, _d: ToyG2) -> bool {
        unreachable!()
    }
    fn verify(a: &Self, b: &ToyG2, c: &Self, d: &ToyG2) -> bool {
        mul_mod(a.v, b.v) == mul_mod(c.v, d.v)
    }
}

struct ToyFft {
    max_width: usize,
    roots: Vec<u64>,
}

fn fft_values(data: &[u64], roots: &[u64], stride: usize) -> Vec<u64> {
    let n = data.len();
    if n == 1 {
        return data.to_vec();
    }
    let even: Vec<u64> = data.iter().step_by(2).copied().collect();
    let odd: Vec<u64> = data.iter().skip(1).step_by(2).copied().collect();
    let e = fft_values(&even, roots, stride * 2);
    let o = fft_values(&odd, roots, stride * 2);
    let mut out = vec![0u64; n];
    for k in 0..n / 2 {
        let t = mul_mod(roots[k * stride], o[k]);
        out[k] = add_mod(e[k], t);
        out[k + n / 2] = sub_mod(e[k], t);
    }
    out
}

impl ToyFft {
    fn new(max_width: usize) -> ToyFft {
        let w = pow_mod(7, (P - 1) / max_width as u64);
        let mut roots = Vec::with_capacity(max_width + 1);
        let mut x = 1u64;
        for _ in 0..=max_width {
            roots.push(x);
            x = mul_mod(x, w);
        }
        ToyFft { max_width, roots }
    }

    fn transform(&self, data: &[u64], inverse: bool) -> Result<Vec<u64>, DasError> {
        let n = data.len();
        if n == 0 || !n.is_power_of_two() || self.max_width % n != 0 {
            return Err(DasError::InvalidLength);
        }
        let stride = self.max_width / n;
        if !inverse {
            return Ok(fft_values(data, &self.roots, stride));
        }
        let inv_roots: Vec<u64> = (0..=self.max_width).map(|i| self.roots[self.max_width - i]).collect();
        let out = fft_values(data, &inv_roots, stride);
        let inv_n = inv_mod(n as u64);
        Ok(out.into_iter().map(|x| mul_mod(x, inv_n)).collect())
    }
}

impl FFTSettings<ToyFr, ToyG1> for ToyFft {
    // Models for the verifier only: never called at run time.
    fn max_width_spec(&self) -> nat {
        unreachable!()
    }
    fn root_spec(&self, _i: nat) -> int {
        unreachable!()
    }
    fn lemma_roots(&self) {}
    fn lemma_fft_fr_round_trip(&self, _data: Seq<int>) {}
    fn lemma_fft_g1_round_trip(&self, _data: Seq<ToyG1>) {}
    fn fft_fr_spec(&self, _data: Seq<int>, _inverse: bool) -> Seq<int> {
        unreachable!()
    }
    fn fft_g1_spec(&self, _data: Seq<ToyG1>, _inverse: bool) -> Seq<ToyG1> {
        unreachable!()
    }
    fn get_max_width(&self) -> usize {
        self.max_width
    }
    fn get_roots_of_unity_at(&self, i: usize) -> ToyFr {
        ToyFr::of(self.roots[i])
    }
    fn fft_fr(&self, data: &[ToyFr], inverse: bool) -> Result<Vec<ToyFr>, DasError> {
        let vals: Vec<u64> = data.iter().map(|x| x.v).collect();
        Ok(self.transform(&vals, inverse)?.into_iter().map(ToyFr::of).collect())
    }
    fn fft_g1(&self, data: &[ToyG1], inverse: bool) -> Result<Vec<ToyG1>, DasError> {
        let vals: Vec<u64> = data.iter().map(|x| x.v).collect();
        Ok(self.transform(&vals, inverse)?.into_iter().map(ToyG1::of).collect())
    }
}

struct ToyKzg {
    fft: ToyFft,
    g1_monomial: Vec<ToyG1>,
    g2_monomial: Vec<ToyG2>,
    x_ext_fft_columns: Vec<Vec<ToyG1>>,
}

impl KZGSettings<ToyFr, ToyG1, ToyG2, ToyFft> for ToyKzg {
    // Models for the verifier only: never called at run time.
    fn fft_settings_spec(&self) -> ToyFft {
        unreachable!()
    }
    fn g1_monomial_spec(&self) -> Seq<ToyG1> {
        unreachable!()
    }
    fn g2_monomial_spec(&self) -> Seq<ToyG2> {
        unreachable!()
    }
    fn x_ext_fft_column_spec(&self, _i: nat) -> Seq<ToyG1> {
        unreachable!()
    }
    fn get_fft_settings(&self) -> &ToyFft {
        &self.fft
    }
    fn get_g1_monomial(&self) -> &[ToyG1] {
        &self.g1_monomial
    }
    fn get_g2_monomial(&self) -> &[ToyG2] {
        &self.g2_monomial
    }
    fn get_x_ext_fft_column(&self, i: usize) -> &[ToyG1] {
        &self.x_ext_fft_columns[i]
    }
}

struct Toy;

impl EcBackend for Toy {
    type Fr = ToyFr;
    type G1 = ToyG1;
    type G2 = ToyG2;
    type FFTSettings = ToyFft;
    type KZGSettings = ToyKzg;
}

struct Mainnet;

impl Preset for Mainnet {
    const FIELD_ELEMENTS_PER_BLOB: usize = 4096;
    const FIELD_ELEMENTS_PER_EXT_BLOB: usize = 8192;
    const CELLS_PER_EXT_BLOB: usize = 128;
}

fn setup() -> ToyKzg {
    let n = 4096;
    let fft = ToyFft::new(8192);
    let g1_monomial: Vec<ToyG1> = (0..n as u64).map(|i| ToyG1::of(pow_mod(SECRET, i))).collect();
    let g2_monomial: Vec<ToyG2> = (0..65u64).map(|i| ToyG2 { v: pow_mod(SECRET, i) }).collect();
    let k = n / CELL;
    let k2 = 2 * k;
    let mut columns = vec![vec![ToyG1::identity(); CELL]; k2];
    for offset in 0..CELL {
        let start = n - CELL - 1 - offset;
        let mut x = vec![ToyG1::identity(); k2];
        for i in 0..k - 1 {
            x[i] = g1_monomial[start - i * CELL];
        }
        let x_ext_fft = fft.fft_g1(&x, false).unwrap();
        for row in 0..k2 {
            columns[row][offset] = x_ext_fft[row];
        }
    }
    ToyKzg { fft, g1_monomial, g2_monomial, x_ext_fft_columns: columns }
}

fn sequential_blob() -> Vec<ToyFr> {
    (1..=4096u64).map(ToyFr::of).collect()
}

fn monomial(s: &ToyKzg, blob: &[ToyFr]) -> Vec<ToyFr> {
    let mut brp = blob.to_vec();
    reverse_bit_order(&mut brp).unwrap();
    s.fft.fft_fr(&brp, true).unwrap()
}

fn commit(s: &ToyKzg, blob: &[ToyFr]) -> ToyG1 {
    let mono = monomial(s, blob);
    ToyG1::g1_lincomb(&s.g1_monomial, &mono, mono.len())
}

fn compute(s: &ToyKzg, blob: &[ToyFr]) -> (Vec<[ToyFr; CELL]>, Vec<ToyG1>) {
    let mut cells = vec![[ToyFr::zero(); CELL]; 128];
    let mut proofs = vec![ToyG1::identity(); 128];
    <ToyKzg as DAS<Toy, CELL, Mainnet>>::compute_cells_and_kzg_proofs(s, Some(&mut cells), Some(&mut proofs), blob)
        .unwrap();
    (cells, proofs)
}

fn verify(
    s: &ToyKzg,
    commitments: &[ToyG1],
    indices: &[usize],
    cells: &[[ToyFr; CELL]],
    proofs: &[ToyG1],
) -> Result<bool, DasError> {
    <ToyKzg as DAS<Toy, CELL, Mainnet>>::verify_cell_kzg_proof_batch(s, commitments, indices, cells, proofs)
}

#[test]
fn first_cell_is_start_of_bit_reversed_extension() {
    let s = setup();
    let blob = sequential_blob();
    let (cells, _) = compute(&s, &blob);
    let mut mono = monomial(&s, &blob);
    mono.resize(8192, ToyFr::zero());
    let mut ext = s.fft.fft_fr(&mono, false).unwrap();
    reverse_bit_order(&mut ext).unwrap();
    assert_eq!(cells[0].to_vec(), ext[..CELL].to_vec());
    assert_eq!(cells[127].to_vec(), ext[8192 - CELL..].to_vec());
}

#[test]
fn extension_keeps_the_blob_in_its_first_half() {
    let s = setup();
    let blob = sequential_blob();
    let (cells, _) = compute(&s, &blob);
    let flat: Vec<ToyFr> = cells.iter().flat_map(|c| c.to_vec()).collect();
    assert_eq!(flat[..4096].to_vec(), blob);
}

#[test]
fn all_cells_verify() {
    let s = setup();
    let blob = sequential_blob();
    let (cells, proofs) = compute(&s, &blob);
    let c = commit(&s, &blob);
    let indices: Vec<usize> = (0..128).collect();
    assert_eq!(verify(&s, &vec![c; 128], &indices, &cells, &proofs), Ok(true));
}

#[test]
fn a_few_cells_of_another_blob_verify() {
    let s = setup();
    let blob: Vec<ToyFr> = (0..4096u64).map(|i| ToyFr::of(i * i + 17)).collect();
    let (cells, proofs) = compute(&s, &blob);
    let c = commit(&s, &blob);
    let indices = vec![3usize, 77, 127];
    let some_cells: Vec<[ToyFr; CELL]> = indices.iter().map(|&i| cells[i]).collect();
    let some_proofs: Vec<ToyG1> = indices.iter().map(|&i| proofs[i]).collect();
    assert_eq!(verify(&s, &vec![c; 3], &indices, &some_cells, &some_proofs), Ok(true));
}

#[test]
fn recover_from_odd_cells() {
    let s = setup();
    let blob = sequential_blob();
    let (cells, proofs) = compute(&s, &blob);
    let indices: Vec<usize> = (0..128).filter(|i| i % 2 == 1).collect();
    let kept: Vec<[ToyFr; CELL]> = indices.iter().map(|&i| cells[i]).collect();
    let mut recovered = vec![[ToyFr::zero(); CELL]; 128];
    let mut recovered_proofs = vec![ToyG1::identity(); 128];
    <ToyKzg as DAS<Toy, CELL, Mainnet>>::recover_cells_and_kzg_proofs(
        &s,
        &mut recovered,
        Some(&mut recovered_proofs),
        &indices,
        &kept,
    )
    .unwrap();
    assert_eq!(recovered, cells);
    assert_eq!(recovered_proofs, proofs);
}

#[test]
fn recover_from_first_half_unsorted() {
    let s = setup();
    let blob: Vec<ToyFr> = (0..4096u64).map(|i| ToyFr::of(i * 31 + 5)).collect();
    let (cells, _) = compute(&s, &blob);
    let indices: Vec<usize> = (0..64).rev().collect();
    let kept: Vec<[ToyFr; CELL]> = indices.iter().map(|&i| cells[i]).collect();
    let mut recovered = vec![[ToyFr::zero(); CELL]; 128];
    <ToyKzg as DAS<Toy, CELL, Mainnet>>::recover_cells_and_kzg_proofs(&s, &mut recovered, None, &indices, &kept)
        .unwrap();
    assert_eq!(recovered, cells);
}

#[test]
fn recover_with_all_cells_keeps_them() {
    let s = setup();
    let blob = sequential_blob();
    let (cells, _) = compute(&s, &blob);
    let indices: Vec<usize> = (0..128).collect();
    let mut recovered = vec![[ToyFr::zero(); CELL]; 128];
    <ToyKzg as DAS<Toy, CELL, Mainnet>>::recover_cells_and_kzg_proofs(&s, &mut recovered, None, &indices, &cells)
        .unwrap();
    assert_eq!(recovered, cells);
}

#[test]
fn recover_with_63_cells_is_insufficient() {
    let s = setup();
    let blob = sequential_blob();
    let (cells, _) = compute(&s, &blob);
    let indices: Vec<usize> = (0..63).collect();
    let kept: Vec<[ToyFr; CELL]> = indices.iter().map(|&i| cells[i]).collect();
    let mut recovered = vec![[ToyFr::zero(); CELL]; 128];
    let r = <ToyKzg as DAS<Toy, CELL, Mainnet>>::recover_cells_and_kzg_proofs(&s, &mut recovered, None, &indices, &kept);
    assert_eq!(r, Err(DasError::InsufficientCells));
}

#[test]
fn recover_rejects_duplicate_and_bad_indices() {
    let s = setup();
    let blob = sequential_blob();
    let (cells, _) = compute(&s, &blob);
    let mut indices: Vec<usize> = (0..64).collect();
    indices[10] = 3;
    let kept: Vec<[ToyFr; CELL]> = indices.iter().map(|&i| cells[i]).collect();
    let mut recovered = vec![[ToyFr::zero(); CELL]; 128];
    let r = <ToyKzg as DAS<Toy, CELL, Mainnet>>::recover_cells_and_kzg_proofs(&s, &mut recovered, None, &indices, &kept);
    assert_eq!(r, Err(DasError::DuplicateIndex));
    indices[10] = 128;
    let r = <ToyKzg as DAS<Toy, CELL, Mainnet>>::recover_cells_and_kzg_proofs(&s, &mut recovered, None, &indices, &kept);
    assert_eq!(r, Err(DasError::InvalidIndex));
    let mut short = vec![[ToyFr::zero(); CELL]; 127];
    let r = <ToyKzg as DAS<Toy, CELL, Mainnet>>::recover_cells_and_kzg_proofs(&s, &mut short, None, &indices, &kept);
    assert_eq!(r, Err(DasError::InvalidLength));
}

#[test]
fn tampered_cell_is_rejected() {
    let s = setup();
    let blob = sequential_blob();
    let (mut cells, proofs) = compute(&s, &blob);
    let c = commit(&s, &blob);
    cells[5][10] = cells[5][10].add(&ToyFr::one());
    let indices: Vec<usize> = (0..128).collect();
    assert_eq!(verify(&s, &vec![c; 128], &indices, &cells, &proofs), Ok(false));
}

#[test]
fn tampered_proof_or_commitment_is_rejected() {
    let s = setup();
    let blob = sequential_blob();
    let (cells, mut proofs) = compute(&s, &blob);
    let c = commit(&s, &blob);
    let indices: Vec<usize> = (0..128).collect();
    let mut commitments = vec![c; 128];
    commitments[7] = ToyG1::of(c.v + 1);
    assert_eq!(verify(&s, &commitments, &indices, &cells, &proofs), Ok(false));
    proofs[9] = ToyG1::of(proofs[9].v + 1);
    assert_eq!(verify(&s, &vec![c; 128], &indices, &cells, &proofs), Ok(false));
}

#[test]
fn index_128_is_invalid() {
    let s = setup();
    let blob = sequential_blob();
    let (cells, proofs) = compute(&s, &blob);
    let c = commit(&s, &blob);
    let r = verify(&s, &[c], &[128], &cells[..1], &proofs[..1]);
    assert_eq!(r, Err(DasError::InvalidIndex));
}

#[test]
fn proof_outside_subgroup_is_invalid_point() {
    let s = setup();
    let blob = sequential_blob();
    let (cells, mut proofs) = compute(&s, &blob);
    let c = commit(&s, &blob);
    proofs[0].valid = false;
    let r = verify(&s, &[c], &[0], &cells[..1], &proofs[..1]);
    assert_eq!(r, Err(DasError::InvalidPoint));
    let bad = ToyG1 { v: c.v, valid: false };
    let r = verify(&s, &[bad], &[1], &cells[1..2], &proofs[1..2]);
    assert_eq!(r, Err(DasError::InvalidPoint));
}

#[test]
fn batch_shape_errors_and_empty_batch() {
    let s = setup();
    assert_eq!(verify(&s, &[], &[], &[], &[]), Ok(true));
    let blob = sequential_blob();
    let (cells, proofs) = compute(&s, &blob);
    let c = commit(&s, &blob);
    assert_eq!(verify(&s, &[c, c], &[0], &cells[..1], &proofs[..1]), Err(DasError::InvalidLength));
    assert_eq!(verify(&s, &[c], &[0, 1], &cells[..1], &proofs[..1]), Err(DasError::InvalidLength));
}

#[test]
fn rows_of_two_blobs_verify_together() {
    let s = setup();
    let a = sequential_blob();
    let b: Vec<ToyFr> = (0..4096u64).map(|i| ToyFr::of(3 * i + 2)).collect();
    let (ca, pa) = compute(&s, &a);
    let (cb, pb) = compute(&s, &b);
    let (ka, kb) = (commit(&s, &a), commit(&s, &b));
    let commitments = vec![ka, kb, ka, kb];
    let indices = vec![1usize, 1, 100, 42];
    let cells = vec![ca[1], cb[1], ca[100], cb[42]];
    let proofs = vec![pa[1], pb[1], pa[100], pb[42]];
    assert_eq!(verify(&s, &commitments, &indices, &cells, &proofs), Ok(true));
    let single = verify(&s, &[ka], &[100], &[ca[100]], &[pa[100]]);
    let doubled = verify(&s, &[ka, ka], &[100, 100], &[ca[100], ca[100]], &[pa[100], pa[100]]);
    assert_eq!(single, doubled);
    let mut bad = cells.clone();
    bad[3][0] = bad[3][0].add(&ToyFr::one());
    assert_eq!(verify(&s, &commitments, &indices, &bad, &proofs), Ok(false));
}

#[test]
fn compute_needs_an_output_and_a_full_blob() {
    let s = setup();
    let r = <ToyKzg as DAS<Toy, CELL, Mainnet>>::compute_cells_and_kzg_proofs(&s, None, None, &sequential_blob());
    assert_eq!(r, Err(DasError::InvalidLength));
    let mut cells = vec![[ToyFr::zero(); CELL]; 128];
    let short: Vec<ToyFr> = (0..4095u64).map(ToyFr::of).collect();
    let r = <ToyKzg as DAS<Toy, CELL, Mainnet>>::compute_cells_and_kzg_proofs(&s, Some(&mut cells), None, &short);
    assert_eq!(r, Err(DasError::InvalidLength));
}

#[test]
fn bit_reversal_of_indices() {
    assert_eq!(reverse_bits_limited(128, 0), 0);
    assert_eq!(reverse_bits_limited(128, 1), 64);
    assert_eq!(reverse_bits_limited(128, 3), 96);
    assert_eq!(reverse_bits_limited(128, 127), 127);
    assert_eq!(reverse_bits_limited(8, 6), 3);
    assert_eq!(reverse_bits_limited(1, 0), 0);
}

#[test]
fn bit_reversal_twice_is_identity() {
    let original: Vec<u32> = (0..16).collect();
    let mut v = original.clone();
    reverse_bit_order(&mut v).unwrap();
    assert_eq!(v, vec![0, 8, 4, 12, 2, 10, 6, 14, 1, 9, 5, 13, 3, 11, 7, 15]);
    reverse_bit_order(&mut v).unwrap();
    assert_eq!(v, original);
    let mut odd: Vec<u32> = (0..12).collect();
    assert_eq!(reverse_bit_order(&mut odd), Err(DasError::InvalidLength));
    let mut empty: Vec<u32> = Vec::new();
    assert_eq!(reverse_bit_order(&mut empty), Err(DasError::InvalidLength));
}

#[test]
fn vanishing_polynomial_of_two_roots() {
    let roots = [ToyFr::of(2), ToyFr::of(3)];
    let poly = kzg::poly::compute_vanishing_polynomial_from_roots::<Toy>(&roots).unwrap();
    assert_eq!(poly, vec![ToyFr::of(6), ToyFr::of(P - 5), ToyFr::of(1)]);
    assert_eq!(kzg::poly::compute_vanishing_polynomial_from_roots::<Toy>(&[]), Err(DasError::EmptyInput));
}

#[test]
fn vanishing_polynomial_is_zero_at_roots_only() {
    let roots: Vec<ToyFr> = [5u64, 11, 12345, 99].iter().map(|&x| ToyFr::of(x)).collect();
    let poly = kzg::poly::compute_vanishing_polynomial_from_roots::<Toy>(&roots).unwrap();
    let eval = |x: u64| poly.iter().rev().fold(0u64, |acc, c| add_mod(mul_mod(acc, x), c.v));
    for r in &roots {
        assert_eq!(eval(r.v), 0);
    }
    let expected = mul_mod(mul_mod(mul_mod(1, P - 5), P - 12339), P - 93);
    assert_eq!(eval(6), expected);
    assert_ne!(eval(6), 0);
}

#[test]
fn shift_multiplies_by_powers() {
    let mut p = vec![ToyFr::of(1), ToyFr::of(1), ToyFr::of(1), ToyFr::of(2)];
    kzg::poly::shift_poly::<Toy>(&mut p, &ToyFr::of(3));
    assert_eq!(p, vec![ToyFr::of(1), ToyFr::of(3), ToyFr::of(9), ToyFr::of(54)]);
}

#[test]
fn coset_transform_round_trip() {
    let s = setup();
    let data: Vec<ToyFr> = (0..16u64).map(|i| ToyFr::of(i * 7 + 1)).collect();
    let on_coset = kzg::poly::coset_fft::<Toy>(data.clone(), &s.fft).unwrap();
    assert_ne!(on_coset, data);
    let back = kzg::poly::coset_ifft::<Toy>(&on_coset, &s.fft).unwrap();
    assert_eq!(back, data);
    assert_eq!(kzg::poly::coset_fft::<Toy>(Vec::new(), &s.fft), Err(DasError::EmptyInput));
    assert_eq!(kzg::poly::coset_ifft::<Toy>(&[], &s.fft), Err(DasError::EmptyInput));
}

#[test]
fn coset_transform_evaluates_on_shifted_points() {
    let s = setup();
    let data = vec![ToyFr::of(4), ToyFr::of(5)];
    let on_coset = kzg::poly::coset_fft::<Toy>(data, &s.fft).unwrap();
    assert_eq!(on_coset, vec![ToyFr::of(4 + 5 * 7), ToyFr::of(sub_mod(4, 35))]);
}

#[test]
fn group_transform_round_trip() {
    let s = setup();
    let data: Vec<ToyG1> = (0..64u64).map(|i| ToyG1::of(i * i + 3)).collect();
    let there = s.fft.fft_g1(&data, false).unwrap();
    assert_eq!(s.fft.fft_g1(&there, true).unwrap(), data);
}

#[test]
fn commitments_are_deduplicated_in_order() {
    let a = ToyG1::of(10);
    let b = ToyG1::of(20);
    let mut commitments = vec![a, b, a, b, ToyG1::of(30)];
    let mut indices = vec![0usize; 5];
    let mut count = 5usize;
    kzg::verify::deduplicate_commitments(&mut commitments, &mut indices, &mut count);
    assert_eq!(count, 3);
    assert_eq!(commitments[..3].to_vec(), vec![a, b, ToyG1::of(30)]);
    assert_eq!(indices, vec![0, 1, 0, 1, 2]);
    let mut none: Vec<ToyG1> = Vec::new();
    let mut count = 0usize;
    kzg::verify::deduplicate_commitments(&mut none, &mut Vec::new(), &mut count);
    assert_eq!(count, 0);
}

#[test]
fn challenge_powers_are_deterministic() {
    let s = setup();
    let blob = sequential_blob();
    let (cells, proofs) = compute(&s, &blob);
    let c = commit(&s, &blob);
    let run = || {
        kzg::verify::compute_r_powers_for_verify_cell_kzg_proof_batch::<CELL, ToyFr, ToyG1>(
            &[c],
            &[0, 0],
            &[4, 9],
            &cells[4..6],
            &proofs[4..6],
        )
        .unwrap()
    };
    let first = run();
    assert_eq!(first, run());
    assert_eq!(first[0], ToyFr::one());
    assert_eq!(first[1], first[1].mul(&ToyFr::one()));
    let mismatched = kzg::verify::compute_r_powers_for_verify_cell_kzg_proof_batch::<CELL, ToyFr, ToyG1>(
        &[c],
        &[0],
        &[4, 9],
        &cells[4..6],
        &proofs[4..6],
    );
    assert_eq!(mismatched, Err(DasError::InvalidLength));
}

#[test]
fn challenge_input_layout() {
    let c = ToyG1::of(5);
    let cell = [ToyFr::of(2); CELL];
    let proof = ToyG1::of(9);
    let bytes = kzg::verify::challenge_bytes::<CELL, ToyFr, ToyG1>(&[c], &[0], &[3], &[cell], &[proof]);
    assert_eq!(bytes.len(), 16 + 24 + 48 + 8 + 8 + CELL * 32 + 48);
    assert_eq!(&bytes[..16], b"RCKZGCBATCH__V1_");
    assert_eq!(&bytes[16..24], &64u64.to_be_bytes());
    assert_eq!(&bytes[24..32], &1u64.to_be_bytes());
    assert_eq!(&bytes[32..40], &1u64.to_be_bytes());
    assert_eq!(&bytes[40..88], &c.to_bytes());
    assert_eq!(&bytes[88..96], &0u64.to_be_bytes());
    assert_eq!(&bytes[96..104], &3u64.to_be_bytes());
    assert_eq!(&bytes[104..136], &ToyFr::of(2).to_bytes());
    assert_eq!(&bytes[bytes.len() - 48..], &proof.to_bytes());
}

#[test]
fn commitment_weights_sum_powers_per_commitment() {
    let r = vec![ToyFr::of(1), ToyFr::of(10), ToyFr::of(100), ToyFr::of(1000)];
    let w = kzg::verify::compute_commitment_weights::<Toy>(3, &[0, 2, 0, 2], &r);
    assert_eq!(w, vec![ToyFr::of(101), ToyFr::of(0), ToyFr::of(1010)]);
}

#[test]
fn toeplitz_vector_layout() {
    let input: Vec<ToyFr> = (0..16u64).map(ToyFr::of).collect();
    let mut out = vec![ToyFr::of(99); 8];
    kzg::fk20::toeplitz_coeffs_stride::<Toy>(&mut out, &input, 16, 1, 4).unwrap();
    let vals: Vec<u64> = out.iter().map(|x| x.v).collect();
    assert_eq!(vals, vec![14, 0, 0, 0, 0, 0, 6, 10]);
    assert_eq!(kzg::fk20::toeplitz_coeffs_stride::<Toy>(&mut out, &input, 16, 1, 0), Err(DasError::InvalidLength));
}

#[test]
fn toeplitz_vector_keeps_a_longer_tail() {
    let input: Vec<ToyFr> = (0..16u64).map(ToyFr::of).collect();
    let mut out = vec![ToyFr::of(99); 10];
    kzg::fk20::toeplitz_coeffs_stride::<Toy>(&mut out, &input, 16, 1, 4).unwrap();
    let vals: Vec<u64> = out.iter().map(|x| x.v).collect();
    assert_eq!(vals, vec![14, 0, 0, 0, 0, 0, 6, 10, 99, 99]);
}

#[test]
fn failed_recovery_leaves_outputs_unchanged() {
    let s = setup();
    let blob = sequential_blob();
    let (cells, _) = compute(&s, &blob);
    let mut indices: Vec<usize> = (0..64).collect();
    indices[20] = 7;
    let kept: Vec<[ToyFr; CELL]> = indices.iter().map(|&i| cells[i]).collect();
    let before = vec![[ToyFr::of(5); CELL]; 128];
    let mut recovered = before.clone();
    let r = <ToyKzg as DAS<Toy, CELL, Mainnet>>::recover_cells_and_kzg_proofs(&s, &mut recovered, None, &indices, &kept);
    assert_eq!(r, Err(DasError::DuplicateIndex));
    assert_eq!(recovered, before);
}

#[test]
fn lagrange_to_monomial_round_trip() {
    let s = setup();
    let mono: Vec<ToyFr> = (0..32u64).map(|i| ToyFr::of(i * 3 + 1)).collect();
    let mut lagrange = s.fft.fft_fr(&mono, false).unwrap();
    reverse_bit_order(&mut lagrange).unwrap();
    kzg::fk20::poly_lagrange_to_monomial::<Toy>(&mut lagrange, &s.fft).unwrap();
    assert_eq!(lagrange, mono);
    let mut bad: Vec<ToyFr> = (0..12u64).map(ToyFr::of).collect();
    let copy = bad.clone();
    assert_eq!(kzg::fk20::poly_lagrange_to_monomial::<Toy>(&mut bad, &s.fft), Err(DasError::InvalidLength));
    assert_eq!(bad, copy);
}
