use vstd::prelude::*;

use crate::bitrev::is_pow2;
use crate::DasError;

verus! {

/// The values of a sequence of scalars.
pub open spec fn vals<F: Fr>(s: Seq<F>) -> Seq<int> {
    s.map_values(|x: F| x.val())
}

/// `w` to the power `e`, modulo `m`.
pub open spec fn pow_mod(w: int, e: nat, m: int) -> int
    decreases e,
{
    if e == 0 {
        1int % m
    } else {
        (w * pow_mod(w, (e - 1) as nat, m)) % m
    }
}

/// One more factor of `w` on the right.
pub proof fn lemma_pow_mod_step(w: int, e: nat, m: int)
    requires
        e > 0,
    ensures
        pow_mod(w, e, m) == (pow_mod(w, (e - 1) as nat, m) * w) % m,
{
    let p = pow_mod(w, (e - 1) as nat, m);
    assert(w * p == p * w) by (nonlinear_arith);
}

/// Powers are reduced modulo `m`.
pub proof fn lemma_pow_mod_reduced(w: int, e: nat, m: int)
    requires
        m > 0,
    ensures
        pow_mod(w, e, m) % m == pow_mod(w, e, m),
{
    if e == 0 {
        vstd::arithmetic::div_mod::lemma_mod_twice(1, m);
    } else {
        vstd::arithmetic::div_mod::lemma_mod_twice(w * pow_mod(w, (e - 1) as nat, m), m);
    }
}

/// `w^(a + b) == w^a * w^b`, modulo `m`.
pub proof fn lemma_pow_mod_add(w: int, a: nat, b: nat, m: int)
    requires
        m > 0,
    ensures
        pow_mod(w, a + b, m) == (pow_mod(w, a, m) * pow_mod(w, b, m)) % m,
    decreases b,
{
    let pa = pow_mod(w, a, m);
    lemma_pow_mod_reduced(w, a, m);
    if b == 0 {
        vstd::arithmetic::div_mod::lemma_mul_mod_noop(pa, 1, m);
        vstd::arithmetic::div_mod::lemma_mod_twice(1, m);
        assert(a + b == a);
    } else {
        let pb1 = pow_mod(w, (b - 1) as nat, m);
        lemma_pow_mod_add(w, a, (b - 1) as nat, m);
        assert((a + b - 1) as nat == a + (b - 1) as nat);
        let s = pow_mod(w, (a + b - 1) as nat, m);
        assert(s == (pa * pb1) % m);
        assert(pow_mod(w, a + b, m) == (w * s) % m);
        vstd::arithmetic::div_mod::lemma_mul_mod_noop(w, pa * pb1, m);
        vstd::arithmetic::div_mod::lemma_mod_twice(w, m);
        assert(w * (pa * pb1) == pa * (w * pb1)) by (nonlinear_arith);
        vstd::arithmetic::div_mod::lemma_mul_mod_noop(pa, w * pb1, m);
        vstd::arithmetic::div_mod::lemma_mod_twice(w * pb1, m);
        assert(pow_mod(w, b, m) == (w * pb1) % m);
        vstd::arithmetic::div_mod::lemma_mul_mod_noop(w, pa * pb1, m);
        vstd::arithmetic::div_mod::lemma_mul_mod_noop_right(w, pa * pb1, m);
        vstd::arithmetic::div_mod::lemma_mul_mod_noop_right(pa, w * pb1, m);
    }
}

/// `w^(a * n) == (w^a)^n`, modulo `m`.
pub proof fn lemma_pow_mod_mul(w: int, a: nat, n: nat, m: int)
    requires
        m > 0,
    ensures
        pow_mod(w, a * n, m) == pow_mod(pow_mod(w, a, m), n, m),
    decreases n,
{
    if n == 0 {
        assert(a * n == 0);
    } else {
        lemma_pow_mod_mul(w, a, (n - 1) as nat, m);
        assert(a * n == a * (n - 1) as nat + a) by (nonlinear_arith)
            requires
                n >= 1,
        ;
        lemma_pow_mod_add(w, a * (n - 1) as nat, a, m);
        let pa = pow_mod(w, a, m);
        let q = pow_mod(pa, (n - 1) as nat, m);
        assert(pow_mod(w, a * n, m) == (q * pa) % m);
        assert(q * pa == pa * q) by (nonlinear_arith);
    }
}

/// The sum of `a[t] * w^(t * k)` for `t < i`, modulo `m`.
pub open spec fn dft_partial(a: Seq<int>, w: int, k: nat, i: nat, m: int) -> int
    decreases i,
{
    if i == 0 {
        0
    } else {
        (dft_partial(a, w, k, (i - 1) as nat, m) + a[i - 1] * pow_mod(w, ((i - 1) * k) as nat, m)) % m
    }
}

/// The discrete Fourier transform of `a` at the root `w`: entry `k` is the sum of
/// `a[t] * w^(t * k)`, modulo `m`.
pub open spec fn dft(a: Seq<int>, w: int, m: int) -> Seq<int> {
    Seq::new(a.len(), |k: int| dft_partial(a, w, k as nat, a.len(), m))
}

/// An element of the scalar field, modelled by its value modulo `modulus()`.
pub trait Fr: Sized + Copy {
    /// The order of the field.
    spec fn modulus() -> int;

    /// The value of an element, in `[0, modulus())` for every element made by arithmetic.
    spec fn val(&self) -> int;

    /// Whether the element is the sentinel that marks a missing value.
    spec fn is_null_spec(&self) -> bool;

    /// The canonical 32-byte big-endian encoding.
    spec fn bytes_spec(&self) -> Seq<u8>;

    /// The quotient `a / b` in the field.
    spec fn div_spec(a: int, b: int) -> int;

    /// The named quotient is a quotient: times a non-zero divisor it gives the
    /// dividend back.
    proof fn lemma_div(a: int, b: int)
        requires
            b % Self::modulus() != 0,
        ensures
            (Self::div_spec(a, b) * b) % Self::modulus() == a % Self::modulus(),
    ;

    /// The field has at least two elements.
    proof fn lemma_modulus()
        ensures
            Self::modulus() > 1,
    ;

    /// The field element that the challenge derived from `data` is: SHA-256 of the
    /// data, reduced to the field as EIP-4844's `hash_to_bls_field` does.
    spec fn hash_to_field_spec(data: Seq<u8>) -> int;

    fn null() -> (r: Self)
        ensures
            r.is_null_spec(),
    ;

    fn zero() -> (r: Self)
        ensures
            !r.is_null_spec(),
            r.val() == 0,
    ;

    fn one() -> (r: Self)
        ensures
            !r.is_null_spec(),
            r.val() == 1int % Self::modulus(),
    ;

    fn from_u64(n: u64) -> (r: Self)
        ensures
            !r.is_null_spec(),
            r.val() == n as int % Self::modulus(),
    ;

    fn is_null(&self) -> (r: bool)
        ensures
            r == self.is_null_spec(),
    ;

    fn add(&self, b: &Self) -> (r: Self)
        ensures
            !r.is_null_spec(),
            r.val() == (self.val() + b.val()) % Self::modulus(),
    ;

    fn sub(&self, b: &Self) -> (r: Self)
        ensures
            !r.is_null_spec(),
            r.val() == (self.val() - b.val()) % Self::modulus(),
    ;

    fn mul(&self, b: &Self) -> (r: Self)
        ensures
            !r.is_null_spec(),
            r.val() == (self.val() * b.val()) % Self::modulus(),
    ;

    fn negate(&self) -> (r: Self)
        ensures
            !r.is_null_spec(),
            r.val() == (-self.val()) % Self::modulus(),
    ;

    /// The quotient, which fails exactly when the divisor is zero.
    fn div(&self, b: &Self) -> (r: Result<Self, DasError>)
        ensures
            (b.val() % Self::modulus() == 0) <==> r is Err,
            r is Err ==> r == Err::<Self, DasError>(DasError::ArithmeticFailure),
            r matches Ok(q) ==> !q.is_null_spec() && (q.val() * b.val()) % Self::modulus()
                == self.val() % Self::modulus() && q.val() == Self::div_spec(self.val(), b.val()),
    ;

    fn to_bytes(&self) -> (r: [u8; 32])
        ensures
            r@ == self.bytes_spec(),
    ;

    /// The challenge for `data`.
    fn hash_to_field(data: &[u8]) -> (r: Self)
        ensures
            !r.is_null_spec(),
            r.val() == Self::hash_to_field_spec(data@),
    ;
}

/// A point of the first pairing group.
pub trait G1: Sized + Copy {
    /// Whether the point lies in the prime-order subgroup.
    spec fn is_valid_spec(&self) -> bool;

    /// The 48-byte compressed encoding.
    spec fn bytes_spec(&self) -> Seq<u8>;

    /// The neutral element.
    spec fn identity_spec() -> Self;

    /// The sum of two points.
    spec fn add_spec(a: Self, b: Self) -> Self;

    /// The difference of two points.
    spec fn sub_spec(a: Self, b: Self) -> Self;

    fn identity() -> (r: Self)
        ensures
            r == Self::identity_spec(),
    ;

    fn add(&self, b: &Self) -> (r: Self)
        ensures
            r == Self::add_spec(*self, *b),
    ;

    fn sub(&self, b: &Self) -> (r: Self)
        ensures
            r == Self::sub_spec(*self, *b),
    ;

    fn is_valid(&self) -> (r: bool)
        ensures
            r == self.is_valid_spec(),
    ;

    /// Whether two points are the same point, which holds exactly when their
    /// encodings agree.
    fn equals(&self, b: &Self) -> (r: bool)
        ensures
            r == (self.bytes_spec() == b.bytes_spec()),
    ;

    fn to_bytes(&self) -> (r: [u8; 48])
        ensures
            r@ == self.bytes_spec(),
    ;
}

/// Multi-scalar multiplication in the first group.
pub trait G1LinComb<F: Fr>: G1 {
    /// The sum of `points[i] * scalars[i]` over the common range.
    spec fn lincomb_spec(points: Seq<Self>, scalars: Seq<int>) -> Self;

    /// The sum of `points[i] * scalars[i]` for `i < len`.
    fn g1_lincomb(points: &[Self], scalars: &[F], len: usize) -> (r: Self)
        requires
            len <= points@.len(),
            len <= scalars@.len(),
        ensures
            r == Self::lincomb_spec(points@.take(len as int), vals(scalars@).take(len as int)),
    ;
}

/// A point of the second pairing group.
pub trait G2: Sized + Copy {
    /// The generator of the group.
    spec fn generator_spec() -> Self;

    fn generator() -> (r: Self)
        ensures
            r == Self::generator_spec(),
    ;
}

/// The pairing check.
pub trait PairingVerify<TG2: G2>: G1 {
    /// Whether `e(a, b) == e(c, d)`.
    spec fn verify_spec(a: Self, b: TG2, c: Self, d: TG2) -> bool;

    fn verify(a: &Self, b: &TG2, c: &Self, d: &TG2) -> (r: bool)
        ensures
            r == Self::verify_spec(*a, *b, *c, *d),
    ;
}

/// Fourier transforms over a table of roots of unity.
pub trait FFTSettings<F: Fr, TG1: G1>: Sized {
    /// The size of the largest domain.
    spec fn max_width_spec(&self) -> nat;

    /// The value of the expanded root of unity at index `i`: `ω^i` for a primitive
    /// `max_width`-th root `ω`, for `i` up to and including `max_width`.
    spec fn root_spec(&self, i: nat) -> int;

    /// The values that the transform of values `data` gives.
    spec fn fft_fr_spec(&self, data: Seq<int>, inverse: bool) -> Seq<int>;

    /// The points that the transform of points `data` gives.
    spec fn fft_g1_spec(&self, data: Seq<TG1>, inverse: bool) -> Seq<TG1>;

    /// The expanded roots are the powers of a primitive root of unity of order
    /// `max_width`: the first is one, each is the first root to its index, no other
    /// below `max_width` is one, and a root times its reflection is one. The coset
    /// generator 7 is not among them.
    proof fn lemma_roots(&self)
        ensures
            self.root_spec(0) == 1int % F::modulus(),
            forall|i: nat|
                i <= self.max_width_spec() ==> #[trigger] self.root_spec(i) == pow_mod(self.root_spec(1), i, F::modulus()),
            forall|i: nat| 0 < i < self.max_width_spec() ==> #[trigger] self.root_spec(i) != 1int % F::modulus(),
            pow_mod(7, self.max_width_spec(), F::modulus()) != 1int % F::modulus(),
            forall|i: nat|
                i <= self.max_width_spec() ==> (#[trigger] self.root_spec(i) * self.root_spec(
                    (self.max_width_spec() - i) as nat,
                )) % F::modulus() == 1int % F::modulus(),
    ;

    /// The inverse transform undoes the forward one, up to reduction modulo the
    /// field order, for every power-of-two length up to `max_width`.
    proof fn lemma_fft_fr_round_trip(&self, data: Seq<int>)
        requires
            is_pow2(data.len()),
            data.len() <= self.max_width_spec(),
            is_pow2(self.max_width_spec()),
        ensures
            self.fft_fr_spec(data, false).len() == data.len(),
            self.fft_fr_spec(self.fft_fr_spec(data, false), true).len() == data.len(),
            forall|i: int|
                0 <= i < data.len() ==> #[trigger] self.fft_fr_spec(self.fft_fr_spec(data, false), true)[i] == data[i]
                    % F::modulus(),
    ;

    /// The inverse transform over the first group undoes the forward one, point by
    /// point up to encoding, for every power-of-two length up to `max_width`.
    proof fn lemma_fft_g1_round_trip(&self, data: Seq<TG1>)
        requires
            is_pow2(data.len()),
            data.len() <= self.max_width_spec(),
            is_pow2(self.max_width_spec()),
        ensures
            self.fft_g1_spec(data, false).len() == data.len(),
            self.fft_g1_spec(self.fft_g1_spec(data, false), true).len() == data.len(),
            forall|i: int|
                0 <= i < data.len() ==> (#[trigger] self.fft_g1_spec(self.fft_g1_spec(data, false), true)[i]).bytes_spec()
                    == data[i].bytes_spec(),
    ;

    fn get_max_width(&self) -> (r: usize)
        ensures
            r == self.max_width_spec(),
    ;

    fn get_roots_of_unity_at(&self, i: usize) -> (r: F)
        requires
            i <= self.max_width_spec(),
        ensures
            !r.is_null_spec(),
            r.val() == self.root_spec(i as nat),
    ;

    /// The forward transform (`inverse == false`) or the inverse one, which also
    /// divides by the length.
    fn fft_fr(&self, data: &[F], inverse: bool) -> (r: Result<Vec<F>, DasError>)
        ensures
            is_pow2(data@.len()) && data@.len() <= self.max_width_spec() && is_pow2(self.max_width_spec()) ==> r is Ok,
            r matches Ok(v) ==> vals(v@) == self.fft_fr_spec(vals(data@), inverse),
            r matches Ok(v) ==> v@.len() == data@.len() && (forall|i: int|
                0 <= i < v@.len() ==> !(#[trigger] v@[i]).is_null_spec()) && data@.len() > 0
                && self.max_width_spec() % data@.len() == 0 && if inverse {
                forall|k: int|
                    0 <= k < v@.len() ==> (data@.len() * (#[trigger] v@[k]).val()) % F::modulus()
                        == dft(
                        vals(data@),
                        self.root_spec((self.max_width_spec() - self.max_width_spec() / data@.len()) as nat),
                        F::modulus(),
                    )[k]
            } else {
                vals(v@) == dft(
                    vals(data@),
                    self.root_spec(self.max_width_spec() / data@.len()),
                    F::modulus(),
                )
            },
    ;

    /// The transform over the first group.
    fn fft_g1(&self, data: &[TG1], inverse: bool) -> (r: Result<Vec<TG1>, DasError>)
        ensures
            is_pow2(data@.len()) && data@.len() <= self.max_width_spec() && is_pow2(self.max_width_spec()) ==> r is Ok,
            r matches Ok(v) ==> v@.len() == data@.len() && v@ == self.fft_g1_spec(data@, inverse),
    ;
}

/// The trusted setup.
pub trait KZGSettings<F: Fr, TG1: G1, TG2: G2, Fs: FFTSettings<F, TG1>>: Sized {
    spec fn fft_settings_spec(&self) -> Fs;

    spec fn g1_monomial_spec(&self) -> Seq<TG1>;

    spec fn g2_monomial_spec(&self) -> Seq<TG2>;

    /// Row `i` of the FFTs of the reversed monomial setup vectors.
    spec fn x_ext_fft_column_spec(&self, i: nat) -> Seq<TG1>;

    fn get_fft_settings(&self) -> (r: &Fs)
        ensures
            *r == self.fft_settings_spec(),
    ;

    fn get_g1_monomial(&self) -> (r: &[TG1])
        ensures
            r@ == self.g1_monomial_spec(),
    ;

    fn get_g2_monomial(&self) -> (r: &[TG2])
        ensures
            r@ == self.g2_monomial_spec(),
    ;

    fn get_x_ext_fft_column(&self, i: usize) -> (r: &[TG1])
        ensures
            r@ == self.x_ext_fft_column_spec(i as nat),
    ;
}

/// The capability set of a pairing backend.
pub trait EcBackend {
    type Fr: Fr;

    type G1: G1 + G1LinComb<Self::Fr> + PairingVerify<Self::G2>;

    type G2: G2;

    type FFTSettings: FFTSettings<Self::Fr, Self::G1>;

    type KZGSettings: KZGSettings<Self::Fr, Self::G1, Self::G2, Self::FFTSettings>;
}

/// The sizes of a blob and of its extension.
pub trait Preset {
    const FIELD_ELEMENTS_PER_BLOB: usize;

    const FIELD_ELEMENTS_PER_EXT_BLOB: usize;

    const CELLS_PER_EXT_BLOB: usize;
}

/// The sizes of a preset agree with each other and with cells of `cell_size`
/// elements.
pub open spec fn preset_ok<P: Preset>(cell_size: nat) -> bool {
    &&& cell_size >= 1
    &&& P::CELLS_PER_EXT_BLOB >= 2
    &&& is_pow2(P::CELLS_PER_EXT_BLOB as nat)
    &&& is_pow2(P::FIELD_ELEMENTS_PER_EXT_BLOB as nat)
    &&& P::CELLS_PER_EXT_BLOB * cell_size == P::FIELD_ELEMENTS_PER_EXT_BLOB
    &&& 2 * P::FIELD_ELEMENTS_PER_BLOB == P::FIELD_ELEMENTS_PER_EXT_BLOB
}

} // verus!
