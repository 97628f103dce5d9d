use vstd::prelude::*;
use vstd::arithmetic::div_mod::{lemma_breakdown, lemma_div_denominator, lemma_mod_mod, lemma_fundamental_div_mod_converse};
use vstd::arithmetic::power2::{pow2, lemma_pow2_pos, lemma_pow2_unfold};

use crate::DasError;

verus! {

/// `n` is a power of two (one included).
pub open spec fn is_pow2(n: nat) -> bool
    decreases n,
{
    if n == 1 {
        true
    } else if n >= 2 && n % 2 == 0 {
        is_pow2(n / 2)
    } else {
        false
    }
}

/// The base-two logarithm, rounded down.
pub open spec fn log2(n: nat) -> nat
    decreases n,
{
    if n <= 1 {
        0
    } else {
        1 + log2(n / 2)
    }
}

/// A power of two is two to the power of its logarithm.
pub proof fn lemma_pow2_log2(n: nat)
    requires
        is_pow2(n),
    ensures
        pow2(log2(n)) == n,
    decreases n,
{
    if n == 1 {
        vstd::arithmetic::power2::lemma2_to64();
    } else {
        lemma_pow2_log2(n / 2);
        lemma_pow2_unfold(log2(n));
    }
}

/// Where `i` goes in the bit-reversal permutation of an array of length `n`.
pub open spec fn rev_index(n: nat, i: nat) -> nat {
    rev_bits(i, log2(n))
}

/// The bit-reversal of an index stays within the array.
pub proof fn lemma_rev_index_bound(n: nat, i: nat)
    requires
        is_pow2(n),
        i < n,
    ensures
        rev_index(n, i) < n,
{
    lemma_pow2_log2(n);
    lemma_rev_bits_bound(i, log2(n));
}

/// The bit-reversal permutation of `s`.
pub open spec fn bit_reversed<A>(s: Seq<A>) -> Seq<A> {
    Seq::new(s.len(), |i: int| s[rev_index(s.len(), i as nat) as int])
}

/// The bit-reversal of `i` within `k` bits, least significant bit first.
pub open spec fn rev_bits(i: nat, k: nat) -> nat
    decreases k,
{
    if k == 0 {
        0
    } else {
        (i % 2) * pow2((k - 1) as nat) + rev_bits(i / 2, (k - 1) as nat)
    }
}

/// A reversal within `k` bits fits in `k` bits.
pub proof fn lemma_rev_bits_bound(i: nat, k: nat)
    ensures
        rev_bits(i, k) < pow2(k),
    decreases k,
{
    if k == 0 {
        vstd::arithmetic::power2::lemma2_to64();
    } else {
        lemma_rev_bits_bound(i / 2, (k - 1) as nat);
        lemma_pow2_unfold(k);
        assert(rev_bits(i, k) < pow2(k)) by (nonlinear_arith)
            requires
                rev_bits(i, k) == (i % 2) * pow2((k - 1) as nat) + rev_bits(i / 2, (k - 1) as nat),
                rev_bits(i / 2, (k - 1) as nat) < pow2((k - 1) as nat),
                pow2(k) == 2 * pow2((k - 1) as nat),
                i % 2 <= 1,
        ;
    }
}

/// Reading the bits from the most significant end gives the same reversal.
proof fn lemma_rev_bits_msb(i: nat, k: nat)
    requires
        k >= 1,
        i < pow2(k),
    ensures
        rev_bits(i, k) == 2 * rev_bits(i % pow2((k - 1) as nat), (k - 1) as nat) + i / pow2((k - 1) as nat),
    decreases k,
{
    lemma_pow2_unfold(k);
    lemma_pow2_pos((k - 1) as nat);
    let h = pow2((k - 1) as nat);
    if k == 1 {
        vstd::arithmetic::power2::lemma2_to64();
        assert(h == 1);
        assert(i < 2);
        assert(i % 2 == i);
        assert(i % h == 0 && i / h == i) by {
            assert(i * h == i) by (nonlinear_arith)
                requires
                    h == 1,
            ;
            lemma_fundamental_div_mod_converse(i as int, h as int, i as int, 0);
        }
        assert(rev_bits(i, k) == (i % 2) * h + rev_bits(i / 2, 0));
        assert(rev_bits(i % h, 0) == 0);
        assert(rev_bits(i / 2, 0) == 0);
        assert(rev_bits(i, k) == i);
    } else {
        let q = pow2((k - 2) as nat);
        lemma_pow2_unfold((k - 1) as nat);
        lemma_pow2_pos((k - 2) as nat);
        assert(h == 2 * q);
        assert(i / 2 < h) by {
            lemma_fundamental_div_mod_converse(i as int, 2, (i / 2) as int, (i % 2) as int);
        }
        lemma_rev_bits_msb(i / 2, (k - 1) as nat);
        lemma_mod_mod(i as int, 2, q as int);
        lemma_breakdown(i as int, 2, q as int);
        lemma_div_denominator(i as int, 2, q as int);
        let m = i % h;
        assert(m % 2 == i % 2);
        assert(m == 2 * ((i / 2) % q) + i % 2);
        assert(m / 2 == (i / 2) % q) by {
            lemma_fundamental_div_mod_converse(m as int, 2, ((i / 2) % q) as int, (i % 2) as int);
        }
        assert((i / 2) / q == i / h);
        let a = rev_bits((i / 2) % q, (k - 2) as nat);
        assert(rev_bits(m, (k - 1) as nat) == (i % 2) * q + a);
        assert(rev_bits(i / 2, (k - 1) as nat) == 2 * a + i / h);
        assert(rev_bits(i, k) == (i % 2) * h + rev_bits(i / 2, (k - 1) as nat));
        assert((i % 2) * h == 2 * ((i % 2) * q)) by (nonlinear_arith)
            requires
                h == 2 * q,
        ;
        assert(rev_bits(i, k) == 2 * rev_bits(m, (k - 1) as nat) + i / h);
    }
}

/// Reversing the bits twice gives back the index.
pub proof fn lemma_rev_bits_involution(i: nat, k: nat)
    requires
        i < pow2(k),
    ensures
        rev_bits(rev_bits(i, k), k) == i,
    decreases k,
{
    if k == 0 {
        vstd::arithmetic::power2::lemma2_to64();
    } else {
        let h = pow2((k - 1) as nat);
        lemma_pow2_unfold(k);
        lemma_pow2_pos((k - 1) as nat);
        let b = i % 2;
        let q = i / 2;
        assert(q < h) by {
            lemma_fundamental_div_mod_converse(i as int, 2, q as int, b as int);
        }
        let r = rev_bits(q, (k - 1) as nat);
        lemma_rev_bits_bound(q, (k - 1) as nat);
        let j = rev_bits(i, k);
        assert(j == b * h + r);
        lemma_rev_bits_bound(i, k);
        lemma_rev_bits_msb(j, k);
        assert(j % h == r && j / h == b) by {
            lemma_fundamental_div_mod_converse(j as int, h as int, b as int, r as int);
        }
        lemma_rev_bits_involution(q, (k - 1) as nat);
        assert(i == 2 * q + b) by {
            lemma_fundamental_div_mod_converse(i as int, 2, q as int, b as int);
        }
    }
}

/// The bit-reversal of `value` within `log2(n)` bits.
pub fn reverse_bits_limited(n: usize, value: usize) -> (r: usize)
    requires
        is_pow2(n as nat),
        value < n,
    ensures
        r == rev_index(n as nat, value as nat),
        r < n,
{
    let ghost k = log2(n as nat);
    proof {
        lemma_pow2_log2(n as nat);
    }
    let mut r: usize = 0;
    let mut v: usize = value;
    let mut m: usize = 1;
    let ghost mut j: nat = 0;
    proof {
        vstd::arithmetic::power2::lemma2_to64();
    }
    while m < n
        invariant
            pow2(k) == n,
            j <= k,
            m == pow2(j),
            r < m,
            v < n,
            rev_bits(value as nat, k) == r * pow2((k - j) as nat) + rev_bits(v as nat, (k - j) as nat),
        decreases n - m,
    {
        proof {
            if j == k {
                assert(false);
            }
            lemma_pow2_unfold((k - j) as nat);
            lemma_pow2_unfold(j + 1);
            if j + 1 < k {
                vstd::arithmetic::power2::lemma_pow2_strictly_increases(j + 1, k);
            }
            let e = pow2((k - j - 1) as nat);
            assert(r * pow2((k - j) as nat) + (v % 2) * e == (2 * r + v % 2) * e) by (nonlinear_arith)
                requires
                    pow2((k - j) as nat) == 2 * e,
            ;
            assert(rev_bits(v as nat, (k - j) as nat) == (v % 2) as nat * e + rev_bits((v / 2) as nat, (k - j - 1) as nat));
        }
        r = r * 2 + v % 2;
        v = v / 2;
        m = m * 2;
        proof {
            j = j + 1;
        }
    }
    proof {
        if j < k {
            vstd::arithmetic::power2::lemma_pow2_strictly_increases(j, k);
        }
        assert(j == k);
        assert(r * pow2(0) == r);
        lemma_rev_bits_bound(value as nat, k);
    }
    r
}

proof fn lemma_is_pow2_pow2(j: nat)
    ensures
        is_pow2(pow2(j)),
    decreases j,
{
    vstd::arithmetic::power2::lemma2_to64();
    if j > 0 {
        lemma_pow2_unfold(j);
        lemma_pow2_pos((j - 1) as nat);
        lemma_is_pow2_pow2((j - 1) as nat);
        assert(pow2(j) / 2 == pow2((j - 1) as nat));
    }
}

/// A number strictly between two consecutive powers of two is none.
proof fn lemma_not_pow2_between(n: nat, j: nat)
    requires
        pow2(j) < n < 2 * pow2(j),
    ensures
        !is_pow2(n),
{
    if is_pow2(n) {
        lemma_pow2_log2(n);
        let l = log2(n);
        lemma_pow2_unfold(j + 1);
        if l <= j {
            if l < j {
                vstd::arithmetic::power2::lemma_pow2_strictly_increases(l, j);
            }
        } else if l > j + 1 {
            vstd::arithmetic::power2::lemma_pow2_strictly_increases(j + 1, l);
        }
    }
}

/// Whether `n` is a power of two.
pub fn is_power_of_two(n: usize) -> (r: bool)
    ensures
        r == is_pow2(n as nat),
{
    if n == 0 {
        return false;
    }
    let mut m: usize = 1;
    let ghost mut j: nat = 0;
    proof {
        vstd::arithmetic::power2::lemma2_to64();
    }
    while m < n
        invariant
            0 < n,
            m == pow2(j),
            forall|t: nat| t < j ==> pow2(t) < n,
            m / 2 < n,
            m >= 1,
        decreases n - m / 2,
    {
        if m > usize::MAX / 2 {
            proof {
                lemma_pow2_unfold(j + 1);
                lemma_not_pow2_between(n as nat, j);
            }
            return false;
        }
        let ghost m0 = m;
        m = m * 2;
        assert(m / 2 == m0 && m0 / 2 < m0);
        proof {
            lemma_pow2_unfold(j + 1);
            j = j + 1;
        }
    }
    proof {
        lemma_is_pow2_pow2(j);
        if m != n && j > 0 {
            lemma_pow2_unfold(j);
            lemma_not_pow2_between(n as nat, (j - 1) as nat);
        }
    }
    m == n
}

/// Permutes `buf` in place so that the element at index `i` moves to the
/// bit-reversal of `i`.
pub fn reverse_bit_order<T: Copy>(buf: &mut Vec<T>) -> (r: Result<(), DasError>)
    ensures
        r is Ok <==> is_pow2(old(buf)@.len()),
        r is Err ==> r == Err::<(), DasError>(DasError::InvalidLength) && final(buf)@ == old(buf)@,
        r is Ok ==> final(buf)@ == bit_reversed(old(buf)@),
{
    let n = buf.len();
    if !is_power_of_two(n) {
        return Err(DasError::InvalidLength);
    }
    let ghost k = log2(n as nat);
    let ghost orig = buf@;
    proof {
        lemma_pow2_log2(n as nat);
        assert forall|x: nat| x < n implies #[trigger] rev_bits(x, k) < n && rev_bits(rev_bits(x, k), k) == x by {
            lemma_rev_bits_bound(x, k);
            lemma_rev_bits_involution(x, k);
        }
    }
    let mut i: usize = 0;
    while i < n
        invariant
            n == buf@.len(),
            n == orig.len(),
            k == log2(n as nat),
            i <= n,
            is_pow2(n as nat),
            forall|x: nat| x < n ==> #[trigger] rev_bits(x, k) < n && rev_bits(rev_bits(x, k), k) == x,
            forall|x: int|
                0 <= x < n ==> #[trigger] buf@[x] == if x < i || rev_bits(x as nat, k) < i {
                    orig[rev_bits(x as nat, k) as int]
                } else {
                    orig[x]
                },
        decreases n - i,
    {
        let j = reverse_bits_limited(n, i);
        if i < j {
            let a = buf[i];
            let b = buf[j];
            buf.set(i, b);
            buf.set(j, a);
        }
        i = i + 1;
    }
    assert(buf@ =~= bit_reversed(orig));
    Ok(())
}

/// Mapping each entry and permuting commute.
pub proof fn lemma_bit_reversed_map<A, B>(s: Seq<A>, f: spec_fn(A) -> B)
    requires
        is_pow2(s.len()),
    ensures
        bit_reversed(s).map_values(f) == bit_reversed(s.map_values(f)),
{
    assert forall|i: int| 0 <= i < s.len() implies #[trigger] bit_reversed(s).map_values(f)[i] == bit_reversed(
        s.map_values(f),
    )[i] by {
        lemma_rev_index_bound(s.len(), i as nat);
    }
    assert(bit_reversed(s).map_values(f) =~= bit_reversed(s.map_values(f)));
}

/// Permuting a power-of-two sequence by bit-reversal twice gives it back.
pub proof fn lemma_bit_reversed_involution<A>(s: Seq<A>)
    requires
        is_pow2(s.len()),
    ensures
        bit_reversed(bit_reversed(s)) == s,
{
    let n = s.len();
    let k = log2(n);
    lemma_pow2_log2(n);
    assert forall|i: int| 0 <= i < n implies #[trigger] bit_reversed(bit_reversed(s))[i] == s[i] by {
        lemma_rev_bits_bound(i as nat, k);
        lemma_rev_bits_involution(i as nat, k);
    }
    assert(bit_reversed(bit_reversed(s)) =~= s);
}

} // verus!
