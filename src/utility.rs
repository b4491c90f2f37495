//! Integer helpers for the travelling-salesman adapter: a primality test, the
//! largest prime below a bound, and an order-independent fingerprint of a set of
//! cities.

use vstd::arithmetic::div_mod::{lemma_fundamental_div_mod, lemma_mod_multiples_basic, lemma_mul_mod_noop_left};
use vstd::prelude::*;

verus! {

/// The modulus of the city-set fingerprint: the largest prime not above
/// `u32::MAX / 1000`, so that a fingerprint times a city number up to a thousand
/// stays below `2^32`.
pub const HASH_MODULUS: u32 = 4294967;

/// `n` is a prime number.
pub open spec fn spec_is_prime(n: int) -> bool {
    n >= 2 && forall|d: int| 2 <= d < n ==> #[trigger] (n % d) != 0
}

/// A divisor of a divisor of `n` divides `n`.
proof fn lemma_divides_through(n: int, d: int, f: int)
    requires
        f > 0,
        d > 0,
        d % f == 0,
        n % d == 0,
    ensures
        n % f == 0,
{
    let q = n / d;
    let k = d / f;
    lemma_fundamental_div_mod(n, d);
    lemma_fundamental_div_mod(d, f);
    assert(n == d * q);
    assert(d == f * k);
    assert(n == (k * q) * f) by (nonlinear_arith)
        requires
            n == d * q,
            d == f * k,
    ;
    lemma_mod_multiples_basic(k * q, f);
}

/// A number without divisors in `[2, i)` with `i * i > n` has none in `[2, n)`.
proof fn lemma_no_large_divisor(n: int, i: int)
    requires
        2 <= i,
        n < i * i,
        forall|d: int| 2 <= d < i ==> #[trigger] (n % d) != 0,
    ensures
        forall|d: int| 2 <= d < n ==> #[trigger] (n % d) != 0,
{
    assert forall|d: int| 2 <= d < n implies #[trigger] (n % d) != 0 by {
        if d >= i && n % d == 0 {
            let e = n / d;
            lemma_fundamental_div_mod(n, d);
            assert(n == d * e);
            assert(e >= 2) by (nonlinear_arith)
                requires
                    n == d * e,
                    d < n,
                    d >= 2,
            ;
            assert(e < i) by (nonlinear_arith)
                requires
                    n == d * e,
                    d >= i,
                    n < i * i,
                    e >= 2,
                    i >= 2,
            ;
            assert(n == e * d) by (nonlinear_arith)
                requires
                    n == d * e,
            ;
            lemma_mod_multiples_basic(d, e);
            assert(n % e == 0);
        }
    }
}

/// Whether `n` is a prime number, by trial division with candidates of the form
/// `6k - 1` and `6k + 1`.
pub fn is_prime(n: u32) -> (r: bool)
    ensures
        r == spec_is_prime(n as int),
{
    if n <= 1 {
        return false;
    }
    if n <= 3 {
        return true;
    }
    if n % 2 == 0 || n % 3 == 0 {
        return false;
    }
    proof {
        if (n as int) % 4 == 0 {
            lemma_divides_through(n as int, 4, 2);
        }
    }
    let mut i: u64 = 5;
    while i * i <= n as u64
        invariant
            5 <= i <= 65542,
            i * i <= 4295753764,
            i % 6 == 5,
            n >= 5,
            n % 2 != 0,
            n % 3 != 0,
            forall|d: int| 2 <= d < i ==> #[trigger] ((n as int) % d) != 0,
        decreases 65542 - i,
    {
        assert(i < 65536) by (nonlinear_arith)
            requires
                i * i <= n as u64,
                n <= 0xffff_ffffu32,
        ;
        assert(i + 2 < n) by (nonlinear_arith)
            requires
                i * i <= n as u64,
                i >= 5,
        ;
        if n as u64 % i == 0 || (n as u64) % (i + 2) == 0 {
            return false;
        }
        assert forall|d: int| 2 <= d < i + 6 implies #[trigger] ((n as int) % d) != 0 by {
            if d == i + 1 || d == i + 3 || d == i + 5 {
                if (n as int) % d == 0 {
                    lemma_divides_through(n as int, d, 2);
                }
            } else if d == i + 4 {
                if (n as int) % d == 0 {
                    lemma_divides_through(n as int, d, 3);
                }
            }
        }
        i += 6;
        assert(i * i <= 4295753764) by (nonlinear_arith)
            requires
                i <= 65542,
        ;
    }
    proof {
        lemma_no_large_divisor(n as int, i as int);
    }
    true
}

/// The largest prime that is not above `n`.
pub fn calc_next_prime_not_above(n: u32) -> (r: u32)
    requires
        n >= 3,
    ensures
        r <= n,
        spec_is_prime(r as int),
        forall|m: int| r < m <= n ==> !spec_is_prime(m),
{
    let mut candidate: u32 = n;
    if candidate % 2 == 0 {
        candidate -= 1;
        assert(!spec_is_prime(n as int)) by {
            assert((n as int) % 2 == 0);
        }
    }
    while !is_prime(candidate)
        invariant
            3 <= candidate <= n,
            candidate % 2 == 1,
            forall|m: int| candidate < m <= n ==> !spec_is_prime(m),
        decreases candidate,
    {
        assert(candidate != 3);
        assert(!spec_is_prime((candidate - 1) as int)) by {
            assert(((candidate - 1) as int) % 2 == 0);
        }
        assert forall|m: int| candidate - 2 < m <= n implies !spec_is_prime(m) by {
            if m == candidate - 1 {
                assert(m % 2 == 0);
            }
        }
        candidate -= 2;
    }
    candidate
}

/// One step of the city-set fingerprint: `seed` (with zero read as one) times
/// `node + 1`, wrapped to 32 bits, reduced modulo `HASH_MODULUS`.
pub open spec fn spec_hash_step(seed: u32, node: int) -> u32 {
    let s: int = if seed == 0 {
        1
    } else {
        seed as int
    };
    let factor: int = (node + 1) % 0x1_0000_0000;
    (((s * factor) % 0x1_0000_0000) % (HASH_MODULUS as int)) as u32
}

/// Folds one more city into a fingerprint of a set of cities. As long as every
/// product stays below `2^32` the result does not depend on the order in which
/// cities are folded in.
pub fn calc_commutative_hash(seed: u32, node: usize) -> (r: u32)
    requires
        node < usize::MAX,
    ensures
        r == spec_hash_step(seed, node as int),
        r < HASH_MODULUS,
{
    let mut s: u32 = seed;
    if s == 0 {
        s = 1;
    }
    let factor: u32 = ((node as u64 + 1) % 0x1_0000_0000) as u32;
    assert((s as int) * (factor as int) <= 0xffff_ffff * 0xffff_ffff) by (nonlinear_arith)
        requires
            s <= 0xffff_ffffu32,
            factor <= 0xffff_ffffu32,
    ;
    // The product is taken modulo 2^32, as a wrapping 32-bit multiplication would.
    let product: u64 = (s as u64) * (factor as u64) % 0x1_0000_0000;
    (product % (HASH_MODULUS as u64)) as u32
}

/// Folding two cities into a fingerprint gives the same result in either order,
/// for cities below a thousand and a fingerprint below the modulus, as long as
/// neither single step gives zero (which the fold would read as one).
pub proof fn lemma_hash_commutes(seed: u32, a: int, b: int)
    requires
        seed < HASH_MODULUS,
        0 <= a < 1000,
        0 <= b < 1000,
        spec_hash_step(seed, a) != 0,
        spec_hash_step(seed, b) != 0,
    ensures
        spec_hash_step(spec_hash_step(seed, a), b) == spec_hash_step(spec_hash_step(seed, b), a),
{
    let s: int = if seed == 0 {
        1
    } else {
        seed as int
    };
    let m = HASH_MODULUS as int;
    assert(s * (a + 1) < 0x1_0000_0000) by (nonlinear_arith)
        requires
            1 <= s < 4294967,
            0 <= a < 1000,
    ;
    assert(s * (b + 1) < 0x1_0000_0000) by (nonlinear_arith)
        requires
            1 <= s < 4294967,
            0 <= b < 1000,
    ;
    let ha = (s * (a + 1)) % m;
    let hb = (s * (b + 1)) % m;
    assert(spec_hash_step(seed, a) as int == ha);
    assert(spec_hash_step(seed, b) as int == hb);
    assert(ha * (b + 1) < 0x1_0000_0000) by (nonlinear_arith)
        requires
            0 <= ha < 4294967,
            0 <= b < 1000,
    ;
    assert(hb * (a + 1) < 0x1_0000_0000) by (nonlinear_arith)
        requires
            0 <= hb < 4294967,
            0 <= a < 1000,
    ;
    lemma_mul_mod_noop_left(s * (a + 1), b + 1, m);
    lemma_mul_mod_noop_left(s * (b + 1), a + 1, m);
    assert(s * (a + 1) * (b + 1) == s * (b + 1) * (a + 1)) by (nonlinear_arith);
}

} // verus!
