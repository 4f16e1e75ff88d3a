//! Yes/no classifications of a single unsigned integer.
//!
//! Every predicate is total and exact: where an intermediate value could leave the `u32` range
//! (a trial divisor squared, `5n^2 + 4`), it is computed at a wider width.
use crate::math::{
    cb, fact, lemma_divides_trans, lemma_fact_factor, lemma_fact_mono, lemma_fact_pos, sq, WORD,
};
use vstd::arithmetic::div_mod::{lemma_div_decreases, lemma_fundamental_div_mod, lemma_small_mod};
use vstd::prelude::*;

verus! {

/// `n` has a divisor other than 1 and itself.
pub open spec fn has_proper_divisor(n: int) -> bool {
    exists|d: int| 1 < d < n && #[trigger] (n % d) == 0
}

/// `n` is a prime number.
pub open spec fn is_prime(n: int) -> bool {
    n >= 2 && !has_proper_divisor(n)
}

/// `n` is a composite number.
pub open spec fn is_composite(n: int) -> bool {
    n > 3 && has_proper_divisor(n)
}

/// `n` is the square of a natural number.
pub open spec fn is_perfect_square(n: int) -> bool {
    exists|k: nat| #[trigger] sq(k) == n
}

/// `n` is the cube of a natural number.
pub open spec fn is_perfect_cube(n: int) -> bool {
    exists|k: nat| #[trigger] cb(k) == n
}

/// `n` is `k!` for some `k`.
pub open spec fn is_factorial_number(n: int) -> bool {
    n >= 1 && exists|k: nat| #[trigger] fact(k) == n
}

/// The test that decides Fibonacci membership: `5n^2 + 4` or `5n^2 - 4` is a perfect square.
pub open spec fn passes_fibonacci_test(n: int) -> bool {
    is_perfect_square(5 * n * n + 4) || is_perfect_square(5 * n * n - 4)
}

/// Whether `n` is the answer to the ultimate question.
pub fn answer(n: u32) -> (r: bool)
    ensures
        r == (n == 42),
{
    n == 42
}

/// Whether `n` is even.
pub fn even(n: u32) -> (r: bool)
    ensures
        r == (n % 2 == 0),
{
    n % 2 == 0
}

/// Whether `n` is odd.
pub fn odd(n: u32) -> (r: bool)
    ensures
        r == (n % 2 == 1),
{
    n % 2 != 0
}

/// A number with no divisor in `(1, i)` and `i * i > n` has no proper divisor.
proof fn lemma_no_small_divisor(n: int, i: int)
    requires
        n > 1,
        i >= 2,
        i * i > n,
        forall|d: int| 1 < d < i ==> #[trigger] (n % d) != 0,
    ensures
        !has_proper_divisor(n),
{
    if has_proper_divisor(n) {
        let d = choose|d: int| 1 < d < n && #[trigger] (n % d) == 0;
        let q = n / d;
        lemma_fundamental_div_mod(n, d);
        assert(n == d * q);
        assert(1 < q < n) by (nonlinear_arith)
            requires
                n == d * q,
                1 < d < n,
        ;
        assert(n % q == 0) by {
            vstd::arithmetic::div_mod::lemma_mod_multiples_basic(d, q);
            assert(d * q == q * d) by (nonlinear_arith);
        }
        assert(n % d == 0);
        assert(d >= i);
        assert(q >= i);
        assert(false) by (nonlinear_arith)
            requires
                n == d * q,
                d >= i,
                q >= i,
                i >= 2,
                i * i > n,
        ;
    }
}

/// Trial division over the candidates `6k - 1` and `6k + 1`, for `n` not divisible by 2 or 3.
fn wheel_finds_divisor(n: u32) -> (r: bool)
    requires
        n > 3,
        n % 2 != 0,
        n % 3 != 0,
    ensures
        r == has_proper_divisor(n as int),
{
    let n64: u64 = n as u64;
    let mut i: u64 = 5;
    while i * i <= n64
        invariant
            5 <= i <= 65542,
            i * i <= 65542 * 65542,
            i % 6 == 5,
            n64 == n,
            n > 3,
            n % 2 != 0,
            n % 3 != 0,
            forall|d: int| 1 < d < i ==> #[trigger] ((n as int) % d) != 0,
        decreases n64 + 6 - i,
    {
        assert(i + 2 < n) by (nonlinear_arith)
            requires
                i * i <= n,
                i >= 5,
        ;
        if n64 % i == 0 || n64 % (i + 2) == 0 {
            assert((n as int) % (i as int) == 0 || (n as int) % ((i + 2) as int) == 0);
            return true;
        }
        assert forall|d: int| 1 < d < i + 6 implies #[trigger] ((n as int) % d) != 0 by {
            if d >= i && (n as int) % d == 0 {
                if d == i + 1 || d == i + 3 || d == i + 5 {
                    lemma_divides_trans(n as int, d, 2);
                } else if d == i + 4 {
                    lemma_divides_trans(n as int, d, 3);
                }
            }
        }
        assert(i <= 65535) by (nonlinear_arith)
            requires
                i * i <= n,
                n <= 0xffff_ffff,
        ;
        assert((i + 6) * (i + 6) <= 65542 * 65542) by (nonlinear_arith)
            requires
                i <= 65535,
        ;
        i = i + 6;
    }
    proof {
        lemma_no_small_divisor(n as int, i as int);
    }
    false
}

/// Whether `n` is composite: greater than 3 and with a divisor other than 1 and itself.
pub fn composite(n: u32) -> (r: bool)
    ensures
        r == is_composite(n as int),
{
    if n <= 3 {
        return false;
    }
    if n % 2 == 0 || n % 3 == 0 {
        assert((n as int) % 2 == 0 || (n as int) % 3 == 0);
        return true;
    }
    wheel_finds_divisor(n)
}

/// Whether `n` is prime.
pub fn prime(n: u32) -> (r: bool)
    ensures
        r == is_prime(n as int),
{
    if n == 2 || n == 3 {
        return true;
    }
    if n <= 1 || n % 2 == 0 || n % 3 == 0 {
        assert(n <= 1 || (n as int) % 2 == 0 || (n as int) % 3 == 0);
        return false;
    }
    !wheel_finds_divisor(n)
}

/// A number that is `m * (i - 1)!` with `m >= 2` not divisible by `i` is no factorial.
proof fn lemma_not_factorial(n: int, m: int, i: nat)
    requires
        i >= 2,
        m >= 2,
        m % (i as int) != 0,
        m * fact((i - 1) as nat) == n,
    ensures
        forall|k: nat| #[trigger] fact(k) != n,
{
    let f = fact((i - 1) as nat);
    lemma_fact_pos((i - 1) as nat);
    assert forall|k: nat| #[trigger] fact(k) != n by {
        if k < i {
            lemma_fact_mono(k, (i - 1) as nat);
            assert(fact(k) < m * f) by (nonlinear_arith)
                requires
                    fact(k) <= f,
                    f >= 1,
                    m >= 2,
            ;
        } else if fact(k) == n {
            let q = lemma_fact_factor(i, k);
            assert(fact(i) == i * f);
            assert(m * f == (i * q) * f) by (nonlinear_arith)
                requires
                    m * f == fact(k),
                    fact(k) == fact(i) * q,
                    fact(i) == i * f,
            ;
            assert(m == i * q) by (nonlinear_arith)
                requires
                    m * f == (i * q) * f,
                    f >= 1,
            ;
            vstd::arithmetic::div_mod::lemma_mod_multiples_basic(q as int, i as int);
            assert(q * i == i * q) by (nonlinear_arith);
        }
    }
}

/// Whether `n` is `k!` for some `k`: divides by 2, 3, 4, ... while the division is exact and
/// succeeds when the quotient reaches 1.
pub fn factorial(n: u32) -> (r: bool)
    ensures
        r == is_factorial_number(n as int),
{
    if n < 1 {
        return false;
    }
    if n == 1 {
        assert(fact(0) == 1);
        return true;
    }
    let mut i: u64 = 2;
    let mut m: u64 = n as u64;
    assert(fact(1) == 1) by {
        assert(fact(0) == 1);
    }
    assert(fact((i - 1) as nat) == 1);
    loop
        invariant
            2 <= i <= WORD + 1,
            1 <= m <= n,
            m * fact((i - 1) as nat) == n,
        decreases m,
    {
        if m % i == 0 {
            proof {
                if i > m {
                    lemma_small_mod(m as nat, i as nat);
                }
            }
            let ghost f = fact((i - 1) as nat);
            let ghost q = m / i;
            proof {
                lemma_fundamental_div_mod(m as int, i as int);
                lemma_div_decreases(m as int, i as int);
                assert(fact(i as nat) == i * f);
                assert(q * fact(i as nat) == n) by (nonlinear_arith)
                    requires
                        m == i * q,
                        fact(i as nat) == i * f,
                        m * f == n,
                ;
                assert(q >= 1) by (nonlinear_arith)
                    requires
                        m == i * q,
                        m >= 1,
                        q >= 0,
                ;
            }
            m = m / i;
            i = i + 1;
        } else {
            proof {
                if m != 1 {
                    lemma_not_factorial(n as int, m as int, i as nat);
                } else {
                    let f = fact((i - 1) as nat);
                    assert(f == n) by (nonlinear_arith)
                        requires
                            m == 1,
                            m * f == n,
                    ;
                }
            }
            return m == 1;
        }
    }
}

/// The integer square root: the largest `r` with `r * r <= m`.
fn floor_sqrt(m: u128) -> (r: u128)
    requires
        m < 0x40_0000_0000_0000_0000,
    ensures
        r * r <= m < (r + 1) * (r + 1),
{
    let mut lo: u128 = 0;
    let mut hi: u128 = 0x8_0000_0000;
    assert(hi * hi == 0x40_0000_0000_0000_0000);
    while hi - lo > 1
        invariant
            lo < hi <= 0x8_0000_0000,
            lo * lo <= m < hi * hi,
        decreases hi - lo,
    {
        let mid: u128 = lo + (hi - lo) / 2;
        assert(mid * mid <= 0x40_0000_0000_0000_0000) by (nonlinear_arith)
            requires
                mid <= 0x8_0000_0000,
        ;
        if mid * mid <= m {
            lo = mid;
        } else {
            hi = mid;
        }
    }
    lo
}

/// The integer cube root: the largest `r` with `r * r * r <= m`.
fn floor_cbrt(m: u64) -> (r: u64)
    requires
        m < 0x2_0000_0000,
    ensures
        r * r * r <= m < (r + 1) * (r + 1) * (r + 1),
        r < 2048,
{
    let mut lo: u64 = 0;
    let mut hi: u64 = 2048;
    while hi - lo > 1
        invariant
            lo < hi <= 2048,
            lo * lo * lo <= m < hi * hi * hi,
        decreases hi - lo,
    {
        let mid: u64 = lo + (hi - lo) / 2;
        assert(mid * mid <= 2048 * 2048 && mid * mid * mid <= 0x2_0000_0000) by (nonlinear_arith)
            requires
                mid <= 2048,
        ;
        if mid * mid * mid <= m {
            lo = mid;
        } else {
            hi = mid;
        }
    }
    lo
}

/// Whether `m` is a perfect square, for `m` below `2^70`.
fn is_square_wide(m: u128) -> (r: bool)
    requires
        m < 0x40_0000_0000_0000_0000,
    ensures
        r == is_perfect_square(m as int),
{
    let root: u128 = floor_sqrt(m);
    proof {
        let rt = root as nat;
        if is_perfect_square(m as int) {
            let k = choose|k: nat| #[trigger] sq(k) == m as int;
            if k < rt {
                assert(k * k < rt * rt) by (nonlinear_arith)
                    requires
                        k < rt,
                ;
            } else if k > rt {
                assert(k * k >= (rt + 1) * (rt + 1)) by (nonlinear_arith)
                    requires
                        k >= rt + 1,
                ;
            }
            assert(k == rt);
        } else {
            assert(sq(rt) != m);
        }
    }
    root * root == m
}

/// Whether `n` is a perfect square.
pub fn square(n: u32) -> (r: bool)
    ensures
        r == is_perfect_square(n as int),
{
    is_square_wide(n as u128)
}

/// Whether `n` is a perfect cube.
pub fn cube(n: u32) -> (r: bool)
    ensures
        r == is_perfect_cube(n as int),
{
    let root: u64 = floor_cbrt(n as u64);
    assert(root * root <= 2048 * 2048 && root * root * root <= 0x2_0000_0000) by (nonlinear_arith)
        requires
            root < 2048,
    ;
    proof {
        let rt = root as nat;
        if is_perfect_cube(n as int) {
            let k = choose|k: nat| #[trigger] cb(k) == n as int;
            if k < rt {
                assert(k * k * k < rt * rt * rt) by (nonlinear_arith)
                    requires
                        k < rt,
                ;
            } else if k > rt {
                assert(k * k * k >= (rt + 1) * (rt + 1) * (rt + 1)) by (nonlinear_arith)
                    requires
                        k >= rt + 1,
                ;
            }
            assert(k == rt);
        } else {
            assert(cb(rt) != n);
        }
    }
    root * root * root == n as u64
}

/// Whether `n` passes the Fibonacci test: `5n^2 + 4` or `5n^2 - 4` is a perfect square. The
/// test is computed at double width, so it is exact for every `n`.
pub fn fibonacci(n: u32) -> (r: bool)
    ensures
        r == passes_fibonacci_test(n as int),
{
    let w: u128 = n as u128;
    assert(5 * w * w <= 5 * 0xffff_ffff * 0xffff_ffff) by (nonlinear_arith)
        requires
            w <= 0xffff_ffff,
    ;
    let five_sq: u128 = 5 * w * w;
    if is_square_wide(five_sq + 4) {
        return true;
    }
    if five_sq < 4 {
        assert(!is_perfect_square(5 * n * n - 4)) by {
            assert forall|k: nat| #[trigger] sq(k) != 5 * n * n - 4 by {}
        }
        return false;
    }
    is_square_wide(five_sq - 4)
}

/// Every number is exactly one of even and odd.
pub proof fn even_odd_exclusive(n: u32)
    ensures
        (n % 2 == 0) != (n % 2 == 1),
{
}

/// The square of any number is a perfect square.
pub proof fn square_of_number_is_square(k: u32)
    requires
        k * k <= u32::MAX,
    ensures
        is_perfect_square(k * k),
{
    assert(sq(k as nat) == k * k);
}

/// No number is both prime and composite; above 3 every number is one of the two, so only
/// numbers up to 3 are neither.
pub proof fn prime_composite_exclusive(n: u32)
    ensures
        !(is_prime(n as int) && is_composite(n as int)),
        n > 3 ==> is_prime(n as int) != is_composite(n as int),
        !is_prime(n as int) && !is_composite(n as int) ==> n <= 3,
{
}

} // verus!
