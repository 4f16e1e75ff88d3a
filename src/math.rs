//! Mathematical definitions shared by the predicates and the sequences.
use vstd::arithmetic::div_mod::{
    lemma_add_mod_noop, lemma_fundamental_div_mod, lemma_mod_mod, lemma_mul_mod_noop_left,
};
use vstd::prelude::*;

verus! {

/// The number of distinct `u32` values.
pub const WORD: u64 = 0x1_0000_0000;

/// Reduces an integer to a `u32` the way wrapping arithmetic does.
pub open spec fn wrap32(x: int) -> u32 {
    (x % (WORD as int)) as u32
}

/// The square of `k`.
pub open spec fn sq(k: nat) -> nat {
    k * k
}

/// The cube of `k`.
pub open spec fn cb(k: nat) -> nat {
    k * k * k
}

/// `n!`
pub open spec fn fact(n: nat) -> nat
    decreases n,
{
    if n == 0 {
        1
    } else {
        n * fact((n - 1) as nat)
    }
}

/// The `n`th Fibonacci number, starting 0, 1, 1, 2, ...
pub open spec fn fib(n: nat) -> nat
    decreases n,
{
    if n == 0 {
        0
    } else if n == 1 {
        1
    } else {
        fib((n - 1) as nat) + fib((n - 2) as nat)
    }
}

/// `2^n`
pub open spec fn power_of_two(n: nat) -> nat
    decreases n,
{
    if n == 0 {
        1
    } else {
        2 * power_of_two((n - 1) as nat)
    }
}

/// Reducing before an addition does not change the reduced sum.
pub proof fn lemma_wrap_add(x: int, y: int)
    ensures
        wrap32(wrap32(x) + y) == wrap32(x + y),
        wrap32(wrap32(x) + wrap32(y)) == wrap32(x + y),
{
    let m = WORD as int;
    lemma_add_mod_noop(x, y, m);
    lemma_add_mod_noop(x % m, y, m);
    lemma_add_mod_noop(x % m, y % m, m);
    assert((x % m) % m == x % m) by {
        lemma_mod_mod(x, m, 1);
    }
    assert((y % m) % m == y % m) by {
        lemma_mod_mod(y, m, 1);
    }
}

/// Reducing before a multiplication does not change the reduced product.
pub proof fn lemma_wrap_mul(x: int, y: int)
    ensures
        wrap32(wrap32(x) * y) == wrap32(x * y),
{
    lemma_mul_mod_noop_left(x, y, WORD as int);
}

/// Every factorial is positive.
pub proof fn lemma_fact_pos(n: nat)
    ensures
        fact(n) >= 1,
    decreases n,
{
    if n > 0 {
        lemma_fact_pos((n - 1) as nat);
        assert(n * fact((n - 1) as nat) >= 1) by (nonlinear_arith)
            requires
                n >= 1,
                fact((n - 1) as nat) >= 1,
        ;
    }
}

/// Factorials do not decrease.
pub proof fn lemma_fact_mono(j: nat, k: nat)
    requires
        j <= k,
    ensures
        fact(j) <= fact(k),
    decreases k - j,
{
    if j < k {
        lemma_fact_mono(j, (k - 1) as nat);
        lemma_fact_pos((k - 1) as nat);
        assert(fact((k - 1) as nat) <= k * fact((k - 1) as nat)) by (nonlinear_arith)
            requires
                k >= 1,
                fact((k - 1) as nat) >= 1,
        ;
    }
}

/// `i!` divides `k!` when `i <= k`; the cofactor is returned.
pub proof fn lemma_fact_factor(i: nat, k: nat) -> (q: nat)
    requires
        i <= k,
    ensures
        fact(k) == fact(i) * q,
    decreases k - i,
{
    if i == k {
        1
    } else {
        let q0 = lemma_fact_factor(i, (k - 1) as nat);
        assert(k * (fact(i) * q0) == fact(i) * (k * q0)) by (nonlinear_arith);
        k * q0
    }
}

/// Divisibility is transitive.
pub proof fn lemma_divides_trans(n: int, d: int, k: int)
    requires
        0 < k,
        0 < d,
        n % d == 0,
        d % k == 0,
    ensures
        n % k == 0,
{
    let p = d / k;
    lemma_fundamental_div_mod(d, k);
    assert(d == k * p);
    assert(p > 0) by (nonlinear_arith)
        requires
            d == k * p,
            d > 0,
            k > 0,
    ;
    lemma_mod_mod(n, k, p);
}

} // verus!
