//! Integer sequences: single terms by index, and runs of consecutive terms.
//!
//! Every term is the true term reduced modulo `2^32`, which is what wrapping `u32` arithmetic
//! gives for all sequences but the triangular numbers. Wrapping `nth * (nth + 1)` before the
//! halving would lose the high bit of the product (65536 would give 32768), so the triangular
//! product is formed at double width and the result is `nth (nth + 1) / 2` modulo `2^32`
//! (2147516416 at 65536).
//!
//! A run is produced either term by term from the index (the direct strategy) or from the terms
//! already produced (the recurrence strategy); either way it holds exactly the requested terms.
//!
//! A run's indices are `u32` values: `nth + length` may not exceed `u32::MAX`. A recurrence that
//! needs more seed terms than the requested length holds only the seeds that were asked for, so
//! a run is never longer than requested.
use crate::math::{
    cb, fact, fib, lemma_wrap_add, lemma_wrap_mul, power_of_two, sq, wrap32, WORD,
};
use vstd::arithmetic::div_mod::{lemma_hoist_over_denominator, lemma_small_mod};
use vstd::prelude::*;

verus! {

/// The terms of `term` at indices `start, start + 1, ..., start + length - 1`.
pub open spec fn run_of(term: spec_fn(nat) -> u32, start: nat, length: nat) -> Seq<u32> {
    Seq::new(length, |i: int| term((start + i) as nat))
}

/// The `n`th cube.
pub open spec fn cube_term(n: nat) -> u32 {
    wrap32(cb(n) as int)
}

/// The `n`th even number.
pub open spec fn even_term(n: nat) -> u32 {
    wrap32((2 * n) as int)
}

/// `n!`
pub open spec fn factorial_term(n: nat) -> u32 {
    wrap32(fact(n) as int)
}

/// The `n`th Fibonacci number.
pub open spec fn fibonacci_term(n: nat) -> u32 {
    wrap32(fib(n) as int)
}

/// The `n`th natural number, counting from 0.
pub open spec fn natural_term(n: nat) -> u32 {
    wrap32(n as int)
}

/// The `n`th odd number.
pub open spec fn odd_term(n: nat) -> u32 {
    wrap32((2 * n + 1) as int)
}

/// `2^n`
pub open spec fn powers2_term(n: nat) -> u32 {
    wrap32(power_of_two(n) as int)
}

/// The `n`th square.
pub open spec fn square_term(n: nat) -> u32 {
    wrap32(sq(n) as int)
}

/// The `n`th star number, `6n(n - 1) + 1`, with 0 at index 0.
pub open spec fn star_term(n: nat) -> u32 {
    if n == 0 {
        0
    } else {
        wrap32(6 * n * (n - 1) + 1)
    }
}

/// The `n`th triangular number, `n(n + 1) / 2`.
pub open spec fn triangular_term(n: nat) -> u32 {
    wrap32((n * (n + 1) / 2) as int)
}

/// Direct strategy: the term at each index of the run is computed from the index alone. Item
/// `i` is what `fn_member` returns at `start + i`.
fn iterate_member<F: Fn(u32) -> u32>(fn_member: F, start: u32, length: u32) -> (items: Vec<u32>)
    requires
        start + length <= u32::MAX,
        forall|x: u32| start <= x < start + length ==> #[trigger] fn_member.requires((x,)),
    ensures
        items.len() == length,
        forall|i: int|
            0 <= i < length ==> fn_member.ensures(((start + i) as u32,), #[trigger] items@[i]),
{
    let mut items: Vec<u32> = Vec::new();
    let mut k: u32 = 0;
    while k < length
        invariant
            k <= length,
            start + length <= u32::MAX,
            forall|x: u32| start <= x < start + length ==> #[trigger] fn_member.requires((x,)),
            items.len() == k,
            forall|i: int|
                0 <= i < k ==> fn_member.ensures(((start + i) as u32,), #[trigger] items@[i]),
        decreases length - k,
    {
        let member: u32 = fn_member(start + k);
        items.push(member);
        k = k + 1;
    }
    items
}

/// Item `t` of `items` is what `fn_next` returns on the items before it and `index`.
spec fn follows_step<F: Fn(Vec<u32>, u32) -> u32>(
    fn_next: F,
    items: Seq<u32>,
    t: int,
    index: u32,
) -> bool {
    exists|v: Vec<u32>| v@ == items.subrange(0, t) && #[trigger] fn_next.ensures((v, index), items[t])
}

/// Recurrence strategy: the seeds in `initial` are kept, and each further item is what
/// `fn_next` returns on the items so far and its index, the indices counting up from `start`.
fn iterate_next<F: Fn(Vec<u32>, u32) -> u32>(
    initial: Vec<u32>,
    fn_next: F,
    start: u32,
    length: u32,
) -> (items: Vec<u32>)
    requires
        start + length <= u32::MAX,
        forall|v: Vec<u32>, x: u32|
            v@.len() >= initial@.len() && start <= x < start + length
                ==> #[trigger] fn_next.requires((v, x)),
    ensures
        items@.len() == initial@.len() + length,
        items@.subrange(0, initial@.len() as int) == initial@,
        forall|t: int|
            initial@.len() <= t < items@.len() ==> #[trigger] follows_step(
                fn_next,
                items@,
                t,
                (start + t - initial@.len()) as u32,
            ),
{
    let ghost seeds = initial@;
    let mut items: Vec<u32> = initial;
    let mut k: u32 = 0;
    while k < length
        invariant
            k <= length,
            start + length <= u32::MAX,
            forall|v: Vec<u32>, x: u32|
                v@.len() >= seeds.len() && start <= x < start + length
                    ==> #[trigger] fn_next.requires((v, x)),
            items@.len() == seeds.len() + k,
            items@.subrange(0, seeds.len() as int) == seeds,
            forall|t: int|
                seeds.len() <= t < items@.len() ==> #[trigger] follows_step(
                    fn_next,
                    items@,
                    t,
                    (start + t - seeds.len()) as u32,
                ),
        decreases length - k,
    {
        let so_far: Vec<u32> = items.clone();
        assert(so_far@ =~= items@);
        let next: u32 = fn_next(so_far, start + k);
        let ghost before = items@;
        items.push(next);
        proof {
            assert(items@.subrange(0, seeds.len() as int) =~= before.subrange(
                0,
                seeds.len() as int,
            ));
            assert forall|t: int| seeds.len() <= t < items@.len() implies #[trigger] follows_step(
                fn_next,
                items@,
                t,
                (start + t - seeds.len()) as u32,
            ) by {
                let index = (start + t - seeds.len()) as u32;
                if t == before.len() {
                    assert(so_far@ =~= items@.subrange(0, t));
                    assert(index == start + k);
                    assert(fn_next.ensures((so_far, index), items@[t]));
                } else {
                    assert(follows_step(fn_next, before, t, index));
                    let w = choose|v: Vec<u32>|
                        v@ == before.subrange(0, t) && #[trigger] fn_next.ensures(
                            (v, index),
                            before[t],
                        );
                    assert(items@.subrange(0, t) =~= before.subrange(0, t));
                    assert(before[t] == items@[t]);
                    assert(fn_next.ensures((w, index), items@[t]));
                }
            }
        }
        k = k + 1;
    }
    items
}

/// A run built by the recurrence strategy from the seeds `initial`, with indices counting up
/// from `start`, is the run of `term` when its seeds are and when the step gives the next term
/// whenever the items so far are the terms just before its index.
proof fn lemma_recurrence_run<F: Fn(Vec<u32>, u32) -> u32>(
    fn_next: F,
    items: Seq<u32>,
    initial: Seq<u32>,
    start: u32,
    term: spec_fn(nat) -> u32,
)
    requires
        1 <= initial.len() <= start,
        initial.len() <= items.len(),
        start + items.len() - initial.len() <= u32::MAX + 1,
        initial == run_of(term, (start - initial.len()) as nat, initial.len()),
        items.subrange(0, initial.len() as int) == initial,
        forall|t: int|
            initial.len() <= t < items.len() ==> #[trigger] follows_step(
                fn_next,
                items,
                t,
                (start + t - initial.len()) as u32,
            ),
        forall|v: Vec<u32>, x: u32, r: u32|
            initial.len() <= v.len() <= x && v@ == run_of(
                term,
                (x - v.len()) as nat,
                v.len() as nat,
            ) && #[trigger] fn_next.ensures((v, x), r) ==> r == term(x as nat),
    ensures
        items == run_of(term, (start - initial.len()) as nat, items.len()),
    decreases items.len(),
{
    let first = (start - initial.len()) as nat;
    if items.len() == initial.len() {
        assert(items =~= items.subrange(0, initial.len() as int));
    } else {
        let t = items.len() - 1;
        let prefix = items.subrange(0, t);
        assert forall|u: int| initial.len() <= u < prefix.len() implies #[trigger] follows_step(
            fn_next,
            prefix,
            u,
            (start + u - initial.len()) as u32,
        ) by {
            let index = (start + u - initial.len()) as u32;
            assert(follows_step(fn_next, items, u, index));
            let w = choose|v: Vec<u32>|
                v@ == items.subrange(0, u) && #[trigger] fn_next.ensures((v, index), items[u]);
            assert(prefix.subrange(0, u) =~= items.subrange(0, u));
            assert(prefix[u] == items[u]);
            assert(fn_next.ensures((w, index), prefix[u]));
        }
        assert(prefix.subrange(0, initial.len() as int) =~= items.subrange(
            0,
            initial.len() as int,
        ));
        lemma_recurrence_run(fn_next, prefix, initial, start, term);
        let x = (start + t - initial.len()) as u32;
        assert(follows_step(fn_next, items, t, x));
        let v = choose|v: Vec<u32>|
            v@ == items.subrange(0, t) && #[trigger] fn_next.ensures((v, x), items[t]);
        assert(x - v.len() == first);
        assert(v@ == run_of(term, first, t as nat));
        assert(items[t] == term(x as nat));
        assert(x as nat == first + t);
        assert forall|u: int| 0 <= u < items.len() implies #[trigger] items[u] == term(
            (first + u) as nat,
        ) by {
            if u < t {
                assert(items[u] == prefix[u]);
            }
        }
        assert(items =~= run_of(term, first, items.len()));
    }
}

/// The cube of `nth`.
pub fn cube_member(nth: u32) -> (r: u32)
    ensures
        r == cube_term(nth as nat),
{
    let w: u128 = nth as u128;
    assert(w * w <= 0xffff_ffff * 0xffff_ffff && w * w * w <= 0xffff_ffff * 0xffff_ffff
        * 0xffff_ffff) by (nonlinear_arith)
        requires
            w <= 0xffff_ffff,
    ;
    ((w * w * w) % (WORD as u128)) as u32
}

/// The cubes at indices `nth .. nth + length`.
pub fn cube(nth: u32, length: u32) -> (items: Vec<u32>)
    requires
        nth + length <= u32::MAX,
    ensures
        items@ == run_of(|n: nat| cube_term(n), nth as nat, length as nat),
{
    let items: Vec<u32> = iterate_member(cube_member, nth, length);
    assert(items@ =~= run_of(|n: nat| cube_term(n), nth as nat, length as nat));
    items
}

/// Twice `nth`.
pub fn even_member(nth: u32) -> (r: u32)
    ensures
        r == even_term(nth as nat),
{
    ((2 * (nth as u64)) % WORD) as u32
}

/// The even numbers at indices `nth .. nth + length`.
pub fn even(nth: u32, length: u32) -> (items: Vec<u32>)
    requires
        nth + length <= u32::MAX,
    ensures
        items@ == run_of(|n: nat| even_term(n), nth as nat, length as nat),
{
    let items: Vec<u32> = iterate_member(even_member, nth, length);
    assert(items@ =~= run_of(|n: nat| even_term(n), nth as nat, length as nat));
    items
}

/// `nth!`
pub fn factorial_member(nth: u32) -> (r: u32)
    ensures
        r == factorial_term(nth as nat),
{
    let mut acc: u64 = 1;
    let mut i: u32 = 0;
    assert(acc == factorial_term(0)) by {
        lemma_small_mod(1, WORD as nat);
    }
    while i < nth
        invariant
            i <= nth,
            acc < WORD,
            acc == factorial_term(i as nat),
        decreases nth - i,
    {
        i = i + 1;
        proof {
            lemma_wrap_mul(fact((i - 1) as nat) as int, i as int);
            assert(fact(i as nat) == i * fact((i - 1) as nat));
            assert(acc * i < WORD * WORD) by (nonlinear_arith)
                requires
                    acc < WORD,
                    i < WORD,
            ;
        }
        let ghost before = acc;
        acc = (acc * (i as u64)) % WORD;
        proof {
            let prev = fact((i - 1) as nat) as int;
            assert(acc == wrap32(before * i));
            assert(before == wrap32(prev));
            assert(prev * i == i * prev) by (nonlinear_arith);
            assert(acc == wrap32(fact(i as nat) as int));
        }
    }
    acc as u32
}

/// The next factorial after the terms in `members`: the last of them times `nth`.
pub fn factorial_next(members: Vec<u32>, nth: u32) -> (r: u32)
    requires
        members.len() >= 1,
    ensures
        r == wrap32(members@.last() * nth),
{
    let last: u64 = members[members.len() - 1] as u64;
    assert(last * nth <= 0xffff_ffff * 0xffff_ffff) by (nonlinear_arith)
        requires
            last <= 0xffff_ffff,
            nth <= 0xffff_ffff,
    ;
    ((last * (nth as u64)) % WORD) as u32
}

/// The factorials at indices `nth .. nth + length`: the first computed directly, the rest each
/// from the one before.
pub fn factorial(nth: u32, length: u32) -> (items: Vec<u32>)
    requires
        nth + length <= u32::MAX,
    ensures
        items@ == run_of(|n: nat| factorial_term(n), nth as nat, length as nat),
{
    let ghost term = |n: nat| factorial_term(n);
    let first: u32 = factorial_member(nth);
    if length <= 1 {
        let mut items: Vec<u32> = Vec::new();
        if length == 1 {
            items.push(first);
        }
        assert(items@ =~= run_of(term, nth as nat, length as nat));
        return items;
    }
    let initial: Vec<u32> = vec![first];
    assert(initial@ =~= run_of(term, nth as nat, 1));
    assert forall|v: Vec<u32>, x: u32, r: u32|
        1 <= v.len() <= x && v@ == run_of(term, (x - v.len()) as nat, v.len() as nat)
            && #[trigger] call_ensures(factorial_next, (v, x), r) implies r == term(x as nat) by {
        let prev = fact((x - 1) as nat) as int;
        assert(v@.last() == v@[v.len() - 1]);
        assert(v@.last() == wrap32(prev));
        lemma_wrap_mul(prev, x as int);
        assert(fact(x as nat) == x * prev);
        assert(prev * x == x * prev) by (nonlinear_arith);
    }
    let ghost seeds = initial@;
    let next_index: u32 = nth + 1;
    let items: Vec<u32> = iterate_next(initial, factorial_next, next_index, length - 1);
    proof {
        lemma_recurrence_run(factorial_next, items@, seeds, next_index, term);
    }
    items
}

/// The `nth` Fibonacci number.
pub fn fibonacci_member(nth: u32) -> (r: u32)
    ensures
        r == fibonacci_term(nth as nat),
{
    let mut a: u64 = 0;
    let mut b: u64 = 1;
    let mut i: u32 = 0;
    proof {
        lemma_small_mod(0, WORD as nat);
        lemma_small_mod(1, WORD as nat);
        assert(fib(1) == 1);
    }
    while i < nth
        invariant
            i <= nth,
            a < WORD,
            b < WORD,
            a == fibonacci_term(i as nat),
            b == fibonacci_term((i + 1) as nat),
        decreases nth - i,
    {
        proof {
            lemma_wrap_add(fib(i as nat) as int, fib((i + 1) as nat) as int);
            assert(fib((i + 2) as nat) == fib((i + 1) as nat) + fib(i as nat));
        }
        let c: u64 = (a + b) % WORD;
        a = b;
        b = c;
        i = i + 1;
    }
    a as u32
}

/// The next Fibonacci number after the terms in `members`: the sum of the last two.
pub fn fibonacci_next(members: Vec<u32>, _nth: u32) -> (r: u32)
    requires
        members.len() >= 2,
    ensures
        r == wrap32(members@[members.len() - 2] + members@[members.len() - 1]),
{
    (((members[members.len() - 2] as u64) + (members[members.len() - 1] as u64)) % WORD) as u32
}

/// The Fibonacci numbers at indices `nth .. nth + length`: the first two computed directly, the
/// rest each from the two before.
pub fn fibonacci(nth: u32, length: u32) -> (items: Vec<u32>)
    requires
        nth + length <= u32::MAX,
    ensures
        items@ == run_of(|n: nat| fibonacci_term(n), nth as nat, length as nat),
{
    let ghost term = |n: nat| fibonacci_term(n);
    let mut items: Vec<u32> = Vec::new();
    if length == 0 {
        assert(items@ =~= run_of(term, nth as nat, 0));
        return items;
    }
    items.push(fibonacci_member(nth));
    if length == 1 {
        assert(items@ =~= run_of(term, nth as nat, 1));
        return items;
    }
    items.push(fibonacci_member(nth + 1));
    assert(items@ =~= run_of(term, nth as nat, 2));
    assert forall|v: Vec<u32>, x: u32, r: u32|
        2 <= v.len() <= x && v@ == run_of(term, (x - v.len()) as nat, v.len() as nat)
            && #[trigger] call_ensures(fibonacci_next, (v, x), r) implies r == term(x as nat) by {
        let a = fib((x - 2) as nat) as int;
        let b = fib((x - 1) as nat) as int;
        assert(v@[v.len() - 2] == wrap32(a));
        assert(v@[v.len() - 1] == wrap32(b));
        lemma_wrap_add(a, b);
        assert(fib(x as nat) == b + a);
    }
    let ghost seeds = items@;
    let next_index: u32 = nth + 2;
    let items: Vec<u32> = iterate_next(items, fibonacci_next, next_index, length - 2);
    proof {
        lemma_recurrence_run(fibonacci_next, items@, seeds, next_index, term);
    }
    items
}

/// `nth` itself.
pub fn natural_member(nth: u32) -> (r: u32)
    ensures
        r == natural_term(nth as nat),
{
    proof {
        lemma_small_mod(nth as nat, WORD as nat);
    }
    nth
}

/// The natural numbers at indices `nth .. nth + length`.
pub fn natural(nth: u32, length: u32) -> (items: Vec<u32>)
    requires
        nth + length <= u32::MAX,
    ensures
        items@ == run_of(|n: nat| natural_term(n), nth as nat, length as nat),
{
    let items: Vec<u32> = iterate_member(natural_member, nth, length);
    assert(items@ =~= run_of(|n: nat| natural_term(n), nth as nat, length as nat));
    items
}

/// Twice `nth`, plus one.
pub fn odd_member(nth: u32) -> (r: u32)
    ensures
        r == odd_term(nth as nat),
{
    ((2 * (nth as u64) + 1) % WORD) as u32
}

/// The odd numbers at indices `nth .. nth + length`.
pub fn odd(nth: u32, length: u32) -> (items: Vec<u32>)
    requires
        nth + length <= u32::MAX,
    ensures
        items@ == run_of(|n: nat| odd_term(n), nth as nat, length as nat),
{
    let items: Vec<u32> = iterate_member(odd_member, nth, length);
    assert(items@ =~= run_of(|n: nat| odd_term(n), nth as nat, length as nat));
    items
}

/// `2^n` is a multiple of `2^32` from `n = 32` on.
proof fn lemma_power_of_two_wraps(n: nat)
    requires
        n >= 32,
    ensures
        powers2_term(n) == 0,
    decreases n,
{
    if n == 32 {
        reveal_with_fuel(power_of_two, 33);
        assert(power_of_two(32) == WORD);
    } else {
        lemma_power_of_two_wraps((n - 1) as nat);
        lemma_wrap_mul(power_of_two((n - 1) as nat) as int, 2);
        assert(power_of_two(n) == 2 * power_of_two((n - 1) as nat));
    }
}

/// `2^nth`
pub fn powers2_member(nth: u32) -> (r: u32)
    ensures
        r == powers2_term(nth as nat),
{
    if nth >= 32 {
        proof {
            lemma_power_of_two_wraps(nth as nat);
        }
        return 0;
    }
    let mut p: u64 = 1;
    let mut i: u32 = 0;
    assert(p == powers2_term(0)) by {
        lemma_small_mod(1, WORD as nat);
    }
    while i < nth
        invariant
            i <= nth,
            p < WORD,
            p == powers2_term(i as nat),
        decreases nth - i,
    {
        proof {
            lemma_wrap_mul(power_of_two(i as nat) as int, 2);
            assert(power_of_two((i + 1) as nat) == 2 * power_of_two(i as nat));
        }
        p = (p * 2) % WORD;
        i = i + 1;
    }
    p as u32
}

/// The next power of two after the terms in `members`: twice the last of them.
pub fn powers2_next(members: Vec<u32>, _nth: u32) -> (r: u32)
    requires
        members.len() >= 1,
    ensures
        r == wrap32(members@.last() * 2),
{
    (((members[members.len() - 1] as u64) * 2) % WORD) as u32
}

/// The powers of two at indices `nth .. nth + length`: the first computed directly, the rest
/// each from the one before.
pub fn powers2(nth: u32, length: u32) -> (items: Vec<u32>)
    requires
        nth + length <= u32::MAX,
    ensures
        items@ == run_of(|n: nat| powers2_term(n), nth as nat, length as nat),
{
    let ghost term = |n: nat| powers2_term(n);
    let first: u32 = powers2_member(nth);
    if length <= 1 {
        let mut items: Vec<u32> = Vec::new();
        if length == 1 {
            items.push(first);
        }
        assert(items@ =~= run_of(term, nth as nat, length as nat));
        return items;
    }
    let initial: Vec<u32> = vec![first];
    assert(initial@ =~= run_of(term, nth as nat, 1));
    assert forall|v: Vec<u32>, x: u32, r: u32|
        1 <= v.len() <= x && v@ == run_of(term, (x - v.len()) as nat, v.len() as nat)
            && #[trigger] call_ensures(powers2_next, (v, x), r) implies r == term(x as nat) by {
        let prev = power_of_two((x - 1) as nat) as int;
        assert(v@.last() == v@[v.len() - 1]);
        assert(v@.last() == wrap32(prev));
        lemma_wrap_mul(prev, 2);
        assert(power_of_two(x as nat) == 2 * prev);
    }
    let ghost seeds = initial@;
    let next_index: u32 = nth + 1;
    let items: Vec<u32> = iterate_next(initial, powers2_next, next_index, length - 1);
    proof {
        lemma_recurrence_run(powers2_next, items@, seeds, next_index, term);
    }
    items
}

/// The square of `nth`.
pub fn square_member(nth: u32) -> (r: u32)
    ensures
        r == square_term(nth as nat),
{
    let w: u64 = nth as u64;
    assert(w * w <= 0xffff_ffff * 0xffff_ffff) by (nonlinear_arith)
        requires
            w <= 0xffff_ffff,
    ;
    ((w * w) % WORD) as u32
}

/// The squares at indices `nth .. nth + length`.
pub fn square(nth: u32, length: u32) -> (items: Vec<u32>)
    requires
        nth + length <= u32::MAX,
    ensures
        items@ == run_of(|n: nat| square_term(n), nth as nat, length as nat),
{
    let items: Vec<u32> = iterate_member(square_member, nth, length);
    assert(items@ =~= run_of(|n: nat| square_term(n), nth as nat, length as nat));
    items
}

/// The star number at `nth`: `6 nth (nth - 1) + 1`, and 0 at index 0.
pub fn star_member(nth: u32) -> (r: u32)
    ensures
        r == star_term(nth as nat),
{
    if nth == 0 {
        return 0;
    }
    let w: u128 = nth as u128;
    assert(6 * w * (w - 1) + 1 <= 6 * 0xffff_ffff * 0xffff_ffff + 1) by (nonlinear_arith)
        requires
            1 <= w <= 0xffff_ffff,
    ;
    ((6 * w * (w - 1) + 1) % (WORD as u128)) as u32
}

/// The star numbers at indices `nth .. nth + length`.
pub fn star(nth: u32, length: u32) -> (items: Vec<u32>)
    requires
        nth + length <= u32::MAX,
    ensures
        items@ == run_of(|n: nat| star_term(n), nth as nat, length as nat),
{
    let items: Vec<u32> = iterate_member(star_member, nth, length);
    assert(items@ =~= run_of(|n: nat| star_term(n), nth as nat, length as nat));
    items
}

/// The triangular number at `nth`: `nth (nth + 1) / 2`, with the product formed at double width
/// so that the halving is exact.
pub fn triangular_member(nth: u32) -> (r: u32)
    ensures
        r == triangular_term(nth as nat),
{
    let w: u64 = nth as u64;
    assert(w * (w + 1) <= 0xffff_ffff * 0x1_0000_0000) by (nonlinear_arith)
        requires
            w <= 0xffff_ffff,
    ;
    ((w * (w + 1) / 2) % WORD) as u32
}

/// The next triangular number after the terms in `members`: the last of them plus `nth`.
pub fn triangular_next(members: Vec<u32>, nth: u32) -> (r: u32)
    requires
        members.len() >= 1,
    ensures
        r == wrap32(members@.last() + nth),
{
    (((members[members.len() - 1] as u64) + (nth as u64)) % WORD) as u32
}

/// The triangular numbers at indices `nth .. nth + length`: the first computed directly, the
/// rest each from the one before and its index.
pub fn triangular(nth: u32, length: u32) -> (items: Vec<u32>)
    requires
        nth + length <= u32::MAX,
    ensures
        items@ == run_of(|n: nat| triangular_term(n), nth as nat, length as nat),
{
    let ghost term = |n: nat| triangular_term(n);
    let first: u32 = triangular_member(nth);
    if length <= 1 {
        let mut items: Vec<u32> = Vec::new();
        if length == 1 {
            items.push(first);
        }
        assert(items@ =~= run_of(term, nth as nat, length as nat));
        return items;
    }
    let initial: Vec<u32> = vec![first];
    assert(initial@ =~= run_of(term, nth as nat, 1));
    assert forall|v: Vec<u32>, x: u32, r: u32|
        1 <= v.len() <= x && v@ == run_of(term, (x - v.len()) as nat, v.len() as nat)
            && #[trigger] call_ensures(triangular_next, (v, x), r) implies r == term(x as nat) by {
        let p = (x - 1) as int;
        let prev = p * (p + 1) / 2;
        assert(v@.last() == v@[v.len() - 1]);
        assert(v@.last() == wrap32(prev));
        lemma_wrap_add(prev, x as int);
        lemma_hoist_over_denominator(p * (p + 1), x as int, 2);
        assert(p * (p + 1) + x * 2 == x * (x + 1)) by (nonlinear_arith)
            requires
                p == x - 1,
        ;
    }
    let ghost seeds = initial@;
    let next_index: u32 = nth + 1;
    let items: Vec<u32> = iterate_next(initial, triangular_next, next_index, length - 1);
    proof {
        lemma_recurrence_run(triangular_next, items@, seeds, next_index, term);
    }
    items
}

/// A run holds exactly the requested number of terms, and its first term is the term at the
/// start index. Every run above is `run_of` its sequence's term function, and every `_member`
/// function returns that term function at its index.
pub proof fn run_length_and_first(term: spec_fn(nat) -> u32, start: nat, length: nat)
    ensures
        run_of(term, start, length).len() == length,
        length > 0 ==> run_of(term, start, length)[0] == term(start),
{
}

/// Each term of a run is the term at its own index: the `i`th item of a run from `start` is the
/// member at `start + i`.
pub proof fn run_matches_members(term: spec_fn(nat) -> u32, start: nat, length: nat, i: nat)
    requires
        i < length,
    ensures
        run_of(term, start, length)[i as int] == term(start + i),
{
}

} // verus!
