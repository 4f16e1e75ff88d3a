use numbers::checks::{answer, composite, cube, even, factorial, fibonacci, odd, prime, square};

#[test]
fn test_answer() {
    assert_eq!(answer(42), true);
    assert_eq!(answer(6 * 9), false);
}

#[test]
fn test_composite() {
    assert_eq!(composite(0), false);
    assert_eq!(composite(1), false);
    assert_eq!(composite(2), false);
    assert_eq!(composite(3), false);
    assert_eq!(composite(4), true);
    assert_eq!(composite(u32::MAX), true);
}

#[test]
fn checks_test_cube() {
    assert_eq!(cube(0), true);
    assert_eq!(cube(1), true);
    assert_eq!(cube(2), false);
    assert_eq!(cube(8), true);
}

#[test]
fn checks_test_even() {
    assert_eq!(even(0), true);
    assert_eq!(even(1), false);
    assert_eq!(even(2), true);
    assert_eq!(even(100), true);
}

#[test]
fn checks_test_odd() {
    assert_eq!(odd(0), false);
    assert_eq!(odd(1), true);
    assert_eq!(odd(2), false);
    assert_eq!(odd(101), true);
}

#[test]
fn checks_test_factorial() {
    assert_eq!(factorial(0), false);
    assert_eq!(factorial(1), true);
    assert_eq!(factorial(2), true);
    assert_eq!(factorial(3), false);
    assert_eq!(factorial(5), false);
    assert_eq!(factorial(6), true);
    assert_eq!(factorial(100), false);
    assert_eq!(factorial(120), true);
}

#[test]
fn checks_test_fibonacci() {
    assert_eq!(fibonacci(0), true);
    assert_eq!(fibonacci(1), true);
    assert_eq!(fibonacci(2), true);
    assert_eq!(fibonacci(3), true);
    assert_eq!(fibonacci(4), false);
    assert_eq!(fibonacci(5), true);
    assert_eq!(fibonacci(100), false);
    assert_eq!(fibonacci(144), true);
}

#[test]
fn test_prime() {
    assert_eq!(prime(0), false);
    assert_eq!(prime(1), false);
    assert_eq!(prime(2), true);
    assert_eq!(prime(3), true);
    assert_eq!(prime(4), false);
    assert_eq!(prime(5), true);
    assert_eq!(prime(u32::MAX), false);
}

#[test]
fn checks_test_square() {
    assert_eq!(square(0), true);
    assert_eq!(square(1), true);
    assert_eq!(square(2), false);
    assert_eq!(square(3), false);
    assert_eq!(square(4), true);
}

#[test]
fn even_and_odd_disagree() {
    for n in [0u32, 1, 2, 7, 100, 101, u32::MAX - 1, u32::MAX] {
        assert_ne!(even(n), odd(n));
    }
}

#[test]
fn squares_are_squares() {
    for k in [0u32, 1, 2, 3, 10, 255, 4096, 65535] {
        assert!(square(k * k));
    }
    assert!(!square(65535 * 65535 + 1));
    assert!(!square(u32::MAX));
}

#[test]
fn prime_and_composite_split_numbers_above_three() {
    for n in 0u32..2000 {
        assert!(!(prime(n) && composite(n)));
        if n > 3 {
            assert_ne!(prime(n), composite(n));
        } else {
            assert!(!composite(n));
        }
    }
    assert_eq!(prime(0), false);
    assert_eq!(prime(1), false);
}

#[test]
fn primes_near_the_top_of_the_range() {
    assert_eq!(prime(4294967291), true);
    assert_eq!(composite(4294967291), false);
    assert_eq!(prime(65521 * 65519), false);
    assert_eq!(composite(65521 * 65519), true);
    assert_eq!(prime(25), false);
    assert_eq!(composite(49), true);
}

#[test]
fn large_cubes_and_squares() {
    assert_eq!(cube(1625 * 1625 * 1625), true);
    assert_eq!(cube(1625 * 1625 * 1625 + 1), false);
    assert_eq!(cube(26), false);
    assert_eq!(cube(27), true);
    assert_eq!(square(65535 * 65535), true);
}

#[test]
fn factorial_numbers_up_to_twelve() {
    assert_eq!(factorial(24), true);
    assert_eq!(factorial(479001600), true);
    assert_eq!(factorial(479001601), false);
    assert_eq!(factorial(7), false);
    assert_eq!(factorial(4), false);
}

#[test]
fn fibonacci_test_is_exact_for_large_inputs() {
    assert_eq!(fibonacci(2971215073), true);
    assert_eq!(fibonacci(1836311903), true);
    assert_eq!(fibonacci(2971215072), false);
    assert_eq!(fibonacci(21), true);
    assert_eq!(fibonacci(22), false);
}

#[test]
fn answer_only_for_forty_two() {
    assert_eq!(answer(41), false);
    assert_eq!(answer(43), false);
    assert_eq!(answer(0), false);
}
