use numbers::sequences::{
    cube, cube_member, even, even_member, factorial, factorial_member, factorial_next, fibonacci,
    fibonacci_member, fibonacci_next, natural, natural_member, odd, odd_member, powers2,
    powers2_member, powers2_next, square, square_member, star, star_member, triangular,
    triangular_member, triangular_next,
};

#[test]
fn sequences_test_cube() {
    assert_eq!(cube(1, 10), [1, 8, 27, 64, 125, 216, 343, 512, 729, 1000]);
}

#[test]
fn sequences_test_even() {
    assert_eq!(even(0, 10), [0, 2, 4, 6, 8, 10, 12, 14, 16, 18]);
}

#[test]
fn sequences_test_factorial() {
    assert_eq!(
        factorial(0, 10),
        [1, 1, 2, 6, 24, 120, 720, 5040, 40320, 362880]
    );
}

#[test]
fn sequences_test_fibonacci() {
    assert_eq!(fibonacci(0, 10), [0, 1, 1, 2, 3, 5, 8, 13, 21, 34]);
}

#[test]
fn test_natural() {
    assert_eq!(natural(0, 10), [0, 1, 2, 3, 4, 5, 6, 7, 8, 9]);
}

#[test]
fn sequences_test_odd() {
    assert_eq!(odd(0, 10), [1, 3, 5, 7, 9, 11, 13, 15, 17, 19]);
}

#[test]
fn test_powers2() {
    assert_eq!(powers2(0, 10), [1, 2, 4, 8, 16, 32, 64, 128, 256, 512]);
}

#[test]
fn sequences_test_square() {
    assert_eq!(square(0, 10), [0, 1, 4, 9, 16, 25, 36, 49, 64, 81]);
}

#[test]
fn test_star() {
    assert_eq!(star(0, 10), [0, 1, 13, 37, 73, 121, 181, 253, 337, 433]);
}

#[test]
fn test_triangular() {
    assert_eq!(triangular(0, 10), [0, 1, 3, 6, 10, 15, 21, 28, 36, 45]);
}

#[test]
fn runs_have_the_requested_length_and_start_at_the_member() {
    for (start, length) in [(0u32, 0u32), (0, 1), (0, 2), (3, 5), (7, 12)] {
        let runs: [(Vec<u32>, u32); 10] = [
            (cube(start, length), cube_member(start)),
            (even(start, length), even_member(start)),
            (factorial(start, length), factorial_member(start)),
            (fibonacci(start, length), fibonacci_member(start)),
            (natural(start, length), natural_member(start)),
            (odd(start, length), odd_member(start)),
            (powers2(start, length), powers2_member(start)),
            (square(start, length), square_member(start)),
            (star(start, length), star_member(start)),
            (triangular(start, length), triangular_member(start)),
        ];
        for (run, first) in runs.iter() {
            assert_eq!(run.len(), length as usize);
            if length > 0 {
                assert_eq!(run[0], *first);
            }
        }
    }
}

#[test]
fn runs_match_members_index_by_index() {
    let start: u32 = 5;
    let length: u32 = 40;
    let members: [(Vec<u32>, fn(u32) -> u32); 10] = [
        (cube(start, length), cube_member),
        (even(start, length), even_member),
        (factorial(start, length), factorial_member),
        (fibonacci(start, length), fibonacci_member),
        (natural(start, length), natural_member),
        (odd(start, length), odd_member),
        (powers2(start, length), powers2_member),
        (square(start, length), square_member),
        (star(start, length), star_member),
        (triangular(start, length), triangular_member),
    ];
    for (run, member) in members.iter() {
        for i in 0..length {
            assert_eq!(run[i as usize], member(start + i));
        }
    }
}

#[test]
fn short_recurrence_runs_hold_only_the_seeds_asked_for() {
    assert_eq!(factorial(4, 0), Vec::<u32>::new());
    assert_eq!(factorial(4, 1), [24]);
    assert_eq!(fibonacci(10, 0), Vec::<u32>::new());
    assert_eq!(fibonacci(10, 1), [55]);
    assert_eq!(fibonacci(10, 2), [55, 89]);
    assert_eq!(powers2(3, 1), [8]);
    assert_eq!(triangular(4, 1), [10]);
}

#[test]
fn terms_wrap_modulo_two_to_the_thirty_two() {
    assert_eq!(factorial_member(12), 479001600);
    assert_eq!(factorial_member(13), 1932053504);
    assert_eq!(factorial_member(40), 0);
    assert_eq!(fibonacci_member(47), 2971215073);
    assert_eq!(fibonacci_member(48), 512559680);
    assert_eq!(powers2_member(31), 2147483648);
    assert_eq!(powers2_member(32), 0);
    assert_eq!(powers2_member(u32::MAX), 0);
    assert_eq!(triangular_member(u32::MAX), 2147483648);
    assert_eq!(triangular_member(65536), 2147516416);
    assert_eq!(triangular(65535, 2), [2147450880, 2147516416]);
    assert_eq!(cube_member(1626), 4298942376u64 as u32);
    assert_eq!(square_member(65536), 0);
    assert_eq!(even_member(u32::MAX), u32::MAX - 1);
    assert_eq!(odd_member(u32::MAX), u32::MAX);
    assert_eq!(natural_member(u32::MAX), u32::MAX);
}

#[test]
fn recurrence_runs_wrap_like_their_members() {
    assert_eq!(factorial(12, 3), [479001600, 1932053504, 1278945280]);
    assert_eq!(fibonacci(46, 3), [1836311903, 2971215073, 512559680]);
    assert_eq!(powers2(30, 4), [1073741824, 2147483648, 0, 0]);
    let top = triangular(u32::MAX - 2, 2);
    assert_eq!(top[0], triangular_member(u32::MAX - 2));
    assert_eq!(top[1], triangular_member(u32::MAX - 1));
}

#[test]
fn star_members() {
    assert_eq!(star_member(0), 0);
    assert_eq!(star_member(1), 1);
    assert_eq!(star_member(2), 13);
    assert_eq!(star_member(10), 541);
}

#[test]
fn next_steps() {
    assert_eq!(factorial_next(vec![1, 1, 2, 6], 4), 24);
    assert_eq!(fibonacci_next(vec![1, 2, 3], 9), 5);
    assert_eq!(powers2_next(vec![8], 0), 16);
    assert_eq!(triangular_next(vec![6], 4), 10);
    assert_eq!(factorial_next(vec![2147483648], 2), 0);
}
