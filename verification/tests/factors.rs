use ratio::math::{common_factors, factors_of, highest_common_factor, Factors};

#[test]
fn test_factors_of_360() {
    let factors = factors_of(360);
    assert_eq!(
        factors.0,
        vec![
            1, 2, 3, 4, 5, 6, 8, 9, 10, 12, 15, 18, 20, 24, 30, 36, 40, 45, 60, 72, 90, 120, 180,
            360
        ]
    );
}

#[test]
fn test_factors_of_960() {
    let factors = factors_of(960);
    assert_eq!(
        factors.0,
        vec![
            1, 2, 3, 4, 5, 6, 8, 10, 12, 15, 16, 20, 24, 30, 32, 40, 48, 60, 64, 80, 96, 120, 160,
            192, 240, 320, 480, 960
        ]
    );
}

#[test]
fn factors_of_one_repeats_one() {
    assert_eq!(factors_of(1).0, vec![1, 1]);
}

#[test]
fn factors_of_zero_are_one_and_zero() {
    assert_eq!(factors_of(0).0, vec![1, 0]);
}

#[test]
fn factors_of_two_are_its_ends() {
    assert_eq!(factors_of(2).0, vec![1, 2]);
}

#[test]
fn factors_of_a_prime_are_its_ends() {
    assert_eq!(factors_of(97).0, vec![1, 97]);
}

#[test]
fn factors_of_a_square_hold_the_root_once() {
    assert_eq!(factors_of(49).0, vec![1, 7, 49]);
}

#[test]
fn factors_are_ascending_divisors_between_one_and_the_number() {
    for n in 2u32..200 {
        let factors = factors_of(n).0;
        assert_eq!(factors[0], 1);
        assert_eq!(factors[factors.len() - 1], n);
        for pair in factors.windows(2) {
            assert!(pair[0] < pair[1]);
        }
        for d in 1..=n {
            assert_eq!(factors.contains(&d), n % d == 0);
        }
    }
}

#[test]
fn common_factors_of_twelve_and_eighteen() {
    let shared = common_factors(factors_of(12), factors_of(18));
    assert_eq!(shared.0, vec![1, 2, 3, 6]);
}

#[test]
fn common_factors_keep_the_order_and_repeats_of_the_first_list() {
    let shared = common_factors(Factors(vec![5, 3, 5, 9, 1]), Factors(vec![1, 5, 7]));
    assert_eq!(shared.0, vec![5, 5, 1]);
}

#[test]
fn common_factors_of_disjoint_lists_are_empty() {
    let shared = common_factors(Factors(vec![2, 4]), Factors(vec![3, 9]));
    assert_eq!(shared.0, Vec::<u32>::new());
}

#[test]
fn common_factors_with_an_empty_list_are_empty() {
    assert_eq!(common_factors(Factors(vec![]), factors_of(6)).0, Vec::<u32>::new());
    assert_eq!(common_factors(factors_of(6), Factors(vec![])).0, Vec::<u32>::new());
}

#[test]
fn common_factors_always_hold_one() {
    for a in 0u32..40 {
        for b in 0u32..40 {
            assert!(common_factors(factors_of(a), factors_of(b)).0.contains(&1));
        }
    }
}

#[test]
fn common_factors_of_one_and_one_repeat_one() {
    assert_eq!(common_factors(factors_of(1), factors_of(1)).0, vec![1, 1]);
}

#[test]
fn highest_common_factor_of_360_and_480() {
    assert_eq!(highest_common_factor(factors_of(360), factors_of(480)), 120);
}

#[test]
fn highest_common_factor_of_nine_and_six() {
    assert_eq!(highest_common_factor(factors_of(9), factors_of(6)), 3);
}

#[test]
fn highest_common_factor_is_the_last_shared_item() {
    assert_eq!(highest_common_factor(Factors(vec![8, 2, 4]), Factors(vec![2, 8])), 2);
}

#[test]
fn highest_common_factor_of_disjoint_lists_is_zero() {
    assert_eq!(highest_common_factor(Factors(vec![2, 4]), Factors(vec![3])), 0);
    assert_eq!(highest_common_factor(Factors(vec![]), Factors(vec![])), 0);
}

fn euclid(a: u32, b: u32) -> u32 {
    if b == 0 {
        a
    } else {
        euclid(b, a % b)
    }
}

#[test]
fn highest_common_factor_is_the_greatest_common_divisor() {
    for a in 1u32..60 {
        for b in 1u32..60 {
            assert_eq!(highest_common_factor(factors_of(a), factors_of(b)), euclid(a, b));
        }
    }
}

#[test]
fn highest_common_factor_with_zero() {
    assert_eq!(highest_common_factor(factors_of(0), factors_of(0)), 0);
    assert_eq!(highest_common_factor(factors_of(0), factors_of(12)), 1);
    assert_eq!(highest_common_factor(factors_of(12), factors_of(0)), 1);
}

#[test]
fn factors_are_handed_out_in_order() {
    let items: Vec<u32> = factors_of(12).into_iter().collect();
    assert_eq!(items, vec![1, 2, 3, 4, 6, 12]);
}

#[test]
fn factors_as_text() {
    assert_eq!(factors_of(6).to_string(), "[1, 2, 3, 6]");
    assert_eq!(Factors(vec![1, 2, 3]).to_string(), "[1, 2, 3]");
    assert_eq!(Factors(vec![7]).to_string(), "[7]");
    assert_eq!(Factors(vec![]).to_string(), "[]");
    assert_eq!(Factors(vec![0, 4294967295, 10]).to_string(), "[0, 4294967295, 10]");
}
