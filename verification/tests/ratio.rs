use ratio::decimal::decimal_text;
use ratio::math::Ratio;

#[test]
fn ratio_of_360_to_480() {
    assert_eq!(Ratio::from((360, 480)).to_string(), "3:4");
}

#[test]
fn ratio_of_nine_to_six() {
    assert_eq!(Ratio::from((9, 6)).to_string(), "3:2");
}

#[test]
fn ratio_of_equal_numbers() {
    assert_eq!(Ratio::from((25, 25)).to_string(), "1:1");
    assert_eq!(Ratio::from((1, 1)).to_string(), "1:1");
}

#[test]
fn ratio_of_a_multiple() {
    assert_eq!(Ratio::from((1000, 10)).to_string(), "100:1");
    assert_eq!(Ratio::from((10, 1000)).to_string(), "1:100");
}

#[test]
fn ratio_of_coprime_numbers_is_unchanged() {
    assert_eq!(Ratio::from((7, 5)).to_string(), "7:5");
    assert_eq!(Ratio::from((3, 4)).to_string(), "3:4");
    assert_eq!(Ratio::from((1, 12)).to_string(), "1:12");
}

#[test]
fn reducing_twice_changes_nothing() {
    for (n, d) in [(360u32, 480u32), (9, 6), (84, 36), (17, 51), (100, 100)] {
        let once = Ratio::from((n, d)).to_string();
        let (first, second) = once.split_once(':').unwrap();
        let again = Ratio::from((first.parse().unwrap(), second.parse().unwrap()));
        assert_eq!(again.to_string(), once);
    }
}

#[test]
fn ratio_with_zero() {
    assert_eq!(Ratio::from((0, 0)).to_string(), "0:0");
    assert_eq!(Ratio::from((0, 5)).to_string(), "0:5");
    assert_eq!(Ratio::from((5, 0)).to_string(), "5:0");
}

#[test]
fn ratio_can_be_copied() {
    let ratio = Ratio::from((12, 8));
    let copy = ratio;
    assert_eq!(ratio.to_string(), "3:2");
    assert_eq!(copy.to_string(), "3:2");
}

#[test]
fn decimal_text_of_single_digits() {
    let digits = ["0", "1", "2", "3", "4", "5", "6", "7", "8", "9"];
    for (n, digit) in digits.iter().enumerate() {
        assert_eq!(decimal_text(n as u32), *digit);
    }
}

#[test]
fn decimal_text_of_longer_numbers() {
    assert_eq!(decimal_text(10), "10");
    assert_eq!(decimal_text(109), "109");
    assert_eq!(decimal_text(1000000), "1000000");
    assert_eq!(decimal_text(4294967295), "4294967295");
}

#[test]
fn decimal_text_agrees_with_the_standard_rendering() {
    for n in (0u32..100000).step_by(37) {
        assert_eq!(decimal_text(n), format!("{}", n));
    }
}
