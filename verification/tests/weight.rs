use cached_compression::digits::{digit_of, leading_zeros, power_of_five};
use cached_compression::text::chars_of;
use cached_compression::weight::excludes;

/// What reading the weight as a single-precision number decides.
fn reference(text: &str) -> bool {
    text.trim().parse::<f32>().unwrap_or(0.0) == 0.0
}

fn agrees(text: &str) {
    assert_eq!(excludes(&chars_of(text)), reference(text), "{:?}", text);
}

const HALF_OF_LEAST: &str = "7.00649232162408535461864791644958065640130970938257885878534141944895541342930300743319094181060791015625e-46";

#[test]
fn zero_in_its_many_forms_excludes() {
    for text in ["0", "0.0", "0.", ".0", "00", "-0", "+0", "0e0", "0e5", "0E-5", "0.000e+12", " 0 ", "\t0.0\n", "000.000"] {
        assert!(excludes(&chars_of(text)), "{:?}", text);
        agrees(text);
    }
}

#[test]
fn numbers_that_are_not_zero_do_not_exclude() {
    for text in ["1", "0.5", "0.001", "1.", ".5", "1e5", "1E5", "1e-5", "+1", "-1", "0.1e1", "00.10", "1e+5", " 0.5 ", "1000", "0.300", "1.e1", "-.5e-3"] {
        assert!(!excludes(&chars_of(text)), "{:?}", text);
        agrees(text);
    }
}

#[test]
fn what_is_no_number_excludes() {
    for text in ["", " ", ".", "+", "-", "e5", "1e", "1e+", "1e-", "1.5.2", "1_0", "0x10", "abc", "1 0", "++1", "+-1", "1e5.5", ".e5", "1f", "\u{661}", "1,5", "q", "infinit", "in", "na", "nano", "infinityy", "i nf", "1e+-5", "--0", "0-", "٠"] {
        assert!(excludes(&chars_of(text)), "{:?}", text);
        agrees(text);
    }
}

#[test]
fn special_values_do_not_exclude() {
    for text in ["inf", "INF", "Inf", "iNf", "infinity", "INFINITY", "Infinity", "nan", "NaN", "NAN", "+inf", "-inf", "+nan", "-NaN", "-infinity", " inf "] {
        assert!(!excludes(&chars_of(text)), "{:?}", text);
        agrees(text);
    }
}

#[test]
fn letters_near_the_special_words_are_told_apart() {
    for text in ["\u{49}\u{4e}\u{46}", "\u{29}nf", "i\u{2e}f", "\u{149}nf", "inf\u{0}", "n\u{41}n", "n\u{1}n"] {
        agrees(text);
    }
}

#[test]
fn half_of_the_least_positive_number_rounds_to_zero() {
    assert!(excludes(&chars_of(HALF_OF_LEAST)));
    agrees(HALF_OF_LEAST);
}

#[test]
fn a_little_more_than_half_of_the_least_positive_number_does_not() {
    let more = HALF_OF_LEAST.replace("015625e-46", "015626e-46");
    assert!(!excludes(&chars_of(&more)));
    agrees(&more);
    let longer = HALF_OF_LEAST.replace("e-46", "0000000000000000000000001e-46");
    assert!(!excludes(&chars_of(&longer)));
    agrees(&longer);
    let less = HALF_OF_LEAST.replace("015625e-46", "015624e-46");
    assert!(excludes(&chars_of(&less)));
    agrees(&less);
    let padded = HALF_OF_LEAST.replace("e-46", "0000000000000000000000000e-46");
    assert!(excludes(&chars_of(&padded)));
    agrees(&padded);
}

#[test]
fn numbers_around_the_rounding_threshold() {
    for text in [
        "1e-45", "1e-46", "7e-46", "8e-46", "7.1e-46", "7.0e-46", "7.006e-46", "7.007e-46",
        "70e-47", "71e-47", "0.7e-45", "0.71e-45", "1.4e-45", "1e-44", "1e-47", "9.99e-46",
        "7006492321624085354e-64", "7006492321624085355e-64", "0.00000000007e-35",
        "0.00000000008e-35", "700e-48", "701e-48", "1e-100", "1e-1000", "123456789e-60",
        "0.000000000000000000000000000000000000000000001",
        "0.0000000000000000000000000000000000000000000007",
        "0.0000000000000000000000000000000000000000000008",
        "0.00000000000000000000000000000000000000000000007",
        "7e-00046", "7e-046", "0007e-46", "8000e-49", "6999e-49", "7007e-49",
    ] {
        agrees(text);
    }
}

#[test]
fn every_short_mantissa_around_the_threshold() {
    for exponent in 40..52 {
        for mantissa in 0..1200 {
            agrees(&format!("{}e-{}", mantissa, exponent));
            agrees(&format!("0.{:04}e-{}", mantissa, exponent - 4));
            agrees(&format!("{}.{}E-{}", mantissa / 10, mantissa % 10, exponent - 1));
        }
    }
}

#[test]
fn exponents_beyond_any_machine_number() {
    for text in [
        "1e99999999999999999999999999999999999999999999",
        "1e-99999999999999999999999999999999999999999999",
        "0e99999999999999999999999999999999999999999999",
        "0e-99999999999999999999999999999999999999999999",
        "1e40", "1e-40", "1e38", "1e39", "1e65535", "1e-65535", "1e-65536", "1e65536",
        "0.0001e-340282366920938463463374607431768211456",
        "1e+340282366920938463463374607431768211456",
    ] {
        agrees(text);
    }
    assert!(excludes(&chars_of("1e-99999999999999999999999999999999999999999999")));
    assert!(!excludes(&chars_of("1e99999999999999999999999999999999999999999999")));
}

#[test]
fn long_runs_of_digits() {
    let zeros = "0".repeat(500);
    agrees(&format!("0.{}1", zeros));
    agrees(&format!("0.{}1e500", zeros));
    agrees(&format!("0.{}1e455", zeros));
    agrees(&format!("0.{}7e455", zeros));
    agrees(&format!("0.{}8e455", zeros));
    agrees(&format!("0.{}1e456", zeros));
    agrees(&format!("1{}e-545", zeros));
    agrees(&format!("1{}e-546", zeros));
    agrees(&format!("7{}e-546", zeros));
    agrees(&format!("8{}e-546", zeros));
    agrees(&format!("1{}e-547", zeros));
    agrees(&format!("{}.{}", zeros, zeros));
    agrees(&format!("{}7.{}e-46", zeros, zeros));
    agrees(&format!("{}8.{}e-46", zeros, zeros));
}

#[test]
fn power_of_five_has_the_known_digits() {
    let digits: String = power_of_five(3).into_iter().collect();
    assert_eq!(digits, "0125");
    let digits: String = power_of_five(0).into_iter().collect();
    assert_eq!(digits, "1");
    let digits: String = power_of_five(150).into_iter().collect();
    assert_eq!(digits.len(), 151);
    assert_eq!(
        digits.trim_start_matches('0'),
        "700649232162408535461864791644958065640130970938257885878534141944895541342930300743319094181060791015625"
    );
}

#[test]
fn leading_zeros_are_counted() {
    assert_eq!(leading_zeros(&chars_of("00120")), 2);
    assert_eq!(leading_zeros(&chars_of("000")), 3);
    assert_eq!(leading_zeros(&chars_of("")), 0);
    assert_eq!(leading_zeros(&chars_of("9")), 0);
}

#[test]
fn digits_have_their_values() {
    for (value, c) in "0123456789".chars().enumerate() {
        assert_eq!(digit_of(c), Some(value as u8));
    }
    for c in ['a', ' ', '/', ':', '\u{661}', '\u{ff11}'] {
        assert_eq!(digit_of(c), None);
    }
}
