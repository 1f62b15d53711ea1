//! Tests of the literal checks: floating literals against the binary floating
//! types, integer literals against the native types, and string escapes.
use evo_script_engine::literals::{
    canonical_integer_string, decode_string_literal, floating_literal_finite,
    is_integer_representable_in_native,
};
use evo_script_engine::semantic::NativeType;

#[test]
fn floating_literal_ordinary_values_are_finite() {
    for lexeme in ["1.5", "0.0", "+1.5", "-2.5e-3", ".5", "5.", "00001.5", "1E5", "3.4e38", "1e308"] {
        assert!(floating_literal_finite(lexeme, false), "{}", lexeme);
    }
    for lexeme in ["1.5", "1e38", "3.4e38", "-3.4e38", "1e-50"] {
        assert!(floating_literal_finite(lexeme, true), "{}", lexeme);
    }
}

#[test]
fn floating_literal_overflow_depends_on_width() {
    assert!(!floating_literal_finite("1e100", true));
    assert!(floating_literal_finite("1e100", false));
    assert!(!floating_literal_finite("3.5e38", true));
    assert!(!floating_literal_finite("1e309", false));
    assert!(!floating_literal_finite("1e400", false));
}

#[test]
fn floating_literal_threshold_of_single_width() {
    // The largest finite value, the last value below halfway to 2^128, and
    // the halfway point itself, which rounds to infinity.
    assert!(floating_literal_finite("340282346638528859811704183484516925440", true));
    assert!(floating_literal_finite("340282356779733661637539395458142568447", true));
    assert!(floating_literal_finite("3.40282356779733661637539395458142568447e38", true));
    assert!(!floating_literal_finite("340282356779733661637539395458142568448", true));
    assert!(!floating_literal_finite("340282356779733661637539395458142568448.0", true));
    assert!(floating_literal_finite("340282356779733661637539395458142568447.9999", true));
    assert!(!floating_literal_finite("340282356779733661637539395458142568448.0001", true));
}

#[test]
fn floating_literal_threshold_of_double_width() {
    assert!(floating_literal_finite("1.7976931348623157e308", false));
    assert!(floating_literal_finite("1.7976931348623158e308", false));
    assert!(!floating_literal_finite("1.7976931348623159e308", false));
    // The halfway point between the largest finite value and 2^1024, written
    // out and written with a scaled exponent, and the integer just below it.
    assert!(!floating_literal_finite("179769313486231580793728971405303415079934132710037826936173778980444968292764750946649017977587207096330286416692887910946555547851940402630657488671505820681908902000708383676273854845817711531764475730270069855571366959622842914819860834936475292719074168444365510704342711559699508093042880177904174497792", false));
    assert!(!floating_literal_finite("1797693134862315807937289714053034150799341327100378269361737789804449682927647509466490179775872070963302864166928879109465555478519404026306574886715058206819089020007083836762738548458177115317644757302700698555713669596228429148198608349364752927190741684443655107043427115596995080930428801779041744977920000000000000000000000000000000000000000000000000000000000000000000000000000000000000000000000000000000000000000000000000000000000000000000000000000000000000000e-160", false));
    assert!(floating_literal_finite("179769313486231580793728971405303415079934132710037826936173778980444968292764750946649017977587207096330286416692887910946555547851940402630657488671505820681908902000708383676273854845817711531764475730270069855571366959622842914819860834936475292719074168444365510704342711559699508093042880177904174497791", false));
}

#[test]
fn floating_literal_zero_and_tiny_values_are_finite() {
    assert!(floating_literal_finite("0e999999999999999999999999999", true));
    assert!(floating_literal_finite("0.000001e-400", false));
    assert!(floating_literal_finite("1e-99999999999999999999999999", true));
    assert!(!floating_literal_finite("1e99999999999999999999999999", false));
}

#[test]
fn floating_literal_malformed_text_is_refused() {
    for lexeme in ["", ".", "e5", "1e", "1e+", "+", "1.0.0", "1x", "inf", "nan", "infinity", "1e5.0", "--1"] {
        assert!(!floating_literal_finite(lexeme, false), "{}", lexeme);
        assert!(!floating_literal_finite(lexeme, true), "{}", lexeme);
    }
}

#[test]
fn integer_literal_bounds_of_each_native() {
    assert!(is_integer_representable_in_native("127", &NativeType::Int8, false));
    assert!(!is_integer_representable_in_native("128", &NativeType::Int8, false));
    assert!(is_integer_representable_in_native("128", &NativeType::Int8, true));
    assert!(!is_integer_representable_in_native("129", &NativeType::Int8, true));
    assert!(is_integer_representable_in_native("18446744073709551615", &NativeType::Uint64, false));
    assert!(!is_integer_representable_in_native("18446744073709551616", &NativeType::Uint64, false));
    assert!(is_integer_representable_in_native("99999999999999999999999999999999999999999", &NativeType::Dynamic, false));
    assert!(!is_integer_representable_in_native("1", &NativeType::Float, false));
}

#[test]
fn integer_literal_canonical_text() {
    assert_eq!(canonical_integer_string("000120"), "120");
    assert_eq!(canonical_integer_string("0000"), "0");
    assert_eq!(canonical_integer_string("7"), "7");
}

#[test]
fn string_literal_escapes_are_decoded() {
    assert_eq!(decode_string_literal("\"a\\nb\""), "a\nb");
    assert_eq!(decode_string_literal("\"tab\\there\""), "tab\there");
    assert_eq!(decode_string_literal("\"q\\\"q\""), "q\"q");
    assert_eq!(decode_string_literal("\"\""), "");
}
