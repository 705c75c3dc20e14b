use pygxml::number::{reads_as_number, Number, Readings};
use pygxml::path::Modifier;

fn number(value: f64) -> Number {
    Number::from_bits(value.to_bits())
}

#[test]
fn numerals_are_what_parses_as_a_double() {
    let texts = [
        "0", "30", "-7", "+5", "30.0", ".5", "5.", "1e3", "1E-3", "1e+3", "-.5e2", "inf", "-inf",
        "+inf", "infinity", "Infinity", "INF", "nan", "NaN", "-nan", "+NaN", "1_000", "0x10", "",
        ".", "+", "-", "e5", "1e", "1e+", "1.2.3", " 1", "1 ", "--1", "infinit", "in", "na",
        "1f", "١", "1.e5", ".e5", "00012", "9999999999999999999999", "1e999",
    ];
    for text in texts {
        assert_eq!(reads_as_number(text), text.parse::<f64>().is_ok(), "{:?}", text);
    }
}

#[test]
fn bits_keep_the_order_of_doubles() {
    let values = [
        f64::NEG_INFINITY,
        -1e300,
        -2.5,
        -1.0,
        -1e-310,
        -0.0,
        0.0,
        1e-310,
        1.0,
        2.5,
        1e300,
        f64::INFINITY,
        f64::NAN,
        -f64::NAN,
    ];
    for a in values {
        for b in values {
            assert_eq!(number(a).less(number(b)), a < b, "{} < {}", a, b);
            assert_eq!(number(a).equals(number(b)), a == b, "{} == {}", a, b);
        }
    }
}

#[test]
fn not_a_number_has_no_place() {
    assert!(matches!(number(f64::NAN), Number::Nan));
    assert!(!number(f64::NAN).equals(number(f64::NAN)));
    assert!(matches!(number(0.0), Number::Value(0)));
    assert!(matches!(number(-0.0), Number::Value(0)));
    assert!(matches!(number(f64::from_bits(1)), Number::Value(1)));
}

#[test]
fn readings_give_back_what_was_added() {
    let mut known = Readings::new();
    assert!(known.number("30").is_none());
    known.add_number("30".to_string(), number(30.0));
    known.add_number("x".to_string(), number(f64::NAN));
    assert!(known.number("30").unwrap().equals(number(30.0)));
    assert!(matches!(known.number("x"), Some(Number::Nan)));
    assert!(known.number("30.0").is_none());
}

#[test]
fn later_readings_replace_earlier_ones() {
    let mut known = Readings::new();
    known.add_number("a".to_string(), number(1.0));
    known.add_number("a".to_string(), number(2.0));
    assert!(known.number("a").unwrap().equals(number(2.0)));
}

#[test]
fn totals_go_by_modifier_and_numerals() {
    let texts = vec!["1".to_string(), "2".to_string()];
    let mut known = Readings::new();
    known.add_total(Modifier::Sum, texts.clone(), "3".to_string());
    assert_eq!(known.total(Modifier::Sum, &texts), Some("3"));
    assert_eq!(known.total(Modifier::Avg, &texts), None);
    assert_eq!(known.total(Modifier::Sum, &vec!["1".to_string()]), None);
    assert_eq!(known.total(Modifier::Sum, &vec!["2".to_string(), "1".to_string()]), None);
}
