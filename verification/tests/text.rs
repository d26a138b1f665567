use turbopack_trace_server::row::{render_value, render_values, TraceValue};
use turbopack_trace_server::span::SpanValue;
use turbopack_trace_server::text::{bool_to_text, i64_to_text, push_decimal, u64_to_text};

#[test]
fn unsigned_integers_are_written_in_decimal() {
    assert_eq!(u64_to_text(0), "0");
    assert_eq!(u64_to_text(7), "7");
    assert_eq!(u64_to_text(10), "10");
    assert_eq!(u64_to_text(1234567890), "1234567890");
    assert_eq!(u64_to_text(u64::MAX), "18446744073709551615");
    for n in [9u64, 99, 100, 101, 999_999, 1 << 40, u64::MAX - 1] {
        assert_eq!(u64_to_text(n), n.to_string());
    }
}

#[test]
fn signed_integers_are_written_with_their_sign() {
    assert_eq!(i64_to_text(0), "0");
    assert_eq!(i64_to_text(-1), "-1");
    assert_eq!(i64_to_text(42), "42");
    assert_eq!(i64_to_text(i64::MAX), "9223372036854775807");
    assert_eq!(i64_to_text(i64::MIN), "-9223372036854775808");
    for i in [-10i64, -9, 9, 10, -1_000_000_007, i64::MIN + 1] {
        assert_eq!(i64_to_text(i), i.to_string());
    }
}

#[test]
fn booleans_are_spelled_out() {
    assert_eq!(bool_to_text(true), "true");
    assert_eq!(bool_to_text(false), "false");
}

#[test]
fn push_decimal_appends_to_what_is_there() {
    let mut text = String::from("n=");
    push_decimal(&mut text, 305);
    assert_eq!(text, "n=305");
    push_decimal(&mut text, 0);
    assert_eq!(text, "n=3050");
}

#[test]
fn values_are_rendered_one_by_one_and_in_order() {
    assert!(matches!(render_value(&TraceValue::String("a b".into())), SpanValue::Text(t) if t == "a b"));
    assert!(matches!(render_value(&TraceValue::Bool(true)), SpanValue::Text(t) if t == "true"));
    assert!(matches!(render_value(&TraceValue::UInt(5)), SpanValue::Text(t) if t == "5"));
    assert!(matches!(render_value(&TraceValue::Int(-5)), SpanValue::Text(t) if t == "-5"));
    assert!(matches!(render_value(&TraceValue::Float(1.5f64.to_bits())), SpanValue::Float(bits) if f64::from_bits(bits) == 1.5));

    let rendered = render_values(&vec![
        ("first".to_string(), TraceValue::UInt(1)),
        ("second".to_string(), TraceValue::Float(0)),
        ("third".to_string(), TraceValue::Bool(false)),
    ]);
    assert_eq!(rendered.len(), 3);
    assert_eq!(rendered[0].0, "first");
    assert!(matches!(&rendered[0].1, SpanValue::Text(t) if t == "1"));
    assert_eq!(rendered[1].0, "second");
    assert!(matches!(rendered[1].1, SpanValue::Float(0)));
    assert_eq!(rendered[2].0, "third");
    assert!(matches!(&rendered[2].1, SpanValue::Text(t) if t == "false"));
    assert!(render_values(&Vec::new()).is_empty());
}
