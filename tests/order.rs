use log4rs_routing_appender::template::ValueTemplate;
use log4rs_routing_appender::value::Value;
use std::cmp::Ordering;

fn t(v: Value) -> ValueTemplate {
    ValueTemplate::new(&v).unwrap()
}

fn f32v(x: f32) -> ValueTemplate {
    t(Value::Float32Bits(x.to_bits()))
}

fn f64v(x: f64) -> ValueTemplate {
    t(Value::Float64Bits(x.to_bits()))
}

#[test]
fn variants_order_by_rank() {
    assert_eq!(t(Value::Bool(true)).compare(&t(Value::Usize(0))), Ordering::Less);
    assert_eq!(t(Value::Bytes(vec![])).compare(&t(Value::Unit)), Ordering::Greater);
    assert_eq!(t(Value::Str("a".to_string())).discriminant(), 14);
    assert_eq!(t(Value::Mapping(vec![])).discriminant(), 20);
}

#[test]
fn floats_order_like_ordered_float() {
    let nan = f32::from_bits(0x7fc0_0001);
    assert_eq!(f32v(f32::NAN).compare(&f32v(nan)), Ordering::Equal);
    assert!(f32v(f32::NAN) == f32v(-f32::NAN));
    assert_eq!(f32v(f32::INFINITY).compare(&f32v(f32::NAN)), Ordering::Less);
    assert!(f32v(0.0) == f32v(-0.0));
    assert_eq!(f32v(-1.5).compare(&f32v(-0.5)), Ordering::Less);
    assert_eq!(f32v(2.0).compare(&f32v(1.0)), Ordering::Greater);
    assert_eq!(f32v(f32::NEG_INFINITY).compare(&f32v(-1e30)), Ordering::Less);
    assert_eq!(f64v(f64::NAN).compare(&f64v(1e300)), Ordering::Greater);
    assert!(f64v(0.0) == f64v(-0.0));
    assert_eq!(f64v(-2.0).compare(&f64v(1.0)), Ordering::Less);
}

#[test]
fn strings_and_sequences_order_lexicographically() {
    let s = |x: &str| t(Value::Str(x.to_string()));
    assert_eq!(s("ab").compare(&s("b")), Ordering::Less);
    assert_eq!(s("ab").compare(&s("a")), Ordering::Greater);
    assert!(s("x${mdc(k)}") == s("x${mdc(k)}"));
    // literal text orders before a placeholder
    assert_eq!(s("z").compare(&s("${mdc(a)}")), Ordering::Less);
    let seq = |xs: Vec<u8>| t(Value::Sequence(xs.into_iter().map(Value::U8).collect()));
    assert_eq!(seq(vec![1, 2]).compare(&seq(vec![1, 3])), Ordering::Less);
    assert_eq!(seq(vec![1, 2, 0]).compare(&seq(vec![1, 2])), Ordering::Greater);
    assert!(seq(vec![4]) == seq(vec![4]));
}

#[test]
fn options_maps_and_bytes() {
    let none = t(Value::Optional(None));
    let some = t(Value::Optional(Some(Box::new(Value::I8(-1)))));
    assert_eq!(none.compare(&some), Ordering::Less);
    let m = |k: &str, v: i32| {
        t(Value::Mapping(vec![(Value::Str(k.to_string()), Value::I32(v))]))
    };
    assert_eq!(m("a", 2).compare(&m("a", 1)), Ordering::Greater);
    assert_eq!(m("a", 9).compare(&m("b", 1)), Ordering::Less);
    assert_eq!(t(Value::Bytes(vec![1, 255])).compare(&t(Value::Bytes(vec![2]))), Ordering::Less);
    assert_eq!(
        t(Value::Newtype(Box::new(Value::Char('b')))).compare(&t(Value::Newtype(Box::new(Value::Char('a'))))),
        Ordering::Greater
    );
}
