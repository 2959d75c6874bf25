use spatialos_sdk::order::bytes_less;
use spatialos_sdk::schema::Scalar;
use spatialos_sdk::value::{key_less, Value};

#[test]
fn bytes_are_ordered_lexicographically() {
    assert!(bytes_less(&[], &[0]));
    assert!(!bytes_less(&[], &[]));
    assert!(!bytes_less(&[0], &[]));
    assert!(bytes_less(&[1, 2], &[1, 3]));
    assert!(!bytes_less(&[1, 3], &[1, 2]));
    assert!(bytes_less(&[1, 2], &[1, 2, 0]));
    assert!(!bytes_less(&[1, 2, 0], &[1, 2]));
    assert!(bytes_less(&[1, 255], &[2]));
    assert!(!bytes_less(&[7, 7], &[7, 7]));
}

#[test]
fn keys_are_ordered_within_their_type() {
    let i = |x: i64| Value::Scalar(Scalar::I64(x));
    assert!(key_less(&i(-5), &i(3)));
    assert!(!key_less(&i(3), &i(3)));
    assert!(!key_less(&i(4), &i(3)));
    assert!(key_less(&Value::Scalar(Scalar::U32(1)), &Value::Scalar(Scalar::U32(2))));
    assert!(key_less(&Value::Scalar(Scalar::I32(-1)), &Value::Scalar(Scalar::I32(0))));
    assert!(key_less(&Value::Scalar(Scalar::U64(0)), &Value::Scalar(Scalar::U64(u64::MAX))));
    assert!(!key_less(&Value::Scalar(Scalar::U32(1)), &Value::Scalar(Scalar::U64(2))));
    assert!(!key_less(&Value::Scalar(Scalar::F32(1)), &Value::Scalar(Scalar::F32(2))));
    let t = |s: &str| Value::Text(s.to_string());
    assert!(key_less(&t("a"), &t("b")));
    assert!(key_less(&t("a"), &t("ab")));
    assert!(key_less(&t("z"), &t("é")));
    assert!(!key_less(&t("b"), &t("a")));
    assert!(key_less(&Value::Bytes(vec![1]), &Value::Bytes(vec![1, 0])));
    assert!(!key_less(&Value::Bytes(vec![1]), &t("b")));
}
