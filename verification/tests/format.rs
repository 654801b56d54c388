//! Records and JSON values.

use std::cmp::Ordering::{Equal, Greater, Less};
use xort::json_format::{json_key, JKey};
use xort::external::parse_size;

fn num(v: f64) -> JKey {
    JKey::Num(v.to_bits())
}

#[test]
fn jkey_type_ordering() {
    // Null < Bool < Number < String
    assert_eq!(JKey::Null.cmp(&JKey::Bool(false)), Less);
    assert_eq!(JKey::Bool(true).cmp(&num(0.0)), Less);
    assert_eq!(num(5.0).cmp(&JKey::Str("a".into())), Less);
    assert_eq!(num(2.0).cmp(&num(10.0)), Less);
    assert_eq!(JKey::Str("a".into()).cmp(&JKey::Str("b".into())), Less);
    assert_eq!(JKey::Bool(false).cmp(&JKey::Bool(true)), Less);
}

#[test]
fn json_key_path_navigation() {
    let v: serde_json::Value =
        serde_json::from_str(r#"{"user":{"age":30,"name":"x"}}"#).unwrap();
    assert_eq!(
        json_key(&v, &vec!["user".into(), "age".into()]).cmp(&num(30.0)),
        Equal
    );
    // A path that leads nowhere gives null.
    assert_eq!(json_key(&v, &vec!["nope".into()]).cmp(&JKey::Null), Equal);
}

#[test]
fn json_keys_cover_all_kinds() {
    let v: serde_json::Value = serde_json::from_str(
        r#"{"t":true,"s":"é","n":-2.5,"big":18446744073709551615,"a":[1,{"b":2}],"z":null}"#,
    )
    .unwrap();
    let at = |name: &str| json_key(&v, &vec![name.to_string()]);
    assert_eq!(at("t").cmp(&JKey::Bool(true)), Equal);
    assert_eq!(at("s").cmp(&JKey::Str("é".into())), Equal);
    assert_eq!(at("n").cmp(&num(-2.5)), Equal);
    // The double nearest to it is larger by one.
    assert_eq!(at("big").cmp(&num(18446744073709551615.0)), Less);
    assert_eq!(at("big").cmp(&JKey::Int(18446744073709551615)), Equal);
    assert_eq!(at("a").cmp(&JKey::Other("[1,{\"b\":2}]".into())), Equal);
    assert_eq!(at("z").cmp(&JKey::Null), Equal);
    assert_eq!(at("a").rank(), 4);
    assert_eq!(num(-1.0).cmp(&num(1.0)), Less);
    assert_eq!(num(-1.0).cmp(&num(-2.0)), Greater);
    assert_eq!(JKey::Str("b".into()).cmp(&JKey::Other("[]".into())), Less);
}

#[test]
fn json_numbers_order_by_value() {
    let key = |text: &str| {
        let v: serde_json::Value = serde_json::from_str(text).unwrap();
        json_key(&v, &Vec::new())
    };
    // Integers are not rounded.
    assert_eq!(key("9007199254740993").cmp(&key("9007199254740992")), Greater);
    assert_eq!(key("-9007199254740993").cmp(&key("-9007199254740992")), Less);
    assert_eq!(key("9223372036854775807").cmp(&key("9223372036854775808")), Less);
    // Integers and doubles compare by value.
    assert_eq!(key("9007199254740993").cmp(&key("9007199254740992.0")), Greater);
    assert_eq!(key("9007199254740992").cmp(&key("9007199254740992.0")), Equal);
    assert_eq!(key("1").cmp(&key("1.0")), Equal);
    assert_eq!(key("1e2").cmp(&key("100")), Equal);
    assert_eq!(key("1").cmp(&key("1.5")), Less);
    assert_eq!(key("-1").cmp(&key("-1.5")), Greater);
    assert_eq!(key("-2").cmp(&key("-1.5")), Less);
    assert_eq!(key("0").cmp(&key("5e-324")), Less);
    assert_eq!(key("-1").cmp(&key("-5e-324")), Less);
    assert_eq!(key("18446744073709551615").cmp(&key("1e300")), Less);
    assert_eq!(key("18446744073709551615").cmp(&key("18446744073709551616")), Less);
    assert_eq!(key("-9223372036854775808").cmp(&key("-9223372036854775809")), Equal);
    assert_eq!(key("0").cmp(&key("0.0")), Equal);
    // Negative zero comes right before zero.
    assert_eq!(key("-0.0").cmp(&key("0")), Less);
    assert_eq!(key("-5e-324").cmp(&key("-0.0")), Less);
    // Integers beyond 64 bits, on their own.
    assert_eq!(JKey::Int(i128::MIN).cmp(&num(-170141183460469231731687303715884105728.0)), Equal);
    assert_eq!(JKey::Int(i128::MAX).cmp(&num(170141183460469231731687303715884105728.0)), Less);
    assert_eq!(JKey::Int(i128::MAX).cmp(&num(f64::INFINITY)), Less);
}

#[test]
fn sizes() {
    assert_eq!(parse_size("500").unwrap(), 500);
    assert_eq!(parse_size("64K").unwrap(), 64 * 1024);
    assert_eq!(parse_size("2M").unwrap(), 2 * 1024 * 1024);
    assert_eq!(parse_size("1G").unwrap(), 1024 * 1024 * 1024);
    assert!(parse_size("abc").is_err());
}

#[test]
fn sizes_all_suffixes_and_edges() {
    // A `b` or `B` means bytes.
    assert_eq!(parse_size("42b").unwrap(), 42);
    assert_eq!(parse_size("7B").unwrap(), 7);
    assert_eq!(parse_size("1T").unwrap(), (1u64 << 40) as usize);
    assert_eq!(parse_size("1P").unwrap(), (1u64 << 50) as usize);
    // Either case, and white space around.
    assert_eq!(parse_size("3k").unwrap(), 3 * 1024);
    assert_eq!(parse_size("  8m  ").unwrap(), 8 * 1024 * 1024);
    // A size of 0 counts as 1.
    assert_eq!(parse_size("0").unwrap(), 1);
    assert!(parse_size("").is_err());
    assert!(parse_size("   ").is_err());
}

#[test]
fn sizes_that_do_not_fit_are_cut_off() {
    assert_eq!(parse_size("18446744073709551615").unwrap(), usize::MAX);
    assert_eq!(parse_size("99999999P").unwrap(), usize::MAX);
    assert_eq!(parse_size("18446744073709551616").unwrap_err(), "invalid buffer size '18446744073709551616'");
    assert_eq!(parse_size("+5").unwrap(), 5);
    assert_eq!(parse_size(" 5 K ").unwrap(), 5120);
    assert_eq!(parse_size("-5").unwrap_err(), "invalid buffer size '-5'");
    assert_eq!(parse_size("K").unwrap_err(), "invalid buffer size 'K'");
    assert_eq!(parse_size("5%").unwrap_err(), "invalid buffer size '5%'");
}
