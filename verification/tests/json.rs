//! JSON documents, texts and orders.

use speed_panel::json::{integer_in, natural_in, parse, put_member, text_in, to_text, Json};
use speed_panel::order::{sort, text_precedes};
use speed_panel::text::{
    contains, decimal_text, ends_with, equal_but_for_case, padded_text, same_text, starts_with,
    text_of, trim,
};

fn document() -> Json {
    let mut m = Vec::new();
    put_member(&mut m, "n", Json::Integer(u64::MAX as i128));
    put_member(&mut m, "i", Json::Integer(i64::MIN as i128));
    put_member(&mut m, "s", Json::Text("\"quoted\"\n快".to_string()));
    put_member(&mut m, "l", Json::List(vec![Json::Null, Json::Bool(true), Json::List(Vec::new())]));
    Json::Object(m)
}

#[test]
fn what_is_written_reads_back() {
    let j = document();
    let back = parse(&to_text(&j)).unwrap();
    assert_eq!(natural_in(back.get("n")), Some(u64::MAX));
    assert_eq!(integer_in(back.get("n")), None);
    assert_eq!(integer_in(back.get("i")), Some(i64::MIN));
    assert_eq!(natural_in(back.get("i")), None);
    assert_eq!(text_in(back.get("s")).as_deref(), Some("\"quoted\"\n快"));
    assert_eq!(back.get("l").and_then(|l| l.as_array()).map(Vec::len), Some(3));
    assert!(back.get("l").unwrap().as_array().unwrap()[0].is_null());
    assert!(back.is_object());
    assert_eq!(parse(&to_text(&back)), Some(back));
}

#[test]
fn documents_that_are_read() {
    assert_eq!(parse("1.5"), Some(Json::Fraction));
    assert_eq!(parse("1e400"), None);
    assert_eq!(parse(" -7 "), Some(Json::Integer(-7)));
    assert_eq!(parse("18446744073709551616"), Some(Json::Fraction));
    assert_eq!(parse("{\"a\":1,\"a\":2}").unwrap().get("a").and_then(Json::as_i64), Some(2));
    assert_eq!(parse("{\"a\":1}").unwrap().get("b"), None);
    assert_eq!(parse("[1").is_none(), true);
    assert_eq!(parse("").is_none(), true);
    let nested = |n: usize| "[".repeat(n) + &"]".repeat(n);
    assert!(parse(&nested(127)).is_some());
    assert!(parse(&nested(128)).is_none());
}

#[test]
fn of_two_members_of_one_name_the_last_counts() {
    let mut m = Vec::new();
    put_member(&mut m, "a", Json::Integer(1));
    put_member(&mut m, "a", Json::Integer(2));
    let j = Json::Object(m);
    assert_eq!(integer_in(j.get("a")), Some(2));
    assert_eq!(integer_in(parse(r#"{"a":1,"a":2}"#).unwrap().get("a")), Some(2));
}

#[test]
fn texts() {
    assert_eq!(trim(" \t\u{3000}a b\n"), "a b");
    assert_eq!(trim(" \n"), "");
    assert!(contains("abcabd", "abd"));
    assert!(!contains("abcab", "abd"));
    assert!(contains("x", ""));
    assert!(starts_with("abc", "ab") && !starts_with("a", "ab"));
    assert!(ends_with("abc", "bc") && !ends_with("c", "bc"));
    assert!(same_text("快", "快") && !same_text("a", "b"));
    assert!(equal_but_for_case("ZCode.EXE", "zcode.exe"));
    assert!(!equal_but_for_case("É", "é"));
    assert_eq!(decimal_text(0), "0");
    assert_eq!(decimal_text(u64::MAX), u64::MAX.to_string());
    assert_eq!(padded_text(7, 3), "007");
    assert_eq!(padded_text(12345, 3), "12345");
    assert_eq!(text_of(&['a', '…']), "a…");
}

#[test]
fn orders() {
    assert_eq!(sort(vec![3i64, -1, 2, 3]), vec![-1, 2, 3, 3]);
    assert_eq!(sort(Vec::<i64>::new()), Vec::<i64>::new());
    assert!(text_precedes("a", "ab") && text_precedes("a", "b") && text_precedes("", ""));
    assert!(!text_precedes("b", "a"));
}
