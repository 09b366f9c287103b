use pg_machida::text::{str_eq, text_sql, u64_to_string};

#[test]
fn decimal_digits_of_integers() {
    assert_eq!(u64_to_string(0), "0");
    assert_eq!(u64_to_string(7), "7");
    assert_eq!(u64_to_string(10), "10");
    assert_eq!(u64_to_string(1234567890), "1234567890");
    assert_eq!(u64_to_string(u64::MAX), u64::MAX.to_string());
}

#[test]
fn text_equality_compares_characters() {
    assert!(str_eq("", ""));
    assert!(str_eq("BTC-USD", "BTC-USD"));
    assert!(!str_eq("BTC-USD", "BTC-USE"));
    assert!(!str_eq("BTC", "BTC-USD"));
    assert!(!str_eq("é", "e"));
    assert!(str_eq("é", "é"));
}

#[test]
fn sql_literals_double_single_quotes() {
    assert_eq!(text_sql(""), "''");
    assert_eq!(text_sql("alice"), "'alice'");
    assert_eq!(text_sql("O'Brien"), "'O''Brien'");
    assert_eq!(text_sql("''"), "''''''");
    assert_eq!(text_sql("é'x"), "'é''x'");
}
