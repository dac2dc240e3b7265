use hacore::text::{int_to_text, parse_i64, same_text};
use hacore::types::{DbError, Value};

#[test]
fn parse_i64_accepts_what_std_accepts() {
    for s in ["0", "12", "-12", "+7", "007", "9223372036854775807", "-9223372036854775808"] {
        assert_eq!(parse_i64(s), s.parse::<i64>().ok(), "{}", s);
    }
    assert_eq!(parse_i64("9223372036854775807"), Some(i64::MAX));
    assert_eq!(parse_i64("-9223372036854775808"), Some(i64::MIN));
}

#[test]
fn parse_i64_rejects_what_std_rejects() {
    for s in ["", "+", "-", "1a", " 1", "1 ", "9223372036854775808", "-9223372036854775809", "1.0", "--1", "+-1", "99999999999999999999999"] {
        assert_eq!(parse_i64(s), None, "{}", s);
        assert_eq!(s.parse::<i64>().ok(), None, "{}", s);
    }
}

#[test]
fn int_to_text_is_display() {
    for v in [0i64, 7, -5, 1234567890, i64::MIN, i64::MAX] {
        assert_eq!(int_to_text(v), v.to_string());
        assert_eq!(parse_i64(&int_to_text(v)), Some(v));
    }
}

#[test]
fn same_text_compares_chars() {
    assert!(same_text("abc", "abc"));
    assert!(!same_text("abc", "abd"));
    assert!(!same_text("ab", "abc"));
    assert!(same_text("", ""));
}

#[test]
fn typed_accessors() {
    let t = Value::Text("hi".to_string());
    assert_eq!(t.as_str().unwrap(), "hi");
    assert!(matches!(t.as_i64(), Err(DbError::InvalidType)));
    assert!(matches!(Value::Int(4).as_i64(), Ok(4)));
    assert!(matches!(Value::Bool(true).as_bool(), Ok(true)));
    assert!(matches!(Value::Null.as_bool(), Err(DbError::InvalidType)));
    assert!(matches!(Value::Int(1).as_str(), Err(DbError::InvalidType)));
}

#[test]
fn accessors_with_defaults() {
    assert_eq!(Value::Text("x".to_string()).as_str_or("d"), "x");
    assert_eq!(Value::Int(3).as_str_or("d"), "d");
    assert_eq!(Value::Int(3).as_i64_or(9), 3);
    assert_eq!(Value::Bool(true).as_i64_or(9), 9);
    assert_eq!(Value::Bool(false).as_bool_or(true), false);
    assert_eq!(Value::Null.as_bool_or(true), true);
}

#[test]
fn string_values() {
    assert_eq!(Value::Text("abc".to_string()).to_string_value(), "abc");
    assert_eq!(Value::Int(-42).to_string_value(), "-42");
    assert_eq!(Value::Float(1.5f64.to_string()).to_string_value(), "1.5");
    assert_eq!(Value::Bool(true).to_string_value(), "on");
    assert_eq!(Value::Bool(false).to_string_value(), "off");
    assert_eq!(Value::Null.to_string_value(), "");
}

#[test]
fn to_bool_reads_words_numbers_and_floats() {
    for w in ["true", "TRUE", "On", "1", "yes", "YES"] {
        assert!(matches!(Value::Text(w.to_string()).to_bool(), Ok(true)), "{}", w);
    }
    for w in ["false", "Off", "0", "no", "NO"] {
        assert!(matches!(Value::Text(w.to_string()).to_bool(), Ok(false)), "{}", w);
    }
    for w in ["maybe", "", " true", "2"] {
        assert!(matches!(Value::Text(w.to_string()).to_bool(), Err(DbError::InvalidType)), "{}", w);
    }
    assert!(matches!(Value::Int(0).to_bool(), Ok(false)));
    assert!(matches!(Value::Int(-3).to_bool(), Ok(true)));
    assert!(matches!(Value::Float(0.0f64.to_string()).to_bool(), Ok(false)));
    assert!(matches!(Value::Float((-0.0f64).to_string()).to_bool(), Ok(false)));
    assert!(matches!(Value::Float(0.25f64.to_string()).to_bool(), Ok(true)));
    assert!(matches!(Value::Float(f64::NAN.to_string()).to_bool(), Ok(true)));
    assert!(matches!(Value::Bool(true).to_bool(), Ok(true)));
    assert!(matches!(Value::Null.to_bool(), Err(DbError::InvalidType)));
}

#[test]
fn bool_word_reads_lowered_words() {
    assert!(matches!(hacore::types::bool_word("yes"), Ok(true)));
    assert!(matches!(hacore::types::bool_word("no"), Ok(false)));
    assert!(matches!(hacore::types::bool_word("Yes"), Err(DbError::InvalidType)));
}

#[test]
fn clone_keeps_the_value() {
    let v = Value::Text("abc".to_string());
    let w = v.clone();
    assert_eq!(w.as_str().unwrap(), "abc");
}

#[test]
fn sqlite_errors_convert() {
    let e = sqlite::Error { code: Some(1), message: Some("boom".to_string()) };
    let d: DbError = DbError::from(e);
    match d {
        DbError::Sqlite(e) => assert_eq!(e.code, Some(1)),
        _ => panic!("expected a sqlite error"),
    }
}

#[test]
fn to_int_reads_each_kind() {
    assert!(matches!(Value::Int(7).to_int(0), Ok(7)));
    assert!(matches!(Value::Bool(true).to_int(0), Ok(1)));
    assert!(matches!(Value::Bool(false).to_int(5), Ok(0)));
    assert!(matches!(Value::Text("-12".to_string()).to_int(0), Ok(-12)));
    assert!(matches!(Value::Text("1.5".to_string()).to_int(0), Err(DbError::InvalidType)));
    assert!(matches!(Value::Null.to_int(0), Err(DbError::InvalidType)));
    let f = 2.9f64;
    assert!(matches!(Value::Float(f.to_string()).to_int(f as i64), Ok(2)));
}
