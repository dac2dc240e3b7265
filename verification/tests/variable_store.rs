use hacore::db::{
    decode_rows, get_bool, get_i64, get_string, plan_read, read_variable, read_variable_default,
    schema_statements, select_query, set_bool, set_i64, set_string, store_statement,
    store_variable, Cell, ReadPlan, VariableCache,
};
use hacore::types::{DbError, Value};

fn cell(name: &str, text: Option<&str>) -> Cell {
    Cell {
        name: name.to_string(),
        text: text.map(|t| t.to_string()),
        float_text: text.and_then(|t| t.parse::<f64>().ok()).map(|f| f.to_string()),
    }
}

fn row(value: Option<&str>, tp: Option<&str>) -> Vec<Cell> {
    vec![cell("value", value), cell("type", tp)]
}

fn sqlite_error() -> sqlite::Error {
    sqlite::Error { code: Some(5), message: Some("database is locked".to_string()) }
}

#[test]
fn store_statements_name_type_and_text() {
    assert_eq!(
        store_statement("k", &Value::Int(5)).unwrap(),
        "INSERT OR REPLACE INTO variables (key,value,type) VALUES ('k','5','int')"
    );
    assert_eq!(
        store_statement("name", &Value::Text("bob".to_string())).unwrap(),
        "INSERT OR REPLACE INTO variables (key,value,type) VALUES ('name','bob','string')"
    );
    assert_eq!(
        store_statement("t", &Value::Float(21.5f64.to_string())).unwrap(),
        "INSERT OR REPLACE INTO variables (key,value,type) VALUES ('t','21.5','float')"
    );
    assert_eq!(
        store_statement("b", &Value::Bool(true)).unwrap(),
        "INSERT OR REPLACE INTO variables (key,value,type) VALUES ('b','1','bool')"
    );
    assert_eq!(
        store_statement("b", &Value::Bool(false)).unwrap(),
        "INSERT OR REPLACE INTO variables (key,value,type) VALUES ('b','0','bool')"
    );
    assert!(store_statement("n", &Value::Null).is_none());
}

#[test]
fn select_query_reads_one_row() {
    assert_eq!(select_query("k"), "SELECT value,type FROM variables WHERE key='k' LIMIT 1");
}

#[test]
fn schema_has_the_table_and_journal_settings() {
    let s = schema_statements();
    assert_eq!(s.len(), 3);
    assert_eq!(s[0], "CREATE TABLE variables (key TEXT PRIMARY KEY, type TEXT, value);");
    assert_eq!(s[1], "PRAGMA journal_mode=WAL;");
    assert_eq!(s[2], "PRAGMA synchronous=NORMAL;");
}

#[test]
fn read_after_store_comes_from_the_cache() {
    let mut cache = VariableCache::new();
    let stmt = store_variable(&mut cache, "k", Value::Int(7));
    assert!(stmt.is_some());
    match plan_read(&cache, "k") {
        ReadPlan::Cached(v) => assert!(matches!(v, Value::Int(7))),
        ReadPlan::Query(_) => panic!("expected a cached value"),
    }
    // whatever the database says, the cached value wins
    let r = read_variable(&mut cache, "k", Err(sqlite_error()));
    assert!(matches!(r, Ok(Value::Int(7))));
}

#[test]
fn null_is_cached_but_not_written() {
    let mut cache = VariableCache::new();
    assert!(store_variable(&mut cache, "n", Value::Null).is_none());
    assert!(matches!(cache.get("n"), Some(Value::Null)));
}

#[test]
fn a_miss_asks_for_the_row() {
    let cache = VariableCache::new();
    match plan_read(&cache, "x") {
        ReadPlan::Query(q) => assert_eq!(q, select_query("x")),
        ReadPlan::Cached(_) => panic!("nothing is cached"),
    }
}

#[test]
fn rows_decode_by_type() {
    assert!(matches!(decode_rows(&vec![row(Some("42"), Some("int"))]), Ok(Value::Int(42))));
    assert!(matches!(decode_rows(&vec![row(Some("x"), Some("int"))]), Err(DbError::NotFound)));
    match decode_rows(&vec![row(Some("hi"), Some("string"))]) {
        Ok(Value::Text(t)) => assert_eq!(t, "hi"),
        _ => panic!("expected a text"),
    }
    match decode_rows(&vec![row(Some("1.50"), Some("float"))]) {
        Ok(Value::Float(t)) => assert_eq!(t, "1.5"),
        _ => panic!("expected a float"),
    }
    assert!(matches!(decode_rows(&vec![row(Some("abc"), Some("float"))]), Err(DbError::NotFound)));
    assert!(matches!(decode_rows(&vec![row(Some("1"), Some("bool"))]), Ok(Value::Bool(true))));
    assert!(matches!(decode_rows(&vec![row(Some("true"), Some("bool"))]), Ok(Value::Bool(true))));
    assert!(matches!(decode_rows(&vec![row(Some("0"), Some("bool"))]), Ok(Value::Bool(false))));
    assert!(matches!(decode_rows(&vec![row(Some("false"), Some("bool"))]), Ok(Value::Bool(false))));
    assert!(matches!(decode_rows(&vec![row(Some("yes"), Some("bool"))]), Err(DbError::NotFound)));
}

#[test]
fn unknown_types_and_missing_rows() {
    assert!(matches!(decode_rows(&vec![]), Err(DbError::NotFound)));
    assert!(matches!(decode_rows(&vec![row(Some("1"), Some("blob"))]), Err(DbError::InvalidType)));
    assert!(matches!(decode_rows(&vec![row(Some("1"), None)]), Err(DbError::InvalidType)));
    // an unknown type in any row makes the whole read invalid
    assert!(matches!(
        decode_rows(&vec![row(Some("1"), Some("blob")), row(Some("2"), Some("int"))]),
        Err(DbError::InvalidType)
    ));
    // otherwise the last row wins
    assert!(matches!(
        decode_rows(&vec![row(Some("1"), Some("int")), row(Some("2"), Some("int"))]),
        Ok(Value::Int(2))
    ));
}

#[test]
fn a_null_value_column_reads_as_empty() {
    match decode_rows(&vec![row(None, Some("string"))]) {
        Ok(Value::Text(t)) => assert_eq!(t, ""),
        _ => panic!("expected an empty text"),
    }
}

#[test]
fn a_read_from_the_database_is_cached() {
    let mut cache = VariableCache::new();
    let r = read_variable(&mut cache, "k", Ok(vec![row(Some("9"), Some("int"))]));
    assert!(matches!(r, Ok(Value::Int(9))));
    assert!(matches!(cache.get("k"), Some(Value::Int(9))));
}

#[test]
fn failed_reads_leave_the_cache_alone() {
    let mut cache = VariableCache::new();
    let r = read_variable(&mut cache, "k", Err(sqlite_error()));
    match r {
        Err(DbError::Sqlite(e)) => assert_eq!(e.code, Some(5)),
        _ => panic!("expected the sqlite error"),
    }
    assert!(cache.get("k").is_none());
    let r = read_variable(&mut cache, "k", Ok(vec![]));
    assert!(matches!(r, Err(DbError::NotFound)));
    assert!(cache.get("k").is_none());
}

#[test]
fn defaults_and_getters() {
    assert!(matches!(read_variable_default(Err(DbError::NotFound), Value::Int(3)), Value::Int(3)));
    assert!(matches!(read_variable_default(Ok(Value::Bool(true)), Value::Int(3)), Value::Bool(true)));
    assert_eq!(get_i64(Ok(Value::Int(5)), 1), 5);
    assert_eq!(get_i64(Err(DbError::NotFound), 1), 1);
    assert_eq!(get_bool(Ok(Value::Bool(false)), true), false);
    assert_eq!(get_bool(Err(DbError::InvalidType), true), true);
    assert_eq!(get_string(Ok(Value::Text("a".to_string())), "d"), "a");
    assert_eq!(get_string(Err(DbError::NotFound), "d"), "d");
}

#[test]
fn setters_store_and_return_statements() {
    let mut cache = VariableCache::new();
    assert_eq!(
        set_i64(&mut cache, "a", -3).unwrap(),
        "INSERT OR REPLACE INTO variables (key,value,type) VALUES ('a','-3','int')"
    );
    assert_eq!(
        set_bool(&mut cache, "b", true).unwrap(),
        "INSERT OR REPLACE INTO variables (key,value,type) VALUES ('b','1','bool')"
    );
    assert_eq!(
        set_string(&mut cache, "c", "hey").unwrap(),
        "INSERT OR REPLACE INTO variables (key,value,type) VALUES ('c','hey','string')"
    );
    assert!(matches!(cache.get("a"), Some(Value::Int(-3))));
    assert!(matches!(cache.get("b"), Some(Value::Bool(true))));
    assert_eq!(cache.get("c").unwrap().as_str().unwrap(), "hey");
}

#[test]
fn stored_rows_read_back() {
    for v in [Value::Int(-12), Value::Bool(true), Value::Bool(false), Value::Text("x y".to_string()), Value::Float(0.1f64.to_string())] {
        let stored_text = match &v {
            Value::Bool(b) => if *b { "1".to_string() } else { "0".to_string() },
            other => other.to_string_value(),
        };
        let tp = match &v {
            Value::Int(_) => "int",
            Value::Bool(_) => "bool",
            Value::Text(_) => "string",
            Value::Float(_) => "float",
            Value::Null => unreachable!(),
        };
        let r = decode_rows(&vec![row(Some(&stored_text), Some(tp))]).unwrap();
        assert_eq!(r.to_string_value(), v.to_string_value());
    }
}
