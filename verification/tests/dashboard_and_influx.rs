use hacore::dashboard::{
    dashboard_key, dashboard_mqtt_handler, init, parse_value, publish_and_store, set_retained,
};
use hacore::db::VariableCache;
use hacore::influx::{base64_encode, write_request, write_throttled, Config, Field, Point, RateLimiter};
use hacore::mqtt::{QoS, Router};
use hacore::types::Value;

fn float_text(s: &str) -> Option<String> {
    s.parse::<f64>().ok().map(|f| f.to_string())
}

#[test]
fn keys_drop_the_tx_prefix() {
    assert_eq!(dashboard_key("dashboard/TX/heater"), "heater");
    assert_eq!(dashboard_key("dashboard/TX/a/b"), "a/b");
    assert_eq!(dashboard_key("dashboard/TX/"), "");
    assert_eq!(dashboard_key("dashboard/RX/heater"), "dashboard/RX/heater");
    assert_eq!(dashboard_key("other"), "other");
}

#[test]
fn payloads_parse_as_the_dashboard_means_them() {
    assert!(matches!(parse_value("true", float_text("true")), Value::Bool(true)));
    assert!(matches!(parse_value("false", float_text("false")), Value::Bool(false)));
    assert!(matches!(parse_value("42", float_text("42")), Value::Int(42)));
    assert!(matches!(parse_value("-7", float_text("-7")), Value::Int(-7)));
    match parse_value("21.50", float_text("21.50")) {
        Value::Float(t) => assert_eq!(t, "21.5"),
        _ => panic!("expected a float"),
    }
    match parse_value("on", float_text("on")) {
        Value::Text(t) => assert_eq!(t, "on"),
        _ => panic!("expected a text"),
    }
    match parse_value("True", float_text("True")) {
        Value::Text(t) => assert_eq!(t, "True"),
        _ => panic!("expected a text"),
    }
    // too large for an i64, so it is a float
    assert!(matches!(parse_value("99999999999999999999", float_text("99999999999999999999")), Value::Float(_)));
}

#[test]
fn incoming_dashboard_values_are_stored_under_their_key() {
    let mut cache = VariableCache::new();
    let u = dashboard_mqtt_handler(&mut cache, "dashboard/TX/target", "21", float_text("21"));
    assert_eq!(u.key, "target");
    assert!(matches!(u.value, Value::Int(21)));
    assert_eq!(
        u.statement.unwrap(),
        "INSERT OR REPLACE INTO variables (key,value,type) VALUES ('target','21','int')"
    );
    assert!(matches!(cache.get("target"), Some(Value::Int(21))));
}

#[test]
fn init_attaches_to_everything_the_dashboard_sends() {
    let mut r: Router<u8> = Router::new();
    let s = init(&mut r, 7);
    assert_eq!(s.topic, "dashboard/TX/#");
    assert_eq!(s.qos, QoS::AtLeastOnce);
    let got = r.message_callback(Some(hacore::mqtt::MessageData {
        topic: "dashboard/TX/x".to_string(),
        payload: "1".to_string(),
    }));
    assert_eq!(got.map(|p| p.0), Some(7));
}

#[test]
fn setting_publishes_on_rx_and_stores() {
    let mut cache = VariableCache::new();
    let o = hacore::dashboard::set(&mut cache, "lamp", Value::Bool(true));
    assert_eq!(o.publication.topic, "dashboard/RX/lamp");
    assert_eq!(o.publication.payload, "on");
    assert_eq!(o.publication.qos, QoS::AtLeastOnce);
    assert!(!o.publication.retain);
    assert!(matches!(cache.get("lamp"), Some(Value::Bool(true))));
    let o = set_retained(&mut cache, "temp", Value::Float(20.25f64.to_string()));
    assert!(o.publication.retain);
    assert_eq!(o.publication.payload, "20.25");
    let o = publish_and_store(&mut cache, "n", Value::Int(3), true);
    assert_eq!(o.publication.payload, "3");
    assert_eq!(
        o.statement.unwrap(),
        "INSERT OR REPLACE INTO variables (key,value,type) VALUES ('n','3','int')"
    );
}

#[test]
fn published_numbers_read_back() {
    for i in [0i64, 5, -9, i64::MAX, i64::MIN] {
        let text = Value::Int(i).to_string_value();
        match parse_value(&text, float_text(&text)) {
            Value::Int(j) => assert_eq!(i, j),
            _ => panic!("expected an integer"),
        }
    }
}

#[test]
fn base64_is_standard() {
    assert_eq!(base64_encode(""), "");
    assert_eq!(base64_encode("a"), "YQ==");
    assert_eq!(base64_encode("ab"), "YWI=");
    assert_eq!(base64_encode("abc"), "YWJj");
    assert_eq!(base64_encode("user:pass"), "dXNlcjpwYXNz");
    assert_eq!(base64_encode("Man is"), "TWFuIGlz");
    assert_eq!(base64_encode("ü?>"), "w7w/Pg==");
    for n in 0..10 {
        let s = "x".repeat(n);
        assert_eq!(base64_encode(&s).len(), 4 * ((n + 2) / 3));
    }
}

#[test]
fn field_values_in_line_protocol() {
    assert_eq!(Field::Int(3).to_line_value(), "3i");
    assert_eq!(Field::Int(-3).to_line_value(), "-3i");
    assert_eq!(Field::Bool(true).to_line_value(), "true");
    assert_eq!(Field::Float(1.25f64.to_string()).to_line_value(), "1.25");
    assert_eq!(Field::Text("a \"q\" \\".to_string()).to_line_value(), "\"a \\\"q\\\" \\\\\"");
    assert!(matches!(Field::from(4i64), Field::Int(4)));
    assert!(matches!(Field::from(false), Field::Bool(false)));
    assert!(matches!(Field::from("s".to_string()), Field::Text(_)));
}

#[test]
fn points_as_lines() {
    let p = Point::new("batt-v").field("value", Field::Float(13.2f64.to_string()));
    assert_eq!(p.to_line(), "batt-v value=13.2");
    let p = Point::new("my meas,x")
        .tag("room", "living room")
        .tag("a=b", "c,d")
        .field("t", Field::Int(20))
        .field("on", Field::Bool(false))
        .field("note", Field::Text("hi \"there\"".to_string()));
    assert_eq!(
        p.to_line(),
        "my\\ meas\\,x,room=living\\ room,a\\=b=c\\,d t=20i,on=false,note=\"hi \\\"there\\\"\""
    );
    assert_eq!(p.measurement(), "my meas,x");
    assert_eq!(Point::new("m").to_line(), "m ");
    assert_eq!(Point::new("back\\slash").to_line(), "back\\\\slash ");
}

#[test]
fn write_requests() {
    let cfg = Config {
        url: "http://127.0.0.1:8086".to_string(),
        database: "home".to_string(),
        username: Some("user".to_string()),
        password: Some("pass".to_string()),
    };
    let p = Point::new("m").field("v", Field::Int(1));
    let r = write_request(&cfg, &p);
    assert_eq!(r.url, "http://127.0.0.1:8086/write?db=home");
    assert_eq!(r.authorization.as_deref(), Some("Basic dXNlcjpwYXNz"));
    assert_eq!(r.body, "m v=1i");
    let cfg = Config { url: "u".to_string(), database: "d".to_string(), username: Some("x".to_string()), password: None };
    assert!(write_request(&cfg, &p).authorization.is_none());
}

#[test]
fn writes_are_throttled_per_measurement() {
    let mut lim = RateLimiter::new();
    assert!(lim.rate_limit_ok("a", 1_000, 500));
    assert!(!lim.rate_limit_ok("a", 1_200, 500));
    assert!(!lim.rate_limit_ok("a", 1_499, 500));
    assert!(lim.rate_limit_ok("b", 1_499, 500));
    assert!(lim.rate_limit_ok("a", 1_500, 500));
    assert!(!lim.rate_limit_ok("a", 1_999, 500));
    // a refused write does not move the window
    assert!(lim.rate_limit_ok("a", 2_000, 500));
    // a clock read earlier than the last write counts as no time passed
    assert!(!lim.rate_limit_ok("a", 10, 500));
    assert!(lim.rate_limit_ok("c", 10, 0));
    assert!(lim.rate_limit_ok("c", 10, 0));
}

#[test]
fn throttled_write_requests() {
    let cfg = Config { url: "u".to_string(), database: "d".to_string(), username: None, password: None };
    let mut lim = RateLimiter::new();
    let p = Point::new("m").field("v", Field::Int(1));
    assert!(write_throttled(&mut lim, &cfg, &p, 0, 100).is_some());
    assert!(write_throttled(&mut lim, &cfg, &p, 50, 100).is_none());
    let r = write_throttled(&mut lim, &cfg, &p, 100, 100).unwrap();
    assert_eq!(r.body, "m v=1i");
    assert_eq!(r.url, "u/write?db=d");
}

#[test]
fn config_defaults() {
    let c = Config::with_defaults(None, None, None, None);
    assert_eq!(c.url, "http://127.0.0.1:8086");
    assert_eq!(c.database, "home");
    assert!(c.username.is_none() && c.password.is_none());
    let c = Config::with_defaults(Some("http://db:1".to_string()), Some("x".to_string()), Some("u".to_string()), None);
    assert_eq!(c.url, "http://db:1");
    assert_eq!(c.database, "x");
    assert_eq!(c.username.as_deref(), Some("u"));
}

#[test]
fn different_keys_are_written_differently() {
    let a = Point::new("m").tag("a,b", "x").field("v", Field::Int(1)).to_line();
    let b = Point::new("m").tag("a\\,b", "x").field("v", Field::Int(1)).to_line();
    let c = Point::new("m").tag("a", "b,x").field("v", Field::Int(1)).to_line();
    assert_ne!(a, b);
    assert_ne!(a, c);
    assert_ne!(b, c);
    assert_eq!(a, "m,a\\,b=x v=1i");
    assert_eq!(b, "m,a\\\\\\,b=x v=1i");
}

#[test]
fn a_plain_write_holds_back_a_throttled_one() {
    let cfg = Config { url: "u".to_string(), database: "d".to_string(), username: None, password: None };
    let mut lim = RateLimiter::new();
    let p = Point::new("m").field("v", Field::Int(1));
    let r = hacore::influx::write(&mut lim, &cfg, &p, 1_000);
    assert_eq!(r.body, "m v=1i");
    assert_eq!(r.url, "u/write?db=d");
    assert!(write_throttled(&mut lim, &cfg, &p, 1_050, 100).is_none());
    assert!(write_throttled(&mut lim, &cfg, &p, 1_100, 100).is_some());
    // a plain write is never held back
    let _ = hacore::influx::write(&mut lim, &cfg, &p, 1_101);
    assert!(!lim.rate_limit_ok("m", 1_150, 100));
    assert!(lim.rate_limit_ok("other", 1_150, 100));
}

#[test]
fn text_fields_from_str() {
    match Field::from("hi") {
        Field::Text(t) => assert_eq!(t, "hi"),
        _ => panic!("expected a text field"),
    }
}
