use hacore::mqtt::{topic_matches, MessageData, QoS, Router};

fn msg(topic: &str, payload: &str) -> Option<MessageData> {
    Some(MessageData { topic: topic.to_string(), payload: payload.to_string() })
}

#[test]
fn filters_match_topics() {
    assert!(topic_matches("#", "a/b/c"));
    assert!(topic_matches("#", ""));
    assert!(topic_matches("a/+", "a/b"));
    assert!(!topic_matches("a/+", "a/b/c"));
    assert!(!topic_matches("a/+", "a"));
    assert!(topic_matches("a/#", "a"));
    assert!(topic_matches("a/#", "a/b/c"));
    assert!(topic_matches("a/b", "a/b"));
    assert!(!topic_matches("a/b", "a/c"));
    assert!(!topic_matches("a/b", "a/b/c"));
    assert!(!topic_matches("a/b/c", "a/b"));
    assert!(topic_matches("+/+", "x/y"));
    assert!(topic_matches("+", ""));
    assert!(topic_matches("", ""));
    assert!(topic_matches("a//b", "a//b"));
    assert!(!topic_matches("a/b", "a//b"));
    assert!(topic_matches("dashboard/TX/#", "dashboard/TX/temp"));
    assert!(!topic_matches("dashboard/TX/#", "dashboard/RX/temp"));
    // `#` ends matching wherever it stands
    assert!(topic_matches("a/#/c", "a/x"));
}

#[test]
fn messages_go_to_the_first_matching_handler() {
    let mut r: Router<u32> = Router::new();
    let s = r.attach_handler("sensors/+", QoS::AtMostOnce, 1);
    assert_eq!(s.topic, "sensors/+");
    assert_eq!(s.qos, QoS::AtMostOnce);
    r.attach_handler("sensors/#", QoS::AtLeastOnce, 2);
    r.attach_handler("#", QoS::ExactlyOnce, 3);
    match r.message_callback(msg("sensors/t1", "20")) {
        Some((h, m)) => {
            assert_eq!(h, 1);
            assert_eq!(m.topic, "sensors/t1");
            assert_eq!(m.payload, "20");
        }
        None => panic!("expected a handler"),
    }
    assert_eq!(r.message_callback(msg("sensors/a/b", "x")).map(|p| p.0), Some(2));
    assert_eq!(r.message_callback(msg("other", "x")).map(|p| p.0), Some(3));
    assert!(r.message_callback(None).is_none());
    // handled messages are not buffered
    assert!(r.fetch_values().is_empty());
}

#[test]
fn unhandled_messages_reach_attached_variables() {
    let mut r: Router<u32> = Router::new();
    r.attach_handler("cmd/#", QoS::AtLeastOnce, 9);
    r.attach_variable("temp", QoS::AtLeastOnce, 0);
    r.attach_variable("hum", QoS::AtLeastOnce, 1);
    r.attach_variable("temp", QoS::AtLeastOnce, 2);
    assert!(r.message_callback(msg("temp", "20")).is_none());
    assert!(r.message_callback(msg("hum", "55")).is_none());
    assert!(r.message_callback(msg("temp", "21")).is_none());
    assert!(r.message_callback(msg("wind", "3")).is_none());
    assert!(r.message_callback(msg("cmd/x", "go")).is_some());
    let writes = r.fetch_values();
    let got: Vec<(usize, &str)> = writes.iter().map(|(i, p)| (*i, p.as_str())).collect();
    assert_eq!(got, vec![(0, "20"), (2, "20"), (1, "55"), (0, "21"), (2, "21")]);
    // the buffer is emptied
    assert!(r.fetch_values().is_empty());
}

#[test]
fn variables_match_topics_exactly() {
    let mut r: Router<u32> = Router::new();
    r.attach_variable("a/+", QoS::AtLeastOnce, 0);
    assert!(r.message_callback(msg("a/b", "1")).is_none());
    assert!(r.fetch_values().is_empty());
    assert!(r.message_callback(msg("a/+", "2")).is_none());
    assert_eq!(r.fetch_values().len(), 1);
}
