//! The dashboard: values come in on `dashboard/TX/<key>` and are stored under
//! `<key>`; values set here go out on `dashboard/RX/<key>` and are stored too.
use vstd::prelude::*;
use crate::db::{
    insert_statement, lemma_read_after_store, opt_view, read_result, store_variable, CellView,
    VariableCache,
};
use crate::mqtt::{filter_matches, lemma_prefix_hash_matches, QoS, Router, Subscription};
use crate::text::{chars_of, int_text, lemma_nat_text, owned, parse_i64, parse_i64_spec, push_str, string_of};
use crate::types::{value_text, DbError, Value, ValueView};

verus! {

/// `dashboard/TX/`, the prefix of the topics the dashboard sends on.
pub open spec fn tx_prefix() -> Seq<char> {
    "dashboard/TX/"@
}

/// `dashboard/TX/#`, the filter that takes in everything the dashboard sends.
pub open spec fn tx_filter() -> Seq<char> {
    "dashboard/TX/#"@
}

/// `dashboard/RX/`, the prefix of the topics the dashboard listens on.
pub open spec fn rx_prefix() -> Seq<char> {
    "dashboard/RX/"@
}

/// Whether `p` is a prefix of `s`.
pub open spec fn has_prefix(s: Seq<char>, p: Seq<char>) -> bool {
    p.len() <= s.len() && s.take(p.len() as int) == p
}

/// The key of a dashboard topic: the topic without `dashboard/TX/`, or the whole
/// topic when it does not start with it.
pub open spec fn key_of(topic: Seq<char>) -> Seq<char> {
    if has_prefix(topic, tx_prefix()) {
        topic.skip(tx_prefix().len() as int)
    } else {
        topic
    }
}

/// The value a dashboard payload stands for: `true` and `false` are booleans, a text
/// that reads as an `i64` is an integer, one that reads as an `f64` is a float
/// (`float` is that reading, written back as its `Display` text), and anything else
/// is a text.
pub open spec fn parsed_value(payload: Seq<char>, float: Option<Seq<char>>) -> ValueView {
    if payload == "true"@ {
        ValueView::Bool(true)
    } else if payload == "false"@ {
        ValueView::Bool(false)
    } else {
        match parse_i64_spec(payload) {
            Some(i) => ValueView::Int(i),
            None => match float {
                Some(f) => ValueView::Float(f),
                None => ValueView::Text(payload),
            },
        }
    }
}

/// The key under which a message on `topic` is stored.
pub fn dashboard_key(topic: &str) -> (r: String)
    ensures
        r@ == key_of(topic@),
{
    proof {
        reveal_strlit("dashboard/TX/");
    }
    let p = chars_of("dashboard/TX/");
    let t = chars_of(topic);
    if p.len() > t.len() {
        return owned(topic);
    }
    let mut i: usize = 0;
    while i < p.len()
        invariant
            p@ == tx_prefix(),
            t@ == topic@,
            p.len() <= t.len(),
            i <= p.len(),
            forall|j: int| 0 <= j < i ==> t@[j] == p@[j],
        decreases p.len() - i,
    {
        if t[i] != p[i] {
            assert(t@.take(p.len() as int)[i as int] != p@[i as int]);
            return owned(topic);
        }
        i = i + 1;
    }
    assert(t@.take(p.len() as int) =~= p@);
    let mut rest: Vec<char> = Vec::new();
    let mut k: usize = p.len();
    while k < t.len()
        invariant
            t@ == topic@,
            p.len() <= k <= t.len(),
            rest@ == t@.subrange(p.len() as int, k as int),
        decreases t.len() - k,
    {
        rest.push(t[k]);
        k = k + 1;
        assert(rest@ =~= t@.subrange(p.len() as int, k as int));
    }
    assert(rest@ =~= t@.skip(p.len() as int));
    string_of(&rest)
}

/// Reads a dashboard payload as `parsed_value` says; `float_text` is what reading
/// `payload` as an `f64` gave, written back as that `f64`'s `Display` text.
pub fn parse_value(payload: &str, float_text: Option<String>) -> (r: Value)
    ensures
        r@ == parsed_value(payload@, opt_view(float_text)),
{
    if crate::text::same_text(payload, "true") {
        return Value::Bool(true);
    }
    if crate::text::same_text(payload, "false") {
        return Value::Bool(false);
    }
    match parse_i64(payload) {
        Some(v) => Value::Int(v),
        None => match float_text {
            Some(f) => Value::Float(f),
            None => Value::Text(owned(payload)),
        },
    }
}

/// A value that came in from the dashboard: the key it is stored under, the value,
/// and the statement that writes it to the database.
pub struct DashboardUpdate {
    pub key: String,
    pub value: Value,
    pub statement: Option<String>,
}

/// Takes in a message from the dashboard: its value, read from the payload, is
/// stored under the key of its topic. The update is returned so that the statement
/// can be run and the value handed to the dashboard handler.
pub fn dashboard_mqtt_handler(
    cache: &mut VariableCache,
    topic: &str,
    payload: &str,
    float_text: Option<String>,
) -> (r: DashboardUpdate)
    ensures
        r.key@ == key_of(topic@),
        r.value@ == parsed_value(payload@, opt_view(float_text)),
        final(cache)@ == old(cache)@.insert(r.key@, r.value@),
        opt_view(r.statement) == insert_statement(r.key@, r.value@),
{
    let key = dashboard_key(topic);
    let val = parse_value(payload, float_text);
    let statement = store_variable(cache, key.as_str(), val.clone());
    DashboardUpdate { key, value: val, statement }
}

/// Attaches the dashboard handler to `dashboard/TX/#`; the subscription to make is
/// returned.
pub fn init<H: Copy>(router: &mut Router<H>, handler: H) -> (r: Subscription)
    ensures
        final(router)@.handlers == old(router)@.handlers.push((tx_filter(), handler)),
        final(router)@.vars == old(router)@.vars,
        final(router)@.buffer == old(router)@.buffer,
        r.topic@ == tx_filter(),
        r.qos == QoS::AtLeastOnce,
{
    router.attach_handler("dashboard/TX/#", QoS::AtLeastOnce, handler)
}

/// A message to publish.
pub struct Publication {
    pub topic: String,
    pub payload: String,
    pub qos: QoS,
    pub retain: bool,
}

/// What setting a dashboard value does: a publication, and the statement that
/// stores the value.
pub struct Outgoing {
    pub publication: Publication,
    pub statement: Option<String>,
}

/// Sets `key` to `val`: it is published on `dashboard/RX/<key>` as its text, at
/// least once, retained or not, and stored under `key`.
pub fn publish_and_store(cache: &mut VariableCache, key: &str, val: Value, retain: bool) -> (r:
    Outgoing)
    ensures
        r.publication.topic@ == rx_prefix() + key@,
        r.publication.payload@ == value_text(val@),
        r.publication.qos == QoS::AtLeastOnce,
        r.publication.retain == retain,
        final(cache)@ == old(cache)@.insert(key@, val@),
        opt_view(r.statement) == insert_statement(key@, val@),
{
    let mut topic = owned("dashboard/RX/");
    push_str(&mut topic, key);
    let payload = val.to_string_value();
    let statement = store_variable(cache, key, val);
    Outgoing {
        publication: Publication { topic, payload, qos: QoS::AtLeastOnce, retain },
        statement,
    }
}

/// Sets `key` to `val`, published without retaining; see `publish_and_store`.
pub fn set(cache: &mut VariableCache, key: &str, val: Value) -> (r: Outgoing)
    ensures
        r.publication.topic@ == rx_prefix() + key@,
        r.publication.payload@ == value_text(val@),
        r.publication.qos == QoS::AtLeastOnce,
        !r.publication.retain,
        final(cache)@ == old(cache)@.insert(key@, val@),
        opt_view(r.statement) == insert_statement(key@, val@),
{
    publish_and_store(cache, key, val, false)
}

/// Sets `key` to `val` and asks the broker to retain it, so that a subscriber that
/// comes later still gets it; see `publish_and_store`.
pub fn set_retained(cache: &mut VariableCache, key: &str, val: Value) -> (r: Outgoing)
    ensures
        r.publication.topic@ == rx_prefix() + key@,
        r.publication.payload@ == value_text(val@),
        r.publication.qos == QoS::AtLeastOnce,
        r.publication.retain,
        final(cache)@ == old(cache)@.insert(key@, val@),
        opt_view(r.statement) == insert_statement(key@, val@),
{
    publish_and_store(cache, key, val, true)
}

/// Law: the filter the dashboard handler is attached to matches every topic that
/// the dashboard sends on.
pub proof fn lemma_tx_filter_matches_every_key(key: Seq<char>)
    ensures
        filter_matches(tx_filter(), tx_prefix() + key),
{
    reveal_strlit("dashboard/TX/#");
    reveal_strlit("dashboard/TX/");
    assert(tx_filter() =~= tx_prefix() + seq!['#']);
    lemma_prefix_hash_matches(tx_prefix(), key);
}

/// Law: a message on `dashboard/TX/<key>` is stored under `<key>`.
pub proof fn lemma_key_of_tx_topic(key: Seq<char>)
    ensures
        key_of(tx_prefix() + key) == key,
{
    let t = tx_prefix() + key;
    assert(t.take(tx_prefix().len() as int) =~= tx_prefix());
    assert(t.skip(tx_prefix().len() as int) =~= key);
}

/// Law: an integer, written as the dashboard shows it, reads back as that integer.
pub proof fn lemma_published_int_reads_back(i: i64, float: Option<Seq<char>>)
    ensures
        parsed_value(value_text(ValueView::Int(i)), float) == ValueView::Int(i),
{
    reveal_strlit("true");
    reveal_strlit("false");
    crate::text::lemma_parse_int_text(i);
    let t = int_text(i as int);
    if i >= 0 {
        lemma_nat_text(i as nat);
        assert(t[0] != 't' && t[0] != 'f');
    } else {
        assert(t[0] == '-');
    }
    assert("true"@[0] == 't');
    assert("false"@[0] == 'f');
}

/// Law: after the dashboard sends `payload` on `dashboard/TX/<key>`, a read of
/// `<key>` gives the value the payload stands for, whatever the database holds.
pub proof fn lemma_dashboard_value_is_readable(
    cache: Map<Seq<char>, ValueView>,
    key: Seq<char>,
    payload: Seq<char>,
    float: Option<Seq<char>>,
    fetched: Result<Seq<Seq<CellView>>, sqlite::Error>,
)
    ensures
        read_result(
            cache.insert(key_of(tx_prefix() + key), parsed_value(payload, float)),
            key,
            fetched,
        ) == Ok::<ValueView, DbError>(parsed_value(payload, float)),
{
    lemma_key_of_tx_topic(key);
    lemma_read_after_store(cache, key, parsed_value(payload, float), fetched);
}

/// Law: a payload is read by the first reading that takes it: `true` and `false` as
/// booleans, then as an `i64`, then as an `f64`, and a text only when none does.
pub proof fn lemma_payload_readings(payload: Seq<char>, float: Option<Seq<char>>)
    ensures
        payload == "true"@ ==> parsed_value(payload, float) == ValueView::Bool(true),
        payload == "false"@ ==> parsed_value(payload, float) == ValueView::Bool(false),
        payload != "true"@ && payload != "false"@ ==> match parse_i64_spec(payload) {
            Some(i) => parsed_value(payload, float) == ValueView::Int(i),
            None => match float {
                Some(f) => parsed_value(payload, float) == ValueView::Float(f),
                None => parsed_value(payload, float) == ValueView::Text(payload),
            },
        },
{
    reveal_strlit("true");
    reveal_strlit("false");
    assert("true"@.len() != "false"@.len());
}

/// Law: a float, published as its text, reads back as that float, for every float
/// reading under which its `Display` text reads as itself (a text such as `1`, which
/// reads as an `i64` first, is left out).
pub proof fn lemma_published_float_reads_back(
    t: Seq<char>,
    fr: spec_fn(Seq<char>) -> Option<Seq<char>>,
)
    requires
        fr(t) == Some(t),
        t != "true"@,
        t != "false"@,
        parse_i64_spec(t) is None,
    ensures
        parsed_value(value_text(ValueView::Float(t)), fr(value_text(ValueView::Float(t))))
            == ValueView::Float(t),
{
}

} // verus!
