//! InfluxDB 1.x line protocol: points, their escaping and their write requests,
//! with a per-measurement rate limit.
//!
//! The request is sent, and the clock read, by the caller.
use vstd::prelude::*;
use vstd::hash_map::StringHashMap;
use crate::db::opt_view;
use crate::text::{chars_of, escape_char, int_text, int_to_text, owned, parse_i64_spec, push_char, push_chars, push_str, string_of};

verus! {

/// `s` escaped as a measurement name: `\`, `,` and space get a `\` before them.
pub open spec fn measurement_escape(s: Seq<char>) -> Seq<char> {
    escape_char(escape_char(escape_char(s, '\\'), ','), ' ')
}

/// `s` escaped as a tag key, tag value or field key: `\`, `,`, space and `=` get a
/// `\` before them.
pub open spec fn key_escape(s: Seq<char>) -> Seq<char> {
    escape_char(measurement_escape(s), '=')
}

/// `s` escaped inside a quoted string field: `\` and `"` get a `\` before them.
pub open spec fn string_escape(s: Seq<char>) -> Seq<char> {
    escape_char(escape_char(s, '\\'), '"')
}

/// `cs` with `from` escaped, as `escape_char` says.
fn escape(cs: &Vec<char>, from: char) -> (r: Vec<char>)
    ensures
        r@ == escape_char(cs@, from),
{
    let mut out: Vec<char> = Vec::new();
    assert(cs@.take(0) =~= Seq::<char>::empty());
    for i in 0..cs.len()
        invariant
            out@ == escape_char(cs@.take(i as int), from),
    {
        let c = cs[i];
        assert(cs@.take(i + 1).drop_last() =~= cs@.take(i as int));
        assert(cs@.take(i + 1).last() == c);
        let ghost before = out@;
        if c == from {
            out.push('\\');
            out.push(c);
            assert(out@ =~= before + seq!['\\', from]);
        } else {
            out.push(c);
        }
    }
    assert(cs@.take(cs.len() as int) =~= cs@);
    out
}

fn escape_measurement(s: &str) -> (r: Vec<char>)
    ensures
        r@ == measurement_escape(s@),
{
    let cs = chars_of(s);
    let a = escape(&cs, '\\');
    let b = escape(&a, ',');
    escape(&b, ' ')
}

fn escape_key_or_tag(s: &str) -> (r: Vec<char>)
    ensures
        r@ == key_escape(s@),
{
    let m = escape_measurement(s);
    escape(&m, '=')
}

/// `s` with a `\` put before every char of `special`, char by char.
pub open spec fn escape_set(s: Seq<char>, special: Set<char>) -> Seq<char>
    decreases s.len(),
{
    if s.len() == 0 {
        s
    } else {
        let rest = escape_set(s.drop_last(), special);
        if special.contains(s.last()) {
            rest + seq!['\\', s.last()]
        } else {
            rest.push(s.last())
        }
    }
}

proof fn lemma_escape_char_concat(x: Seq<char>, y: Seq<char>, c: char)
    ensures
        escape_char(x + y, c) == escape_char(x, c) + escape_char(y, c),
    decreases y.len(),
{
    if y.len() == 0 {
        assert(x + y =~= x);
        assert(escape_char(x, c) + escape_char(y, c) =~= escape_char(x, c));
    } else {
        lemma_escape_char_concat(x, y.drop_last(), c);
        assert((x + y).drop_last() =~= x + y.drop_last());
        assert((x + y).last() == y.last());
        let ex = escape_char(x, c);
        let ey = escape_char(y.drop_last(), c);
        if y.last() == c {
            assert(ex + ey + seq!['\\', c] =~= ex + (ey + seq!['\\', c]));
        } else {
            assert((ex + ey).push(y.last()) =~= ex + ey.push(y.last()));
        }
    }
}

proof fn lemma_escape_char_is_escape_set(s: Seq<char>, c: char)
    ensures
        escape_char(s, c) == escape_set(s, set![c]),
    decreases s.len(),
{
    if s.len() > 0 {
        lemma_escape_char_is_escape_set(s.drop_last(), c);
    }
}

proof fn lemma_escape_char_short(x: char, c: char)
    ensures
        escape_char(seq![x], c) == (if x == c { seq!['\\', c] } else { seq![x] }),
        x != c && c != '\\' ==> escape_char(seq!['\\', x], c) == seq!['\\', x],
{
    let e = Seq::<char>::empty();
    assert(escape_char(e, c) == e);
    assert(seq![x].drop_last() =~= e);
    assert(seq![x].last() == x);
    if x == c {
        assert(e + seq!['\\', c] =~= seq!['\\', c]);
        assert(escape_char(seq![x], c) == escape_char(e, c) + seq!['\\', c]);
    } else {
        assert(e.push(x) =~= seq![x]);
        assert(escape_char(seq![x], c) == escape_char(e, c).push(x));
    }
    if x != c && c != '\\' {
        assert(seq!['\\'].drop_last() =~= e);
        assert(escape_char(seq!['\\'], c) == escape_char(e, c).push('\\'));
        assert(e.push('\\') =~= seq!['\\']);
        assert(seq!['\\', x].drop_last() =~= seq!['\\']);
        assert(escape_char(seq!['\\', x], c) == escape_char(seq!['\\'], c).push(x));
        assert(seq!['\\'].push(x) =~= seq!['\\', x]);
    }
}

proof fn lemma_escape_more(s: Seq<char>, special: Set<char>, c: char)
    requires
        !special.contains(c),
        c != '\\',
    ensures
        escape_char(escape_set(s, special), c) == escape_set(s, special.insert(c)),
    decreases s.len(),
{
    if s.len() > 0 {
        let x = s.last();
        let rest = escape_set(s.drop_last(), special);
        lemma_escape_more(s.drop_last(), special, c);
        lemma_escape_char_short(x, c);
        if special.contains(x) {
            lemma_escape_char_concat(rest, seq!['\\', x], c);
        } else {
            assert(rest.push(x) =~= rest + seq![x]);
            lemma_escape_char_concat(rest, seq![x], c);
            let r2 = escape_set(s.drop_last(), special.insert(c));
            if x == c {
            } else {
                assert(r2 + seq![x] =~= r2.push(x));
            }
        }
    }
}

/// The chars that keys and tag values escape.
pub open spec fn key_specials() -> Set<char> {
    set!['\\', ',', ' ', '=']
}

/// The chars that measurement names escape.
pub open spec fn measurement_specials() -> Set<char> {
    set!['\\', ',', ' ']
}

/// The chars that quoted string fields escape.
pub open spec fn string_specials() -> Set<char> {
    set!['\\', '"']
}

proof fn lemma_escapes_are_escape_sets(s: Seq<char>)
    ensures
        measurement_escape(s) == escape_set(s, measurement_specials()),
        key_escape(s) == escape_set(s, key_specials()),
        string_escape(s) == escape_set(s, string_specials()),
{
    lemma_escape_char_is_escape_set(s, '\\');
    lemma_escape_more(s, set!['\\'], ',');
    assert(set!['\\'].insert(',') =~= set!['\\', ',']);
    lemma_escape_more(s, set!['\\', ','], ' ');
    assert(set!['\\', ','].insert(' ') =~= measurement_specials());
    lemma_escape_more(s, measurement_specials(), '=');
    assert(measurement_specials().insert('=') =~= key_specials());
    lemma_escape_more(s, set!['\\'], '"');
    assert(set!['\\'].insert('"') =~= string_specials());
}

proof fn lemma_escape_set_injective(a: Seq<char>, b: Seq<char>, special: Set<char>)
    requires
        escape_set(a, special) == escape_set(b, special),
    ensures
        a == b,
    decreases a.len() + b.len(),
{
    let ea = escape_set(a, special);
    if a.len() == 0 || b.len() == 0 {
        if a.len() > 0 {
            assert(ea.len() > 0);
        }
        if b.len() > 0 {
            assert(escape_set(b, special).len() > 0);
        }
        assert(a =~= b);
    } else {
        assert(ea.last() == a.last());
        assert(escape_set(b, special).last() == b.last());
        let ra = escape_set(a.drop_last(), special);
        let rb = escape_set(b.drop_last(), special);
        if special.contains(a.last()) {
            assert(ra =~= ea.subrange(0, ea.len() - 2));
            assert(rb =~= ea.subrange(0, ea.len() - 2));
        } else {
            assert(ra =~= ea.drop_last());
            assert(rb =~= ea.drop_last());
        }
        lemma_escape_set_injective(a.drop_last(), b.drop_last(), special);
        assert(a =~= a.drop_last().push(a.last()));
        assert(b =~= b.drop_last().push(b.last()));
    }
}

/// Law: escaping loses nothing: different keys, tag values, measurement names or
/// string fields are written differently.
pub proof fn lemma_escapes_are_injective(a: Seq<char>, b: Seq<char>)
    ensures
        key_escape(a) == key_escape(b) ==> a == b,
        measurement_escape(a) == measurement_escape(b) ==> a == b,
        string_escape(a) == string_escape(b) ==> a == b,
{
    lemma_escapes_are_escape_sets(a);
    lemma_escapes_are_escape_sets(b);
    if key_escape(a) == key_escape(b) {
        lemma_escape_set_injective(a, b, key_specials());
    }
    if measurement_escape(a) == measurement_escape(b) {
        lemma_escape_set_injective(a, b, measurement_specials());
    }
    if string_escape(a) == string_escape(b) {
        lemma_escape_set_injective(a, b, string_specials());
    }
}

/// A field value of a point.
///
/// A float is held as the text that Rust's `Display` writes for its `f64`, which is
/// how the line protocol writes it.
pub enum Field {
    Float(String),
    Int(i64),
    Bool(bool),
    Text(String),
}

/// What a `Field` denotes.
pub enum FieldView {
    Float(Seq<char>),
    Int(i64),
    Bool(bool),
    Text(Seq<char>),
}

impl View for Field {
    type V = FieldView;

    open spec fn view(&self) -> FieldView {
        match self {
            Field::Float(t) => FieldView::Float(t@),
            Field::Int(i) => FieldView::Int(*i),
            Field::Bool(b) => FieldView::Bool(*b),
            Field::Text(t) => FieldView::Text(t@),
        }
    }
}

impl From<i64> for Field {
    fn from(v: i64) -> (r: Self) {
        Field::Int(v)
    }
}

impl vstd::std_specs::convert::FromSpecImpl<i64> for Field {
    open spec fn obeys_from_spec() -> bool {
        true
    }

    open spec fn from_spec(v: i64) -> Self {
        Field::Int(v)
    }
}

impl From<bool> for Field {
    fn from(v: bool) -> (r: Self) {
        Field::Bool(v)
    }
}

impl vstd::std_specs::convert::FromSpecImpl<bool> for Field {
    open spec fn obeys_from_spec() -> bool {
        true
    }

    open spec fn from_spec(v: bool) -> Self {
        Field::Bool(v)
    }
}

impl From<String> for Field {
    fn from(v: String) -> (r: Self) {
        Field::Text(v)
    }
}

impl vstd::std_specs::convert::FromSpecImpl<String> for Field {
    open spec fn obeys_from_spec() -> bool {
        true
    }

    open spec fn from_spec(v: String) -> Self {
        Field::Text(v)
    }
}

impl<'a> From<&'a str> for Field {
    fn from(v: &'a str) -> (r: Self)
        ensures
            r@ == FieldView::Text(v@),
    {
        Field::Text(owned(v))
    }
}

impl<'a> vstd::std_specs::convert::FromSpecImpl<&'a str> for Field {
    /// A `Field` is not determined by a text's chars alone (two `String`s with the same
    /// chars are not known to be equal), so the generic `From` contract claims nothing;
    /// `from` states the field's view instead.
    open spec fn obeys_from_spec() -> bool {
        false
    }

    open spec fn from_spec(v: &'a str) -> Self {
        choose|f: Field| f@ == FieldView::Text(v@)
    }
}

/// How the line protocol writes a field value: a float as its text, an integer with
/// an `i` after it, a boolean as `true` or `false`, a text in double quotes with `\`
/// and `"` escaped.
pub open spec fn field_text(f: FieldView) -> Seq<char> {
    match f {
        FieldView::Float(t) => t,
        FieldView::Int(i) => int_text(i as int).push('i'),
        FieldView::Bool(b) => if b { "true"@ } else { "false"@ },
        FieldView::Text(t) => seq!['"'] + string_escape(t) + seq!['"'],
    }
}

impl Field {
    /// The value as the line protocol writes it.
    pub fn to_line_value(&self) -> (r: String)
        ensures
            r@ == field_text(self@),
    {
        match self {
            Field::Float(v) => v.clone(),
            Field::Int(v) => {
                let mut s = int_to_text(*v);
                push_char(&mut s, 'i');
                s
            },
            Field::Bool(v) => {
                if *v {
                    owned("true")
                } else {
                    owned("false")
                }
            },
            Field::Text(v) => {
                let cs = chars_of(v.as_str());
                let a = escape(&cs, '\\');
                let b = escape(&a, '"');
                let mut s = String::new();
                push_char(&mut s, '"');
                push_chars(&mut s, &b);
                push_char(&mut s, '"');
                assert(s@ =~= seq!['"'] + string_escape(v@) + seq!['"']);
                s
            },
        }
    }
}

/// A single InfluxDB point: a measurement, tags, and fields. Build one with
/// `Point::new(..).tag(..).field(..)`.
pub struct Point {
    measurement: String,
    tags: Vec<(String, String)>,
    fields: Vec<(String, Field)>,
}

/// What a `Point` holds.
pub struct PointView {
    pub measurement: Seq<char>,
    pub tags: Seq<(Seq<char>, Seq<char>)>,
    pub fields: Seq<(Seq<char>, FieldView)>,
}

impl View for Point {
    type V = PointView;

    closed spec fn view(&self) -> PointView {
        PointView {
            measurement: self.measurement@,
            tags: self.tags@.map_values(|t: (String, String)| (t.0@, t.1@)),
            fields: self.fields@.map_values(|f: (String, Field)| (f.0@, f.1@)),
        }
    }
}

/// The tags as the line protocol writes them: each as `,key=value`.
pub open spec fn tags_text(tags: Seq<(Seq<char>, Seq<char>)>) -> Seq<char>
    decreases tags.len(),
{
    if tags.len() == 0 {
        Seq::empty()
    } else {
        tags_text(tags.drop_last()) + seq![','] + key_escape(tags.last().0) + seq!['=']
            + key_escape(tags.last().1)
    }
}

/// One field as the line protocol writes it: `key=value`.
pub open spec fn one_field_text(f: (Seq<char>, FieldView)) -> Seq<char> {
    key_escape(f.0) + seq!['='] + field_text(f.1)
}

/// The fields as the line protocol writes them, joined with `,`.
pub open spec fn fields_text(fields: Seq<(Seq<char>, FieldView)>) -> Seq<char>
    decreases fields.len(),
{
    if fields.len() == 0 {
        Seq::empty()
    } else if fields.len() == 1 {
        one_field_text(fields[0])
    } else {
        fields_text(fields.drop_last()) + seq![','] + one_field_text(fields.last())
    }
}

/// A point as one line of the line protocol: measurement, tags, a space, fields.
pub open spec fn line_text(p: PointView) -> Seq<char> {
    measurement_escape(p.measurement) + tags_text(p.tags) + seq![' '] + fields_text(p.fields)
}

impl Point {
    /// A point of `measurement` with no tags and no fields.
    pub fn new(measurement: &str) -> (r: Self)
        ensures
            r@.measurement == measurement@,
            r@.tags == Seq::<(Seq<char>, Seq<char>)>::empty(),
            r@.fields == Seq::<(Seq<char>, FieldView)>::empty(),
    {
        let r = Point { measurement: owned(measurement), tags: Vec::new(), fields: Vec::new() };
        assert(r@.tags =~= Seq::<(Seq<char>, Seq<char>)>::empty());
        assert(r@.fields =~= Seq::<(Seq<char>, FieldView)>::empty());
        r
    }

    /// The point with the tag `key=value` added after the others.
    pub fn tag(self, key: &str, value: &str) -> (r: Self)
        ensures
            r@.measurement == self@.measurement,
            r@.tags == self@.tags.push((key@, value@)),
            r@.fields == self@.fields,
    {
        let ghost before = self@;
        let mut p = self;
        p.tags.push((owned(key), owned(value)));
        assert(p@.tags =~= before.tags.push((key@, value@)));
        assert(p@.fields =~= before.fields);
        p
    }

    /// The point with the field `key=value` added after the others.
    pub fn field(self, key: &str, value: Field) -> (r: Self)
        ensures
            r@.measurement == self@.measurement,
            r@.tags == self@.tags,
            r@.fields == self@.fields.push((key@, value@)),
    {
        let ghost before = self@;
        let ghost v = value@;
        let mut p = self;
        p.fields.push((owned(key), value));
        assert(p@.fields =~= before.fields.push((key@, v)));
        assert(p@.tags =~= before.tags);
        p
    }

    /// The measurement of the point.
    pub fn measurement(&self) -> (r: &str)
        ensures
            r@ == self@.measurement,
    {
        self.measurement.as_str()
    }

    /// The point as one line of the line protocol.
    pub fn to_line(&self) -> (r: String)
        ensures
            r@ == line_text(self@),
    {
        let ghost pv = self@;
        let m = escape_measurement(self.measurement.as_str());
        let mut line = string_of(&m);
        let ghost head = line@;
        assert(pv.tags.take(0) =~= Seq::<(Seq<char>, Seq<char>)>::empty());
        assert(line@ =~= head + tags_text(pv.tags.take(0)));
        for i in 0..self.tags.len()
            invariant
                pv == self@,
                pv.tags.len() == self.tags.len(),
                line@ == head + tags_text(pv.tags.take(i as int)),
        {
            assert(pv.tags.take(i + 1).drop_last() =~= pv.tags.take(i as int));
            assert(pv.tags[i as int] == (self.tags@[i as int].0@, self.tags@[i as int].1@));
            let ghost before = line@;
            let k = escape_key_or_tag(self.tags[i].0.as_str());
            let v = escape_key_or_tag(self.tags[i].1.as_str());
            push_char(&mut line, ',');
            push_chars(&mut line, &k);
            push_char(&mut line, '=');
            push_chars(&mut line, &v);
            assert(line@ =~= before + seq![','] + k@ + seq!['='] + v@);
        }
        assert(pv.tags.take(self.tags.len() as int) =~= pv.tags);
        push_char(&mut line, ' ');
        let ghost mid = line@;
        assert(pv.fields.take(0) =~= Seq::<(Seq<char>, FieldView)>::empty());
        assert(line@ =~= mid + fields_text(pv.fields.take(0)));
        for i in 0..self.fields.len()
            invariant
                pv == self@,
                pv.fields.len() == self.fields.len(),
                line@ == mid + fields_text(pv.fields.take(i as int)),
        {
            assert(pv.fields.take(i + 1).drop_last() =~= pv.fields.take(i as int));
            assert(pv.fields[i as int] == (self.fields@[i as int].0@, self.fields@[i as int].1@));
            let ghost before = line@;
            if i > 0 {
                push_char(&mut line, ',');
            }
            let k = escape_key_or_tag(self.fields[i].0.as_str());
            let v = self.fields[i].1.to_line_value();
            push_chars(&mut line, &k);
            push_char(&mut line, '=');
            push_str(&mut line, v.as_str());
            if i > 0 {
                assert(line@ =~= before + seq![','] + one_field_text(pv.fields[i as int]));
            } else {
                assert(pv.fields.take(1) =~= seq![pv.fields[0]]);
                assert(line@ =~= before + one_field_text(pv.fields[i as int]));
            }
        }
        assert(pv.fields.take(self.fields.len() as int) =~= pv.fields);
        line
    }
}

/// Law: escaping goes char by char: the empty text stays empty, and a char added to
/// a text adds itself, with a `\` before it if it is one of the chars that the
/// escaping is for (`\`, `,`, space and `=` for keys and tag values; `\`, `,` and
/// space for measurement names; `\` and `"` inside string fields).
pub proof fn lemma_escapes_by_char(s: Seq<char>, c: char)
    ensures
        key_escape(Seq::empty()) == Seq::<char>::empty(),
        measurement_escape(Seq::empty()) == Seq::<char>::empty(),
        string_escape(Seq::empty()) == Seq::<char>::empty(),
        key_escape(s.push(c)) == key_escape(s) + (if c == '\\' || c == ',' || c == ' ' || c
            == '=' {
            seq!['\\', c]
        } else {
            seq![c]
        }),
        measurement_escape(s.push(c)) == measurement_escape(s) + (if c == '\\' || c == ','
            || c == ' ' {
            seq!['\\', c]
        } else {
            seq![c]
        }),
        string_escape(s.push(c)) == string_escape(s) + (if c == '\\' || c == '"' {
            seq!['\\', c]
        } else {
            seq![c]
        }),
{
    lemma_escapes_are_escape_sets(Seq::empty());
    lemma_escapes_are_escape_sets(s);
    lemma_escapes_are_escape_sets(s.push(c));
    assert(s.push(c).drop_last() =~= s);
    assert(s.push(c).last() == c);
    let k = key_escape(s);
    let m = measurement_escape(s);
    let q = string_escape(s);
    assert(k.push(c) =~= k + seq![c]);
    assert(m.push(c) =~= m + seq![c]);
    assert(q.push(c) =~= q + seq![c]);
    assert(key_specials().contains(c) == (c == '\\' || c == ',' || c == ' ' || c == '='));
    assert(measurement_specials().contains(c) == (c == '\\' || c == ',' || c == ' '));
    assert(string_specials().contains(c) == (c == '\\' || c == '"'));
}

/// Law: an integer field is written as its decimal text, which reads back as the
/// integer, followed by `i`.
pub proof fn lemma_int_field_text(i: i64)
    ensures
        field_text(FieldView::Int(i)).last() == 'i',
        parse_i64_spec(field_text(FieldView::Int(i)).drop_last()) == Some(i),
{
    crate::text::lemma_parse_int_text(i);
    assert(field_text(FieldView::Int(i)).drop_last() =~= int_text(i as int));
}

/// Law: adding a tag to a point puts its text after the measurement and the tags
/// already there: a `,`, the key and the value each escaped as a key, with `=`
/// between them.
pub proof fn lemma_tag_adds_its_text(p: PointView, k: Seq<char>, v: Seq<char>)
    ensures
        line_text((PointView { measurement: p.measurement, tags: p.tags.push((k, v)), fields: p.fields }))
            == measurement_escape(p.measurement) + tags_text(p.tags) + seq![','] + key_escape(k)
            + seq!['='] + key_escape(v) + seq![' '] + fields_text(p.fields),
{
    let t = p.tags.push((k, v));
    assert(t.drop_last() =~= p.tags);
    assert(t.last() == (k, v));
}

/// Law: adding a field to a point adds its text at the end of the line: a `,` after
/// the fields already there, then the key escaped as a key, `=`, and the value.
pub proof fn lemma_field_adds_its_text(p: PointView, k: Seq<char>, v: FieldView)
    ensures
        line_text((PointView { measurement: p.measurement, tags: p.tags, fields: p.fields.push((k, v)) }))
            == line_text(p) + (if p.fields.len() == 0 {
            Seq::<char>::empty()
        } else {
            seq![',']
        }) + key_escape(k) + seq!['='] + field_text(v),
{
    let q = PointView { measurement: p.measurement, tags: p.tags, fields: p.fields.push((k, v)) };
    let head = measurement_escape(p.measurement) + tags_text(p.tags) + seq![' '];
    let ft = key_escape(k) + seq!['='] + field_text(v);
    assert(q.fields.drop_last() =~= p.fields);
    assert(q.fields.last() == (k, v));
    if p.fields.len() == 0 {
        assert(q.fields[0] == (k, v));
        assert(fields_text(p.fields) == Seq::<char>::empty());
        assert(line_text(p) =~= head);
        assert(line_text(q) =~= head + ft);
        assert(line_text(p) + Seq::<char>::empty() + key_escape(k) + seq!['='] + field_text(v) =~= head + ft);
    } else {
        assert(fields_text(q.fields) == fields_text(p.fields) + seq![','] + ft);
        assert(line_text(q) =~= line_text(p) + seq![','] + key_escape(k) + seq!['='] + field_text(v));
    }
}

/// The base64 digit for `i` (`0 <= i < 64`): `A`-`Z`, `a`-`z`, `0`-`9`, `+`, `/`.
pub open spec fn b64_char(i: int) -> char {
    if i < 26 {
        ((65 + i) as u8) as char
    } else if i < 52 {
        ((71 + i) as u8) as char
    } else if i < 62 {
        ((i - 4) as u8) as char
    } else if i == 62 {
        '+'
    } else {
        '/'
    }
}

/// The four digits of three bytes.
pub open spec fn group(b0: u8, b1: u8, b2: u8) -> Seq<char> {
    seq![
        b64_char((b0 / 4) as int),
        b64_char((b0 % 4) * 16 + b1 / 16),
        b64_char((b1 % 16) * 4 + b2 / 64),
        b64_char((b2 % 64) as int),
    ]
}

/// The digits of a run of whole groups of three bytes.
pub open spec fn full_groups(b: Seq<u8>) -> Seq<char>
    decreases b.len(),
{
    if b.len() < 3 {
        Seq::empty()
    } else {
        full_groups(b.take(b.len() - 3)) + group(b[b.len() - 3], b[b.len() - 2], b[b.len() - 1])
    }
}

/// The digits of the last one or two bytes, padded with `=` to four.
pub open spec fn tail_group(b: Seq<u8>) -> Seq<char> {
    if b.len() == 1 {
        seq![b64_char((b[0] / 4) as int), b64_char((b[0] % 4) * 16), '=', '=']
    } else if b.len() == 2 {
        seq![
            b64_char((b[0] / 4) as int),
            b64_char((b[0] % 4) * 16 + b[1] / 16),
            b64_char((b[1] % 16) * 4),
            '=',
        ]
    } else {
        Seq::empty()
    }
}

/// Standard base64 (with padding) of `b`.
pub open spec fn base64_of(b: Seq<u8>) -> Seq<char> {
    let k = b.len() - b.len() % 3;
    full_groups(b.take(k)) + tail_group(b.skip(k))
}

fn b64_digit(i: u8) -> (c: char)
    requires
        i < 64,
    ensures
        c == b64_char(i as int),
{
    if i < 26 {
        (65 + i) as char
    } else if i < 52 {
        (71 + i) as char
    } else if i < 62 {
        (i - 4) as char
    } else if i == 62 {
        '+'
    } else {
        '/'
    }
}

/// Standard base64 (with padding) of the UTF-8 bytes of `input`.
pub fn base64_encode(input: &str) -> (r: String)
    ensures
        r@ == base64_of(vstd::utf8::encode_utf8(input@)),
{
    let bytes = input.as_bytes();
    let ghost b = bytes@;
    assert(b == vstd::utf8::encode_utf8(input@));
    let n = bytes.len();
    let k = n - n % 3;
    let mut out = String::new();
    let mut i: usize = 0;
    assert(b.take(0) =~= Seq::<u8>::empty());
    while i < k
        invariant
            b == bytes@,
            n == bytes.len(),
            k == n - n % 3,
            i % 3 == 0,
            i <= k,
            out@ == full_groups(b.take(i as int)),
        decreases k - i,
    {
        let b0 = bytes[i];
        let b1 = bytes[i + 1];
        let b2 = bytes[i + 2];
        let ghost before = out@;
        assert(b0 >> 2 == b0 / 4) by (bit_vector);
        assert((b0 & 3) << 4 | b1 >> 4 == (b0 % 4) * 16 + b1 / 16) by (bit_vector);
        assert((b1 & 15) << 2 | b2 >> 6 == (b1 % 16) * 4 + b2 / 64) by (bit_vector);
        assert(b2 & 63 == b2 % 64) by (bit_vector);
        push_char(&mut out, b64_digit(b0 >> 2));
        push_char(&mut out, b64_digit((b0 & 3) << 4 | b1 >> 4));
        push_char(&mut out, b64_digit((b1 & 15) << 2 | b2 >> 6));
        push_char(&mut out, b64_digit(b2 & 63));
        let ghost t = b.take(i + 3);
        assert(t.take(t.len() - 3) =~= b.take(i as int));
        assert(t[t.len() - 3] == b0 && t[t.len() - 2] == b1 && t[t.len() - 1] == b2);
        assert(out@ =~= before + group(b0, b1, b2));
        i = i + 3;
    }
    let ghost rest = b.skip(k as int);
    if n - k == 1 {
        let b0 = bytes[k];
        assert(b0 >> 2 == b0 / 4) by (bit_vector);
        assert((b0 & 3) << 4 == (b0 % 4) * 16) by (bit_vector);
        let ghost before = out@;
        push_char(&mut out, b64_digit(b0 >> 2));
        push_char(&mut out, b64_digit((b0 & 3) << 4));
        push_char(&mut out, '=');
        push_char(&mut out, '=');
        assert(rest[0] == b0);
        assert(out@ =~= before + tail_group(rest));
    } else if n - k == 2 {
        let b0 = bytes[k];
        let b1 = bytes[k + 1];
        assert(b0 >> 2 == b0 / 4) by (bit_vector);
        assert((b0 & 3) << 4 | b1 >> 4 == (b0 % 4) * 16 + b1 / 16) by (bit_vector);
        assert((b1 & 15) << 2 == (b1 % 16) * 4) by (bit_vector);
        let ghost before = out@;
        push_char(&mut out, b64_digit(b0 >> 2));
        push_char(&mut out, b64_digit((b0 & 3) << 4 | b1 >> 4));
        push_char(&mut out, b64_digit((b1 & 15) << 2));
        push_char(&mut out, '=');
        assert(rest[0] == b0 && rest[1] == b1);
        assert(out@ =~= before + tail_group(rest));
    } else {
        assert(rest.len() == 0);
        assert(out@ =~= out@ + tail_group(rest));
    }
    out
}

proof fn lemma_full_groups_len(b: Seq<u8>)
    requires
        b.len() % 3 == 0,
    ensures
        full_groups(b).len() == 4 * (b.len() / 3),
    decreases b.len(),
{
    if b.len() >= 3 {
        lemma_full_groups_len(b.take(b.len() - 3));
    }
}

/// Law: base64 turns every three bytes, and a last one or two, into four digits.
pub proof fn lemma_base64_len(b: Seq<u8>)
    ensures
        base64_of(b).len() == 4 * ((b.len() + 2) / 3),
{
    let k = b.len() - b.len() % 3;
    lemma_full_groups_len(b.take(k));
}

/// The number a base64 digit stands for.
pub open spec fn b64_index(c: char) -> int {
    if 'A' <= c && c <= 'Z' {
        c as int - 65
    } else if 'a' <= c && c <= 'z' {
        c as int - 71
    } else if '0' <= c && c <= '9' {
        c as int + 4
    } else if c == '+' {
        62
    } else {
        63
    }
}

/// The bytes of one group of four digits; `=` in the third or fourth place marks a
/// group of one or two bytes.
pub open spec fn decode_group(g: Seq<char>) -> Seq<u8> {
    let i0 = b64_index(g[0]);
    let i1 = b64_index(g[1]);
    let i2 = b64_index(g[2]);
    let i3 = b64_index(g[3]);
    let b0 = (i0 * 4 + i1 / 16) as u8;
    let b1 = ((i1 % 16) * 16 + i2 / 4) as u8;
    let b2 = ((i2 % 4) * 64 + i3) as u8;
    if g[2] == '=' {
        seq![b0]
    } else if g[3] == '=' {
        seq![b0, b1]
    } else {
        seq![b0, b1, b2]
    }
}

/// The bytes that a base64 text stands for, group of four digits by group.
pub open spec fn base64_decode(s: Seq<char>) -> Seq<u8>
    decreases s.len(),
{
    if s.len() < 4 {
        Seq::empty()
    } else {
        base64_decode(s.take(s.len() - 4)) + decode_group(s.subrange(s.len() - 4, s.len() as int))
    }
}

proof fn lemma_b64_char_index(i: int)
    requires
        0 <= i < 64,
    ensures
        b64_index(b64_char(i)) == i,
        b64_char(i) != '=',
{
}

proof fn lemma_group_decodes(b0: u8, b1: u8, b2: u8)
    ensures
        decode_group(group(b0, b1, b2)) == seq![b0, b1, b2],
{
    let g = group(b0, b1, b2);
    lemma_b64_char_index((b0 / 4) as int);
    lemma_b64_char_index((b0 % 4) * 16 + b1 / 16);
    lemma_b64_char_index((b1 % 16) * 4 + b2 / 64);
    lemma_b64_char_index((b2 % 64) as int);
    assert(((b0 / 4) as int * 4 + ((b0 % 4) as int * 16 + (b1 / 16) as int) / 16) == b0 as int)
        by (nonlinear_arith);
    assert((((b0 % 4) as int * 16 + (b1 / 16) as int) % 16) * 16 + ((b1 % 16) as int * 4 + (b2
        / 64) as int) / 4 == b1 as int) by (nonlinear_arith);
    assert((((b1 % 16) as int * 4 + (b2 / 64) as int) % 4) * 64 + (b2 % 64) as int == b2 as int)
        by (nonlinear_arith);
    assert(decode_group(g) =~= seq![b0, b1, b2]);
}

proof fn lemma_full_groups_decode(b: Seq<u8>)
    requires
        b.len() % 3 == 0,
    ensures
        base64_decode(full_groups(b)) == b,
        full_groups(b).len() == 4 * (b.len() / 3),
    decreases b.len(),
{
    lemma_full_groups_len(b);
    if b.len() >= 3 {
        let init = b.take(b.len() - 3);
        lemma_full_groups_decode(init);
        let g = group(b[b.len() - 3], b[b.len() - 2], b[b.len() - 1]);
        let s = full_groups(b);
        assert(s.take(s.len() - 4) =~= full_groups(init));
        assert(s.subrange(s.len() - 4, s.len() as int) =~= g);
        lemma_group_decodes(b[b.len() - 3], b[b.len() - 2], b[b.len() - 1]);
        assert(b =~= init + seq![b[b.len() - 3], b[b.len() - 2], b[b.len() - 1]]);
    } else {
        assert(b.len() == 0);
        assert(b =~= Seq::<u8>::empty());
    }
}

/// Law: base64 loses nothing: decoding the digits gives back the bytes.
pub proof fn lemma_base64_decodes(b: Seq<u8>)
    ensures
        base64_decode(base64_of(b)) == b,
{
    let k = b.len() - b.len() % 3;
    let head = b.take(k);
    let rest = b.skip(k);
    lemma_full_groups_decode(head);
    let f = full_groups(head);
    let t = tail_group(rest);
    let s = f + t;
    if rest.len() == 0 {
        assert(s =~= f);
        assert(b =~= head);
    } else {
        assert(s.take(s.len() - 4) =~= f);
        assert(s.subrange(s.len() - 4, s.len() as int) =~= t);
        let b0 = rest[0];
        lemma_b64_char_index((b0 / 4) as int);
        assert(((b0 / 4) as int * 4 + ((b0 % 4) as int * 16) / 16) == b0 as int) by (nonlinear_arith);
        if rest.len() == 1 {
            lemma_b64_char_index((b0 % 4) * 16);
            assert(decode_group(t) =~= seq![b0]);
        } else {
            let b1 = rest[1];
            lemma_b64_char_index((b0 % 4) * 16 + b1 / 16);
            lemma_b64_char_index((b1 % 16) * 4);
            assert(((b0 / 4) as int * 4 + ((b0 % 4) as int * 16 + (b1 / 16) as int) / 16) == b0 as int)
                by (nonlinear_arith);
            assert((((b0 % 4) as int * 16 + (b1 / 16) as int) % 16) * 16 + ((b1 % 16) as int * 4)
                / 4 == b1 as int) by (nonlinear_arith);
            assert(decode_group(t) =~= seq![b0, b1]);
        }
        assert(b =~= head + rest);
    }
}

/// `c` is a base64 digit: `A`-`Z`, `a`-`z`, `0`-`9`, `+` or `/`.
pub open spec fn is_b64_digit(c: char) -> bool {
    ('A' <= c && c <= 'Z') || ('a' <= c && c <= 'z') || ('0' <= c && c <= '9') || c == '+'
        || c == '/'
}

proof fn lemma_b64_char_is_digit(i: int)
    requires
        0 <= i < 64,
    ensures
        is_b64_digit(b64_char(i)),
{
}

proof fn lemma_full_groups_digits(b: Seq<u8>)
    requires
        b.len() % 3 == 0,
    ensures
        forall|i: int| 0 <= i < full_groups(b).len() ==> is_b64_digit(#[trigger] full_groups(b)[i]),
    decreases b.len(),
{
    lemma_full_groups_len(b);
    if b.len() >= 3 {
        let init = b.take(b.len() - 3);
        lemma_full_groups_decode(init);
        lemma_full_groups_digits(init);
        let (b0, b1, b2) = (b[b.len() - 3], b[b.len() - 2], b[b.len() - 1]);
        lemma_b64_char_is_digit((b0 / 4) as int);
        lemma_b64_char_is_digit((b0 % 4) * 16 + b1 / 16);
        lemma_b64_char_is_digit((b1 % 16) * 4 + b2 / 64);
        lemma_b64_char_is_digit((b2 % 64) as int);
        let f = full_groups(init);
        let g = group(b0, b1, b2);
        assert forall|i: int| 0 <= i < full_groups(b).len() implies is_b64_digit(
            #[trigger] full_groups(b)[i],
        ) by {
            if i < f.len() {
                assert(full_groups(b)[i] == f[i]);
            } else {
                assert(full_groups(b)[i] == g[i - f.len()]);
            }
        }
    }
}

/// Law: base64 output is made of base64 digits followed by `(3 - n % 3) % 3` padding
/// `=` signs, for `n` input bytes, and nothing else.
pub proof fn lemma_base64_alphabet_and_padding(b: Seq<u8>)
    ensures
        ({
            let r = base64_of(b);
            let pad = (3 - b.len() % 3) % 3;
            &&& r.len() == 4 * ((b.len() + 2) / 3)
            &&& forall|i: int| 0 <= i < r.len() - pad ==> is_b64_digit(#[trigger] r[i])
            &&& forall|i: int| r.len() - pad <= i < r.len() ==> #[trigger] r[i] == '='
        }),
{
    lemma_base64_len(b);
    let k = b.len() - b.len() % 3;
    let head = b.take(k);
    let rest = b.skip(k);
    lemma_full_groups_digits(head);
    lemma_full_groups_len(head);
    let f = full_groups(head);
    let t = tail_group(rest);
    let r = base64_of(b);
    assert(r == f + t);
    if rest.len() > 0 {
        let b0 = rest[0];
        lemma_b64_char_is_digit((b0 / 4) as int);
        if rest.len() == 1 {
            lemma_b64_char_is_digit((b0 % 4) * 16);
        } else {
            let b1 = rest[1];
            lemma_b64_char_is_digit((b0 % 4) * 16 + b1 / 16);
            lemma_b64_char_is_digit((b1 % 16) * 4);
        }
    }
    let pad = (3 - b.len() % 3) % 3;
    assert forall|i: int| 0 <= i < r.len() - pad implies is_b64_digit(#[trigger] r[i]) by {
        if i < f.len() {
            assert(r[i] == f[i]);
        } else {
            assert(r[i] == t[i - f.len()]);
        }
    }
    assert forall|i: int| r.len() - pad <= i < r.len() implies #[trigger] r[i] == '=' by {
        assert(r[i] == t[i - f.len()]);
    }
}

/// Where and how a point is written.
pub struct Config {
    pub url: String,
    pub database: String,
    pub username: Option<String>,
    pub password: Option<String>,
}

impl Config {
    /// The configuration from the settings given, with `http://127.0.0.1:8086` as the
    /// URL and `home` as the database when they are not given.
    pub fn with_defaults(
        url: Option<String>,
        database: Option<String>,
        username: Option<String>,
        password: Option<String>,
    ) -> (r: Self)
        ensures
            r.url@ == (match url {
                Some(u) => u@,
                None => "http://127.0.0.1:8086"@,
            }),
            r.database@ == (match database {
                Some(d) => d@,
                None => "home"@,
            }),
            r.username == username,
            r.password == password,
    {
        let url = match url {
            Some(u) => u,
            None => owned("http://127.0.0.1:8086"),
        };
        let database = match database {
            Some(d) => d,
            None => owned("home"),
        };
        Config { url, database, username, password }
    }
}

/// An HTTP POST to make: to `url`, with an optional `Authorization` header, with
/// `body` as its body.
pub struct HttpRequest {
    pub url: String,
    pub authorization: Option<String>,
    pub body: String,
}

/// The basic-authentication header for a user name and a password, when both are
/// given: `Basic ` and the base64 of `user:password`.
pub open spec fn auth_header(user: Option<Seq<char>>, password: Option<Seq<char>>) -> Option<
    Seq<char>,
> {
    match (user, password) {
        (Some(u), Some(p)) => Some(
            "Basic "@ + base64_of(vstd::utf8::encode_utf8(u + seq![':'] + p)),
        ),
        _ => None,
    }
}

/// The request that writes `point`: to `<url>/write?db=<database>`, authenticated
/// when a user name and a password are both configured, with the point's line as
/// its body.
pub fn write_request(cfg: &Config, point: &Point) -> (r: HttpRequest)
    ensures
        r.url@ == cfg.url@ + "/write?db="@ + cfg.database@,
        opt_view(r.authorization) == auth_header(opt_view(cfg.username), opt_view(cfg.password)),
        r.body@ == line_text(point@),
{
    let mut url = String::new();
    push_str(&mut url, cfg.url.as_str());
    push_str(&mut url, "/write?db=");
    push_str(&mut url, cfg.database.as_str());
    let authorization = match (&cfg.username, &cfg.password) {
        (Some(u), Some(p)) => {
            let mut creds = String::new();
            push_str(&mut creds, u.as_str());
            push_char(&mut creds, ':');
            push_str(&mut creds, p.as_str());
            assert(creds@ =~= u@ + seq![':'] + p@);
            let encoded = base64_encode(creds.as_str());
            let mut h = owned("Basic ");
            push_str(&mut h, encoded.as_str());
            assert(opt_view(cfg.username) == Some(u@) && opt_view(cfg.password) == Some(p@));
            Some(h)
        },
        _ => None,
    };
    HttpRequest { url, authorization, body: point.to_line() }
}

/// How long ago `since` is at `now`; zero when `now` is earlier (a monotonic clock
/// read as nanoseconds never goes back, and `Instant::elapsed` saturates at zero).
pub open spec fn elapsed(since: u128, now: u128) -> int {
    if now >= since {
        now - since
    } else {
        0
    }
}

/// Whether a write of `key` at `now` falls within `min_interval` of the last write of
/// it.
pub open spec fn throttled(
    last: Map<Seq<char>, u128>,
    key: Seq<char>,
    now: u128,
    min_interval: u128,
) -> bool {
    last.contains_key(key) && elapsed(last[key], now) < min_interval
}

/// When each measurement was last written, in nanoseconds of a monotonic clock.
pub struct RateLimiter {
    last: StringHashMap<u128>,
}

impl View for RateLimiter {
    type V = Map<Seq<char>, u128>;

    closed spec fn view(&self) -> Map<Seq<char>, u128> {
        self.last@
    }
}

impl RateLimiter {
    /// A limiter that has let nothing through yet.
    pub fn new() -> (r: Self)
        ensures
            r@ == Map::<Seq<char>, u128>::empty(),
    {
        RateLimiter { last: StringHashMap::new() }
    }

    /// Remembers that `key` was written at `now`.
    pub fn record(&mut self, key: &str, now: u128)
        ensures
            final(self)@ == old(self)@.insert(key@, now),
    {
        self.last.insert(owned(key), now);
    }

    /// Whether a write of `key` at `now` may go: not when the last one let through
    /// is less than `min_interval` ago. One that may go is remembered at `now`.
    pub fn rate_limit_ok(&mut self, key: &str, now: u128, min_interval: u128) -> (r: bool)
        ensures
            r == !throttled(old(self)@, key@, now, min_interval),
            r ==> final(self)@ == old(self)@.insert(key@, now),
            !r ==> final(self)@ == old(self)@,
    {
        match self.last.get(key) {
            Some(t) => {
                let t = *t;
                let gone: u128 = if now >= t {
                    now - t
                } else {
                    0
                };
                if gone < min_interval {
                    return false;
                }
            },
            None => {},
        }
        self.last.insert(owned(key), now);
        true
    }
}

/// The request that writes `point` now, without rate limiting. The write is
/// remembered, so that a throttled write of the same measurement within its interval
/// is held back.
pub fn write(limiter: &mut RateLimiter, cfg: &Config, point: &Point, now: u128) -> (r:
    HttpRequest)
    ensures
        r.url@ == cfg.url@ + "/write?db="@ + cfg.database@,
        opt_view(r.authorization) == auth_header(opt_view(cfg.username), opt_view(cfg.password)),
        r.body@ == line_text(point@),
        final(limiter)@ == old(limiter)@.insert(point@.measurement, now),
{
    limiter.record(point.measurement(), now);
    write_request(cfg, point)
}

/// The request that writes `point`, unless its measurement was written less
/// than `min_interval` before `now`; see `RateLimiter::rate_limit_ok`.
pub fn write_throttled(
    limiter: &mut RateLimiter,
    cfg: &Config,
    point: &Point,
    now: u128,
    min_interval: u128,
) -> (r: Option<HttpRequest>)
    ensures
        r is Some == !throttled(old(limiter)@, point@.measurement, now, min_interval),
        r matches Some(req) ==> req.url@ == cfg.url@ + "/write?db="@ + cfg.database@
            && opt_view(req.authorization) == auth_header(
            opt_view(cfg.username),
            opt_view(cfg.password),
        ) && req.body@ == line_text(point@),
        r is Some ==> final(limiter)@ == old(limiter)@.insert(point@.measurement, now),
        r is None ==> final(limiter)@ == old(limiter)@,
{
    if limiter.rate_limit_ok(point.measurement(), now, min_interval) {
        Some(write_request(cfg, point))
    } else {
        None
    }
}

/// Law: once a measurement is written at `now`, by `write` or by a throttled write
/// let through, every throttled write of it before `min_interval` has passed is held
/// back.
pub proof fn lemma_throttled_after_accept(
    last: Map<Seq<char>, u128>,
    key: Seq<char>,
    now: u128,
    later: u128,
    min_interval: u128,
)
    requires
        now <= later,
        later - now < min_interval,
    ensures
        throttled(last.insert(key, now), key, later, min_interval),
{
}

/// Law: a throttled write that comes `min_interval` or more after the last write of
/// its measurement goes, and one of a measurement never written always goes.
pub proof fn lemma_accepted_after_interval(
    last: Map<Seq<char>, u128>,
    key: Seq<char>,
    now: u128,
    min_interval: u128,
)
    requires
        last.contains_key(key) ==> last[key] <= now && now - last[key] >= min_interval,
    ensures
        !throttled(last, key, now, min_interval),
{
}

/// Law: writing one measurement does not change whether another is held back.
pub proof fn lemma_throttle_other_key(
    last: Map<Seq<char>, u128>,
    key: Seq<char>,
    other: Seq<char>,
    now: u128,
    later: u128,
    min_interval: u128,
)
    requires
        key != other,
    ensures
        throttled(last.insert(key, now), other, later, min_interval) == throttled(
            last,
            other,
            later,
            min_interval,
        ),
{
}

} // verus!
