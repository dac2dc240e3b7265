//! The variable store: an in-memory cache in front of an SQLite table
//! `variables (key, type, value)`.
//!
//! The cache and the SQL are computed here; the statements are run against the
//! database by the caller, who hands back what a query returned.
use vstd::prelude::*;
use vstd::hash_map::StringHashMap;
use crate::text::{int_text, int_to_text, owned, parse_i64, parse_i64_spec, push_str};
use crate::types::{value_text, DbError, Value, ValueView};

verus! {

/// The cache of variables already written or read, by key.
pub struct VariableCache {
    entries: StringHashMap<Value>,
}

impl View for VariableCache {
    type V = Map<Seq<char>, ValueView>;

    closed spec fn view(&self) -> Map<Seq<char>, ValueView> {
        self.entries@.map_values(|v: Value| v@)
    }
}

impl VariableCache {
    /// An empty cache.
    pub fn new() -> (r: Self)
        ensures
            r@ == Map::<Seq<char>, ValueView>::empty(),
    {
        let r = VariableCache { entries: StringHashMap::new() };
        assert(r@ =~= Map::<Seq<char>, ValueView>::empty());
        r
    }

    /// The cached value of `key`, if any.
    pub fn get(&self, key: &str) -> (r: Option<Value>)
        ensures
            self@.contains_key(key@) ==> (r matches Some(v) && v@ == self@[key@]),
            !self@.contains_key(key@) ==> r is None,
    {
        match self.entries.get(key) {
            Some(v) => Some(v.clone()),
            None => None,
        }
    }

    /// Remembers `val` as the value of `key`.
    pub fn insert(&mut self, key: &str, val: Value)
        ensures
            final(self)@ == old(self)@.insert(key@, val@),
    {
        let ghost v = val@;
        self.entries.insert(owned(key), val);
        assert(self@ =~= old(self)@.insert(key@, v));
    }
}

/// The statements that set up the database: the `variables` table and the journal
/// settings.
pub fn schema_statements() -> (r: Vec<String>)
    ensures
        r@.len() == 3,
        r@[0]@ == "CREATE TABLE variables (key TEXT PRIMARY KEY, type TEXT, value);"@,
        r@[1]@ == "PRAGMA journal_mode=WAL;"@,
        r@[2]@ == "PRAGMA synchronous=NORMAL;"@,
{
    let mut r: Vec<String> = Vec::new();
    r.push(owned("CREATE TABLE variables (key TEXT PRIMARY KEY, type TEXT, value);"));
    r.push(owned("PRAGMA journal_mode=WAL;"));
    r.push(owned("PRAGMA synchronous=NORMAL;"));
    r
}

/// The word stored in the `type` column for a value; `Null` is not stored.
pub open spec fn stored_type(v: ValueView) -> Option<Seq<char>> {
    match v {
        ValueView::Text(_) => Some("string"@),
        ValueView::Int(_) => Some("int"@),
        ValueView::Float(_) => Some("float"@),
        ValueView::Bool(_) => Some("bool"@),
        ValueView::Null => None,
    }
}

/// The text stored in the `value` column for a value.
pub open spec fn stored_text(v: ValueView) -> Seq<char> {
    match v {
        ValueView::Text(t) => t,
        ValueView::Int(i) => int_text(i as int),
        ValueView::Float(t) => t,
        ValueView::Bool(b) => if b { "1"@ } else { "0"@ },
        ValueView::Null => Seq::empty(),
    }
}

/// The statement that stores `v` under `key`; none for `Null`.
pub open spec fn insert_statement(key: Seq<char>, v: ValueView) -> Option<Seq<char>> {
    match stored_type(v) {
        Some(tp) => Some(
            "INSERT OR REPLACE INTO variables (key,value,type) VALUES ('"@ + key + "','"@
                + stored_text(v) + "','"@ + tp + "')"@,
        ),
        None => None,
    }
}

/// The query that reads the row of `key`.
pub open spec fn select_statement(key: Seq<char>) -> Seq<char> {
    "SELECT value,type FROM variables WHERE key='"@ + key + "' LIMIT 1"@
}

/// One column of a row as the database returned it: the column's name, its text
/// (none for SQL `NULL`), and what reading that text as an `f64` gives, written
/// back as the `Display` text of that `f64` (none when the text is not a float).
pub struct Cell {
    pub name: String,
    pub text: Option<String>,
    pub float_text: Option<String>,
}

/// What a `Cell` denotes.
pub struct CellView {
    pub name: Seq<char>,
    pub text: Option<Seq<char>>,
    pub float_text: Option<Seq<char>>,
}

/// The view of an optional text.
pub open spec fn opt_view(t: Option<String>) -> Option<Seq<char>> {
    match t {
        Some(s) => Some(s@),
        None => None,
    }
}

impl View for Cell {
    type V = CellView;

    open spec fn view(&self) -> CellView {
        CellView { name: self.name@, text: opt_view(self.text), float_text: opt_view(self.float_text) }
    }
}

/// The view of a row.
pub open spec fn row_view(row: Vec<Cell>) -> Seq<CellView> {
    row@.map_values(|c: Cell| c@)
}

/// The view of what a query returned.
pub open spec fn rows_view(rows: Vec<Vec<Cell>>) -> Seq<Seq<CellView>> {
    rows@.map_values(|r: Vec<Cell>| row_view(r))
}

/// The last cell of `row` named `name` that holds a text: the one a scan of the row
/// that keeps overwriting ends with.
pub open spec fn picked(row: Seq<CellView>, name: Seq<char>) -> Option<CellView>
    decreases row.len(),
{
    if row.len() == 0 {
        None
    } else if row.last().name == name && row.last().text is Some {
        Some(row.last())
    } else {
        picked(row.drop_last(), name)
    }
}

/// The `type` text of a row (empty when it has none).
pub open spec fn row_type(row: Seq<CellView>) -> Seq<char> {
    match picked(row, "type"@) {
        Some(c) => c.text->0,
        None => Seq::empty(),
    }
}

/// The `value` text of a row (empty when it has none).
pub open spec fn row_text(row: Seq<CellView>) -> Seq<char> {
    match picked(row, "value"@) {
        Some(c) => c.text->0,
        None => Seq::empty(),
    }
}

/// The float reading of the `value` text of a row (none when it has none).
pub open spec fn row_float(row: Seq<CellView>) -> Option<Seq<char>> {
    match picked(row, "value"@) {
        Some(c) => c.float_text,
        None => None,
    }
}

/// Whether the `type` of a row is none of `string`, `int`, `float`, `bool`.
pub open spec fn row_invalid(row: Seq<CellView>) -> bool {
    let tp = row_type(row);
    tp != "string"@ && tp != "int"@ && tp != "float"@ && tp != "bool"@
}

/// The value a row holds, by its `type`: none when its text does not read as that type.
pub open spec fn row_value(row: Seq<CellView>) -> Option<ValueView> {
    let tp = row_type(row);
    let text = row_text(row);
    if tp == "string"@ {
        Some(ValueView::Text(text))
    } else if tp == "int"@ {
        match parse_i64_spec(text) {
            Some(i) => Some(ValueView::Int(i)),
            None => None,
        }
    } else if tp == "float"@ {
        match row_float(row) {
            Some(f) => Some(ValueView::Float(f)),
            None => None,
        }
    } else if tp == "bool"@ {
        if text == "true"@ || text == "1"@ {
            Some(ValueView::Bool(true))
        } else if text == "false"@ || text == "0"@ {
            Some(ValueView::Bool(false))
        } else {
            None
        }
    } else {
        None
    }
}

/// What reading the rows a query returned gives: `InvalidType` if any row has an
/// unknown type, else the value of the last row, or `NotFound` when there is none.
pub open spec fn rows_outcome(rows: Seq<Seq<CellView>>) -> Result<ValueView, DbError> {
    if exists|i: int| 0 <= i < rows.len() && row_invalid(#[trigger] rows[i]) {
        Err(DbError::InvalidType)
    } else if rows.len() == 0 {
        Err(DbError::NotFound)
    } else {
        match row_value(rows.last()) {
            Some(v) => Ok(v),
            None => Err(DbError::NotFound),
        }
    }
}

/// The view of what a query returned, or of its error.
pub open spec fn fetched_view(f: Result<Vec<Vec<Cell>>, sqlite::Error>) -> Result<
    Seq<Seq<CellView>>,
    sqlite::Error,
> {
    match f {
        Ok(rows) => Ok(rows_view(rows)),
        Err(e) => Err(e),
    }
}

/// The view of a read's result.
pub open spec fn result_view(r: Result<Value, DbError>) -> Result<ValueView, DbError> {
    match r {
        Ok(v) => Ok(v@),
        Err(e) => Err(e),
    }
}

/// What reading `key` gives: the cached value when there is one, else what the
/// query returned read as `rows_outcome`, or its error.
pub open spec fn read_result(
    cache: Map<Seq<char>, ValueView>,
    key: Seq<char>,
    fetched: Result<Seq<Seq<CellView>>, sqlite::Error>,
) -> Result<ValueView, DbError> {
    if cache.contains_key(key) {
        Ok(cache[key])
    } else {
        match fetched {
            Err(e) => Err(DbError::Sqlite(e)),
            Ok(rows) => rows_outcome(rows),
        }
    }
}

/// The cache after reading `key`: a value read from the database is remembered.
pub open spec fn cache_after_read(
    cache: Map<Seq<char>, ValueView>,
    key: Seq<char>,
    fetched: Result<Seq<Seq<CellView>>, sqlite::Error>,
) -> Map<Seq<char>, ValueView> {
    if cache.contains_key(key) {
        cache
    } else {
        match read_result(cache, key, fetched) {
            Ok(v) => cache.insert(key, v),
            Err(_) => cache,
        }
    }
}

/// The statement that stores `val` under `key`; none for `Null`.
pub fn store_statement(key: &str, val: &Value) -> (r: Option<String>)
    ensures
        opt_view(r) == insert_statement(key@, val@),
{
    let tp = match val {
        Value::Text(_) => "string",
        Value::Int(_) => "int",
        Value::Float(_) => "float",
        Value::Bool(_) => "bool",
        Value::Null => {
            return None;
        },
    };
    let mut s = owned("INSERT OR REPLACE INTO variables (key,value,type) VALUES ('");
    push_str(&mut s, key);
    push_str(&mut s, "','");
    match val {
        Value::Text(t) => push_str(&mut s, t.as_str()),
        Value::Int(i) => {
            let t = int_to_text(*i);
            push_str(&mut s, t.as_str());
        },
        Value::Float(t) => push_str(&mut s, t.as_str()),
        Value::Bool(b) => {
            if *b {
                push_str(&mut s, "1");
            } else {
                push_str(&mut s, "0");
            }
        },
        Value::Null => {},
    }
    push_str(&mut s, "','");
    push_str(&mut s, tp);
    push_str(&mut s, "')");
    Some(s)
}

/// The query that reads the row of `key`.
pub fn select_query(key: &str) -> (r: String)
    ensures
        r@ == select_statement(key@),
{
    let mut s = owned("SELECT value,type FROM variables WHERE key='");
    push_str(&mut s, key);
    push_str(&mut s, "' LIMIT 1");
    s
}

/// Stores `val` under `key`: the cache remembers it at once, and the statement that
/// writes it to the database is returned to be run (none for `Null`, which is only
/// cached).
pub fn store_variable(cache: &mut VariableCache, key: &str, val: Value) -> (r: Option<String>)
    ensures
        final(cache)@ == old(cache)@.insert(key@, val@),
        opt_view(r) == insert_statement(key@, val@),
{
    let stmt = store_statement(key, &val);
    cache.insert(key, val);
    stmt
}

/// What a read of a variable starts with: the cached value, or the query to run.
pub enum ReadPlan {
    Cached(Value),
    Query(String),
}

/// The first step of a read: the cached value of `key` if there is one, else the
/// query that reads its row.
pub fn plan_read(cache: &VariableCache, key: &str) -> (r: ReadPlan)
    ensures
        cache@.contains_key(key@) ==> (r matches ReadPlan::Cached(v) && v@ == cache@[key@]),
        !cache@.contains_key(key@) ==> (r matches ReadPlan::Query(q) && q@
            == select_statement(key@)),
{
    match cache.get(key) {
        Some(v) => ReadPlan::Cached(v),
        None => ReadPlan::Query(select_query(key)),
    }
}

proof fn lemma_picked_step(row: Seq<CellView>, i: int, name: Seq<char>)
    requires
        0 <= i < row.len(),
    ensures
        picked(row.take(i + 1), name) == (if row[i].name == name && row[i].text is Some {
            Some(row[i])
        } else {
            picked(row.take(i), name)
        }),
{
    assert(row.take(i + 1).drop_last() =~= row.take(i));
}

/// The index of the cell that `picked` chooses.
fn picked_index(row: &Vec<Cell>, name: &str) -> (r: Option<usize>)
    ensures
        r matches Some(i) ==> i < row.len() && picked(row_view(*row), name@) == Some(
            row_view(*row)[i as int],
        ) && row@[i as int].text is Some,
        r is None ==> picked(row_view(*row), name@) is None,
{
    let ghost rv = row_view(*row);
    let mut found: Option<usize> = None;
    assert(rv.take(0) =~= Seq::<CellView>::empty());
    for i in 0..row.len()
        invariant
            rv == row_view(*row),
            rv.len() == row.len(),
            found matches Some(j) ==> j < i && picked(rv.take(i as int), name@) == Some(rv[j as int])
                && row@[j as int].text is Some,
            found is None ==> picked(rv.take(i as int), name@) is None,
    {
        proof {
            lemma_picked_step(rv, i as int, name@);
        }
        let c = &row[i];
        assert(rv[i as int] == c@);
        if crate::text::same_text(c.name.as_str(), name) && c.text.is_some() {
            found = Some(i);
        }
    }
    assert(rv.take(row.len() as int) =~= rv);
    found
}

/// The text of an optional cell, empty when there is none.
fn cell_text(row: &Vec<Cell>, at: Option<usize>) -> (r: String)
    requires
        at matches Some(i) ==> i < row.len() && row@[i as int].text is Some,
    ensures
        at matches Some(i) ==> r@ == row@[i as int].text->0@,
        at is None ==> r@ == Seq::<char>::empty(),
{
    match at {
        Some(i) => match &row[i].text {
            Some(t) => t.clone(),
            None => String::new(),
        },
        None => String::new(),
    }
}

/// Reads one row: whether its type is unknown, and the value it holds.
fn decode_row(row: &Vec<Cell>) -> (r: (bool, Option<Value>))
    ensures
        r.0 == row_invalid(row_view(*row)),
        match r.1 {
            Some(v) => row_value(row_view(*row)) == Some(v@),
            None => row_value(row_view(*row)) is None,
        },
{
    let ghost rv = row_view(*row);
    let ti = picked_index(row, "type");
    let vi = picked_index(row, "value");
    let tp = cell_text(row, ti);
    let value = cell_text(row, vi);
    assert(tp@ == row_type(rv));
    assert(value@ == row_text(rv));
    if crate::text::same_text(tp.as_str(), "string") {
        (false, Some(Value::Text(value)))
    } else if crate::text::same_text(tp.as_str(), "int") {
        match parse_i64(value.as_str()) {
            Some(i) => (false, Some(Value::Int(i))),
            None => (false, None),
        }
    } else if crate::text::same_text(tp.as_str(), "float") {
        let f = match vi {
            Some(i) => match &row[i].float_text {
                Some(t) => Some(t.clone()),
                None => None,
            },
            None => None,
        };
        assert(opt_view(f) == row_float(rv));
        match f {
            Some(t) => (false, Some(Value::Float(t))),
            None => (false, None),
        }
    } else if crate::text::same_text(tp.as_str(), "bool") {
        if crate::text::same_text(value.as_str(), "true") || crate::text::same_text(
            value.as_str(),
            "1",
        ) {
            (false, Some(Value::Bool(true)))
        } else if crate::text::same_text(value.as_str(), "false") || crate::text::same_text(
            value.as_str(),
            "0",
        ) {
            (false, Some(Value::Bool(false)))
        } else {
            (false, None)
        }
    } else {
        (true, None)
    }
}

/// Reads the rows a query returned, as `rows_outcome` says.
pub fn decode_rows(rows: &Vec<Vec<Cell>>) -> (r: Result<Value, DbError>)
    ensures
        result_view(r) == rows_outcome(rows_view(*rows)),
{
    let ghost rv = rows_view(*rows);
    let mut invalid = false;
    let mut result: Option<Value> = None;
    for i in 0..rows.len()
        invariant
            rv == rows_view(*rows),
            rv.len() == rows.len(),
            invalid == exists|j: int| 0 <= j < i && row_invalid(#[trigger] rv[j]),
            i == 0 ==> result is None,
            i > 0 ==> match result {
                Some(v) => row_value(rv[i - 1]) == Some(v@),
                None => row_value(rv[i - 1]) is None,
            },
    {
        let (bad, v) = decode_row(&rows[i]);
        assert(rv[i as int] == row_view(rows@[i as int]));
        if bad {
            invalid = true;
        }
        result = v;
    }
    if invalid {
        return Err(DbError::InvalidType);
    }
    match result {
        Some(v) => Ok(v),
        None => Err(DbError::NotFound),
    }
}

/// Reads the variable `key`. A cached value is returned as it is. Otherwise
/// `fetched` is what running `select_statement(key)` returned: its error is
/// returned as `Sqlite`, and its rows are read as `rows_outcome` says; a value so
/// read is remembered in the cache.
pub fn read_variable(
    cache: &mut VariableCache,
    key: &str,
    fetched: Result<Vec<Vec<Cell>>, sqlite::Error>,
) -> (r: Result<Value, DbError>)
    ensures
        result_view(r) == read_result(old(cache)@, key@, fetched_view(fetched)),
        final(cache)@ == cache_after_read(old(cache)@, key@, fetched_view(fetched)),
{
    if let Some(v) = cache.get(key) {
        return Ok(v);
    }
    match fetched {
        Err(e) => Err(DbError::Sqlite(e)),
        Ok(rows) => {
            let r = decode_rows(&rows);
            match r {
                Ok(v) => {
                    let keep = v.clone();
                    cache.insert(key, keep);
                    Ok(v)
                },
                Err(e) => Err(e),
            }
        },
    }
}

/// What a read gives when its failures fall back to `default`.
pub fn read_variable_default(read: Result<Value, DbError>, default: Value) -> (r: Value)
    ensures
        read matches Ok(v) ==> r@ == v@,
        read is Err ==> r@ == default@,
{
    match read {
        Ok(v) => v,
        Err(_) => default,
    }
}

/// The integer a read gives, or `default` when the read failed. A read that gives
/// a value of another type is a programming error of the caller.
pub fn get_i64(read: Result<Value, DbError>, default: i64) -> (r: i64)
    requires
        read matches Ok(v) ==> v is Int,
    ensures
        read matches Ok(Value::Int(i)) ==> r == i,
        read is Err ==> r == default,
{
    match read_variable_default(read, Value::Int(default)) {
        Value::Int(i) => i,
        _ => default,
    }
}

/// The boolean a read gives, or `default` when the read failed. A read that gives
/// a value of another type is a programming error of the caller.
pub fn get_bool(read: Result<Value, DbError>, default: bool) -> (r: bool)
    requires
        read matches Ok(v) ==> v is Bool,
    ensures
        read matches Ok(Value::Bool(b)) ==> r == b,
        read is Err ==> r == default,
{
    match read_variable_default(read, Value::Bool(default)) {
        Value::Bool(b) => b,
        _ => default,
    }
}

/// The text a read gives, or `default` when the read failed. A read that gives a
/// value of another type is a programming error of the caller.
pub fn get_string(read: Result<Value, DbError>, default: &str) -> (r: String)
    requires
        read matches Ok(v) ==> v is Text,
    ensures
        read matches Ok(Value::Text(t)) ==> r@ == t@,
        read is Err ==> r@ == default@,
{
    match read_variable_default(read, Value::Text(owned(default))) {
        Value::Text(t) => t,
        _ => owned(default),
    }
}

/// Stores an integer; see `store_variable`.
pub fn set_i64(cache: &mut VariableCache, key: &str, val: i64) -> (r: Option<String>)
    ensures
        final(cache)@ == old(cache)@.insert(key@, ValueView::Int(val)),
        opt_view(r) == insert_statement(key@, ValueView::Int(val)),
{
    store_variable(cache, key, Value::Int(val))
}

/// Stores a boolean; see `store_variable`.
pub fn set_bool(cache: &mut VariableCache, key: &str, val: bool) -> (r: Option<String>)
    ensures
        final(cache)@ == old(cache)@.insert(key@, ValueView::Bool(val)),
        opt_view(r) == insert_statement(key@, ValueView::Bool(val)),
{
    store_variable(cache, key, Value::Bool(val))
}

/// Stores a text; see `store_variable`.
pub fn set_string(cache: &mut VariableCache, key: &str, val: &str) -> (r: Option<String>)
    ensures
        final(cache)@ == old(cache)@.insert(key@, ValueView::Text(val@)),
        opt_view(r) == insert_statement(key@, ValueView::Text(val@)),
{
    store_variable(cache, key, Value::Text(owned(val)))
}

/// Law: a read of a key gives back the value last stored under it, whatever the
/// database would have returned, and leaves the cache as the store left it.
pub proof fn lemma_read_after_store(
    cache: Map<Seq<char>, ValueView>,
    key: Seq<char>,
    v: ValueView,
    fetched: Result<Seq<Seq<CellView>>, sqlite::Error>,
)
    ensures
        read_result(cache.insert(key, v), key, fetched) == Ok::<ValueView, DbError>(v),
        cache_after_read(cache.insert(key, v), key, fetched) == cache.insert(key, v),
{
}

/// Law: storing under one key changes nothing that a read of another key gives.
pub proof fn lemma_store_other_key(
    cache: Map<Seq<char>, ValueView>,
    key: Seq<char>,
    other: Seq<char>,
    v: ValueView,
    fetched: Result<Seq<Seq<CellView>>, sqlite::Error>,
)
    requires
        key != other,
    ensures
        read_result(cache.insert(key, v), other, fetched) == read_result(cache, other, fetched),
{
}

/// Law: once a read has succeeded, reading the same key again gives the same value,
/// whatever the database returns the second time.
pub proof fn lemma_read_is_stable(
    cache: Map<Seq<char>, ValueView>,
    key: Seq<char>,
    fetched: Result<Seq<Seq<CellView>>, sqlite::Error>,
    again: Result<Seq<Seq<CellView>>, sqlite::Error>,
)
    requires
        read_result(cache, key, fetched) is Ok,
    ensures
        read_result(cache_after_read(cache, key, fetched), key, again) == read_result(
            cache,
            key,
            fetched,
        ),
{
}

/// Law: a failed read leaves the cache as it was.
pub proof fn lemma_failed_read_keeps_cache(
    cache: Map<Seq<char>, ValueView>,
    key: Seq<char>,
    fetched: Result<Seq<Seq<CellView>>, sqlite::Error>,
)
    requires
        read_result(cache, key, fetched) is Err,
    ensures
        cache_after_read(cache, key, fetched) == cache,
{
}

/// The row that the statement storing `v` leaves in the table, as a query returns
/// it: the `value` cell with the stored text (and `float` as its float reading), then
/// the `type` cell.
pub open spec fn stored_row(v: ValueView, float: Option<Seq<char>>, type_float: Option<
    Seq<char>,
>) -> Seq<CellView> {
    seq![
        CellView { name: "value"@, text: Some(stored_text(v)), float_text: float },
        CellView { name: "type"@, text: stored_type(v), float_text: type_float },
    ]
}

/// Law: the row written for a value reads back as that value. For a float this
/// needs the float reading of its stored text to be that text again, which holds of
/// every `Display` text of an `f64`.
pub proof fn lemma_stored_row_reads_back(
    v: ValueView,
    float: Option<Seq<char>>,
    type_float: Option<Seq<char>>,
)
    requires
        !(v is Null),
        v matches ValueView::Float(t) ==> float == Some(t),
    ensures
        rows_outcome(seq![stored_row(v, float, type_float)]) == Ok::<ValueView, DbError>(v),
{
    reveal_strlit("value");
    reveal_strlit("type");
    reveal_strlit("string");
    reveal_strlit("int");
    reveal_strlit("float");
    reveal_strlit("bool");
    reveal_strlit("true");
    reveal_strlit("false");
    reveal_strlit("1");
    reveal_strlit("0");
    let row = stored_row(v, float, type_float);
    let rows = seq![row];
    assert("value"@ != "type"@) by {
        assert("value"@.len() != "type"@.len());
    }
    assert(row.drop_last() =~= seq![row[0]]);
    assert(seq![row[0]].drop_last() =~= Seq::<CellView>::empty());
    assert(picked(row, "type"@) == Some(row[1]));
    assert(picked(seq![row[0]], "value"@) == Some(row[0]));
    assert(picked(row, "value"@) == Some(row[0]));
    assert("string"@ != "int"@ && "string"@ != "float"@ && "string"@ != "bool"@) by {
        assert("string"@.len() == 6 && "int"@.len() == 3 && "float"@.len() == 5
            && "bool"@.len() == 4);
    }
    assert("int"@ != "float"@ && "int"@ != "bool"@ && "float"@ != "bool"@) by {
        assert("int"@.len() == 3 && "float"@.len() == 5 && "bool"@.len() == 4);
    }
    match v {
        ValueView::Int(i) => {
            crate::text::lemma_parse_int_text(i);
        },
        ValueView::Bool(b) => {
            assert("1"@ != "false"@ && "1"@ != "0"@ && "0"@ != "true"@) by {
                assert("1"@.len() == 1 && "0"@.len() == 1 && "true"@.len() == 4
                    && "false"@.len() == 5);
                assert("1"@[0] != "0"@[0]);
            }
        },
        _ => {},
    }
    assert(!row_invalid(rows[0]));
    assert(!(exists|i: int| 0 <= i < rows.len() && row_invalid(#[trigger] rows[i])));
}

/// Law: the row written for a value, read back with the float reading of the text
/// that was written, gives that value again, for every float reading under which
/// the `Display` text of the float reads as itself.
pub proof fn lemma_written_row_reads_back(v: ValueView, fr: spec_fn(Seq<char>) -> Option<Seq<char>>)
    requires
        !(v is Null),
        v matches ValueView::Float(t) ==> fr(t) == Some(t),
    ensures
        rows_outcome(seq![stored_row(v, fr(stored_text(v)), fr(stored_type(v)->0))])
            == Ok::<ValueView, DbError>(v),
{
    lemma_stored_row_reads_back(v, fr(stored_text(v)), fr(stored_type(v)->0));
}

/// Law: but for a boolean (stored as `1` or `0`), the database stores a value as the
/// same text that the value is shown as.
pub proof fn lemma_stored_text_is_shown_text(v: ValueView)
    requires
        !(v is Bool),
    ensures
        stored_text(v) == value_text(v),
{
}

} // verus!
