//! The values the variable store holds, and its errors.
use vstd::prelude::*;
use crate::text::{int_text, int_to_text, owned, parse_i64, parse_i64_spec, same_text};

verus! {

/// The error type of the `sqlite` crate, carried through unopened.
#[verifier::external_type_specification]
#[verifier::external_body]
pub struct ExSqliteError(sqlite::Error);

/// A stored value.
///
/// A floating-point value is held as the text that Rust's `Display` writes for its
/// `f64` (for example `"1.5"`, `"-0"`, `"inf"`, `"NaN"`): that text is what this
/// library reads of a float, and the conversions from and to `f64` happen where the
/// value enters and leaves it. Only such texts stand for floats: a `Float` made from
/// any other text stands for no `f64`, and this library reads it as the text it is.
#[derive(Debug)]
pub enum Value {
    Null,
    Int(i64),
    Float(String),
    Text(String),
    Bool(bool),
}

/// What a `Value` denotes: the same variants, with texts as sequences of chars.
pub enum ValueView {
    Null,
    Int(i64),
    Float(Seq<char>),
    Text(Seq<char>),
    Bool(bool),
}

impl View for Value {
    type V = ValueView;

    open spec fn view(&self) -> ValueView {
        match self {
            Value::Null => ValueView::Null,
            Value::Int(i) => ValueView::Int(*i),
            Value::Float(t) => ValueView::Float(t@),
            Value::Text(t) => ValueView::Text(t@),
            Value::Bool(b) => ValueView::Bool(*b),
        }
    }
}

/// What can go wrong in the variable store.
#[derive(Debug)]
pub enum DbError {
    Sqlite(sqlite::Error),
    NotFound,
    InvalidType,
    DbInitialised,
}

impl From<sqlite::Error> for DbError {
    fn from(err: sqlite::Error) -> (r: Self) {
        DbError::Sqlite(err)
    }
}

impl vstd::std_specs::convert::FromSpecImpl<sqlite::Error> for DbError {
    open spec fn obeys_from_spec() -> bool {
        true
    }

    open spec fn from_spec(v: sqlite::Error) -> Self {
        DbError::Sqlite(v)
    }
}

impl Clone for Value {
    fn clone(&self) -> (r: Self)
        ensures
            r == *self,
    {
        match self {
            Value::Null => Value::Null,
            Value::Int(v) => Value::Int(*v),
            Value::Float(t) => Value::Float(t.clone()),
            Value::Text(t) => Value::Text(t.clone()),
            Value::Bool(b) => Value::Bool(*b),
        }
    }
}

/// `"on"`.
pub open spec fn on_text() -> Seq<char> {
    seq!['o', 'n']
}

/// `"off"`.
pub open spec fn off_text() -> Seq<char> {
    seq!['o', 'f', 'f']
}

/// The text `to_string_value` gives for `v`.
pub open spec fn value_text(v: ValueView) -> Seq<char> {
    match v {
        ValueView::Text(t) => t,
        ValueView::Int(i) => int_text(i as int),
        ValueView::Float(t) => t,
        ValueView::Bool(b) => if b { on_text() } else { off_text() },
        ValueView::Null => Seq::empty(),
    }
}

/// The texts that `to_bool` reads as `true` once lowered: `true`, `on`, `1`, `yes`.
pub open spec fn true_word(w: Seq<char>) -> bool {
    ||| w == seq!['t', 'r', 'u', 'e']
    ||| w == seq!['o', 'n']
    ||| w == seq!['1']
    ||| w == seq!['y', 'e', 's']
}

/// The texts that `to_bool` reads as `false` once lowered: `false`, `off`, `0`, `no`.
pub open spec fn false_word(w: Seq<char>) -> bool {
    ||| w == seq!['f', 'a', 'l', 's', 'e']
    ||| w == seq!['o', 'f', 'f']
    ||| w == seq!['0']
    ||| w == seq!['n', 'o']
}

/// No word reads as both `true` and `false`.
proof fn lemma_words_disjoint(w: Seq<char>)
    ensures
        !(true_word(w) && false_word(w)),
{
    if true_word(w) && false_word(w) {
        if w.len() == 1 {
            assert(w[0] == '1' && w[0] == '0');
        } else if w.len() == 2 {
            assert(w[0] == 'o' && w[0] == 'n');
        } else {
            assert(w.len() == 3);
            assert(w[0] == 'y' && w[0] == 'o');
        }
    }
}

/// The `Display` text of a float is that of zero: `0` or `-0`.
pub open spec fn zero_float_text(t: Seq<char>) -> bool {
    t == seq!['0'] || t == seq!['-', '0']
}

/// Names what `str::to_lowercase` returns for a text: its Unicode lowercase mapping.
pub uninterp spec fn lowercase(s: Seq<char>) -> Seq<char>;

/// `s` holds only ASCII chars.
pub open spec fn ascii_text(s: Seq<char>) -> bool {
    forall|i: int| 0 <= i < s.len() ==> (#[trigger] s[i] as int) < 128
}

/// An ASCII char lowered: `A` to `Z` become `a` to `z`, every other char stays.
pub open spec fn ascii_lower_char(c: char) -> char {
    if 'A' <= c && c <= 'Z' {
        ((c as int) + 32) as char
    } else {
        c
    }
}

/// An ASCII text lowered char by char.
pub open spec fn ascii_lower(s: Seq<char>) -> Seq<char> {
    s.map_values(|c: char| ascii_lower_char(c))
}

/// Calls `str::to_lowercase`. The contract names its result `lowercase` of the
/// input's chars, and states of it only what holds of ASCII texts, whose Unicode
/// lowercase mapping is the ASCII one: `A` to `Z` become `a` to `z` and nothing else
/// changes. What the mapping does to other chars (it may change a text's length) is
/// left unsaid.
#[verifier::external_body]
fn to_lowercase(s: &str) -> (r: String)
    ensures
        r@ == lowercase(s@),
        ascii_text(s@) ==> r@ == ascii_lower(s@),
{
    s.to_lowercase()
}

/// Reads an already lowered text as a boolean, as `to_bool` does.
pub fn bool_word(lowered: &str) -> (r: Result<bool, DbError>)
    ensures
        true_word(lowered@) ==> (r matches Ok(true)),
        false_word(lowered@) ==> (r matches Ok(false)),
        !true_word(lowered@) && !false_word(lowered@) ==> (r matches Err(DbError::InvalidType)),
{
    proof {
        reveal_strlit("true");
        reveal_strlit("on");
        reveal_strlit("1");
        reveal_strlit("yes");
        reveal_strlit("false");
        reveal_strlit("off");
        reveal_strlit("0");
        reveal_strlit("no");
        assert("true"@ =~= seq!['t', 'r', 'u', 'e']);
        assert("on"@ =~= seq!['o', 'n']);
        assert("1"@ =~= seq!['1']);
        assert("yes"@ =~= seq!['y', 'e', 's']);
        assert("false"@ =~= seq!['f', 'a', 'l', 's', 'e']);
        assert("off"@ =~= seq!['o', 'f', 'f']);
        assert("0"@ =~= seq!['0']);
        assert("no"@ =~= seq!['n', 'o']);
        lemma_words_disjoint(lowered@);
    }
    if same_text(lowered, "true") || same_text(lowered, "on") || same_text(lowered, "1")
        || same_text(lowered, "yes") {
        Ok(true)
    } else if same_text(lowered, "false") || same_text(lowered, "off") || same_text(lowered, "0")
        || same_text(lowered, "no") {
        Ok(false)
    } else {
        Err(DbError::InvalidType)
    }
}

impl Value {
    /// The text, if this is a `Text`.
    pub fn as_str(&self) -> (r: Result<&str, DbError>)
        ensures
            match *self {
                Value::Text(t) => r matches Ok(s) && s@ == t@,
                _ => r matches Err(DbError::InvalidType),
            },
    {
        match self {
            Value::Text(v) => Ok(v.as_str()),
            _ => Err(DbError::InvalidType),
        }
    }

    /// The integer, if this is an `Int`.
    pub fn as_i64(&self) -> (r: Result<i64, DbError>)
        ensures
            match *self {
                Value::Int(i) => r matches Ok(x) && x == i,
                _ => r matches Err(DbError::InvalidType),
            },
    {
        match self {
            Value::Int(v) => Ok(*v),
            _ => Err(DbError::InvalidType),
        }
    }

    /// The boolean, if this is a `Bool`.
    pub fn as_bool(&self) -> (r: Result<bool, DbError>)
        ensures
            match *self {
                Value::Bool(b) => r matches Ok(x) && x == b,
                _ => r matches Err(DbError::InvalidType),
            },
    {
        match self {
            Value::Bool(v) => Ok(*v),
            _ => Err(DbError::InvalidType),
        }
    }

    /// The value as text: a `Text` as it is, an integer in decimal, a float as its
    /// `Display` text, a boolean as `on` or `off`, and `Null` as the empty text.
    pub fn to_string_value(&self) -> (r: String)
        ensures
            r@ == value_text(self@),
    {
        proof {
            reveal_strlit("on");
            reveal_strlit("off");
            reveal_strlit("");
            assert("on"@ =~= on_text());
            assert("off"@ =~= off_text());
            assert(""@ =~= Seq::<char>::empty());
        }
        match self {
            Value::Text(v) => v.clone(),
            Value::Int(v) => int_to_text(*v),
            Value::Float(v) => v.clone(),
            Value::Bool(v) => {
                if *v {
                    owned("on")
                } else {
                    owned("off")
                }
            },
            Value::Null => owned(""),
        }
    }

    /// The value as a boolean: a `Bool` as it is, a number by whether it is non-zero,
    /// a text by the word it holds once lowered (`true`, `on`, `1`, `yes` or `false`,
    /// `off`, `0`, `no`); `Null` and other texts are `InvalidType`.
    pub fn to_bool(&self) -> (r: Result<bool, DbError>)
        ensures
            match *self {
                Value::Bool(b) => r matches Ok(x) && x == b,
                Value::Int(i) => r matches Ok(x) && x == (i != 0),
                Value::Float(t) => r matches Ok(x) && x == !zero_float_text(t@),
                Value::Text(t) => {
                    &&& true_word(lowercase(t@)) ==> (r matches Ok(true))
                    &&& false_word(lowercase(t@)) ==> (r matches Ok(false))
                    &&& !true_word(lowercase(t@)) && !false_word(lowercase(t@)) ==> (r matches Err(
                        DbError::InvalidType,
                    ))
                    &&& ascii_text(t@) ==> lowercase(t@) == ascii_lower(t@)
                },
                Value::Null => r matches Err(DbError::InvalidType),
            },
    {
        match self {
            Value::Bool(v) => Ok(*v),
            Value::Int(v) => Ok(*v != 0),
            Value::Float(v) => {
                proof {
                    reveal_strlit("0");
                    reveal_strlit("-0");
                    assert("0"@ =~= seq!['0']);
                    assert("-0"@ =~= seq!['-', '0']);
                }
                let zero = same_text(v.as_str(), "0") || same_text(
                    v.as_str(),
                    "-0",
                );
                Ok(!zero)
            },
            Value::Text(v) => {
                let lowered = to_lowercase(v.as_str());
                bool_word(lowered.as_str())
            },
            Value::Null => Err(DbError::InvalidType),
        }
    }

    /// The value as an integer: a boolean as 1 or 0, a text read as an `i64`, and a
    /// float as `float_trunc`, which is what `as i64` gives for its `f64` (truncated
    /// toward zero, saturated at the bounds of `i64`, 0 for NaN); `Null` and texts
    /// that are not integers are `InvalidType`.
    pub fn to_int(&self, float_trunc: i64) -> (r: Result<i64, DbError>)
        ensures
            match self@ {
                ValueView::Int(i) => r matches Ok(x) && x == i,
                ValueView::Float(_) => r matches Ok(x) && x == float_trunc,
                ValueView::Bool(b) => r matches Ok(x) && x == (if b { 1i64 } else { 0i64 }),
                ValueView::Text(t) => match parse_i64_spec(t) {
                    Some(i) => r matches Ok(x) && x == i,
                    None => r matches Err(DbError::InvalidType),
                },
                ValueView::Null => r matches Err(DbError::InvalidType),
            },
    {
        match self {
            Value::Int(v) => Ok(*v),
            Value::Float(_) => Ok(float_trunc),
            Value::Bool(v) => {
                if *v {
                    Ok(1)
                } else {
                    Ok(0)
                }
            },
            Value::Text(v) => match parse_i64(v.as_str()) {
                Some(i) => Ok(i),
                None => Err(DbError::InvalidType),
            },
            Value::Null => Err(DbError::InvalidType),
        }
    }

    /// The text, or `default` when this is not a `Text`.
    pub fn as_str_or<'a>(&'a self, default: &'a str) -> (r: &'a str)
        ensures
            match *self {
                Value::Text(t) => r@ == t@,
                _ => r == default,
            },
    {
        match self {
            Value::Text(v) => v.as_str(),
            _ => default,
        }
    }

    /// The integer, or `default` when this is not an `Int`.
    pub fn as_i64_or(&self, default: i64) -> (r: i64)
        ensures
            match *self {
                Value::Int(i) => r == i,
                _ => r == default,
            },
    {
        match self {
            Value::Int(v) => *v,
            _ => default,
        }
    }

    /// The boolean, or `default` when this is not a `Bool`.
    pub fn as_bool_or(&self, default: bool) -> (r: bool)
        ensures
            match *self {
                Value::Bool(b) => r == b,
                _ => r == default,
            },
    {
        match self {
            Value::Bool(v) => *v,
            _ => default,
        }
    }
}

} // verus!
