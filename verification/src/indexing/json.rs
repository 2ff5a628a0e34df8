//! The data that a server attaches to an item: JSON values, as far as it matters
//! which of them are equal.

use vstd::prelude::*;

verus! {

/// A part of a JSON value.
pub enum JsonToken {
    Null,
    Bool(bool),
    /// An integer that is not negative.
    Natural(u64),
    /// A negative integer.
    Negative(i64),
    /// Any other number, by the bits of its binary representation.
    Float(u64),
    Text(String),
    /// A list. Its items follow, as many as the number says.
    List(u64),
    /// An object. Its entries follow, as many as the number says: in the order of
    /// their keys, each as a text and a value.
    Object(u64),
}

/// The bits of the number zero with a minus sign.
pub const NEGATIVE_ZERO: u64 = 0x8000_0000_0000_0000;

/// What distinguishes one part from another. Zero is one number, whatever its sign.
pub enum TokenView {
    Null,
    Bool(bool),
    Natural(u64),
    Negative(i64),
    Float(u64),
    Text(Seq<char>),
    List(u64),
    Object(u64),
}

impl View for JsonToken {
    type V = TokenView;

    open spec fn view(&self) -> TokenView {
        match *self {
            JsonToken::Null => TokenView::Null,
            JsonToken::Bool(b) => TokenView::Bool(b),
            JsonToken::Natural(n) => TokenView::Natural(n),
            JsonToken::Negative(n) => TokenView::Negative(n),
            JsonToken::Float(bits) => TokenView::Float(
                if bits == NEGATIVE_ZERO {
                    0
                } else {
                    bits
                },
            ),
            JsonToken::Text(s) => TokenView::Text(s@),
            JsonToken::List(n) => TokenView::List(n),
            JsonToken::Object(n) => TokenView::Object(n),
        }
    }
}

impl Clone for JsonToken {
    fn clone(&self) -> (r: Self)
        ensures
            r == *self,
    {
        match self {
            JsonToken::Null => JsonToken::Null,
            JsonToken::Bool(b) => JsonToken::Bool(*b),
            JsonToken::Natural(n) => JsonToken::Natural(*n),
            JsonToken::Negative(n) => JsonToken::Negative(*n),
            JsonToken::Float(bits) => JsonToken::Float(*bits),
            JsonToken::Text(s) => JsonToken::Text(s.clone()),
            JsonToken::List(n) => JsonToken::List(*n),
            JsonToken::Object(n) => JsonToken::Object(*n),
        }
    }
}

/// What distinguishes one value from another, if there is one.
pub open spec fn json_view(data: Option<Vec<JsonToken>>) -> Option<Seq<TokenView>> {
    match data {
        Some(tokens) => Some(tokens@.map_values(|t: JsonToken| t@)),
        None => None,
    }
}

fn same_float(a: u64, b: u64) -> (r: bool)
    ensures
        r == (JsonToken::Float(a)@ == JsonToken::Float(b)@),
{
    a == b || ((a == 0 || a == NEGATIVE_ZERO) && (b == 0 || b == NEGATIVE_ZERO))
}

impl JsonToken {
    /// Whether two parts are the same.
    pub fn same(&self, other: &Self) -> (r: bool)
        ensures
            r == (self@ == other@),
    {
        match (self, other) {
            (JsonToken::Null, JsonToken::Null) => true,
            (JsonToken::Bool(a), JsonToken::Bool(b)) => *a == *b,
            (JsonToken::Natural(a), JsonToken::Natural(b)) => *a == *b,
            (JsonToken::Negative(a), JsonToken::Negative(b)) => *a == *b,
            (JsonToken::Float(a), JsonToken::Float(b)) => same_float(*a, *b),
            (JsonToken::Text(a), JsonToken::Text(b)) => *a == *b,
            (JsonToken::List(a), JsonToken::List(b)) => *a == *b,
            (JsonToken::Object(a), JsonToken::Object(b)) => *a == *b,
            _ => false,
        }
    }
}

fn same_tokens(a: &Vec<JsonToken>, b: &Vec<JsonToken>) -> (r: bool)
    ensures
        r == (a@.map_values(|t: JsonToken| t@) == b@.map_values(|t: JsonToken| t@)),
{
    let ghost x = a@.map_values(|t: JsonToken| t@);
    let ghost y = b@.map_values(|t: JsonToken| t@);
    if a.len() != b.len() {
        assert(x.len() != y.len());
        return false;
    }
    let mut i: usize = 0;
    while i < a.len()
        invariant
            i <= a@.len() == b@.len(),
            x == a@.map_values(|t: JsonToken| t@),
            y == b@.map_values(|t: JsonToken| t@),
            forall|k: int| 0 <= k < i ==> x[k] == y[k],
        decreases a@.len() - i,
    {
        if !a[i].same(&b[i]) {
            assert(x[i as int] != y[i as int]);
            return false;
        }
        i = i + 1;
    }
    assert(x =~= y);
    true
}

/// Whether the same data is attached, or none.
pub fn same_json(a: &Option<Vec<JsonToken>>, b: &Option<Vec<JsonToken>>) -> (r: bool)
    ensures
        r == (json_view(*a) == json_view(*b)),
{
    match (a, b) {
        (Some(x), Some(y)) => same_tokens(x, y),
        (None, None) => true,
        _ => false,
    }
}

/// The same data again.
pub fn copy_json(data: &Option<Vec<JsonToken>>) -> (r: Option<Vec<JsonToken>>)
    ensures
        json_view(r) == json_view(*data),
        r is Some <==> data is Some,
        r matches Some(copied) ==> data matches Some(tokens) && copied@ == tokens@,
{
    match data {
        Some(tokens) => {
            let mut copied: Vec<JsonToken> = Vec::new();
            let mut i: usize = 0;
            while i < tokens.len()
                invariant
                    i <= tokens@.len(),
                    copied@ == tokens@.take(i as int),
                decreases tokens@.len() - i,
            {
                copied.push(tokens[i].clone());
                i = i + 1;
                assert(copied@ =~= tokens@.take(i as int));
            }
            assert(copied@ =~= tokens@);
            Some(copied)
        },
        None => None,
    }
}

} // verus!
