use vstd::prelude::*;

use crate::escape::{unescape, unescape_chars, Decoded};
use crate::text::chars_of;
use crate::tokenize::{lexemes, Lexeme, Token};
use crate::value::{
    has_key, keys_unique, lemma_array_view, lemma_object_view, lemma_upsert_well_formed,
    members_view, upsert, values_view, well_formed, JsonValue, Value,
};

verus! {

/// What can go wrong while building a value from tokens.
#[derive(Debug, PartialEq, Eq, Clone, Copy)]
pub enum TokenParseError {
    /// A `\u` escape, or a backslash, ran into the end of the string.
    UnfinishedEscape,
    /// A character in a `\u` escape was not a hexadecimal digit.
    InvalidHexValue,
    /// A `\u` escape named no Unicode scalar value.
    InvalidCodePointValue,
    /// After a member of an array or object came neither `,` nor its closing token.
    ExpectedComma,
    /// Where an object member was due, no string key came.
    ExpectedProperty,
    /// After an object key came no `:`.
    ExpectedColon,
    /// Where a value was due came a token that begins none, or nothing.
    UnexpectedToken,
}

/// A value read from tokens, with the number of tokens it took.
pub type ValueAt = Result<(JsonValue, nat), TokenParseError>;

/// The elements of an array, with the number of tokens they took.
pub type ItemsAt = Result<(Seq<JsonValue>, nat), TokenParseError>;

/// The members of an object, with the number of tokens they took.
pub type MembersAt = Result<(Seq<(Seq<char>, JsonValue)>, nat), TokenParseError>;

/// A successful reading with `k` more tokens counted; an error unchanged.
pub open spec fn counted<A>(r: Result<(A, nat), TokenParseError>, k: nat) -> Result<
    (A, nat),
    TokenParseError,
> {
    match r {
        Ok((a, n)) => Ok((a, n + k)),
        Err(e) => Err(e),
    }
}

/// The value whose first token is at `i`.
pub open spec fn value_at(ts: Seq<Lexeme>, i: int) -> ValueAt
    decreases ts.len() - i, 0int,
{
    if i < 0 || i >= ts.len() {
        Err(TokenParseError::UnexpectedToken)
    } else {
        match ts[i] {
            Lexeme::Null => Ok((JsonValue::Null, 1)),
            Lexeme::True => Ok((JsonValue::Boolean(true), 1)),
            Lexeme::False => Ok((JsonValue::Boolean(false), 1)),
            Lexeme::Number(n) => Ok((JsonValue::Number(n), 1)),
            Lexeme::Str(raw) => match unescape(raw) {
                Ok(s) => Ok((JsonValue::Str(s), 1)),
                Err(e) => Err(e),
            },
            Lexeme::LeftBracket => match array_body(ts, i + 1) {
                Ok((vs, n)) => Ok((JsonValue::Array(vs), n + 1)),
                Err(e) => Err(e),
            },
            Lexeme::LeftBrace => match object_body(ts, i + 1) {
                Ok((ms, n)) => Ok((JsonValue::Object(ms), n + 1)),
                Err(e) => Err(e),
            },
            _ => Err(TokenParseError::UnexpectedToken),
        }
    }
}

/// What follows `[` at `i`: `]` at once, or elements.
pub open spec fn array_body(ts: Seq<Lexeme>, i: int) -> ItemsAt
    decreases ts.len() - i, 3int,
{
    if 0 <= i < ts.len() && ts[i] is RightBracket {
        Ok((Seq::empty(), 1))
    } else {
        items_at(ts, i, Seq::empty())
    }
}

/// The elements from `i` on, after the elements `acc` already read, through `]`.
pub open spec fn items_at(ts: Seq<Lexeme>, i: int, acc: Seq<JsonValue>) -> ItemsAt
    decreases ts.len() - i, 2int,
{
    match value_at(ts, i) {
        Err(e) => Err(e),
        Ok((v, n)) => {
            let j = i + n;
            if j < 0 || j >= ts.len() {
                Err(TokenParseError::ExpectedComma)
            } else if ts[j] is Comma {
                counted(items_at(ts, j + 1, acc.push(v)), n + 1)
            } else if ts[j] is RightBracket {
                Ok((acc.push(v), n + 1))
            } else {
                Err(TokenParseError::ExpectedComma)
            }
        },
    }
}

/// What follows `{` at `i`: `}` at once, or members.
pub open spec fn object_body(ts: Seq<Lexeme>, i: int) -> MembersAt
    decreases ts.len() - i, 3int,
{
    if 0 <= i < ts.len() && ts[i] is RightBrace {
        Ok((Seq::empty(), 1))
    } else {
        members_at(ts, i, Seq::empty())
    }
}

/// The members from `i` on, after the members `acc` already read, through `}`.
/// A key keeps the raw text of its string token.
pub open spec fn members_at(ts: Seq<Lexeme>, i: int, acc: Seq<(Seq<char>, JsonValue)>) -> MembersAt
    decreases ts.len() - i, 2int,
{
    if i < 0 || i >= ts.len() || !(ts[i] is Str) {
        Err(TokenParseError::ExpectedProperty)
    } else if i + 1 >= ts.len() || !(ts[i + 1] is Colon) {
        Err(TokenParseError::ExpectedColon)
    } else {
        match value_at(ts, i + 2) {
            Err(e) => Err(e),
            Ok((v, n)) => {
                let j = i + 2 + n;
                let acc2 = upsert(acc, ts[i]->Str_0, v);
                if j >= ts.len() {
                    Err(TokenParseError::ExpectedComma)
                } else if ts[j] is Comma {
                    counted(members_at(ts, j + 1, acc2), n + 3)
                } else if ts[j] is RightBrace {
                    Ok((acc2, n + 3))
                } else {
                    Err(TokenParseError::ExpectedComma)
                }
            },
        }
    }
}

/// Every tree the parser builds is well formed: no object repeats a key.
pub proof fn lemma_value_at_well_formed(ts: Seq<Lexeme>, i: int)
    ensures
        value_at(ts, i) matches Ok((v, _)) ==> well_formed(v),
    decreases ts.len() - i, 0int,
{
    if 0 <= i < ts.len() {
        match ts[i] {
            Lexeme::LeftBracket => {
                if !(0 <= i + 1 < ts.len() && ts[i + 1] is RightBracket) {
                    lemma_items_at_well_formed(ts, i + 1, Seq::empty());
                }
            },
            Lexeme::LeftBrace => {
                if !(0 <= i + 1 < ts.len() && ts[i + 1] is RightBrace) {
                    lemma_members_at_well_formed(ts, i + 1, Seq::empty());
                }
            },
            _ => {},
        }
    }
}

proof fn lemma_items_at_well_formed(ts: Seq<Lexeme>, i: int, acc: Seq<JsonValue>)
    requires
        forall|m: int| 0 <= m < acc.len() ==> well_formed(#[trigger] acc[m]),
    ensures
        items_at(ts, i, acc) matches Ok((vs, _)) ==> forall|m: int|
            0 <= m < vs.len() ==> well_formed(#[trigger] vs[m]),
    decreases ts.len() - i, 2int,
{
    lemma_value_at_well_formed(ts, i);
    if let Ok((v, n)) = value_at(ts, i) {
        let j = i + n;
        let acc2 = acc.push(v);
        assert forall|m: int| 0 <= m < acc2.len() implies well_formed(#[trigger] acc2[m]) by {
            if m < acc.len() {
                assert(acc2[m] == acc[m]);
            }
        }
        if 0 <= j < ts.len() && ts[j] is Comma {
            lemma_items_at_well_formed(ts, j + 1, acc2);
        }
    }
}

proof fn lemma_members_at_well_formed(
    ts: Seq<Lexeme>,
    i: int,
    acc: Seq<(Seq<char>, JsonValue)>,
)
    requires
        keys_unique(acc),
        forall|m: int| 0 <= m < acc.len() ==> well_formed(#[trigger] acc[m].1),
    ensures
        members_at(ts, i, acc) matches Ok((ms, _)) ==> keys_unique(ms) && forall|m: int|
            0 <= m < ms.len() ==> well_formed(#[trigger] ms[m].1),
    decreases ts.len() - i, 2int,
{
    if 0 <= i && i + 1 < ts.len() && ts[i] is Str && ts[i + 1] is Colon {
        lemma_value_at_well_formed(ts, i + 2);
        if let Ok((v, n)) = value_at(ts, i + 2) {
            let j = i + 2 + n;
            lemma_upsert_well_formed(acc, ts[i]->Str_0, v);
            if j < ts.len() && ts[j] is Comma {
                lemma_members_at_well_formed(ts, j + 1, upsert(acc, ts[i]->Str_0, v));
            }
        }
    }
}

/// Decodes the raw body of a string token into a string value.
fn parse_string(input: &String) -> (r: Result<Value, TokenParseError>)
    ensures
        match r {
            Ok(v) => unescape(input@) matches Ok(s) && v@ == JsonValue::Str(s),
            Err(e) => unescape(input@) == Decoded::Err(e),
        },
{
    let chars = chars_of(input.as_str());
    match unescape_chars(&chars) {
        Ok(s) => Ok(Value::String(s)),
        Err(e) => Err(e),
    }
}

/// Reads the value whose first token is at `i`; on success returns it with the
/// position just past it.
fn parse_value(tokens: &[Token], i: usize) -> (r: Result<(Value, usize), TokenParseError>)
    requires
        i <= tokens.len(),
    ensures
        match r {
            Ok((v, e)) => i < e <= tokens.len() && value_at(lexemes(tokens@), i as int)
                == ValueAt::Ok((v@, (e - i) as nat)),
            Err(x) => value_at(lexemes(tokens@), i as int) == ValueAt::Err(x),
        },
    decreases tokens.len() - i, 0int,
{
    let ghost ts = lexemes(tokens@);
    if i >= tokens.len() {
        return Err(TokenParseError::UnexpectedToken);
    }
    assert(ts[i as int] == tokens@[i as int]@);
    match &tokens[i] {
        Token::Null => Ok((Value::Null, i + 1)),
        Token::True => Ok((Value::Boolean(true), i + 1)),
        Token::False => Ok((Value::Boolean(false), i + 1)),
        Token::Number(n) => Ok((Value::Number(n.clone()), i + 1)),
        Token::String(raw) => match parse_string(raw) {
            Ok(v) => Ok((v, i + 1)),
            Err(e) => Err(e),
        },
        Token::LeftBracket => match parse_array(tokens, i + 1) {
            Ok((items, e)) => {
                proof {
                    lemma_array_view(items);
                }
                let v = Value::Array(items);
                Ok((v, e))
            },
            Err(x) => Err(x),
        },
        Token::LeftBrace => match parse_object(tokens, i + 1) {
            Ok((members, e)) => {
                proof {
                    lemma_object_view(members);
                }
                let v = Value::Object(members);
                Ok((v, e))
            },
            Err(x) => Err(x),
        },
        _ => Err(TokenParseError::UnexpectedToken),
    }
}

/// Reads what follows `[` at `start`, through the closing `]`.
fn parse_array(tokens: &[Token], start: usize) -> (r: Result<(Vec<Value>, usize), TokenParseError>)
    requires
        start <= tokens.len(),
    ensures
        match r {
            Ok((items, e)) => start < e <= tokens.len() && array_body(lexemes(tokens@), start as int)
                == ItemsAt::Ok((values_view(items@), (e - start) as nat)),
            Err(x) => array_body(lexemes(tokens@), start as int) == ItemsAt::Err(x),
        },
    decreases tokens.len() - start, 3int,
{
    let ghost ts = lexemes(tokens@);
    let mut items: Vec<Value> = Vec::new();
    if start < tokens.len() {
        assert(ts[start as int] == tokens@[start as int]@);
        if let Token::RightBracket = &tokens[start] {
            proof {
                assert(values_view(items@) =~= Seq::empty());
            }
            return Ok((items, start + 1));
        }
    }
    proof {
        assert(values_view(items@) =~= Seq::empty());
    }
    let mut p: usize = start;
    loop
        invariant
            start <= p <= tokens.len(),
            ts == lexemes(tokens@),
            array_body(ts, start as int) == counted(
                items_at(ts, p as int, values_view(items@)),
                (p - start) as nat,
            ),
        decreases tokens.len() - p,
    {
        let (v, e) = match parse_value(tokens, p) {
            Ok(pair) => pair,
            Err(x) => return Err(x),
        };
        if e >= tokens.len() {
            return Err(TokenParseError::ExpectedComma);
        }
        assert(ts[e as int] == tokens@[e as int]@);
        let ghost before = values_view(items@);
        let ghost vv = v@;
        match &tokens[e] {
            Token::Comma => {
                items.push(v);
                proof {
                    assert(values_view(items@) =~= before.push(vv));
                }
                p = e + 1;
            },
            Token::RightBracket => {
                items.push(v);
                proof {
                    assert(values_view(items@) =~= before.push(vv));
                }
                return Ok((items, e + 1));
            },
            _ => return Err(TokenParseError::ExpectedComma),
        }
    }
}

/// Sets the value of `key` among `members`: overwrites the member that holds it,
/// or appends a new one.
fn insert_member(members: &mut Vec<(String, Value)>, key: String, value: Value)
    requires
        keys_unique(members_view(old(members)@)),
    ensures
        members_view(final(members)@) == upsert(members_view(old(members)@), key@, value@),
        keys_unique(members_view(final(members)@)),
{
    let ghost ms = members_view(members@);
    let mut j: usize = 0;
    while j < members.len()
        invariant
            j <= members.len(),
            ms == members_view(members@),
            ms == members_view(old(members)@),
            keys_unique(ms),
            forall|a: int| 0 <= a < j ==> ms[a].0 != key@,
        decreases members.len() - j,
    {
        if members[j].0 == key {
            let ghost kv = key@;
            let ghost vv = value@;
            proof {
                assert(ms[j as int].0 == kv);
                assert(has_key(ms, kv));
                let c = choose|c: int| 0 <= c < ms.len() && ms[c].0 == kv;
                assert(c == j);
            }
            members.set(j, (key, value));
            proof {
                assert(members_view(members@) =~= upsert(ms, kv, vv));
            }
            return;
        }
        j = j + 1;
    }
    let ghost kv = key@;
    let ghost vv = value@;
    members.push((key, value));
    proof {
        assert(!has_key(ms, kv));
        assert(members_view(members@) =~= ms.push((kv, vv)));
    }
}

/// Reads what follows `{` at `start`, through the closing `}`.
fn parse_object(tokens: &[Token], start: usize) -> (r: Result<
    (Vec<(String, Value)>, usize),
    TokenParseError,
>)
    requires
        start <= tokens.len(),
    ensures
        match r {
            Ok((members, e)) => start < e <= tokens.len() && object_body(
                lexemes(tokens@),
                start as int,
            ) == MembersAt::Ok((members_view(members@), (e - start) as nat)),
            Err(x) => object_body(lexemes(tokens@), start as int) == MembersAt::Err(x),
        },
    decreases tokens.len() - start, 3int,
{
    let ghost ts = lexemes(tokens@);
    let mut members: Vec<(String, Value)> = Vec::new();
    if start < tokens.len() {
        assert(ts[start as int] == tokens@[start as int]@);
        if let Token::RightBrace = &tokens[start] {
            proof {
                assert(members_view(members@) =~= Seq::empty());
            }
            return Ok((members, start + 1));
        }
    }
    proof {
        assert(members_view(members@) =~= Seq::empty());
    }
    let mut p: usize = start;
    loop
        invariant
            start <= p <= tokens.len(),
            ts == lexemes(tokens@),
            keys_unique(members_view(members@)),
            object_body(ts, start as int) == counted(
                members_at(ts, p as int, members_view(members@)),
                (p - start) as nat,
            ),
        decreases tokens.len() - p,
    {
        if p >= tokens.len() {
            return Err(TokenParseError::ExpectedProperty);
        }
        assert(ts[p as int] == tokens@[p as int]@);
        let key = match &tokens[p] {
            Token::String(k) => k.clone(),
            _ => return Err(TokenParseError::ExpectedProperty),
        };
        if p + 1 >= tokens.len() {
            return Err(TokenParseError::ExpectedColon);
        }
        assert(ts[p + 1] == tokens@[p + 1]@);
        match &tokens[p + 1] {
            Token::Colon => {},
            _ => return Err(TokenParseError::ExpectedColon),
        }
        let (v, e) = match parse_value(tokens, p + 2) {
            Ok(pair) => pair,
            Err(x) => return Err(x),
        };
        if e >= tokens.len() {
            return Err(TokenParseError::ExpectedComma);
        }
        assert(ts[e as int] == tokens@[e as int]@);
        match &tokens[e] {
            Token::Comma => {
                insert_member(&mut members, key, v);
                p = e + 1;
            },
            Token::RightBrace => {
                insert_member(&mut members, key, v);
                return Ok((members, e + 1));
            },
            _ => return Err(TokenParseError::ExpectedComma),
        }
    }
}

/// Builds the value whose first token is at `*index` and moves `*index` just past
/// it. On an error `*index` is left as it was.
pub fn parse_tokens(tokens: &[Token], index: &mut usize) -> (r: Result<Value, TokenParseError>)
    ensures
        match value_at(lexemes(tokens@), *old(index) as int) {
            Ok((v, n)) => r matches Ok(val) && val@ == v && *final(index) == *old(index) + n
                && *final(index) <= tokens.len() && well_formed(v),
            Err(e) => r == Result::<Value, TokenParseError>::Err(e) && *final(index) == *old(index),
        },
{
    proof {
        lemma_value_at_well_formed(lexemes(tokens@), *index as int);
    }
    if *index >= tokens.len() {
        return Err(TokenParseError::UnexpectedToken);
    }
    match parse_value(tokens, *index) {
        Ok((v, e)) => {
            *index = e;
            Ok(v)
        },
        Err(x) => Err(x),
    }
}

} // verus!
