//! The canonical tokens and text of a value tree, and the laws that parsing them
//! gives the tree back.
use vstd::prelude::*;

use crate::escape::{hex_run, unescape, unescape_from, Decoded};
use crate::{document, parse_spec, ParseError};
use crate::parse::{
    array_body, items_at, members_at, object_body, value_at, ItemsAt, MembersAt, TokenParseError,
    ValueAt,
};
use crate::tokenize::{
    closing_quote, digits_end, exponent_end, false_word, fraction_end, integer_part_end, is_digit,
    is_whitespace, lemma_digits_end, lex, lex_from, null_word, numeral_end, token_at, true_word,
    Lexeme, Step, TokenizeError,
};
use crate::value::{has_key, keys_unique, upsert, well_formed, JsonValue};

verus! {

/// The raw string-literal body of one character: `"` and `\` get a backslash.
pub open spec fn escape_char(c: char) -> Seq<char> {
    if c == '"' || c == '\\' {
        seq!['\\', c]
    } else {
        seq![c]
    }
}

/// The raw string-literal body that spells `s`.
pub open spec fn escape_text(s: Seq<char>) -> Seq<char>
    decreases s.len(),
{
    if s.len() == 0 {
        Seq::empty()
    } else {
        escape_char(s[0]) + escape_text(s.drop_first())
    }
}

/// The canonical tokens of a tree.
pub open spec fn emit(v: JsonValue) -> Seq<Lexeme>
    decreases v, 0int,
{
    match v {
        JsonValue::Null => seq![Lexeme::Null],
        JsonValue::Boolean(b) => if b {
            seq![Lexeme::True]
        } else {
            seq![Lexeme::False]
        },
        JsonValue::Number(n) => seq![Lexeme::Number(n)],
        JsonValue::Str(s) => seq![Lexeme::Str(escape_text(s))],
        JsonValue::Array(vs) => if vs.len() == 0 {
            seq![Lexeme::LeftBracket, Lexeme::RightBracket]
        } else {
            seq![Lexeme::LeftBracket] + emit_items(vs, 0)
        },
        JsonValue::Object(ms) => if ms.len() == 0 {
            seq![Lexeme::LeftBrace, Lexeme::RightBrace]
        } else {
            seq![Lexeme::LeftBrace] + emit_members(ms, 0)
        },
    }
}

/// The canonical tokens of the elements from `k` on, through the closing `]`.
pub open spec fn emit_items(vs: Seq<JsonValue>, k: int) -> Seq<Lexeme>
    decreases vs, vs.len() - k,
{
    if 0 <= k < vs.len() {
        if k + 1 < vs.len() {
            emit(vs[k]) + seq![Lexeme::Comma] + emit_items(vs, k + 1)
        } else {
            emit(vs[k]) + seq![Lexeme::RightBracket]
        }
    } else {
        Seq::empty()
    }
}

/// The canonical tokens of the members from `k` on, through the closing `}`.
pub open spec fn emit_members(ms: Seq<(Seq<char>, JsonValue)>, k: int) -> Seq<Lexeme>
    decreases ms, ms.len() - k,
{
    if 0 <= k < ms.len() {
        let head = seq![Lexeme::Str(ms[k].0), Lexeme::Colon] + emit(ms[k].1);
        if k + 1 < ms.len() {
            head + seq![Lexeme::Comma] + emit_members(ms, k + 1)
        } else {
            head + seq![Lexeme::RightBrace]
        }
    } else {
        Seq::empty()
    }
}

proof fn lemma_hex_run_shift(p: Seq<char>, q: Seq<char>, j: int, k: nat)
    requires
        0 <= j,
    ensures
        hex_run(p + q, p.len() + j, k) == hex_run(q, j, k),
    decreases k,
{
    if k > 0 {
        lemma_hex_run_shift(p, q, j, (k - 1) as nat);
    }
}

/// Decoding from a position looks only at what follows it.
proof fn lemma_unescape_shift(p: Seq<char>, q: Seq<char>, j: int)
    requires
        0 <= j,
    ensures
        unescape_from(p + q, p.len() + j) == unescape_from(q, j),
    decreases q.len() - j,
{
    let cs = p + q;
    let i = p.len() + j;
    if j < q.len() {
        assert(cs[i] == q[j]);
        if q[j] != '\\' {
            lemma_unescape_shift(p, q, j + 1);
        } else if j + 1 < q.len() {
            assert(cs[i + 1] == q[j + 1]);
            if q[j + 1] == 'u' {
                lemma_hex_run_shift(p, q, j + 2, 4);
                if j + 6 < q.len() {
                    lemma_unescape_shift(p, q, j + 6);
                }
            } else {
                lemma_unescape_shift(p, q, j + 2);
            }
        }
    }
}

/// Decoding the escaped body of `s` gives `s` back.
pub proof fn lemma_unescape_escape(s: Seq<char>)
    ensures
        unescape(escape_text(s)) == Decoded::Ok(s),
    decreases s.len(),
{
    if s.len() > 0 {
        let c = s[0];
        let e = escape_char(c);
        let r = escape_text(s.drop_first());
        lemma_unescape_escape(s.drop_first());
        lemma_unescape_shift(e, r, 0);
        assert(escape_text(s) == e + r);
        let cs = e + r;
        if c == '"' || c == '\\' {
            assert(cs[0] == '\\');
            assert(cs[1] == c);
            assert(unescape_from(cs, 0) == Decoded::Ok(seq![c] + s.drop_first()));
        } else {
            assert(cs[0] == c);
            assert(unescape_from(cs, 0) == Decoded::Ok(seq![c] + s.drop_first()));
        }
        assert(seq![c] + s.drop_first() =~= s);
        assert(unescape(escape_text(s)) == unescape_from(cs, 0));
    } else {
        assert(escape_text(s) =~= Seq::<char>::empty());
        assert(s =~= Seq::<char>::empty());
    }
}

proof fn lemma_emit_starts(v: JsonValue)
    ensures
        emit(v).len() >= 1,
        !(emit(v)[0] is RightBracket),
        !(emit(v)[0] is RightBrace),
{
}

proof fn lemma_value_round_trip(pre: Seq<Lexeme>, v: JsonValue, rest: Seq<Lexeme>)
    requires
        well_formed(v),
    ensures
        value_at(pre + emit(v) + rest, pre.len() as int) == ValueAt::Ok((v, emit(v).len())),
    decreases v, 0int,
{
    let ts = pre + emit(v) + rest;
    let i = pre.len() as int;
    assert(ts[i] == emit(v)[0]);
    match v {
        JsonValue::Str(s) => {
            lemma_unescape_escape(s);
        },
        JsonValue::Array(vs) => {
            if vs.len() == 0 {
                assert(ts[i + 1] == emit(v)[1]);
                assert(vs =~= Seq::<JsonValue>::empty());
            } else {
                let pre2 = pre + seq![Lexeme::LeftBracket];
                let items = emit_items(vs, 0);
                assert(ts =~= pre2 + items + rest);
                lemma_emit_starts(vs[0]);
                assert(ts[i + 1] == emit(vs[0])[0]);
                lemma_items_round_trip(pre2, vs, 0, rest);
                assert(vs.take(0) =~= Seq::<JsonValue>::empty());
                assert(array_body(ts, i + 1) == ItemsAt::Ok((vs, items.len())));
            }
        },
        JsonValue::Object(ms) => {
            if ms.len() == 0 {
                assert(ts[i + 1] == emit(v)[1]);
                assert(ms =~= Seq::<(Seq<char>, JsonValue)>::empty());
            } else {
                let pre2 = pre + seq![Lexeme::LeftBrace];
                let members = emit_members(ms, 0);
                assert(ts =~= pre2 + members + rest);
                assert(ts[i + 1] == members[0]);
                lemma_members_round_trip(pre2, ms, 0, rest);
                assert(ms.take(0) =~= Seq::<(Seq<char>, JsonValue)>::empty());
                assert(object_body(ts, i + 1) == MembersAt::Ok((ms, members.len())));
            }
        },
        _ => {},
    }
}

proof fn lemma_items_round_trip(pre: Seq<Lexeme>, vs: Seq<JsonValue>, k: int, rest: Seq<Lexeme>)
    requires
        0 <= k < vs.len(),
        forall|m: int| 0 <= m < vs.len() ==> well_formed(#[trigger] vs[m]),
    ensures
        items_at(pre + emit_items(vs, k) + rest, pre.len() as int, vs.take(k)) == ItemsAt::Ok(
            (vs, emit_items(vs, k).len()),
        ),
    decreases vs, vs.len() - k, 1int,
{
    let ts = pre + emit_items(vs, k) + rest;
    let i = pre.len() as int;
    let e = emit(vs[k]);
    let j = i + e.len();
    assert(vs.take(k).push(vs[k]) =~= vs.take(k + 1));
    if k + 1 < vs.len() {
        let tail = seq![Lexeme::Comma] + emit_items(vs, k + 1);
        assert(ts =~= pre + e + (tail + rest));
        lemma_value_round_trip(pre, vs[k], tail + rest);
        assert(ts[j] == Lexeme::Comma);
        let pre2 = pre + e + seq![Lexeme::Comma];
        assert(ts =~= pre2 + emit_items(vs, k + 1) + rest);
        lemma_items_round_trip(pre2, vs, k + 1, rest);
    } else {
        let tail = seq![Lexeme::RightBracket];
        assert(ts =~= pre + e + (tail + rest));
        lemma_value_round_trip(pre, vs[k], tail + rest);
        assert(ts[j] == Lexeme::RightBracket);
        assert(vs.take(k + 1) =~= vs);
    }
}

proof fn lemma_members_round_trip(
    pre: Seq<Lexeme>,
    ms: Seq<(Seq<char>, JsonValue)>,
    k: int,
    rest: Seq<Lexeme>,
)
    requires
        0 <= k < ms.len(),
        keys_unique(ms),
        forall|m: int| 0 <= m < ms.len() ==> well_formed(#[trigger] ms[m].1),
    ensures
        members_at(pre + emit_members(ms, k) + rest, pre.len() as int, ms.take(k))
            == MembersAt::Ok((ms, emit_members(ms, k).len())),
    decreases ms, ms.len() - k, 1int,
{
    let ts = pre + emit_members(ms, k) + rest;
    let i = pre.len() as int;
    let key = ms[k].0;
    let e = emit(ms[k].1);
    let j = i + 2 + e.len();
    let pre1 = pre + seq![Lexeme::Str(key), Lexeme::Colon];
    assert(ts[i] == Lexeme::Str(key));
    assert(ts[i + 1] == Lexeme::Colon);
    let acc = ms.take(k);
    assert(!has_key(acc, key)) by {
        if has_key(acc, key) {
            let c = choose|c: int| 0 <= c < acc.len() && acc[c].0 == key;
            assert(ms[c].0 == ms[k].0);
        }
    }
    assert(upsert(acc, key, ms[k].1) =~= ms.take(k + 1));
    if k + 1 < ms.len() {
        let tail = seq![Lexeme::Comma] + emit_members(ms, k + 1);
        assert(ts =~= pre1 + e + (tail + rest));
        lemma_value_round_trip(pre1, ms[k].1, tail + rest);
        assert(ts[j] == Lexeme::Comma);
        let pre2 = pre1 + e + seq![Lexeme::Comma];
        assert(ts =~= pre2 + emit_members(ms, k + 1) + rest);
        lemma_members_round_trip(pre2, ms, k + 1, rest);
    } else {
        let tail = seq![Lexeme::RightBrace];
        assert(ts =~= pre1 + e + (tail + rest));
        lemma_value_round_trip(pre1, ms[k].1, tail + rest);
        assert(ts[j] == Lexeme::RightBrace);
        assert(ms.take(k + 1) =~= ms);
    }
}

/// Parsing the canonical tokens of a well-formed tree gives that tree back and
/// takes every token.
pub proof fn lemma_parse_emitted(v: JsonValue)
    requires
        well_formed(v),
    ensures
        document(emit(v)) == Result::<JsonValue, TokenParseError>::Ok(v),
{
    let e = emit(v);
    lemma_value_round_trip(Seq::empty(), v, Seq::empty());
    assert(Seq::<Lexeme>::empty() + e + Seq::<Lexeme>::empty() =~= e);
}

/// The text of one token.
pub open spec fn spell_one(t: Lexeme) -> Seq<char> {
    match t {
        Lexeme::LeftBrace => seq!['{'],
        Lexeme::RightBrace => seq!['}'],
        Lexeme::LeftBracket => seq!['['],
        Lexeme::RightBracket => seq![']'],
        Lexeme::Comma => seq![','],
        Lexeme::Colon => seq![':'],
        Lexeme::Null => null_word(),
        Lexeme::True => true_word(),
        Lexeme::False => false_word(),
        Lexeme::Number(n) => n,
        Lexeme::Str(raw) => seq!['"'] + raw + seq!['"'],
    }
}

/// The text of a sequence of tokens, with nothing between them.
pub open spec fn spell(ts: Seq<Lexeme>) -> Seq<char>
    decreases ts.len(),
{
    if ts.len() == 0 {
        Seq::empty()
    } else {
        spell_one(ts[0]) + spell(ts.drop_first())
    }
}

/// The canonical JSON text of a tree.
pub open spec fn render(v: JsonValue) -> Seq<char> {
    spell(emit(v))
}

/// `n` is one whole numeral.
pub open spec fn is_numeral(n: Seq<char>) -> bool {
    numeral_end(n, 0) == Some(n.len() as int)
}

/// `raw` can stand between the quotes of a string literal: it holds no quote that
/// would close the literal early, and does not end in an escaping backslash.
pub open spec fn is_raw_body(raw: Seq<char>) -> bool {
    closing_quote(raw + seq!['"'], 0, false) == Some(raw.len() as int)
}

/// A tree that text can spell: numbers are numerals, and object keys are raw
/// string bodies, as the parser keeps them.
pub open spec fn spellable(v: JsonValue) -> bool
    decreases v,
{
    match v {
        JsonValue::Number(n) => is_numeral(n),
        JsonValue::Array(vs) => forall|k: int| 0 <= k < vs.len() ==> spellable(#[trigger] vs[k]),
        JsonValue::Object(ms) => forall|k: int|
            0 <= k < ms.len() ==> is_raw_body(#[trigger] ms[k].0) && spellable(ms[k].1),
        _ => true,
    }
}

/// A token that may follow a numeral without running into it.
pub open spec fn ends_numeral(t: Lexeme) -> bool {
    t is Comma || t is RightBracket || t is RightBrace
}

/// Tokens whose text reads back as the same tokens.
pub open spec fn lexes_back(ts: Seq<Lexeme>) -> bool {
    forall|k: int|
        0 <= k < ts.len() ==> match #[trigger] ts[k] {
            Lexeme::Number(n) => is_numeral(n) && (k + 1 == ts.len() || ends_numeral(ts[k + 1])),
            Lexeme::Str(raw) => is_raw_body(raw),
            _ => true,
        }
}

proof fn lemma_digits_end_shift(p: Seq<char>, q: Seq<char>, j: int)
    requires
        0 <= j,
    ensures
        digits_end(p + q, p.len() + j) == p.len() + digits_end(q, j),
    decreases q.len() - j,
{
    if j < q.len() {
        assert((p + q)[p.len() + j] == q[j]);
        lemma_digits_end_shift(p, q, j + 1);
    }
}

proof fn lemma_digits_end_stop(q: Seq<char>, post: Seq<char>, j: int)
    requires
        0 <= j <= q.len(),
        post.len() == 0 || !is_digit(post[0]),
    ensures
        digits_end(q + post, j) == digits_end(q, j),
    decreases q.len() - j,
{
    if j < q.len() {
        assert((q + post)[j] == q[j]);
        lemma_digits_end_stop(q, post, j + 1);
    } else if post.len() > 0 {
        assert((q + post)[j] == post[0]);
    }
}

spec fn shifted(o: Option<int>, d: int) -> Option<int> {
    match o {
        Some(x) => Some(x + d),
        None => None,
    }
}

proof fn lemma_numeral_shift(p: Seq<char>, q: Seq<char>, j: int)
    requires
        0 <= j,
    ensures
        integer_part_end(p + q, p.len() + j) == shifted(integer_part_end(q, j), p.len() as int),
        fraction_end(p + q, p.len() + j) == shifted(fraction_end(q, j), p.len() as int),
        exponent_end(p + q, p.len() + j) == shifted(exponent_end(q, j), p.len() as int),
{
    let cs = p + q;
    let d = p.len() as int;
    assert forall|x: int| 0 <= x < q.len() implies #[trigger] cs[d + x] == q[x] by {}
    lemma_digits_end_shift(p, q, j + 1);
    lemma_digits_end_shift(p, q, j + 2);
}

proof fn lemma_numeral_stop(q: Seq<char>, post: Seq<char>, j: int)
    requires
        0 <= j <= q.len(),
        post.len() == 0 || post[0] == ',' || post[0] == ']' || post[0] == '}',
    ensures
        integer_part_end(q + post, j) == integer_part_end(q, j),
        fraction_end(q + post, j) == fraction_end(q, j),
        j < q.len() ==> exponent_end(q + post, j) == exponent_end(q, j),
        j == q.len() ==> exponent_end(q + post, j) == Some(j),
{
    let cs = q + post;
    assert forall|x: int| 0 <= x < q.len() implies #[trigger] cs[x] == q[x] by {}
    if post.len() > 0 {
        assert(cs[q.len() as int] == post[0]);
    }
    if j + 1 <= q.len() {
        lemma_digits_end_stop(q, post, j + 1);
    }
    if j + 2 <= q.len() {
        lemma_digits_end_stop(q, post, j + 2);
    }
}

proof fn lemma_numeral_in_text(pre: Seq<char>, n: Seq<char>, post: Seq<char>)
    requires
        is_numeral(n),
        post.len() == 0 || post[0] == ',' || post[0] == ']' || post[0] == '}',
    ensures
        numeral_end(pre + n + post, pre.len() as int) == Some((pre.len() + n.len()) as int),
{
    let c = n + post;
    let cs = pre + n + post;
    let d = pre.len() as int;
    assert(cs =~= pre + c);
    let a: int = if c.len() > 0 && c[0] == '-' {
        1
    } else {
        0
    };
    assert(n.len() > 0 && c[0] == n[0]);
    assert(cs[d] == c[0]);
    lemma_numeral_shift(pre, c, a);
    lemma_numeral_stop(n, post, a);
    let b = integer_part_end(n, a)->Some_0;
    assert(a <= b <= n.len()) by {
        if a + 1 <= n.len() {
            lemma_digits_end(n, a + 1);
        }
    }
    lemma_numeral_shift(pre, c, b);
    lemma_numeral_stop(n, post, b);
    let e = fraction_end(n, b)->Some_0;
    assert(b <= e <= n.len()) by {
        if b + 1 <= n.len() {
            lemma_digits_end(n, b + 1);
        }
    }
    lemma_numeral_shift(pre, c, e);
    lemma_numeral_stop(n, post, e);
}

proof fn lemma_closing_quote_shift(p: Seq<char>, q: Seq<char>, j: int, escaped: bool)
    requires
        0 <= j,
    ensures
        closing_quote(p + q, p.len() + j, escaped) == shifted(
            closing_quote(q, j, escaped),
            p.len() as int,
        ),
    decreases q.len() - j,
{
    if j < q.len() {
        assert((p + q)[p.len() + j] == q[j]);
        lemma_closing_quote_shift(p, q, j + 1, false);
        lemma_closing_quote_shift(p, q, j + 1, true);
    }
}

proof fn lemma_closing_quote_extend(q: Seq<char>, post: Seq<char>, j: int, escaped: bool)
    requires
        0 <= j,
        closing_quote(q, j, escaped) is Some,
    ensures
        closing_quote(q + post, j, escaped) == closing_quote(q, j, escaped),
    decreases q.len() - j,
{
    if j < q.len() {
        assert((q + post)[j] == q[j]);
        if escaped || q[j] != '"' {
            if escaped || q[j] == '\\' {
                lemma_closing_quote_extend(q, post, j + 1, !escaped && q[j] == '\\');
            } else {
                lemma_closing_quote_extend(q, post, j + 1, false);
            }
        }
    }
}

/// The escaped body of any text can stand between quotes.
pub proof fn lemma_escape_raw_body(s: Seq<char>)
    ensures
        is_raw_body(escape_text(s)),
    decreases s.len(),
{
    let q = seq!['"'];
    if s.len() == 0 {
        assert(escape_text(s) + q =~= q);
    } else {
        let c = s[0];
        let e = escape_char(c);
        let r = escape_text(s.drop_first());
        lemma_escape_raw_body(s.drop_first());
        assert(escape_text(s) + q =~= e + (r + q));
        lemma_closing_quote_shift(e, r + q, 0, false);
        let cs = e + (r + q);
        if c == '"' || c == '\\' {
            assert(cs[0] == '\\');
            assert(closing_quote(cs, 1, true) == closing_quote(cs, 2, false));
        } else {
            assert(cs[0] == c);
        }
    }
}

/// What a token needs of the text that follows it to read back as itself.
pub open spec fn token_reads_back(t: Lexeme, post: Seq<char>) -> bool {
    match t {
        Lexeme::Number(n) => is_numeral(n) && (post.len() == 0 || post[0] == ',' || post[0] == ']'
            || post[0] == '}'),
        Lexeme::Str(raw) => is_raw_body(raw),
        _ => true,
    }
}

proof fn lemma_token_in_text(pre: Seq<char>, t: Lexeme, post: Seq<char>)
    requires
        token_reads_back(t, post),
    ensures
        spell_one(t).len() >= 1,
        !is_whitespace((pre + spell_one(t) + post)[pre.len() as int]),
        token_at(pre + spell_one(t) + post, pre.len() as int) == Step::Ok(
            (t, (pre.len() + spell_one(t).len()) as int),
        ),
{
    let w = spell_one(t);
    let cs = pre + w + post;
    let i = pre.len() as int;
    assert forall|x: int| 0 <= x < w.len() implies #[trigger] cs[i + x] == w[x] by {}
    match t {
        Lexeme::Null => {
            assert(cs.subrange(i, i + 4) =~= w);
        },
        Lexeme::True => {
            assert(cs.subrange(i, i + 4) =~= w);
        },
        Lexeme::False => {
            assert(cs.subrange(i, i + 5) =~= w);
        },
        Lexeme::Number(n) => {
            lemma_numeral_in_text(pre, n, post);
            assert(cs.subrange(i, i + n.len()) =~= n);
        },
        Lexeme::Str(raw) => {
            let q = seq!['"'];
            let pre1 = pre + q;
            assert(cs =~= pre1 + ((raw + q) + post));
            lemma_closing_quote_extend(raw + q, post, 0, false);
            lemma_closing_quote_shift(pre1, (raw + q) + post, 0, false);
            assert(cs.subrange(i + 1, i + 1 + raw.len()) =~= raw);
        },
        _ => {},
    }
}

/// Text spelled from tokens that read back is split into those tokens.
proof fn lemma_lex_spell(pre: Seq<char>, ts: Seq<Lexeme>)
    requires
        lexes_back(ts),
    ensures
        lex_from(pre + spell(ts), pre.len() as int) == Result::<Seq<Lexeme>, TokenizeError>::Ok(
            ts,
        ),
    decreases ts.len(),
{
    let i = pre.len() as int;
    if ts.len() == 0 {
        assert(pre + spell(ts) =~= pre);
        assert(ts =~= Seq::<Lexeme>::empty());
    } else {
        let t = ts[0];
        let tail = ts.drop_first();
        let post = spell(tail);
        assert(pre + spell(ts) =~= pre + spell_one(t) + post);
        assert(lexes_back(tail)) by {
            assert forall|k: int| 0 <= k < tail.len() implies #[trigger] tail[k] == ts[k + 1] by {}
            assert forall|k: int| 0 <= k < tail.len() implies match #[trigger] tail[k] {
                Lexeme::Number(n) => is_numeral(n) && (k + 1 == tail.len() || ends_numeral(
                    tail[k + 1],
                )),
                Lexeme::Str(raw) => is_raw_body(raw),
                _ => true,
            } by {
                let _ = ts[k + 1];
            }
        }
        if t is Number && ts.len() > 1 {
            let _ = ts[0];
            lemma_token_in_text(Seq::empty(), tail[0], spell(tail.drop_first()));
            assert(Seq::<char>::empty() + spell_one(tail[0]) + spell(tail.drop_first()) =~= post);
        }
        if t is Number && ts.len() == 1 {
            assert(tail.len() == 0);
        }
        let _ = ts[0];
        lemma_token_in_text(pre, t, post);
        let pre2 = pre + spell_one(t);
        assert(pre + spell_one(t) + post =~= pre2 + spell(tail));
        lemma_lex_spell(pre2, tail);
        assert(seq![t] + tail =~= ts);
    }
}

proof fn lemma_lexes_back_concat(a: Seq<Lexeme>, b: Seq<Lexeme>)
    requires
        lexes_back(a),
        lexes_back(b),
        a.len() == 0 || !(a.last() is Number) || (b.len() > 0 && ends_numeral(b[0])),
    ensures
        lexes_back(a + b),
{
    let c = a + b;
    assert forall|k: int| 0 <= k < c.len() implies match #[trigger] c[k] {
        Lexeme::Number(n) => is_numeral(n) && (k + 1 == c.len() || ends_numeral(c[k + 1])),
        Lexeme::Str(raw) => is_raw_body(raw),
        _ => true,
    } by {
        if k < a.len() {
            assert(c[k] == a[k]);
            if k + 1 < a.len() {
                assert(c[k + 1] == a[k + 1]);
            } else if b.len() > 0 {
                assert(c[k + 1] == b[0]);
            }
        } else {
            assert(c[k] == b[k - a.len()]);
            if k + 1 < c.len() {
                assert(c[k + 1] == b[k + 1 - a.len()]);
            }
        }
    }
}

proof fn lemma_single_lexes_back(t: Lexeme)
    requires
        !(t is Number),
        !(t is Str),
    ensures
        lexes_back(seq![t]),
{
}

proof fn lemma_emit_lexes_back(v: JsonValue)
    requires
        spellable(v),
    ensures
        lexes_back(emit(v)),
        emit(v).len() >= 1,
        emit(v).last() is Number ==> v is Number,
    decreases v, 0int,
{
    match v {
        JsonValue::Array(vs) => {
            if vs.len() > 0 {
                lemma_single_lexes_back(Lexeme::LeftBracket);
                lemma_items_lexes_back(vs, 0);
                lemma_lexes_back_concat(seq![Lexeme::LeftBracket], emit_items(vs, 0));
            } else {
                assert(lexes_back(emit(v))) by {
                    assert(emit(v)[0] == Lexeme::LeftBracket);
                    assert(emit(v)[1] == Lexeme::RightBracket);
                }
            }
        },
        JsonValue::Object(ms) => {
            if ms.len() > 0 {
                lemma_single_lexes_back(Lexeme::LeftBrace);
                assert forall|m: int| 0 <= m < ms.len() implies is_raw_body(#[trigger] ms[m].0)
                    && spellable(ms[m].1) by {
                    let _ = ms[m].0;
                }
                lemma_members_lexes_back(ms, 0);
                lemma_lexes_back_concat(seq![Lexeme::LeftBrace], emit_members(ms, 0));
            } else {
                assert(emit(v) =~= seq![Lexeme::LeftBrace, Lexeme::RightBrace]);
                assert(lexes_back(emit(v))) by {
                    assert(emit(v)[0] == Lexeme::LeftBrace);
                    assert(emit(v)[1] == Lexeme::RightBrace);
                }
            }
        },
        JsonValue::Str(s) => {
            lemma_escape_raw_body(s);
            assert(emit(v)[0] == Lexeme::Str(escape_text(s)));
        },
        JsonValue::Number(n) => {
            assert(emit(v)[0] == Lexeme::Number(n));
        },
        _ => {
            assert(emit(v).len() == 1);
            let _ = emit(v)[0];
        },
    }
}

proof fn lemma_items_lexes_back(vs: Seq<JsonValue>, k: int)
    requires
        0 <= k < vs.len(),
        forall|m: int| 0 <= m < vs.len() ==> spellable(#[trigger] vs[m]),
    ensures
        lexes_back(emit_items(vs, k)),
        emit_items(vs, k).len() >= 1,
        !(emit_items(vs, k).last() is Number),
    decreases vs, vs.len() - k, 1int,
{
    lemma_emit_lexes_back(vs[k]);
    let e = emit(vs[k]);
    if k + 1 < vs.len() {
        lemma_single_lexes_back(Lexeme::Comma);
        lemma_lexes_back_concat(e, seq![Lexeme::Comma]);
        lemma_items_lexes_back(vs, k + 1);
        lemma_lexes_back_concat(e + seq![Lexeme::Comma], emit_items(vs, k + 1));
    } else {
        lemma_single_lexes_back(Lexeme::RightBracket);
        lemma_lexes_back_concat(e, seq![Lexeme::RightBracket]);
    }
}

proof fn lemma_members_lexes_back(ms: Seq<(Seq<char>, JsonValue)>, k: int)
    requires
        0 <= k < ms.len(),
        forall|m: int| 0 <= m < ms.len() ==> is_raw_body(#[trigger] ms[m].0) && spellable(ms[m].1),
    ensures
        lexes_back(emit_members(ms, k)),
        emit_members(ms, k).len() >= 1,
        !(emit_members(ms, k).last() is Number),
    decreases ms, ms.len() - k, 1int,
{
    lemma_emit_lexes_back(ms[k].1);
    let e = emit(ms[k].1);
    let key = seq![Lexeme::Str(ms[k].0), Lexeme::Colon];
    assert(lexes_back(key)) by {
        assert(key[0] == Lexeme::Str(ms[k].0));
    }
    lemma_lexes_back_concat(key, e);
    let head = key + e;
    if k + 1 < ms.len() {
        lemma_single_lexes_back(Lexeme::Comma);
        lemma_lexes_back_concat(head, seq![Lexeme::Comma]);
        lemma_members_lexes_back(ms, k + 1);
        lemma_lexes_back_concat(head + seq![Lexeme::Comma], emit_members(ms, k + 1));
    } else {
        lemma_single_lexes_back(Lexeme::RightBrace);
        lemma_lexes_back_concat(head, seq![Lexeme::RightBrace]);
    }
}

/// The canonical text of a tree splits into the tree's canonical tokens.
pub proof fn lemma_lex_rendered(v: JsonValue)
    requires
        spellable(v),
    ensures
        lex(render(v)) == Result::<Seq<Lexeme>, TokenizeError>::Ok(emit(v)),
{
    lemma_emit_lexes_back(v);
    lemma_lex_spell(Seq::empty(), emit(v));
    assert(Seq::<char>::empty() + spell(emit(v)) =~= render(v));
}

/// Parsing the canonical text of a tree that text can spell gives that tree back.
pub proof fn lemma_parse_rendered(v: JsonValue)
    requires
        well_formed(v),
        spellable(v),
    ensures
        parse_spec(render(v)) == Result::<JsonValue, ParseError>::Ok(v),
{
    lemma_lex_rendered(v);
    lemma_parse_emitted(v);
}

} // verus!
