//! The JSON value model that both halves of the crate share.

use vstd::prelude::*;
use vstd::string::{StrSliceExecFns, StringExecFns};
use crate::outside::push_char;

verus! {

broadcast use vstd::std_specs::vec::axiom_vec_index_decreases;

/// A JSON value as this library models it.  Numbers that fit a signed
/// 64-bit integer are held as `Int`; any other number is held as its
/// literal text in `Num`.  An object is a sequence of key/value pairs;
/// the functions that build objects keep the keys unique and sorted.
#[derive(Debug)]
pub enum Json {
    Null,
    Bool(bool),
    Int(i64),
    Num(String),
    Str(String),
    Arr(Vec<Json>),
    Obj(Vec<(String, Json)>),
}

/// The mathematical model of a [`Json`] value.
#[verifier::ext_equal]
pub ghost enum JVal {
    Null,
    Bool(bool),
    Int(int),
    Num(Seq<char>),
    Str(Seq<char>),
    Arr(Seq<JVal>),
    Obj(Seq<(Seq<char>, JVal)>),
}

pub open spec fn jval_of(j: Json) -> JVal
    decreases j, 0int,
{
    match j {
        Json::Null => JVal::Null,
        Json::Bool(b) => JVal::Bool(b),
        Json::Int(n) => JVal::Int(n as int),
        Json::Num(t) => JVal::Num(t@),
        Json::Str(s) => JVal::Str(s@),
        Json::Arr(items) => JVal::Arr(jvals_of(items, 0)),
        Json::Obj(pairs) => JVal::Obj(jpairs_of(pairs, 0)),
    }
}

pub open spec fn jvals_of(v: Vec<Json>, i: int) -> Seq<JVal>
    decreases v, v@.len() - i,
{
    if i < 0 || i >= v@.len() {
        Seq::empty()
    } else {
        seq![jval_of(v@[i])] + jvals_of(v, i + 1)
    }
}

pub open spec fn jpairs_of(v: Vec<(String, Json)>, i: int) -> Seq<(Seq<char>, JVal)>
    decreases v, v@.len() - i,
{
    if i < 0 || i >= v@.len() {
        Seq::empty()
    } else {
        seq![(v@[i].0@, jval_of(v@[i].1))] + jpairs_of(v, i + 1)
    }
}

impl View for Json {
    type V = JVal;

    open spec fn view(&self) -> JVal {
        jval_of(*self)
    }
}

pub proof fn lemma_jvals_of(v: Vec<Json>, i: int)
    requires
        0 <= i <= v@.len(),
    ensures
        jvals_of(v, i).len() == v@.len() - i,
        forall|k: int| 0 <= k < v@.len() - i ==> #[trigger] jvals_of(v, i)[k] == jval_of(
            v@[k + i],
        ),
    decreases v@.len() - i,
{
    if i < v@.len() {
        lemma_jvals_of(v, i + 1);
        assert forall|k: int| 0 <= k < v@.len() - i implies #[trigger] jvals_of(v, i)[k]
            == jval_of(v@[k + i]) by {
            if k > 0 {
                assert(jvals_of(v, i)[k] == jvals_of(v, i + 1)[k - 1]);
            }
        }
    }
}

pub proof fn lemma_jpairs_of(v: Vec<(String, Json)>, i: int)
    requires
        0 <= i <= v@.len(),
    ensures
        jpairs_of(v, i).len() == v@.len() - i,
        forall|k: int| 0 <= k < v@.len() - i ==> #[trigger] jpairs_of(v, i)[k] == (
            v@[k + i].0@,
            jval_of(v@[k + i].1),
        ),
    decreases v@.len() - i,
{
    if i < v@.len() {
        lemma_jpairs_of(v, i + 1);
        assert forall|k: int| 0 <= k < v@.len() - i implies #[trigger] jpairs_of(v, i)[k] == (
            v@[k + i].0@,
            jval_of(v@[k + i].1),
        ) by {
            if k > 0 {
                assert(jpairs_of(v, i)[k] == jpairs_of(v, i + 1)[k - 1]);
            }
        }
    }
}

/// The value under `key` in an object's pair sequence: the first pair
/// whose key matches, if any.
pub open spec fn pairs_get(pairs: Seq<(Seq<char>, JVal)>, key: Seq<char>) -> Option<JVal>
    decreases pairs.len(),
{
    if pairs.len() == 0 {
        Option::None
    } else if pairs[0].0 == key {
        Option::Some(pairs[0].1)
    } else {
        pairs_get(pairs.drop_first(), key)
    }
}

/// The member of a JSON value under `key`: defined only on objects.
pub open spec fn jget(j: JVal, key: Seq<char>) -> Option<JVal> {
    match j {
        JVal::Obj(pairs) => pairs_get(pairs, key),
        _ => Option::None,
    }
}

// ----- writing a value as JSON text -----

/// A hexadecimal digit, lowercase.
pub open spec fn hex_digit(d: int) -> char {
    if d < 10 {
        ((48 + d) as u8) as char
    } else {
        ((87 + d) as u8) as char
    }
}

/// How one character is written inside a JSON string literal: the quote
/// and the backslash escaped, the named control characters by their
/// short escapes, any other control character by `\u00` and two hex
/// digits, everything else as it stands.
pub open spec fn esc_char(c: char) -> Seq<char> {
    if c == '"' {
        seq!['\\', '"']
    } else if c == '\\' {
        seq!['\\', '\\']
    } else if c == '\u{8}' {
        seq!['\\', 'b']
    } else if c == '\u{C}' {
        seq!['\\', 'f']
    } else if c == '\n' {
        seq!['\\', 'n']
    } else if c == '\r' {
        seq!['\\', 'r']
    } else if c == '\t' {
        seq!['\\', 't']
    } else if (c as u32) < 32 {
        seq!['\\', 'u', '0', '0', hex_digit(c as u32 as int / 16), hex_digit(c as u32 as int % 16)]
    } else {
        seq![c]
    }
}

pub open spec fn esc_prefix(s: Seq<char>, i: int) -> Seq<char>
    decreases i,
{
    if i <= 0 {
        Seq::empty()
    } else {
        esc_prefix(s, i - 1) + esc_char(s[i - 1])
    }
}

/// A JSON string literal: the escaped text between quotes.
pub open spec fn quote_text(s: Seq<char>) -> Seq<char> {
    seq!['"'] + esc_prefix(s, s.len() as int) + seq!['"']
}

pub open spec fn items_prefix(items: Seq<JVal>, i: int) -> Seq<char>
    decreases items, i,
{
    if i <= 0 || i > items.len() {
        Seq::empty()
    } else if i == 1 {
        jtext(items[0])
    } else {
        items_prefix(items, i - 1) + seq![','] + jtext(items[i - 1])
    }
}

pub open spec fn pairs_prefix(pairs: Seq<(Seq<char>, JVal)>, i: int) -> Seq<char>
    decreases pairs, i,
{
    if i <= 0 || i > pairs.len() {
        Seq::empty()
    } else if i == 1 {
        quote_text(pairs[0].0) + seq![':'] + jtext(pairs[0].1)
    } else {
        pairs_prefix(pairs, i - 1) + seq![','] + quote_text(pairs[i - 1].0) + seq![':'] + jtext(
            pairs[i - 1].1,
        )
    }
}

/// The compact JSON text of a value: no spaces, object members in the
/// order held.
pub open spec fn jtext(v: JVal) -> Seq<char>
    decreases v, 0int,
{
    match v {
        JVal::Null => "null"@,
        JVal::Bool(b) => if b {
            "true"@
        } else {
            "false"@
        },
        JVal::Int(n) => crate::text::int_dec_text(n),
        JVal::Num(t) => t,
        JVal::Str(s) => quote_text(s),
        JVal::Arr(items) => seq!['['] + items_prefix(items, items.len() as int) + seq![']'],
        JVal::Obj(pairs) => seq!['{'] + pairs_prefix(pairs, pairs.len() as int) + seq!['}'],
    }
}

/// Writes a text as a JSON string literal.
#[verifier::loop_isolation(false)]
pub fn quote_string(s: &str) -> (r: String)
    ensures
        r@ == quote_text(s@),
{
    let len = s.unicode_len();
    let mut out = String::new();
    push_char(&mut out, '"');
    let mut i: usize = 0;
    while i < len
        invariant
            len == s@.len(),
            i <= len,
            out@ == seq!['"'] + esc_prefix(s@, i as int),
        decreases len - i,
    {
        let c = s.get_char(i);
        if c == '"' {
            push_char(&mut out, '\\');
            push_char(&mut out, '"');
        } else if c == '\\' {
            push_char(&mut out, '\\');
            push_char(&mut out, '\\');
        } else if c == '\u{8}' {
            push_char(&mut out, '\\');
            push_char(&mut out, 'b');
        } else if c == '\u{C}' {
            push_char(&mut out, '\\');
            push_char(&mut out, 'f');
        } else if c == '\n' {
            push_char(&mut out, '\\');
            push_char(&mut out, 'n');
        } else if c == '\r' {
            push_char(&mut out, '\\');
            push_char(&mut out, 'r');
        } else if c == '\t' {
            push_char(&mut out, '\\');
            push_char(&mut out, 't');
        } else if (c as u32) < 32 {
            let u = c as u32;
            push_char(&mut out, '\\');
            push_char(&mut out, 'u');
            push_char(&mut out, '0');
            push_char(&mut out, '0');
            let hi = (u / 16) as u8;
            let lo = (u % 16) as u8;
            push_char(&mut out, if hi < 10 {
                (48 + hi) as char
            } else {
                (87 + hi) as char
            });
            push_char(&mut out, if lo < 10 {
                (48 + lo) as char
            } else {
                (87 + lo) as char
            });
        } else {
            push_char(&mut out, c);
        }
        proof {
            assert(out@ =~= seq!['"'] + esc_prefix(s@, i + 1));
        }
        i += 1;
    }
    push_char(&mut out, '"');
    proof {
        assert(out@ =~= quote_text(s@));
    }
    out
}

/// Writes a value as compact JSON text.
#[verifier::loop_isolation(false)]
pub fn json_to_text(j: &Json) -> (r: String)
    ensures
        r@ == jtext(j@),
    decreases *j,
{
    match j {
        Json::Null => String::from_str("null"),
        Json::Bool(b) => {
            if *b {
                String::from_str("true")
            } else {
                String::from_str("false")
            }
        },
        Json::Int(n) => crate::text::i64_to_dec(*n),
        Json::Num(t) => {
            let mut s = String::new();
            s.append(t.as_str());
            proof {
                assert(s@ =~= t@);
            }
            s
        },
        Json::Str(s) => quote_string(s.as_str()),
        Json::Arr(items) => {
            let ghost sq: Seq<JVal> = jvals_of(*items, 0);
            proof {
                lemma_jvals_of(*items, 0);
            }
            let mut out = String::new();
            push_char(&mut out, '[');
            let n = items.len();
            let mut i: usize = 0;
            while i < n
                invariant
                    n == items@.len(),
                    i <= n,
                    sq.len() == n,
                    forall|k: int| 0 <= k < n ==> sq[k] == jval_of(#[trigger] items@[k]),
                    out@ == seq!['['] + items_prefix(sq, i as int),
                decreases n - i,
            {
                if i > 0 {
                    push_char(&mut out, ',');
                }
                let piece = json_to_text(&items[i]);
                out.append(piece.as_str());
                proof {
                    assert(out@ =~= seq!['['] + items_prefix(sq, i + 1));
                }
                i += 1;
            }
            push_char(&mut out, ']');
            proof {
                assert(out@ =~= jtext(j@));
            }
            out
        },
        Json::Obj(pairs) => {
            let ghost sq: Seq<(Seq<char>, JVal)> = jpairs_of(*pairs, 0);
            proof {
                lemma_jpairs_of(*pairs, 0);
            }
            let mut out = String::new();
            push_char(&mut out, '{');
            let n = pairs.len();
            let mut i: usize = 0;
            while i < n
                invariant
                    n == pairs@.len(),
                    i <= n,
                    sq.len() == n,
                    forall|k: int|
                        0 <= k < n ==> sq[k] == (#[trigger] pairs@[k].0@, jval_of(pairs@[k].1)),
                    out@ == seq!['{'] + pairs_prefix(sq, i as int),
                decreases n - i,
            {
                if i > 0 {
                    push_char(&mut out, ',');
                }
                let key = quote_string(pairs[i].0.as_str());
                out.append(key.as_str());
                push_char(&mut out, ':');
                let piece = json_to_text(&pairs[i].1);
                out.append(piece.as_str());
                proof {
                    assert(out@ =~= seq!['{'] + pairs_prefix(sq, i + 1));
                }
                i += 1;
            }
            push_char(&mut out, '}');
            proof {
                assert(out@ =~= jtext(j@));
            }
            out
        },
    }
}

proof fn lemma_pairs_get_skip(pairs: Seq<(Seq<char>, JVal)>, key: Seq<char>, i: int)
    requires
        0 <= i <= pairs.len(),
        forall|j: int| 0 <= j < i ==> (#[trigger] pairs[j]).0 != key,
    ensures
        pairs_get(pairs, key) == pairs_get(pairs.subrange(i, pairs.len() as int), key),
    decreases i,
{
    if i == 0 {
        assert(pairs.subrange(0, pairs.len() as int) =~= pairs);
    } else {
        lemma_pairs_get_skip(pairs.drop_first(), key, i - 1);
        assert(pairs.drop_first().subrange(i - 1, pairs.drop_first().len() as int) =~= pairs
            .subrange(i, pairs.len() as int));
    }
}

/// Looks the member under `key` up: the first matching pair of an
/// object, nothing on any other value.
#[verifier::loop_isolation(false)]
pub fn obj_get<'a>(j: &'a Json, key: &str) -> (r: Option<&'a Json>)
    ensures
        match r {
            Option::Some(v) => jget(j@, key@) == Option::Some(v@),
            Option::None => jget(j@, key@) is None,
        },
{
    match j {
        Json::Obj(pairs) => {
            let ghost ps: Seq<(Seq<char>, JVal)> = jpairs_of(*pairs, 0);
            proof {
                lemma_jpairs_of(*pairs, 0);
            }
            let n = pairs.len();
            let mut i: usize = 0;
            while i < n
                invariant
                    n == pairs@.len(),
                    ps == jpairs_of(*pairs, 0),
                    ps.len() == n,
                    forall|k: int|
                        0 <= k < n ==> #[trigger] ps[k] == (pairs@[k].0@, jval_of(pairs@[k].1)),
                    i <= n,
                    forall|k: int| 0 <= k < i ==> (#[trigger] ps[k]).0 != key@,
                decreases n - i,
            {
                if crate::text::str_eq(pairs[i].0.as_str(), key) {
                    proof {
                        lemma_pairs_get_skip(ps, key@, i as int);
                        assert(ps.subrange(i as int, n as int)[0] == ps[i as int]);
                    }
                    return Some(&pairs[i].1);
                }
                i += 1;
            }
            proof {
                lemma_pairs_get_skip(ps, key@, n as int);
                assert(ps.subrange(n as int, n as int).len() == 0);
            }
            None
        },
        _ => None,
    }
}

/// Parses a text as one JSON document.
pub fn parse_json_text(s: &str) -> (r: Option<Json>)
    ensures
        match r {
            Option::Some(j) => crate::outside::json_of_text(s@) == Option::Some(j@),
            Option::None => crate::outside::json_of_text(s@) is None,
        },
{
    match crate::outside::parse_json_value(s) {
        Some(v) => Some(crate::outside::json_from_value(v)),
        None => None,
    }
}

} // verus!
