//! Runtime coercion of string tokens into typed JSON values, driven by a
//! schema shape.

use vstd::prelude::*;
use vstd::string::StringExecFns;
use crate::errors::BindError;
use crate::json::{JVal, Json};
use crate::outside::json_of_text;
use crate::text::{
    begins_bracketed, int_of_text, lower_seq, number_text, is_number_text, parse_i64,
    starts_bracketed, str_eq, texts_of, to_ascii_lower,
};
use crate::tree::{SchemaDef, SchemaV};

verus! {

/// The boolean a token names, case-insensitively: `true`, `1` and `yes`
/// name true; `false`, `0` and `no` name false.
pub open spec fn bool_of_text(s: Seq<char>) -> Option<bool> {
    let t = lower_seq(s);
    if t == "true"@ || t == "1"@ || t == "yes"@ {
        Option::Some(true)
    } else if t == "false"@ || t == "0"@ || t == "no"@ {
        Option::Some(false)
    } else {
        Option::None
    }
}

/// Reads a boolean token.
pub fn parse_bool(value: &str) -> (r: Result<bool, BindError>)
    ensures
        match r {
            Result::Ok(b) => bool_of_text(value@) == Option::Some(b),
            Result::Err(e) => bool_of_text(value@) is None && e.text() == "invalid boolean: "@
                + value@,
        },
{
    let low = to_ascii_lower(value);
    if str_eq(low.as_str(), "true") || str_eq(low.as_str(), "1") || str_eq(low.as_str(), "yes") {
        Ok(true)
    } else if str_eq(low.as_str(), "false") || str_eq(low.as_str(), "0") || str_eq(
        low.as_str(),
        "no",
    ) {
        Ok(false)
    } else {
        Err(BindError::InvalidBool { token: String::from_str(value) })
    }
}

/// What coercing one token under a schema kind yields, if it succeeds:
/// integer, number and boolean tokens are read as such, string tokens
/// pass through, object, array and opaque tokens are parsed as JSON
/// text, and a token of any other kind passes through as a string.
pub open spec fn scalar_value_spec(kind: Seq<char>, tok: Seq<char>) -> Option<JVal> {
    if kind == "integer"@ {
        match int_of_text(tok) {
            Option::Some(v) => if i64::MIN as int <= v <= i64::MAX as int {
                Option::Some(JVal::Int(v))
            } else {
                Option::None
            },
            Option::None => Option::None,
        }
    } else if kind == "number"@ {
        if number_text(tok) {
            Option::Some(JVal::Num(tok))
        } else {
            Option::None
        }
    } else if kind == "boolean"@ {
        match bool_of_text(tok) {
            Option::Some(b) => Option::Some(JVal::Bool(b)),
            Option::None => Option::None,
        }
    } else if kind == "string"@ {
        Option::Some(JVal::Str(tok))
    } else if kind == "object"@ || kind == "array"@ || kind == "unknown"@ {
        json_of_text(tok)
    } else {
        Option::Some(JVal::Str(tok))
    }
}

/// The wording of the error when coercing one token fails.
pub open spec fn scalar_err_text(kind: Seq<char>, tok: Seq<char>) -> Seq<char> {
    if kind == "integer"@ {
        "invalid integer: "@ + tok
    } else if kind == "number"@ {
        "invalid number: "@ + tok
    } else if kind == "boolean"@ {
        "invalid boolean: "@ + tok
    } else {
        "invalid JSON value: "@ + tok
    }
}

/// Coerces one token under a schema's kind.
pub fn parse_scalar_value(schema: &SchemaDef, value: &str) -> (r: Result<Json, BindError>)
    ensures
        match r {
            Result::Ok(j) => scalar_value_spec(schema@.kind, value@) == Option::Some(j@),
            Result::Err(e) => scalar_value_spec(schema@.kind, value@) is None && e.text()
                == scalar_err_text(schema@.kind, value@),
        },
{
    let kind = schema.kind.as_str();
    if str_eq(kind, "integer") {
        match parse_i64(value) {
            Some(v) => Ok(Json::Int(v)),
            None => Err(BindError::InvalidInt { token: String::from_str(value) }),
        }
    } else if str_eq(kind, "number") {
        if is_number_text(value) {
            Ok(Json::Num(String::from_str(value)))
        } else {
            Err(BindError::InvalidNumber { token: String::from_str(value) })
        }
    } else if str_eq(kind, "boolean") {
        match parse_bool(value) {
            Ok(b) => Ok(Json::Bool(b)),
            Err(e) => Err(e),
        }
    } else if str_eq(kind, "string") {
        Ok(Json::Str(String::from_str(value)))
    } else if str_eq(kind, "object") || str_eq(kind, "array") || str_eq(kind, "unknown") {
        match crate::json::parse_json_text(value) {
            Some(j) => Ok(j),
            None => Err(BindError::InvalidJsonValue { token: String::from_str(value) }),
        }
    } else {
        Ok(Json::Str(String::from_str(value)))
    }
}

/// The element shape a list coerces against: the array's item shape, or
/// the array's own shape where none is declared.
pub open spec fn item_schema_of(s: SchemaV) -> SchemaV {
    match s.item {
        Option::Some(b) => *b,
        Option::None => s,
    }
}

/// What coercing every token of a list yields, if each succeeds.
pub open spec fn list_items_spec(kind: Seq<char>, toks: Seq<Seq<char>>) -> Option<Seq<JVal>>
    decreases toks.len(),
{
    if toks.len() == 0 {
        Option::Some(Seq::empty())
    } else {
        match scalar_value_spec(kind, toks[0]) {
            Option::None => Option::None,
            Option::Some(v) => match list_items_spec(kind, toks.drop_first()) {
                Option::None => Option::None,
                Option::Some(rest) => Option::Some(seq![v] + rest),
            },
        }
    }
}

/// The first token of a list that fails to coerce.
pub open spec fn first_bad_token(kind: Seq<char>, toks: Seq<Seq<char>>) -> Seq<char>
    decreases toks.len(),
{
    if toks.len() == 0 {
        Seq::empty()
    } else if scalar_value_spec(kind, toks[0]) is None {
        toks[0]
    } else {
        first_bad_token(kind, toks.drop_first())
    }
}

pub(crate) proof fn lemma_list_items_skip(kind: Seq<char>, toks: Seq<Seq<char>>, i: int)
    requires
        0 <= i <= toks.len(),
        forall|j: int| 0 <= j < i ==> scalar_value_spec(kind, #[trigger] toks[j]) is Some,
    ensures
        list_items_spec(kind, toks) is Some <==> list_items_spec(
            kind,
            toks.subrange(i, toks.len() as int),
        ) is Some,
        list_items_spec(kind, toks) is None ==> first_bad_token(kind, toks) == first_bad_token(
            kind,
            toks.subrange(i, toks.len() as int),
        ),
        list_items_spec(kind, toks) matches Option::Some(all) ==> list_items_spec(
            kind,
            toks.subrange(i, toks.len() as int),
        ) == Option::Some(all.subrange(i, all.len() as int)) && all.len() == toks.len() && (
        forall|j: int|
            0 <= j < i ==> scalar_value_spec(kind, toks[j]) == Option::Some(#[trigger] all[j])),
    decreases i,
{
    if i == 0 {
        assert(toks.subrange(0, toks.len() as int) =~= toks);
        if list_items_spec(kind, toks) is Some {
            let all = list_items_spec(kind, toks)->Some_0;
            lemma_list_items_len(kind, toks);
            assert(all.subrange(0, all.len() as int) =~= all);
        }
    } else {
        assert(toks.len() > 0);
        assert(scalar_value_spec(kind, toks[0]) is Some);
        let t2 = toks.drop_first();
        assert(forall|j: int|
            0 <= j < i - 1 ==> scalar_value_spec(kind, #[trigger] t2[j]) is Some);
        lemma_list_items_skip(kind, t2, i - 1);
        assert(t2.subrange(i - 1, t2.len() as int) =~= toks.subrange(i, toks.len() as int));
        if list_items_spec(kind, toks) is Some {
            let all = list_items_spec(kind, toks)->Some_0;
            let v0 = scalar_value_spec(kind, toks[0])->Some_0;
            let rest = list_items_spec(kind, t2)->Some_0;
            assert(all == seq![v0] + rest);
            lemma_list_items_len(kind, t2);
            assert(all.subrange(i as int, all.len() as int) =~= rest.subrange(
                i - 1,
                rest.len() as int,
            ));
            assert(forall|j: int| 1 <= j < i ==> all[j] == #[trigger] rest[j - 1]);
        }
    }
}

pub(crate) proof fn lemma_list_items_len(kind: Seq<char>, toks: Seq<Seq<char>>)
    ensures
        list_items_spec(kind, toks) matches Option::Some(all) ==> all.len() == toks.len(),
    decreases toks.len(),
{
    if toks.len() > 0 {
        lemma_list_items_len(kind, toks.drop_first());
    }
}

/// What coercing a list of tokens yields, if it succeeds: one single
/// bracketed token is parsed as JSON text and taken as it stands, else
/// every token is coerced against the element shape and the results
/// collected in order.
pub open spec fn list_value_spec(schema: SchemaV, toks: Seq<Seq<char>>) -> Option<JVal> {
    if toks.len() == 1 && begins_bracketed(toks[0]) {
        json_of_text(toks[0])
    } else {
        match list_items_spec(item_schema_of(schema).kind, toks) {
            Option::Some(items) => Option::Some(JVal::Arr(items)),
            Option::None => Option::None,
        }
    }
}

/// The wording of the error when coercing a list of tokens fails.
pub open spec fn list_err_text(schema: SchemaV, toks: Seq<Seq<char>>) -> Seq<char> {
    if toks.len() == 1 && begins_bracketed(toks[0]) {
        "invalid JSON list"@
    } else {
        scalar_err_text(
            item_schema_of(schema).kind,
            first_bad_token(item_schema_of(schema).kind, toks),
        )
    }
}

/// Coerces a list of tokens against an array schema.  One single token
/// that, after leading whitespace, begins with `[` is read as a JSON
/// array literal and taken as it stands; otherwise every token is
/// coerced independently against the element shape and the results are
/// collected in argument order.
#[verifier::loop_isolation(false)]
pub fn parse_list_value(schema: &SchemaDef, values: &Vec<String>) -> (r: Result<Json, BindError>)
    ensures
        match r {
            Result::Ok(j) => list_value_spec(schema@, texts_of(*values)) == Option::Some(j@),
            Result::Err(e) => list_value_spec(schema@, texts_of(*values)) is None && e.text()
                == list_err_text(schema@, texts_of(*values)),
        },
{
    proof {
        assert(values@.len() == 1 ==> texts_of(*values)[0] == values@[0]@);
    }
    if values.len() == 1 && starts_bracketed(values[0].as_str()) {
        match crate::json::parse_json_text(values[0].as_str()) {
            Some(j) => {
                return Ok(j);
            },
            None => {
                return Err(BindError::InvalidJsonList);
            },
        }
    }
    let item_schema: &SchemaDef = match &schema.item {
        Option::Some(b) => {
            proof {
                assert(schema.item == Option::Some(*b));
                assert(schema@.item == Option::Some(Box::new((**b)@)));
            }
            &**b
        },
        Option::None => schema,
    };
    proof {
        assert(item_schema@ == item_schema_of(schema@));
    }
    let ghost kind: Seq<char> = item_schema@.kind;
    let ghost toks: Seq<Seq<char>> = texts_of(*values);
    let n = values.len();
    let mut out: Vec<Json> = Vec::new();
    let mut i: usize = 0;
    while i < n
        invariant
            n == values@.len(),
            i <= n,
            kind == item_schema@.kind,
            item_schema@ == item_schema_of(schema@),
            toks == texts_of(*values),
            out@.len() == i,
            forall|j: int|
                0 <= j < i ==> scalar_value_spec(kind, #[trigger] toks[j]) == Option::Some(
                    out@[j]@,
                ),
        decreases n - i,
    {
        match parse_scalar_value(item_schema, values[i].as_str()) {
            Ok(j) => {
                out.push(j);
            },
            Err(e) => {
                proof {
                    lemma_list_items_skip(kind, toks, i as int);
                    let t2 = toks.subrange(i as int, toks.len() as int);
                    assert(t2[0] == toks[i as int]);
                    assert(t2[0] == values@[i as int]@);
                }
                return Err(e);
            },
        }
        i += 1;
    }
    proof {
        lemma_list_items_all_ok(kind, toks, out@);
        crate::json::lemma_jvals_of(out, 0);
        assert(crate::json::jvals_of(out, 0) =~= Seq::new(out@.len(), |j: int| out@[j]@));
    }
    Ok(Json::Arr(out))
}

pub(crate) proof fn lemma_list_items_all_ok(kind: Seq<char>, toks: Seq<Seq<char>>, vs: Seq<Json>)
    requires
        vs.len() == toks.len(),
        forall|j: int|
            0 <= j < toks.len() ==> scalar_value_spec(kind, #[trigger] toks[j]) == Option::Some(
                vs[j]@,
            ),
    ensures
        list_items_spec(kind, toks) == Option::Some(
            Seq::new(vs.len(), |j: int| vs[j]@),
        ),
    decreases toks.len(),
{
    if toks.len() == 0 {
        assert(Seq::new(0, |j: int| vs[j]@) =~= Seq::<JVal>::empty());
    } else {
        let t2 = toks.drop_first();
        let v2 = vs.drop_first();
        assert(forall|j: int|
            0 <= j < t2.len() ==> scalar_value_spec(kind, #[trigger] t2[j]) == Option::Some(
                v2[j]@,
            )) by {
            assert(forall|j: int| 0 <= j < t2.len() ==> t2[j] == #[trigger] toks[j + 1]);
            assert(forall|j: int| 0 <= j < v2.len() ==> v2[j] == #[trigger] vs[j + 1]);
        }
        lemma_list_items_all_ok(kind, t2, v2);
        assert(seq![vs[0]@] + Seq::new(v2.len(), |j: int| v2[j]@) =~= Seq::new(
            vs.len(),
            |j: int| vs[j]@,
        ));
    }
}

} // verus!
