//! Request synthesis: the URL with its query string, and the JSON body,
//! from one operation and the string arguments bound to it.

use vstd::prelude::*;
use vstd::string::{StrSliceExecFns, StringExecFns};
use crate::coerce::{
    first_bad_token, item_schema_of, lemma_list_items_all_ok, lemma_list_items_skip,
    list_err_text, list_items_spec, list_value_spec, parse_list_value, parse_scalar_value,
    scalar_err_text, scalar_value_spec,
};
use crate::encode::{form_encode, form_encoded, pct_encoded, percent_encode};
use crate::errors::BindError;
use crate::json::{jtext, json_to_text, jvals_of, lemma_jvals_of, JVal, Json};
use crate::outside::{json_of_text, push_char};
use crate::text::{
    begins_bracketed, drop_trailing, int_dec_text, lex_le, lex_lt, str_eq, str_le, texts_of,
    trim, trimmed, has_suffix, ends_with, starts_bracketed,
};
use crate::tree::{field_key_text, BodyDef, BodyV, FieldV, Operation, OpV, ParamDef, ParamV};

verus! {

broadcast use vstd::std_specs::vec::axiom_vec_index_decreases;

// ----- replacing path placeholders -----

/// Every occurrence of `p` in `h` replaced by `r`, scanning left to
/// right without overlap.
pub open spec fn replace_seq(h: Seq<char>, p: Seq<char>, r: Seq<char>) -> Seq<char>
    decreases h.len(),
{
    if p.len() == 0 {
        h
    } else if h.len() < p.len() {
        h
    } else if h.subrange(0, p.len() as int) == p {
        r + replace_seq(h.skip(p.len() as int), p, r)
    } else {
        seq![h[0]] + replace_seq(h.drop_first(), p, r)
    }
}

/// Whether `p` occurs in `h` at position `i`.
pub(crate) fn matches_at(h: &str, p: &str, i: usize) -> (r: bool)
    requires
        i <= h@.len(),
    ensures
        r == (i + p@.len() <= h@.len() && h@.subrange(i as int, i + p@.len()) == p@),
{
    let hlen = h.unicode_len();
    let plen = p.unicode_len();
    if plen > hlen || i > hlen - plen {
        return false;
    }
    let mut k: usize = 0;
    while k < plen
        invariant
            hlen == h@.len(),
            plen == p@.len(),
            i + plen <= hlen,
            k <= plen,
            forall|j: int| 0 <= j < k ==> h@[i + j] == p@[j],
        decreases plen - k,
    {
        if h.get_char(i + k) != p.get_char(k) {
            proof {
                assert(h@.subrange(i as int, i + plen)[k as int] == h@[i + k]);
            }
            return false;
        }
        k += 1;
    }
    proof {
        assert(h@.subrange(i as int, i + plen) =~= p@);
    }
    true
}

/// Replaces every occurrence of `p` in `h` by `rep`.
#[verifier::loop_isolation(false)]
pub fn replace_all(h: &str, p: &str, rep: &str) -> (out: String)
    requires
        p@.len() > 0,
    ensures
        out@ == replace_seq(h@, p@, rep@),
{
    let hlen = h.unicode_len();
    let plen = p.unicode_len();
    let mut out = String::new();
    let mut i: usize = 0;
    proof {
        assert(h@.subrange(0, hlen as int) =~= h@);
        assert(Seq::<char>::empty() + replace_seq(h@, p@, rep@) =~= replace_seq(h@, p@, rep@));
    }
    while plen <= hlen && i <= hlen - plen
        invariant
            i <= hlen,
            replace_seq(h@, p@, rep@) == out@ + replace_seq(
                h@.subrange(i as int, hlen as int),
                p@,
                rep@,
            ),
        decreases hlen - i,
    {
        let ghost tail: Seq<char> = h@.subrange(i as int, hlen as int);
        if matches_at(h, p, i) {
            out.append(rep);
            proof {
                assert(tail.subrange(0, plen as int) =~= h@.subrange(i as int, i + plen));
                assert(tail.skip(plen as int) =~= h@.subrange(i + plen, hlen as int));
            }
            i += plen;
        } else {
            push_char(&mut out, h.get_char(i));
            proof {
                assert(tail.subrange(0, plen as int) =~= h@.subrange(i as int, i + plen));
                assert(tail[0] == h@[i as int]);
                assert(tail.drop_first() =~= h@.subrange(i + 1, hlen as int));
            }
            i += 1;
        }
    }
    let tail = h.substring_char(i, hlen);
    out.append(tail);
    proof {
        assert(replace_seq(h@.subrange(i as int, hlen as int), p@, rep@) == h@.subrange(
            i as int,
            hlen as int,
        ));
    }
    out
}

// ----- the bound arguments -----

/// The string values an invocation bound, keyed by argument name: for a
/// repeatable argument all values in order, for any other the one
/// operative value first.
pub struct ArgValues {
    pub entries: Vec<(String, Vec<String>)>,
}

impl View for ArgValues {
    type V = Seq<(Seq<char>, Seq<Seq<char>>)>;

    open spec fn view(&self) -> Seq<(Seq<char>, Seq<Seq<char>>)> {
        Seq::new(self.entries@.len(), |i: int| (self.entries@[i].0@, texts_of(self.entries@[i].1)))
    }
}

/// The values under a name: the first entry that carries it, if any.
pub open spec fn args_get(m: Seq<(Seq<char>, Seq<Seq<char>>)>, name: Seq<char>) -> Option<
    Seq<Seq<char>>,
>
    decreases m.len(),
{
    if m.len() == 0 {
        Option::None
    } else if m[0].0 == name {
        Option::Some(m[0].1)
    } else {
        args_get(m.drop_first(), name)
    }
}

proof fn lemma_args_get_skip(m: Seq<(Seq<char>, Seq<Seq<char>>)>, name: Seq<char>, i: int)
    requires
        0 <= i <= m.len(),
        forall|j: int| 0 <= j < i ==> (#[trigger] m[j]).0 != name,
    ensures
        args_get(m, name) == args_get(m.subrange(i, m.len() as int), name),
    decreases i,
{
    if i == 0 {
        assert(m.subrange(0, m.len() as int) =~= m);
    } else {
        lemma_args_get_skip(m.drop_first(), name, i - 1);
        assert(m.drop_first().subrange(i - 1, m.drop_first().len() as int) =~= m.subrange(
            i,
            m.len() as int,
        ));
    }
}

impl ArgValues {
    /// An empty binding.
    pub fn new() -> (r: ArgValues)
        ensures
            r@ == Seq::<(Seq<char>, Seq<Seq<char>>)>::empty(),
    {
        let r = ArgValues { entries: Vec::new() };
        proof {
            assert(r@ =~= Seq::<(Seq<char>, Seq<Seq<char>>)>::empty());
        }
        r
    }

    /// Binds the values of one argument name.
    pub fn bind(&mut self, name: String, values: Vec<String>)
        ensures
            final(self)@ == old(self)@.push((name@, texts_of(values))),
    {
        let ghost pre = self@;
        self.entries.push((name, values));
        proof {
            assert(self@ =~= pre.push((self.entries@.last().0@, texts_of(
                self.entries@.last().1,
            ))));
        }
    }

    /// Looks the values of one argument name up.
    #[verifier::loop_isolation(false)]
    pub fn get<'a>(&'a self, name: &str) -> (r: Option<&'a Vec<String>>)
        ensures
            match r {
                Option::Some(v) => args_get(self@, name@) == Option::Some(texts_of(*v)),
                Option::None => args_get(self@, name@) is None,
            },
    {
        let n = self.entries.len();
        let mut i: usize = 0;
        while i < n
            invariant
                n == self.entries@.len(),
                i <= n,
                forall|j: int| 0 <= j < i ==> (#[trigger] self@[j]).0 != name@,
            decreases n - i,
        {
            if str_eq(self.entries[i].0.as_str(), name) {
                proof {
                    lemma_args_get_skip(self@, name@, i as int);
                    assert(self@.subrange(i as int, n as int)[0] == self@[i as int]);
                }
                return Some(&self.entries[i].1);
            }
            i += 1;
        }
        proof {
            lemma_args_get_skip(self@, name@, n as int);
            assert(self@.subrange(n as int, n as int).len() == 0);
        }
        None
    }
}

// ----- query strings -----

/// How a coerced value is written into a query pair: scalars by their
/// literal text, null by the word `null`, anything nested as JSON text.
pub open spec fn query_text(v: JVal) -> Seq<char> {
    match v {
        JVal::Str(s) => s,
        JVal::Int(n) => int_dec_text(n),
        JVal::Num(t) => t,
        JVal::Bool(b) => if b {
            "true"@
        } else {
            "false"@
        },
        JVal::Null => "null"@,
        JVal::Arr(_) => jtext(v),
        JVal::Obj(_) => jtext(v),
    }
}

/// Writes a coerced value for a query pair.
pub fn value_to_query_string(v: &Json) -> (r: String)
    ensures
        r@ == query_text(v@),
{
    match v {
        Json::Str(s) => {
            let mut out = String::new();
            out.append(s.as_str());
            proof {
                assert(out@ =~= s@);
            }
            out
        },
        Json::Int(n) => crate::text::i64_to_dec(*n),
        Json::Num(t) => {
            let mut out = String::new();
            out.append(t.as_str());
            proof {
                assert(out@ =~= t@);
            }
            out
        },
        Json::Bool(b) => {
            if *b {
                String::from_str("true")
            } else {
                String::from_str("false")
            }
        },
        Json::Null => String::from_str("null"),
        Json::Arr(_) => json_to_text(v),
        Json::Obj(_) => json_to_text(v),
    }
}

/// What a list of tokens contributes to a query string, if it coerces:
/// one bracketed token must parse to a JSON array and contributes its
/// elements' texts; otherwise every token is coerced against the
/// element shape and contributes its text.
pub open spec fn query_texts_spec(schema: crate::tree::SchemaV, toks: Seq<Seq<char>>) -> Option<
    Seq<Seq<char>>,
> {
    if toks.len() == 1 && begins_bracketed(toks[0]) {
        match json_of_text(toks[0]) {
            Option::Some(v) => match v {
                JVal::Arr(items) => Option::Some(items.map_values(|x: JVal| query_text(x))),
                _ => Option::None,
            },
            Option::None => Option::None,
        }
    } else {
        match list_items_spec(item_schema_of(schema).kind, toks) {
            Option::Some(items) => Option::Some(items.map_values(|x: JVal| query_text(x))),
            Option::None => Option::None,
        }
    }
}

/// The wording of the error when a list of tokens fails to coerce for a
/// query string.
pub open spec fn query_err_text(schema: crate::tree::SchemaV, toks: Seq<Seq<char>>) -> Seq<char> {
    if toks.len() == 1 && begins_bracketed(toks[0]) {
        if json_of_text(toks[0]) is None {
            "invalid JSON list"@
        } else {
            "expected JSON array"@
        }
    } else {
        scalar_err_text(
            item_schema_of(schema).kind,
            first_bad_token(item_schema_of(schema).kind, toks),
        )
    }
}

/// Coerces a list of tokens into their query-string texts.
#[verifier::loop_isolation(false)]
pub fn parse_list_for_query(schema: &crate::tree::SchemaDef, values: &Vec<String>) -> (r: Result<
    Vec<String>,
    BindError,
>)
    ensures
        match r {
            Result::Ok(out) => query_texts_spec(schema@, texts_of(*values)) == Option::Some(
                texts_of(out),
            ),
            Result::Err(e) => query_texts_spec(schema@, texts_of(*values)) is None && e.text()
                == query_err_text(schema@, texts_of(*values)),
        },
{
    proof {
        assert(values@.len() == 1 ==> texts_of(*values)[0] == values@[0]@);
    }
    if values.len() == 1 && starts_bracketed(values[0].as_str()) {
        match crate::json::parse_json_text(values[0].as_str()) {
            Some(j) => {
                match j {
                    Json::Arr(items) => {
                        let ghost sq: Seq<JVal> = jvals_of(items, 0);
                        proof {
                            lemma_jvals_of(items, 0);
                        }
                        let n = items.len();
                        let mut out: Vec<String> = Vec::new();
                        let mut i: usize = 0;
                        while i < n
                            invariant
                                n == items@.len(),
                                i <= n,
                                sq.len() == n,
                                forall|k: int|
                                    0 <= k < n ==> sq[k] == crate::json::jval_of(
                                        #[trigger] items@[k],
                                    ),
                                out@.len() == i,
                                forall|k: int|
                                    0 <= k < i ==> (#[trigger] out@[k])@ == query_text(sq[k]),
                            decreases n - i,
                        {
                            let piece = value_to_query_string(&items[i]);
                            out.push(piece);
                            i += 1;
                        }
                        proof {
                            assert(texts_of(out) =~= sq.map_values(|x: JVal| query_text(x)));
                        }
                        return Ok(out);
                    },
                    _ => {
                        proof {
                            let jv = j@;
                            assert(!(jv is Arr));
                        }
                        return Err(BindError::ExpectedJsonArray);
                    },
                }
            },
            None => {
                return Err(BindError::InvalidJsonList);
            },
        }
    }
    let item_schema: &crate::tree::SchemaDef = match &schema.item {
        Option::Some(b) => {
            proof {
                assert(schema.item == Option::Some(*b));
                assert(schema@.item == Option::Some(Box::new((**b)@)));
            }
            &**b
        },
        Option::None => schema,
    };
    proof {
        assert(item_schema@ == item_schema_of(schema@));
    }
    let ghost kind: Seq<char> = item_schema@.kind;
    let ghost toks: Seq<Seq<char>> = texts_of(*values);
    let n = values.len();
    let mut vals: Vec<Json> = Vec::new();
    let mut i: usize = 0;
    while i < n
        invariant
            n == values@.len(),
            i <= n,
            kind == item_schema@.kind,
            item_schema@ == item_schema_of(schema@),
            toks == texts_of(*values),
            vals@.len() == i,
            forall|j: int|
                0 <= j < i ==> scalar_value_spec(kind, #[trigger] toks[j]) == Option::Some(
                    vals@[j]@,
                ),
        decreases n - i,
    {
        match parse_scalar_value(item_schema, values[i].as_str()) {
            Ok(j) => {
                vals.push(j);
            },
            Err(e) => {
                proof {
                    lemma_list_items_skip(kind, toks, i as int);
                    let t2 = toks.subrange(i as int, toks.len() as int);
                    assert(t2[0] == toks[i as int]);
                }
                return Err(e);
            },
        }
        i += 1;
    }
    proof {
        lemma_list_items_all_ok(kind, toks, vals@);
    }
    let m = vals.len();
    let mut out: Vec<String> = Vec::new();
    let mut k: usize = 0;
    while k < m
        invariant
            m == vals@.len(),
            k <= m,
            out@.len() == k,
            forall|j: int| 0 <= j < k ==> (#[trigger] out@[j])@ == query_text(vals@[j]@),
        decreases m - k,
    {
        let piece = value_to_query_string(&vals[k]);
        out.push(piece);
        k += 1;
    }
    proof {
        let items = list_items_spec(kind, toks)->Some_0;
        assert(texts_of(out) =~= items.map_values(|x: JVal| query_text(x)));
    }
    Ok(out)
}

// ----- the query pairs one parameter contributes -----

/// The key/value texts a vector of string pairs holds.
pub open spec fn pairs_texts_of(v: Vec<(String, String)>) -> Seq<(Seq<char>, Seq<char>)> {
    Seq::new(v@.len(), |i: int| (v@[i].0@, v@[i].1@))
}

/// The query pairs one parameter contributes: for an array-kind
/// parameter one pair per coerced element, for any other the one bound
/// token as it stands; a parameter without a bound value contributes
/// nothing.
pub open spec fn query_pairs_of(p: ParamV, m: Seq<(Seq<char>, Seq<Seq<char>>)>) -> Result<
    Seq<(Seq<char>, Seq<char>)>,
    Seq<char>,
> {
    if p.schema.kind == "array"@ {
        match args_get(m, p.name) {
            Option::Some(toks) => match query_texts_spec(p.schema, toks) {
                Option::Some(texts) => Result::Ok(
                    Seq::new(texts.len(), |i: int| (p.name, texts[i])),
                ),
                Option::None => Result::Err(query_err_text(p.schema, toks)),
            },
            Option::None => Result::Ok(Seq::empty()),
        }
    } else {
        match args_get(m, p.name) {
            Option::Some(toks) => if toks.len() > 0 {
                Result::Ok(seq![(p.name, toks[0])])
            } else {
                Result::Ok(Seq::empty())
            },
            Option::None => Result::Ok(Seq::empty()),
        }
    }
}

/// Appends the query pairs one parameter contributes.
#[verifier::loop_isolation(false)]
pub fn append_query_param(
    out: &mut Vec<(String, String)>,
    param: &ParamDef,
    args: &ArgValues,
) -> (r: Result<(), BindError>)
    ensures
        match r {
            Result::Ok(_) => query_pairs_of(param@, args@) matches Result::Ok(ps)
                && pairs_texts_of(*final(out)) == pairs_texts_of(*old(out)) + ps,
            Result::Err(e) => query_pairs_of(param@, args@) matches Result::Err(t) && e.text()
                == t && *final(out) == *old(out),
        },
{
    if str_eq(param.schema.kind.as_str(), "array") {
        match args.get(param.name.as_str()) {
            Some(values) => {
                match parse_list_for_query(&param.schema, values) {
                    Ok(texts) => {
                        let n = texts.len();
                        let mut i: usize = 0;
                        while i < n
                            invariant
                                n == texts@.len(),
                                i <= n,
                                pairs_texts_of(*out) == pairs_texts_of(*old(out)) + Seq::new(
                                    i as nat,
                                    |j: int| (param.name@, texts@[j]@),
                                ),
                            decreases n - i,
                        {
                            let ghost prevp = pairs_texts_of(*out);
                            let key = param.name.clone();
                            let val = texts[i].clone();
                            proof {
                                assert(key@ == param.name@);
                                assert(val@ == texts@[i as int]@);
                            }
                            out.push((key, val));
                            proof {
                                assert(pairs_texts_of(*out) =~~= prevp.push(
                                    (param.name@, texts@[i as int]@),
                                ));
                                assert(prevp.push((param.name@, texts@[i as int]@)) =~~=
                                    pairs_texts_of(*old(out)) + Seq::new(
                                    (i + 1) as nat,
                                    |j: int| (param.name@, texts@[j]@),
                                ));
                            }
                            i += 1;
                        }
                        proof {
                            let ts = query_texts_spec(param@.schema, texts_of(*values))->Some_0;
                            assert(ts == texts_of(texts));
                            assert(Seq::new(n as nat, |j: int| (param.name@, texts@[j]@)) =~~= Seq::new(
                                ts.len(),
                                |i: int| (param@.name, ts[i]),
                            ));
                        }
                        Ok(())
                    },
                    Err(e) => Err(e),
                }
            },
            None => {
                proof {
                    assert(pairs_texts_of(*out) =~= pairs_texts_of(*old(out))
                        + Seq::<(Seq<char>, Seq<char>)>::empty());
                }
                Ok(())
            },
        }
    } else {
        match args.get(param.name.as_str()) {
            Some(values) => {
                if values.len() > 0 {
                    let key = param.name.clone();
                    out.push((key, values[0].clone()));
                    proof {
                        assert(texts_of(*values)[0] == values@[0]@);
                        assert(pairs_texts_of(*out) =~~= pairs_texts_of(*old(out)) + seq![
                            (param@.name, texts_of(*values)[0]),
                        ]);
                    }
                    Ok(())
                } else {
                    proof {
                        assert(pairs_texts_of(*out) =~= pairs_texts_of(*old(out))
                            + Seq::<(Seq<char>, Seq<char>)>::empty());
                    }
                    Ok(())
                }
            },
            None => {
                proof {
                    assert(pairs_texts_of(*out) =~= pairs_texts_of(*old(out))
                        + Seq::<(Seq<char>, Seq<char>)>::empty());
                }
                Ok(())
            },
        }
    }
}

// ----- the URL -----

/// The service base joined with the tree's base path: the base without
/// its trailing slashes, and the base path exactly once.
pub open spec fn joined_base(base_url: Seq<char>, base_path: Seq<char>) -> Seq<char> {
    let base = drop_trailing(base_url, '/');
    let bp0 = trimmed(base_path);
    let bp = if bp0.len() > 0 && bp0[0] == '/' {
        bp0
    } else {
        seq!['/'] + bp0
    };
    if has_suffix(base, bp) {
        base
    } else {
        base + bp
    }
}

/// The operation's path with every placeholder of a path parameter
/// substituted by the parameter's percent-encoded bound value, walking
/// the parameters in order; the flag of the first path parameter
/// without a bound value, where one has none.
pub open spec fn subst_path(
    path: Seq<char>,
    params: Seq<ParamV>,
    i: int,
    m: Seq<(Seq<char>, Seq<Seq<char>>)>,
) -> Result<Seq<char>, Seq<char>>
    decreases params.len() - i,
{
    if i < 0 || i >= params.len() {
        Result::Ok(path)
    } else if params[i].location != "path"@ {
        subst_path(path, params, i + 1, m)
    } else {
        match args_get(m, params[i].name) {
            Option::Some(toks) => if toks.len() > 0 {
                subst_path(
                    replace_seq(
                        path,
                        seq!['{'] + params[i].name + seq!['}'],
                        pct_encoded(toks[0]),
                    ),
                    params,
                    i + 1,
                    m,
                )
            } else {
                Result::Err(params[i].flag)
            },
            Option::None => Result::Err(params[i].flag),
        }
    }
}

/// The query pairs of all query-located parameters, in parameter order;
/// the wording of the first failure, where one fails.
pub open spec fn query_pairs_fold(
    params: Seq<ParamV>,
    i: int,
    m: Seq<(Seq<char>, Seq<Seq<char>>)>,
) -> Result<Seq<(Seq<char>, Seq<char>)>, Seq<char>>
    decreases params.len() - i,
{
    if i < 0 || i >= params.len() {
        Result::Ok(Seq::empty())
    } else if params[i].location != "query"@ {
        query_pairs_fold(params, i + 1, m)
    } else {
        match query_pairs_of(params[i], m) {
            Result::Err(t) => Result::Err(t),
            Result::Ok(ps) => match query_pairs_fold(params, i + 1, m) {
                Result::Err(t) => Result::Err(t),
                Result::Ok(rest) => Result::Ok(ps + rest),
            },
        }
    }
}

/// One query pair as it stands in the query string, both sides
/// form-encoded.
pub open spec fn qs_pair_text(p: (Seq<char>, Seq<char>)) -> Seq<char> {
    form_encoded(p.0) + seq!['='] + form_encoded(p.1)
}

pub open spec fn qs_prefix(ps: Seq<(Seq<char>, Seq<char>)>, i: int) -> Seq<char>
    decreases i,
{
    if i <= 0 || i > ps.len() {
        Seq::empty()
    } else if i == 1 {
        qs_pair_text(ps[0])
    } else {
        qs_prefix(ps, i - 1) + seq!['&'] + qs_pair_text(ps[i - 1])
    }
}

/// The URL an invocation addresses: the joined base, the substituted
/// path, and the query string where there are pairs; or the wording of
/// the first binding failure.
pub open spec fn built_url(
    base_url: Seq<char>,
    base_path: Seq<char>,
    op: OpV,
    m: Seq<(Seq<char>, Seq<Seq<char>>)>,
) -> Result<Seq<char>, Seq<char>> {
    match subst_path(op.path, op.params, 0, m) {
        Result::Err(flag) => Result::Err("missing required param --"@ + flag),
        Result::Ok(p) => match query_pairs_fold(op.params, 0, m) {
            Result::Err(t) => Result::Err(t),
            Result::Ok(ps) => Result::Ok(
                joined_base(base_url, base_path) + p + if ps.len() == 0 {
                    Seq::<char>::empty()
                } else {
                    seq!['?'] + qs_prefix(ps, ps.len() as int)
                },
            ),
        },
    }
}

/// Joining the service base with the tree's base path never duplicates
/// the base path: a base that already ends with the normalized base
/// path is kept as it stands, with nothing appended.
pub proof fn lemma_base_join_no_duplicate(base_url: Seq<char>, base_path: Seq<char>)
    ensures
        ({
            let base = drop_trailing(base_url, '/');
            let bp0 = trimmed(base_path);
            let bp = if bp0.len() > 0 && bp0[0] == '/' {
                bp0
            } else {
                seq!['/'] + bp0
            };
            has_suffix(base, bp) ==> joined_base(base_url, base_path) == base
        }),
{
}

/// An operation that requires a body fails with the body-required
/// error where no raw body, no body file and no input-field value is
/// bound.
pub proof fn lemma_required_body_violation(op: OpV, m: Seq<(Seq<char>, Seq<Seq<char>>)>)
    requires
        op.body is Some,
        op.body->Some_0.required,
        forall|i: int|
            0 <= i < op.body->Some_0.input_fields.len() ==> args_get(
                m,
                field_key_text((#[trigger] op.body->Some_0.input_fields[i]).name),
            ) is None,
    ensures
        built_body(op, Option::None, Option::None, m) == Result::<Option<JVal>, Seq<char>>::Err(
            "request body required"@,
        ),
{
    let b = op.body->Some_0;
    lemma_inputs_fold_unbound(b.input_fields, 0, m, Seq::empty());
}

proof fn lemma_inputs_fold_unbound(
    fields: Seq<FieldV>,
    i: int,
    m: Seq<(Seq<char>, Seq<Seq<char>>)>,
    acc: Seq<(Seq<char>, JVal)>,
)
    requires
        0 <= i <= fields.len(),
        forall|j: int|
            0 <= j < fields.len() ==> args_get(
                m,
                field_key_text((#[trigger] fields[j]).name),
            ) is None,
    ensures
        inputs_fold(fields, i, m, acc) == Result::<Seq<(Seq<char>, JVal)>, Seq<char>>::Ok(acc),
    decreases fields.len() - i,
{
    if i < fields.len() {
        lemma_inputs_fold_unbound(fields, i + 1, m, acc);
    }
}

/// Strips the trailing slashes of the service base.
#[verifier::loop_isolation(false)]
fn trim_trailing_slash(s: &str) -> (r: String)
    ensures
        r@ == drop_trailing(s@, '/'),
{
    let len = s.unicode_len();
    let mut end = len;
    while end > 0 && s.get_char(end - 1) == '/'
        invariant
            len == s@.len(),
            end <= len,
            forall|j: int| end <= j < len ==> s@[j] == '/',
        decreases end,
    {
        end -= 1;
    }
    let piece = s.substring_char(0, end);
    let r = String::from_str(piece);
    proof {
        crate::text::lemma_drop_trailing_is_subrange(s@, '/', end as int);
    }
    r
}

/// Assembles the URL of one invocation: joins the base, substitutes
/// every path placeholder, and appends the query string.
#[verifier::loop_isolation(false)]
pub fn build_url(base_url: &str, base_path: &str, op: &Operation, args: &ArgValues) -> (r: Result<
    String,
    BindError,
>)
    ensures
        match r {
            Result::Ok(u) => built_url(base_url@, base_path@, op@, args@) == Result::<
                Seq<char>,
                Seq<char>,
            >::Ok(u@),
            Result::Err(e) => built_url(base_url@, base_path@, op@, args@) == Result::<
                Seq<char>,
                Seq<char>,
            >::Err(e.text()),
        },
{
    let base = trim_trailing_slash(base_url);
    let bp0 = trim(base_path);
    let bp0_len = bp0.unicode_len();
    let bp: String = if bp0_len > 0 && bp0.as_str().get_char(0) == '/' {
        bp0
    } else {
        let mut x = String::from_str("/");
        x.append(bp0.as_str());
        proof {
            reveal_strlit("/");
            assert(x@ =~= seq!['/'] + trimmed(base_path@));
        }
        x
    };
    let mut api_base = base;
    if !ends_with(api_base.as_str(), bp.as_str()) {
        api_base.append(bp.as_str());
    }
    proof {
        assert(api_base@ == joined_base(base_url@, base_path@));
    }

    let ghost m: Seq<(Seq<char>, Seq<Seq<char>>)> = args@;
    let ghost params: Seq<ParamV> = op@.params;
    let n = op.params.len();
    let mut path = String::new();
    path.append(op.path.as_str());
    proof {
        assert(path@ =~= op@.path);
    }
    let mut i: usize = 0;
    while i < n
        invariant
            n == op.params@.len(),
            i <= n,
            params == op@.params,
            m == args@,
            subst_path(op@.path, params, 0, m) == subst_path(path@, params, i as int, m),
        decreases n - i,
    {
        let param = &op.params[i];
        proof {
            assert(param@ == params[i as int]);
        }
        if str_eq(param.location.as_str(), "path") {
            match args.get(param.name.as_str()) {
                Some(values) => {
                    if values.len() == 0 {
                        return Err(BindError::MissingParam {
                            flag: String::from_str(param.flag.as_str()),
                        });
                    }
                    let mut pat = String::from_str("{");
                    pat.append(param.name.as_str());
                    pat.append("}");
                    proof {
                        reveal_strlit("{");
                        reveal_strlit("}");
                        assert(pat@ =~= seq!['{'] + params[i as int].name + seq!['}']);
                    }
                    let enc = percent_encode(values[0].as_str());
                    proof {
                        assert(texts_of(*values)[0] == values@[0]@);
                    }
                    let newpath = replace_all(path.as_str(), pat.as_str(), enc.as_str());
                    path = newpath;
                },
                None => {
                    return Err(BindError::MissingParam {
                        flag: String::from_str(param.flag.as_str()),
                    });
                },
            }
        }
        i += 1;
    }

    let mut qp: Vec<(String, String)> = Vec::new();
    let mut k: usize = 0;
    proof {
        assert(pairs_texts_of(qp) =~= Seq::<(Seq<char>, Seq<char>)>::empty());
    }
    while k < n
        invariant
            n == op.params@.len(),
            k <= n,
            params == op@.params,
            m == args@,
            subst_path(op@.path, params, 0, m) == Result::<Seq<char>, Seq<char>>::Ok(path@),
            match query_pairs_fold(params, k as int, m) {
                Result::Ok(rest) => query_pairs_fold(params, 0, m) == Result::<
                    Seq<(Seq<char>, Seq<char>)>,
                    Seq<char>,
                >::Ok(pairs_texts_of(qp) + rest),
                Result::Err(t) => query_pairs_fold(params, 0, m) == Result::<
                    Seq<(Seq<char>, Seq<char>)>,
                    Seq<char>,
                >::Err(t),
            },
        decreases n - k,
    {
        let param = &op.params[k];
        proof {
            assert(param@ == params[k as int]);
        }
        if str_eq(param.location.as_str(), "query") {
            let ghost pre = pairs_texts_of(qp);
            match append_query_param(&mut qp, param, args) {
                Ok(_) => {
                    proof {
                        let ps = query_pairs_of(params[k as int], m)->Ok_0;
                        if query_pairs_fold(params, k + 1, m) is Ok {
                            let rest = query_pairs_fold(params, k + 1, m)->Ok_0;
                            assert(pre + (ps + rest) =~= (pre + ps) + rest);
                        }
                    }
                },
                Err(e) => {
                    return Err(e);
                },
            }
        }
        k += 1;
    }
    proof {
        assert(query_pairs_fold(params, n as int, m) == Result::<
            Seq<(Seq<char>, Seq<char>)>,
            Seq<char>,
        >::Ok(Seq::empty()));
        assert(pairs_texts_of(qp) + Seq::<(Seq<char>, Seq<char>)>::empty() =~= pairs_texts_of(
            qp,
        ));
    }

    let ghost ps: Seq<(Seq<char>, Seq<char>)> = pairs_texts_of(qp);
    let mut url = api_base;
    url.append(path.as_str());
    if qp.len() > 0 {
        push_char(&mut url, '?');
        let qn = qp.len();
        let mut qi: usize = 0;
        let mut qs = String::new();
        while qi < qn
            invariant
                qn == qp@.len(),
                qi <= qn,
                ps == pairs_texts_of(qp),
                qs@ == qs_prefix(ps, qi as int),
            decreases qn - qi,
        {
            if qi > 0 {
                push_char(&mut qs, '&');
            }
            let ek = form_encode(qp[qi].0.as_str());
            qs.append(ek.as_str());
            push_char(&mut qs, '=');
            let ev = form_encode(qp[qi].1.as_str());
            qs.append(ev.as_str());
            proof {
                assert(ps[qi as int] == (qp@[qi as int].0@, qp@[qi as int].1@));
                assert(qs@ =~= qs_prefix(ps, qi + 1));
            }
            qi += 1;
        }
        url.append(qs.as_str());
        proof {
            assert(url@ =~= joined_base(base_url@, base_path@) + path@ + (seq!['?'] + qs_prefix(
                ps,
                ps.len() as int,
            )));
        }
    } else {
        proof {
            assert(ps.len() == 0);
            assert(url@ =~= joined_base(base_url@, base_path@) + path@ + Seq::<char>::empty());
        }
    }
    Ok(url)
}

// ----- the body -----

/// A pair sequence with `key` bound to `v`: an existing binding of the
/// key is replaced in place, a new key enters at its place in the sort
/// order.
pub open spec fn sorted_insert_pair(
    pairs: Seq<(Seq<char>, JVal)>,
    key: Seq<char>,
    v: JVal,
) -> Seq<(Seq<char>, JVal)>
    decreases pairs.len(),
{
    if pairs.len() == 0 {
        seq![(key, v)]
    } else if key == pairs[0].0 {
        seq![(key, v)] + pairs.drop_first()
    } else if lex_lt(key, pairs[0].0) {
        seq![(key, v)] + pairs
    } else {
        seq![pairs[0]] + sorted_insert_pair(pairs.drop_first(), key, v)
    }
}

proof fn lemma_sorted_insert_skip(
    pairs: Seq<(Seq<char>, JVal)>,
    key: Seq<char>,
    v: JVal,
    i: int,
)
    requires
        0 <= i <= pairs.len(),
        forall|j: int| 0 <= j < i ==> !lex_le(key, (#[trigger] pairs[j]).0),
    ensures
        sorted_insert_pair(pairs, key, v) == pairs.subrange(0, i) + sorted_insert_pair(
            pairs.subrange(i, pairs.len() as int),
            key,
            v,
        ),
    decreases i,
{
    if i == 0 {
        assert(pairs.subrange(0, pairs.len() as int) =~= pairs);
        assert(pairs.subrange(0, 0) + sorted_insert_pair(pairs, key, v) =~= sorted_insert_pair(
            pairs,
            key,
            v,
        ));
    } else {
        assert(!lex_le(key, pairs[0].0));
        crate::text::lemma_lex_le_refl(key);
        assert(key != pairs[0].0);
        assert(!lex_lt(key, pairs[0].0));
        let t = pairs.drop_first();
        lemma_sorted_insert_skip(t, key, v, i - 1);
        assert(t.subrange(i - 1, t.len() as int) =~= pairs.subrange(i, pairs.len() as int));
        assert(seq![pairs[0]] + (t.subrange(0, i - 1) + sorted_insert_pair(
            pairs.subrange(i, pairs.len() as int),
            key,
            v,
        )) =~= pairs.subrange(0, i) + sorted_insert_pair(
            pairs.subrange(i, pairs.len() as int),
            key,
            v,
        ));
    }
}

/// Binds `key` to `v` in a sorted pair list, replacing or inserting.
#[verifier::loop_isolation(false)]
pub(crate) fn insert_pair_sorted(pairs: &mut Vec<(String, Json)>, key: String, v: Json)
    ensures
        crate::json::jpairs_of(*final(pairs), 0) == sorted_insert_pair(
            crate::json::jpairs_of(*old(pairs), 0),
            key@,
            v@,
        ),
{
    let ghost ps: Seq<(Seq<char>, JVal)> = crate::json::jpairs_of(*old(pairs), 0);
    proof {
        crate::json::lemma_jpairs_of(*pairs, 0);
    }
    let n = pairs.len();
    let mut idx: usize = 0;
    while idx < n && !str_le(key.as_str(), pairs[idx].0.as_str())
        invariant
            n == pairs@.len(),
            idx <= n,
            forall|j: int| 0 <= j < idx ==> !lex_le(key@, (#[trigger] ps[j]).0),
        decreases n - idx,
    {
        idx += 1;
    }
    proof {
        lemma_sorted_insert_skip(ps, key@, v@, idx as int);
    }
    if idx < n && str_eq(key.as_str(), pairs[idx].0.as_str()) {
        let ghost tail = ps.subrange(idx as int, n as int);
        proof {
            assert(tail[0] == ps[idx as int]);
            assert(sorted_insert_pair(tail, key@, v@) == seq![(key@, v@)] + tail.drop_first());
        }
        pairs[idx] = (key, v);
        proof {
            crate::json::lemma_jpairs_of(*pairs, 0);
            assert(crate::json::jpairs_of(*pairs, 0) =~~= ps.subrange(0, idx as int) + (seq![
                (key@, v@),
            ] + tail.drop_first()));
        }
    } else {
        let ghost tail = ps.subrange(idx as int, n as int);
        proof {
            if idx < n {
                assert(tail[0] == ps[idx as int]);
                assert(lex_le(key@, ps[idx as int].0));
                assert(key@ != ps[idx as int].0);
                assert(sorted_insert_pair(tail, key@, v@) == seq![(key@, v@)] + tail);
            } else {
                assert(tail.len() == 0);
                assert(sorted_insert_pair(tail, key@, v@) == seq![(key@, v@)]);
            }
        }
        pairs.insert(idx, (key, v));
        proof {
            crate::json::lemma_jpairs_of(*pairs, 0);
            assert(crate::json::jpairs_of(*pairs, 0) =~~= ps.subrange(0, idx as int)
                + sorted_insert_pair(tail, key@, v@));
        }
    }
}

/// The object members the bound input-field arguments assemble, walking
/// the fields in order and keeping the member keys sorted and unique;
/// or the wording of the first coercion failure.
pub open spec fn inputs_fold(
    fields: Seq<FieldV>,
    i: int,
    m: Seq<(Seq<char>, Seq<Seq<char>>)>,
    acc: Seq<(Seq<char>, JVal)>,
) -> Result<Seq<(Seq<char>, JVal)>, Seq<char>>
    decreases fields.len() - i,
{
    if i < 0 || i >= fields.len() {
        Result::Ok(acc)
    } else {
        let f = fields[i];
        match args_get(m, field_key_text(f.name)) {
            Option::None => inputs_fold(fields, i + 1, m, acc),
            Option::Some(toks) => if f.schema.kind == "array"@ {
                match list_value_spec(f.schema, toks) {
                    Option::Some(v) => inputs_fold(
                        fields,
                        i + 1,
                        m,
                        sorted_insert_pair(acc, f.name, v),
                    ),
                    Option::None => Result::Err(list_err_text(f.schema, toks)),
                }
            } else {
                if toks.len() > 0 {
                    match scalar_value_spec(f.schema.kind, toks[0]) {
                        Option::Some(v) => inputs_fold(
                            fields,
                            i + 1,
                            m,
                            sorted_insert_pair(acc, f.name, v),
                        ),
                        Option::None => Result::Err(scalar_err_text(f.schema.kind, toks[0])),
                    }
                } else {
                    inputs_fold(fields, i + 1, m, acc)
                }
            },
        }
    }
}

/// What the input-field flags of a body assemble.
pub open spec fn body_inputs(b: BodyV, m: Seq<(Seq<char>, Seq<Seq<char>>)>) -> Result<
    Seq<(Seq<char>, JVal)>,
    Seq<char>,
> {
    inputs_fold(b.input_fields, 0, m, Seq::empty())
}

/// Assembles a JSON object from the bound input-field arguments: `None`
/// where no field is bound at all.
#[verifier::loop_isolation(false)]
pub fn build_body_from_inputs(body: &BodyDef, args: &ArgValues) -> (r: Result<
    Option<Json>,
    BindError,
>)
    ensures
        match r {
            Result::Ok(out) => body_inputs(body@, args@) matches Result::Ok(pairs) && (match out {
                Option::Some(j) => pairs.len() > 0 && j@ == JVal::Obj(pairs),
                Option::None => pairs.len() == 0,
            }),
            Result::Err(e) => body_inputs(body@, args@) matches Result::Err(t) && e.text() == t,
        },
{
    let ghost m: Seq<(Seq<char>, Seq<Seq<char>>)> = args@;
    let ghost fields: Seq<FieldV> = body@.input_fields;
    let n = body.input_fields.len();
    let mut obj: Vec<(String, Json)> = Vec::new();
    let mut i: usize = 0;
    proof {
        crate::json::lemma_jpairs_of(obj, 0);
        assert(crate::json::jpairs_of(obj, 0) =~= Seq::<(Seq<char>, JVal)>::empty());
    }
    while i < n
        invariant
            n == body.input_fields@.len(),
            i <= n,
            m == args@,
            fields == body@.input_fields,
            inputs_fold(fields, 0, m, Seq::empty()) == inputs_fold(
                fields,
                i as int,
                m,
                crate::json::jpairs_of(obj, 0),
            ),
        decreases n - i,
    {
        let field = &body.input_fields[i];
        proof {
            assert(field@ == fields[i as int]);
        }
        let key = crate::tree::input_field_key(field);
        match args.get(key.as_str()) {
            Some(values) => {
                if str_eq(field.schema.kind.as_str(), "array") {
                    match parse_list_value(&field.schema, values) {
                        Ok(j) => {
                            insert_pair_sorted(&mut obj, field.name.clone(), j);
                        },
                        Err(e) => {
                            return Err(e);
                        },
                    }
                } else {
                    if values.len() > 0 {
                        proof {
                            assert(texts_of(*values)[0] == values@[0]@);
                        }
                        match parse_scalar_value(&field.schema, values[0].as_str()) {
                            Ok(j) => {
                                insert_pair_sorted(&mut obj, field.name.clone(), j);
                            },
                            Err(e) => {
                                return Err(e);
                            },
                        }
                    }
                }
            },
            None => {},
        }
        i += 1;
    }
    if obj.len() == 0 {
        proof {
            crate::json::lemma_jpairs_of(obj, 0);
        }
        Ok(None)
    } else {
        proof {
            crate::json::lemma_jpairs_of(obj, 0);
        }
        Ok(Some(Json::Obj(obj)))
    }
}

/// Whether the body file must be read before the body can be built:
/// refuses a body source where the operation accepts no body, and the
/// two body sources together.
pub fn wants_body_file(op: &Operation, raw_given: bool, file_given: bool) -> (r: Result<
    bool,
    BindError,
>)
    ensures
        match r {
            Result::Ok(b) => b == file_given && (op@.body is None ==> !raw_given && !file_given)
                && !(raw_given && file_given),
            Result::Err(e) => (op@.body is None && (raw_given || file_given) && e.text()
                == "request does not accept a body"@) || (op@.body is Some && raw_given
                && file_given && e.text() == "use only one of --body or --body-file"@),
        },
{
    match &op.body {
        Option::None => {
            if raw_given || file_given {
                Err(BindError::BodyNotAccepted)
            } else {
                Ok(false)
            }
        },
        Option::Some(_) => {
            if raw_given && file_given {
                Err(BindError::BodyConflict)
            } else {
                Ok(file_given)
            }
        },
    }
}

/// The body an invocation sends, if any: a raw body or a body file
/// verbatim once it parses, else an object assembled from the bound
/// input fields of an object-shaped body; or the wording of the
/// failure, among them a required body that nothing supplied.
pub open spec fn built_body(
    op: OpV,
    raw: Option<Seq<char>>,
    file: Option<Seq<char>>,
    m: Seq<(Seq<char>, Seq<Seq<char>>)>,
) -> Result<Option<JVal>, Seq<char>> {
    match op.body {
        Option::None => if raw is Some || file is Some {
            Result::Err("request does not accept a body"@)
        } else {
            Result::Ok(Option::None)
        },
        Option::Some(b) => if raw is Some && file is Some {
            Result::Err("use only one of --body or --body-file"@)
        } else if raw is Some {
            match json_of_text(raw->Some_0) {
                Option::Some(v) => Result::Ok(Option::Some(v)),
                Option::None => Result::Err("invalid JSON body"@),
            }
        } else if file is Some {
            match json_of_text(file->Some_0) {
                Option::Some(v) => Result::Ok(Option::Some(v)),
                Option::None => Result::Err("invalid JSON body file"@),
            }
        } else if b.schema.kind == "object"@ && b.input_fields.len() > 0 {
            match body_inputs(b, m) {
                Result::Err(t) => Result::Err(t),
                Result::Ok(pairs) => if pairs.len() > 0 {
                    Result::Ok(Option::Some(JVal::Obj(pairs)))
                } else if b.required {
                    Result::Err("request body required"@)
                } else {
                    Result::Ok(Option::None)
                },
            }
        } else if b.required {
            Result::Err("request body required"@)
        } else {
            Result::Ok(Option::None)
        },
    }
}

/// Builds the request body of one invocation.  `file_text` holds the
/// contents of the body file where [`wants_body_file`] asked for it.
pub fn build_body(
    op: &Operation,
    raw_body: Option<&String>,
    file_text: Option<&String>,
    args: &ArgValues,
) -> (r: Result<Option<Json>, BindError>)
    ensures
        ({
            let rawv = match raw_body {
                Option::Some(s) => Option::Some(s@),
                Option::None => Option::<Seq<char>>::None,
            };
            let filev = match file_text {
                Option::Some(s) => Option::Some(s@),
                Option::None => Option::<Seq<char>>::None,
            };
            match r {
                Result::Ok(out) => built_body(op@, rawv, filev, args@) == Result::<
                    Option<JVal>,
                    Seq<char>,
                >::Ok(match out {
                    Option::Some(j) => Option::Some(j@),
                    Option::None => Option::None,
                }),
                Result::Err(e) => built_body(op@, rawv, filev, args@) == Result::<
                    Option<JVal>,
                    Seq<char>,
                >::Err(e.text()),
            }
        }),
{
    let body: &BodyDef = match &op.body {
        Option::None => {
            if raw_body.is_some() || file_text.is_some() {
                return Err(BindError::BodyNotAccepted);
            }
            return Ok(None);
        },
        Option::Some(b) => b,
    };
    if raw_body.is_some() && file_text.is_some() {
        return Err(BindError::BodyConflict);
    }
    match raw_body {
        Option::Some(raw) => {
            match crate::json::parse_json_text(raw.as_str()) {
                Some(j) => {
                    return Ok(Some(j));
                },
                None => {
                    return Err(BindError::InvalidJsonBody);
                },
            }
        },
        Option::None => {},
    }
    match file_text {
        Option::Some(contents) => {
            match crate::json::parse_json_text(contents.as_str()) {
                Some(j) => {
                    return Ok(Some(j));
                },
                None => {
                    return Err(BindError::InvalidJsonBodyFile);
                },
            }
        },
        Option::None => {},
    }
    if str_eq(body.schema.kind.as_str(), "object") && body.input_fields.len() > 0 {
        match build_body_from_inputs(body, args) {
            Ok(Some(j)) => {
                return Ok(Some(j));
            },
            Ok(None) => {},
            Err(e) => {
                return Err(e);
            },
        }
    }
    if body.required {
        return Err(BindError::BodyRequired);
    }
    Ok(None)
}

} // verus!
