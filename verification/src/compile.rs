//! The compiler: from an API description document, modelled as a
//! [`Json`] value, to the normalized command tree.

use vstd::prelude::*;
use vstd::string::{StrSliceExecFns, StringExecFns};
use crate::errors::BuildError;
use crate::json::{jget, jpairs_of, jvals_of, lemma_jpairs_of, lemma_jvals_of, obj_get, JVal, Json};
use crate::text::{has_prefix, kebab, lex_le, lex_lt, str_eq, str_le, starts_with, to_kebab};
use crate::tree::{
    BodyDef, BodyV, CommandTree, FieldV, InputField, Operation, OpV, ParamDef, ParamV, Resource,
    ResourceV, SchemaDef, SchemaV, TreeV,
};

verus! {

broadcast use vstd::std_specs::vec::axiom_vec_index_decreases;

/// How far the schema normalizer follows references and composites
/// before it degrades to the opaque kind: the guard against reference
/// cycles in the document.
pub const SCHEMA_DEPTH: u32 = 64;

// ----- small readers over the document -----

pub open spec fn as_str_opt(v: Option<JVal>) -> Option<Seq<char>> {
    match v {
        Option::Some(JVal::Str(s)) => Option::Some(s),
        _ => Option::None,
    }
}

pub open spec fn arr_or_empty(v: Option<JVal>) -> Seq<JVal> {
    match v {
        Option::Some(JVal::Arr(a)) => a,
        _ => Seq::empty(),
    }
}

pub open spec fn bool_or_false(v: Option<JVal>) -> bool {
    match v {
        Option::Some(JVal::Bool(b)) => b,
        _ => false,
    }
}

// ----- reference resolution -----

/// The index of the first `c` in `s`, or the length where none occurs.
pub open spec fn char_index(s: Seq<char>, c: char) -> int
    decreases s.len(),
{
    if s.len() == 0 {
        0
    } else if s[0] == c {
        0
    } else {
        1 + char_index(s.drop_first(), c)
    }
}

proof fn lemma_char_index(s: Seq<char>, c: char)
    ensures
        0 <= char_index(s, c) <= s.len(),
        char_index(s, c) < s.len() ==> s[char_index(s, c)] == c,
        forall|j: int| 0 <= j < char_index(s, c) ==> s[j] != c,
    decreases s.len(),
{
    if s.len() > 0 && s[0] != c {
        lemma_char_index(s.drop_first(), c);
        assert forall|j: int| 0 <= j < char_index(s, c) implies s[j] != c by {
            if j > 0 {
                assert(s.drop_first()[j - 1] != c);
                assert(s[j] == s.drop_first()[j - 1]);
            }
        }
    }
}

/// The first index at or past which `c` stands, pinned by its
/// characterization.
proof fn lemma_char_index_is(s: Seq<char>, c: char, k: int)
    requires
        0 <= k <= s.len(),
        forall|j: int| 0 <= j < k ==> s[j] != c,
        k == s.len() || s[k] == c,
    ensures
        char_index(s, c) == k,
    decreases k,
{
    if k > 0 {
        assert(s[0] != c);
        lemma_char_index_is(s.drop_first(), c, k - 1);
    } else {
        if s.len() > 0 && s[0] != c {
            lemma_char_index(s.drop_first(), c);
        }
    }
}

/// The segments of `s` between occurrences of `c`.
pub open spec fn split_on(s: Seq<char>, c: char) -> Seq<Seq<char>>
    decreases s.len(),
    via split_on_dec
{
    let i = char_index(s, c);
    if i >= s.len() {
        seq![s]
    } else {
        seq![s.subrange(0, i)] + split_on(s.skip(i + 1), c)
    }
}

#[via_fn]
proof fn split_on_dec(s: Seq<char>, c: char) {
    lemma_char_index(s, c);
}

/// `s` with every leading repetition of `p` removed.
pub open spec fn drop_prefix_rep(s: Seq<char>, p: Seq<char>) -> Seq<char>
    decreases s.len(),
{
    if p.len() > 0 && has_prefix(s, p) {
        drop_prefix_rep(s.skip(p.len() as int), p)
    } else {
        s
    }
}

/// The node a local pointer reference reaches, walking the document one
/// segment at a time.
pub open spec fn ref_target(parts: Seq<Seq<char>>, cur: JVal) -> Option<JVal>
    decreases parts.len(),
{
    if parts.len() == 0 {
        Option::Some(cur)
    } else {
        match jget(cur, parts[0]) {
            Option::Some(n) => ref_target(parts.drop_first(), n),
            Option::None => Option::None,
        }
    }
}

/// What a node resolves to: a node carrying a local `$ref` is replaced
/// by the node the reference reaches; an unresolvable or non-local
/// reference leaves the node as it stands.
pub open spec fn resolved(doc: JVal, node: JVal) -> JVal {
    match as_str_opt(jget(node, "$ref"@)) {
        Option::Some(r) => if has_prefix(r, "#/"@) {
            match ref_target(split_on(drop_prefix_rep(r, "#/"@), '/'), doc) {
                Option::Some(v) => v,
                Option::None => node,
            }
        } else {
            node
        },
        Option::None => node,
    }
}

/// Splits a text at `/`.
#[verifier::loop_isolation(false)]
fn split_slash(s: &str) -> (r: Vec<String>)
    ensures
        crate::text::texts_of(r) == split_on(s@, '/'),
{
    let len = s.unicode_len();
    let mut out: Vec<String> = Vec::new();
    let mut p: usize = 0;
    proof {
        assert(s@.skip(0) =~= s@);
        assert(Seq::<Seq<char>>::empty() + split_on(s@, '/') =~= split_on(s@, '/'));
    }
    loop
        invariant
            p <= len,
            len == s@.len(),
            split_on(s@, '/') == crate::text::texts_of(out) + split_on(s@.skip(p as int), '/'),
        decreases len - p,
    {
        let ghost tail: Seq<char> = s@.skip(p as int);
        let mut j = p;
        while j < len && s.get_char(j) != '/'
            invariant
                p <= j <= len,
                forall|k: int| p <= k < j ==> s@[k] != '/',
            decreases len - j,
        {
            j += 1;
        }
        proof {
            assert(forall|k: int| 0 <= k < j - p ==> tail[k] != '/');
            if j < len {
                assert(tail[j - p] == s@[j as int]);
            }
            lemma_char_index_is(tail, '/', j - p);
        }
        let piece = String::from_str(s.substring_char(p, j));
        proof {
            assert(piece@ =~= tail.subrange(0, j - p));
        }
        let ghost prevt = crate::text::texts_of(out);
        out.push(piece);
        proof {
            assert(crate::text::texts_of(out) =~~= prevt + seq![tail.subrange(0, j - p)]);
        }
        if j >= len {
            proof {
                assert(tail.subrange(0, j - p) =~= tail);
                assert(split_on(tail, '/') == seq![tail]);
                assert(prevt + seq![tail] =~~= crate::text::texts_of(out));
                assert(split_on(s@, '/') =~~= crate::text::texts_of(out));
            }
            return out;
        }
        proof {
            assert(split_on(tail, '/') == seq![tail.subrange(0, j - p)] + split_on(
                tail.skip(j - p + 1),
                '/',
            ));
            assert(tail.skip(j - p + 1) =~= s@.skip(j + 1));
            assert(prevt + (seq![tail.subrange(0, j - p)] + split_on(s@.skip(j + 1), '/')) =~~= (
            prevt + seq![tail.subrange(0, j - p)]) + split_on(s@.skip(j + 1), '/'));
        }
        p = j + 1;
    }
}

/// Walks the document along the reference's segments.
#[verifier::loop_isolation(false)]
fn walk_parts<'a>(doc: &'a Json, parts: &Vec<String>) -> (r: Option<&'a Json>)
    ensures
        match r {
            Option::Some(v) => ref_target(crate::text::texts_of(*parts), doc@) == Option::Some(
                v@,
            ),
            Option::None => ref_target(crate::text::texts_of(*parts), doc@) is None,
        },
{
    let ghost ps: Seq<Seq<char>> = crate::text::texts_of(*parts);
    let n = parts.len();
    let mut cur: &Json = doc;
    let mut i: usize = 0;
    proof {
        assert(ps.skip(0) =~= ps);
    }
    while i < n
        invariant
            n == parts@.len(),
            i <= n,
            ps == crate::text::texts_of(*parts),
            ref_target(ps, doc@) == ref_target(ps.skip(i as int), cur@),
        decreases n - i,
    {
        let ghost rest: Seq<Seq<char>> = ps.skip(i as int);
        proof {
            assert(rest[0] == ps[i as int]);
            assert(rest.drop_first() =~= ps.skip(i + 1));
        }
        match obj_get(cur, parts[i].as_str()) {
            Some(v) => {
                cur = v;
            },
            None => {
                return None;
            },
        }
        i += 1;
    }
    proof {
        assert(ps.skip(n as int).len() == 0);
    }
    Some(cur)
}

/// Resolves one node of the document: follows a local `$ref`, leaves
/// everything else as it stands.
pub fn resolve_node<'a>(doc: &'a Json, node: &'a Json) -> (r: &'a Json)
    ensures
        r@ == resolved(doc@, node@),
{
    let reference: &String = match obj_get(node, "$ref") {
        Some(v) => match v {
            Json::Str(s) => s,
            _ => {
                return node;
            },
        },
        None => {
            return node;
        },
    };
    if !starts_with(reference.as_str(), "#/") {
        return node;
    }
    let rlen = reference.as_str().unicode_len();
    let mut off: usize = 0;
    proof {
        assert(reference@.skip(0) =~= reference@);
    }
    while crate::request::matches_at(reference.as_str(), "#/", off)
        invariant
            off <= rlen,
            rlen == reference@.len(),
            drop_prefix_rep(reference@, "#/"@) == drop_prefix_rep(
                reference@.skip(off as int),
                "#/"@,
            ),
        decreases rlen - off,
    {
        proof {
            let tail = reference@.skip(off as int);
            assert(tail.subrange(0, "#/"@.len() as int) =~= reference@.subrange(
                off as int,
                off + "#/"@.len(),
            ));
            assert(has_prefix(tail, "#/"@));
            assert(tail.skip("#/"@.len() as int) =~= reference@.skip(off + "#/"@.len()));
            reveal_strlit("#/");
        }
        off += 2;
    }
    proof {
        let tail = reference@.skip(off as int);
        if "#/"@.len() <= tail.len() {
            assert(tail.subrange(0, "#/"@.len() as int) =~= reference@.subrange(
                off as int,
                off + "#/"@.len(),
            ));
        }
        assert(!has_prefix(tail, "#/"@));
    }
    let stripped = String::from_str(reference.as_str().substring_char(off, rlen));
    proof {
        assert(stripped@ =~= reference@.skip(off as int));
    }
    let parts = split_slash(stripped.as_str());
    match walk_parts(doc, &parts) {
        Some(v) => v,
        None => node,
    }
}

// ----- schema normalization -----

/// The first branch of a composite list under `key`, if the node holds
/// a non-empty one.
pub open spec fn first_branch(s: JVal, key: Seq<char>) -> Option<JVal> {
    let items = arr_or_empty(jget(s, key));
    if items.len() > 0 {
        Option::Some(items[0])
    } else {
        Option::None
    }
}

/// The normalized shape of a schema node: references followed,
/// composites collapsed to their first branch, an explicit `type`
/// winning, and `properties` or `items` inferring a type where none is
/// declared.  The depth bound guards against reference cycles; past it
/// the shape degrades to the opaque kind.
pub open spec fn schema_of(doc: JVal, node: JVal, depth: int) -> SchemaV
    decreases depth,
{
    if depth <= 0 {
        SchemaV { kind: "unknown"@, item: Option::None }
    } else {
        let s = resolved(doc, node);
        match first_branch(s, "allOf"@) {
            Option::Some(b) => schema_of(doc, b, depth - 1),
            Option::None => match first_branch(s, "oneOf"@) {
                Option::Some(b) => schema_of(doc, b, depth - 1),
                Option::None => match as_str_opt(jget(s, "type"@)) {
                    Option::Some(t) => if t == "object"@ {
                        SchemaV { kind: "object"@, item: Option::None }
                    } else if t == "array"@ {
                        SchemaV {
                            kind: "array"@,
                            item: match jget(s, "items"@) {
                                Option::Some(it) => Option::Some(
                                    Box::new(schema_of(doc, it, depth - 1)),
                                ),
                                Option::None => Option::None,
                            },
                        }
                    } else {
                        SchemaV { kind: t, item: Option::None }
                    },
                    Option::None => if jget(s, "properties"@) is Some {
                        SchemaV { kind: "object"@, item: Option::None }
                    } else {
                        match jget(s, "items"@) {
                            Option::Some(it) => SchemaV {
                                kind: "array"@,
                                item: Option::Some(Box::new(schema_of(doc, it, depth - 1))),
                            },
                            Option::None => SchemaV { kind: "unknown"@, item: Option::None },
                        }
                    },
                },
            },
        }
    }
}

/// Normalizes a schema node into its shape.
pub fn schema_from(doc: &Json, node: &Json, depth: u32) -> (r: SchemaDef)
    ensures
        r@ == schema_of(doc@, node@, depth as int),
    decreases depth,
{
    if depth == 0 {
        return SchemaDef { kind: String::from_str("unknown"), item: None };
    }
    let s = resolve_node(doc, node);
    match obj_get(s, "allOf") {
        Some(v) => {
            match v {
                Json::Arr(items) => {
                    if items.len() > 0 {
                        proof {
                            lemma_jvals_of(*items, 0);
                            assert(first_branch(s@, "allOf"@) == Option::Some(
                                crate::json::jval_of(items@[0]),
                            ));
                        }
                        return schema_from(doc, &items[0], depth - 1);
                    }
                },
                _ => {},
            }
        },
        None => {},
    }
    proof {
        assert(first_branch(s@, "allOf"@) is None);
    }
    match obj_get(s, "oneOf") {
        Some(v) => {
            match v {
                Json::Arr(items) => {
                    if items.len() > 0 {
                        proof {
                            lemma_jvals_of(*items, 0);
                            assert(first_branch(s@, "oneOf"@) == Option::Some(
                                crate::json::jval_of(items@[0]),
                            ));
                        }
                        return schema_from(doc, &items[0], depth - 1);
                    }
                },
                _ => {},
            }
        },
        None => {},
    }
    proof {
        assert(first_branch(s@, "oneOf"@) is None);
    }
    match obj_get(s, "type") {
        Some(tv) => {
            match tv {
                Json::Str(t) => {
                    if str_eq(t.as_str(), "object") {
                        return SchemaDef { kind: String::from_str("object"), item: None };
                    }
                    if str_eq(t.as_str(), "array") {
                        let item: Option<Box<SchemaDef>> = match obj_get(s, "items") {
                            Some(it) => Some(Box::new(schema_from(doc, it, depth - 1))),
                            None => None,
                        };
                        return SchemaDef { kind: String::from_str("array"), item };
                    }
                    return SchemaDef { kind: t.clone(), item: None };
                },
                _ => {},
            }
        },
        None => {},
    }
    proof {
        assert(as_str_opt(jget(s@, "type"@)) is None);
    }
    if obj_get(s, "properties").is_some() {
        return SchemaDef { kind: String::from_str("object"), item: None };
    }
    match obj_get(s, "items") {
        Some(it) => SchemaDef {
            kind: String::from_str("array"),
            item: Some(Box::new(schema_from(doc, it, depth - 1))),
        },
        None => SchemaDef { kind: String::from_str("unknown"), item: None },
    }
}

// ----- parameters -----

/// The parameter a document node declares, if it names one: the name
/// must be a non-empty string, the location defaults to `query`, the
/// required mark to false, and the schema is normalized.
pub open spec fn param_of(doc: JVal, node: JVal) -> Option<ParamV> {
    let p = resolved(doc, node);
    let name = match as_str_opt(jget(p, "name"@)) {
        Option::Some(s) => s,
        Option::None => Seq::empty(),
    };
    if name.len() == 0 {
        Option::None
    } else {
        let location = match as_str_opt(jget(p, "in"@)) {
            Option::Some(s) => s,
            Option::None => "query"@,
        };
        let schema_node = match jget(p, "schema"@) {
            Option::Some(v) => v,
            Option::None => JVal::Null,
        };
        Option::Some(
            ParamV {
                name,
                flag: kebab(name),
                location,
                required: bool_or_false(jget(p, "required"@)),
                schema: schema_of(doc, schema_node, SCHEMA_DEPTH as int),
            },
        )
    }
}

/// Reads one parameter declaration.
pub fn parse_param(doc: &Json, node: &Json) -> (r: Option<ParamDef>)
    ensures
        match r {
            Option::Some(p) => param_of(doc@, node@) == Option::Some(p@),
            Option::None => param_of(doc@, node@) is None,
        },
{
    let p = resolve_node(doc, node);
    let name: &String = match obj_get(p, "name") {
        Some(v) => match v {
            Json::Str(s) => s,
            _ => {
                return None;
            },
        },
        _ => {
            return None;
        },
    };
    if name.as_str().unicode_len() == 0 {
        return None;
    }
    let location: String = match obj_get(p, "in") {
        Some(v) => match v {
            Json::Str(s) => s.clone(),
            _ => String::from_str("query"),
        },
        _ => String::from_str("query"),
    };
    let required: bool = match obj_get(p, "required") {
        Some(v) => match v {
            Json::Bool(b) => *b,
            _ => false,
        },
        _ => false,
    };
    let null_node = Json::Null;
    let schema: SchemaDef = match obj_get(p, "schema") {
        Some(v) => schema_from(doc, v, SCHEMA_DEPTH),
        None => schema_from(doc, &null_node, SCHEMA_DEPTH),
    };
    Some(
        ParamDef { name: name.clone(), flag: to_kebab(name.as_str()), location, required, schema },
    )
}

/// The view of a parameter list.
pub open spec fn params_view(v: Vec<ParamDef>) -> Seq<ParamV> {
    Seq::new(v@.len(), |i: int| v@[i]@)
}

/// Whether `a`'s key, location then name, comes strictly before `b`'s.
pub open spec fn param_key_lt(a: ParamV, b: ParamV) -> bool {
    lex_lt(a.location, b.location) || (a.location == b.location && lex_lt(a.name, b.name))
}

/// A parameter list with `p` merged in, keyed by location and name: an
/// entry under the same key is replaced in place, a new key enters at
/// its place in the sort order.
pub open spec fn insert_param(s: Seq<ParamV>, p: ParamV) -> Seq<ParamV>
    decreases s.len(),
{
    if s.len() == 0 {
        seq![p]
    } else if p.location == s[0].location && p.name == s[0].name {
        seq![p] + s.drop_first()
    } else if param_key_lt(p, s[0]) {
        seq![p] + s
    } else {
        seq![s[0]] + insert_param(s.drop_first(), p)
    }
}

proof fn lemma_insert_param_skip(s: Seq<ParamV>, p: ParamV, i: int)
    requires
        0 <= i <= s.len(),
        forall|j: int|
            0 <= j < i ==> !(param_key_lt(p, #[trigger] s[j]) || (p.location == s[j].location
                && p.name == s[j].name)),
    ensures
        insert_param(s, p) == s.subrange(0, i) + insert_param(s.subrange(i, s.len() as int), p),
    decreases i,
{
    if i == 0 {
        assert(s.subrange(0, s.len() as int) =~= s);
        assert(s.subrange(0, 0) + insert_param(s, p) =~= insert_param(s, p));
    } else {
        let t = s.drop_first();
        lemma_insert_param_skip(t, p, i - 1);
        assert(t.subrange(i - 1, t.len() as int) =~= s.subrange(i, s.len() as int));
        assert(seq![s[0]] + (t.subrange(0, i - 1) + insert_param(
            s.subrange(i, s.len() as int),
            p,
        )) =~= s.subrange(0, i) + insert_param(s.subrange(i, s.len() as int), p));
    }
}

/// Merges `p` into a parameter list sorted by key.
#[verifier::loop_isolation(false)]
fn insert_param_sorted(params: &mut Vec<ParamDef>, p: ParamDef)
    ensures
        params_view(*final(params)) == insert_param(params_view(*old(params)), p@),
{
    let ghost ps: Seq<ParamV> = params_view(*old(params));
    let n = params.len();
    let mut idx: usize = 0;
    while idx < n && !key_le(&p, &params[idx])
        invariant
            n == params@.len(),
            idx <= n,
            forall|j: int|
                0 <= j < idx ==> !(param_key_lt(p@, #[trigger] ps[j]) || (p@.location
                    == ps[j].location && p@.name == ps[j].name)),
        decreases n - idx,
    {
        idx += 1;
    }
    proof {
        lemma_insert_param_skip(ps, p@, idx as int);
    }
    let ghost tail = ps.subrange(idx as int, n as int);
    if idx < n && str_eq(p.location.as_str(), params[idx].location.as_str()) && str_eq(
        p.name.as_str(),
        params[idx].name.as_str(),
    ) {
        proof {
            assert(tail[0] == ps[idx as int]);
            assert(insert_param(tail, p@) == seq![p@] + tail.drop_first());
        }
        params[idx] = p;
        proof {
            assert(params_view(*params) =~~= ps.subrange(0, idx as int) + (seq![p@]
                + tail.drop_first()));
        }
    } else {
        proof {
            if idx < n {
                assert(tail[0] == ps[idx as int]);
                assert(param_key_lt(p@, ps[idx as int]) || (p@.location == ps[
                    idx as int
                ].location && p@.name == ps[idx as int].name));
                assert(insert_param(tail, p@) == seq![p@] + tail);
            } else {
                assert(tail.len() == 0);
                assert(insert_param(tail, p@) == seq![p@]);
            }
        }
        params.insert(idx, p);
        proof {
            assert(params_view(*params) =~~= ps.subrange(0, idx as int) + insert_param(
                tail,
                p@,
            ));
        }
    }
}

/// Whether `p`'s key comes no later than `q`'s.
fn key_le(p: &ParamDef, q: &ParamDef) -> (r: bool)
    ensures
        r == (param_key_lt(p@, q@) || (p@.location == q@.location && p@.name == q@.name)),
{
    proof {
        crate::text::lemma_lex_le_refl(p@.name);
    }
    let loc_eq = str_eq(p.location.as_str(), q.location.as_str());
    if loc_eq {
        str_le(p.name.as_str(), q.name.as_str())
    } else {
        str_le(p.location.as_str(), q.location.as_str())
    }
}

/// The parameter lists of both scopes merged into one map, shared
/// entries first, later entries overriding a shared key wholesale.
pub open spec fn merge_fold(doc: JVal, items: Seq<JVal>, i: int, acc: Seq<ParamV>) -> Seq<ParamV>
    decreases items.len() - i,
{
    if i < 0 || i >= items.len() {
        acc
    } else {
        match param_of(doc, items[i]) {
            Option::Some(p) => merge_fold(doc, items, i + 1, insert_param(acc, p)),
            Option::None => merge_fold(doc, items, i + 1, acc),
        }
    }
}

/// The merged parameters of a path item and one of its operations.
pub open spec fn merged_params(doc: JVal, shared: Seq<JVal>, op_params: Seq<JVal>) -> Seq<
    ParamV,
> {
    merge_fold(doc, op_params, 0, merge_fold(doc, shared, 0, Seq::empty()))
}

/// Folds one scope's declarations into the accumulating map.
#[verifier::loop_isolation(false)]
fn merge_scope(doc: &Json, items: &Vec<Json>, acc: &mut Vec<ParamDef>)
    ensures
        params_view(*final(acc)) == merge_fold(
            doc@,
            jvals_of(*items, 0),
            0,
            params_view(*old(acc)),
        ),
{
    let ghost itemsv: Seq<JVal> = jvals_of(*items, 0);
    proof {
        lemma_jvals_of(*items, 0);
    }
    let n = items.len();
    let mut i: usize = 0;
    while i < n
        invariant
            n == items@.len(),
            itemsv == jvals_of(*items, 0),
            itemsv.len() == n,
            forall|k: int| 0 <= k < n ==> #[trigger] itemsv[k] == crate::json::jval_of(items@[k]),
            i <= n,
            merge_fold(doc@, itemsv, 0, params_view(*old(acc))) == merge_fold(
                doc@,
                itemsv,
                i as int,
                params_view(*acc),
            ),
        decreases n - i,
    {
        match parse_param(doc, &items[i]) {
            Some(p) => {
                insert_param_sorted(acc, p);
            },
            None => {},
        }
        i += 1;
    }
}

/// Merges the shared-scope and operation-scope parameter declarations
/// into one deduplicated list in key order, the operation's entry
/// overriding a shared key wholesale.
pub fn merge_params(doc: &Json, shared: &Vec<Json>, op_params: &Vec<Json>) -> (r: Vec<ParamDef>)
    ensures
        params_view(r) == merged_params(doc@, jvals_of(*shared, 0), jvals_of(*op_params, 0)),
{
    let mut acc: Vec<ParamDef> = Vec::new();
    proof {
        assert(params_view(acc) =~= Seq::<ParamV>::empty());
    }
    merge_scope(doc, shared, &mut acc);
    merge_scope(doc, op_params, &mut acc);
    acc
}

// ----- input fields of an object-shaped body -----

/// Whether a list of JSON values holds the string `name`.
pub open spec fn contains_str(rs: Seq<JVal>, name: Seq<char>) -> bool
    decreases rs.len(),
{
    if rs.len() == 0 {
        false
    } else if rs[0] == JVal::Str(name) {
        true
    } else {
        contains_str(rs.drop_first(), name)
    }
}

proof fn lemma_contains_str_skip(rs: Seq<JVal>, name: Seq<char>, i: int)
    requires
        0 <= i <= rs.len(),
        forall|j: int| 0 <= j < i ==> #[trigger] rs[j] != JVal::Str(name),
    ensures
        contains_str(rs, name) == contains_str(rs.subrange(i, rs.len() as int), name),
    decreases i,
{
    if i == 0 {
        assert(rs.subrange(0, rs.len() as int) =~= rs);
    } else {
        lemma_contains_str_skip(rs.drop_first(), name, i - 1);
        assert(rs.drop_first().subrange(i - 1, rs.drop_first().len() as int) =~= rs.subrange(
            i,
            rs.len() as int,
        ));
    }
}

/// Whether the required-property list holds `name`.
#[verifier::loop_isolation(false)]
fn list_contains_str(rs: &Vec<Json>, name: &str) -> (r: bool)
    ensures
        r == contains_str(jvals_of(*rs, 0), name@),
{
    let ghost rsv: Seq<JVal> = jvals_of(*rs, 0);
    proof {
        lemma_jvals_of(*rs, 0);
    }
    let n = rs.len();
    let mut i: usize = 0;
    while i < n
        invariant
            n == rs@.len(),
            rsv == jvals_of(*rs, 0),
            rsv.len() == n,
            forall|k: int| 0 <= k < n ==> #[trigger] rsv[k] == crate::json::jval_of(rs@[k]),
            i <= n,
            forall|j: int| 0 <= j < i ==> #[trigger] rsv[j] != JVal::Str(name@),
        decreases n - i,
    {
        match &rs[i] {
            Json::Str(s) => {
                if str_eq(s.as_str(), name) {
                    proof {
                        lemma_contains_str_skip(rsv, name@, i as int);
                        assert(rsv.subrange(i as int, n as int)[0] == rsv[i as int]);
                    }
                    return true;
                }
            },
            _ => {},
        }
        i += 1;
    }
    proof {
        lemma_contains_str_skip(rsv, name@, n as int);
        assert(rsv.subrange(n as int, n as int).len() == 0);
    }
    false
}

/// The view of an input-field list.
pub open spec fn fields_view(v: Vec<InputField>) -> Seq<FieldV> {
    Seq::new(v@.len(), |i: int| v@[i]@)
}

/// A field list with `f` placed at its position in name order, after
/// any field of the same name.
pub open spec fn insert_field(s: Seq<FieldV>, f: FieldV) -> Seq<FieldV>
    decreases s.len(),
{
    if s.len() == 0 {
        seq![f]
    } else if lex_le(s[0].name, f.name) {
        seq![s[0]] + insert_field(s.drop_first(), f)
    } else {
        seq![f] + s
    }
}

proof fn lemma_insert_field_skip(s: Seq<FieldV>, f: FieldV, i: int)
    requires
        0 <= i <= s.len(),
        forall|j: int| 0 <= j < i ==> lex_le((#[trigger] s[j]).name, f.name),
    ensures
        insert_field(s, f) == s.subrange(0, i) + insert_field(s.subrange(i, s.len() as int), f),
    decreases i,
{
    if i == 0 {
        assert(s.subrange(0, s.len() as int) =~= s);
        assert(s.subrange(0, 0) + insert_field(s, f) =~= insert_field(s, f));
    } else {
        let t = s.drop_first();
        lemma_insert_field_skip(t, f, i - 1);
        assert(t.subrange(i - 1, t.len() as int) =~= s.subrange(i, s.len() as int));
        assert(seq![s[0]] + (t.subrange(0, i - 1) + insert_field(
            s.subrange(i, s.len() as int),
            f,
        )) =~= s.subrange(0, i) + insert_field(s.subrange(i, s.len() as int), f));
    }
}

/// Places `f` into a field list sorted by name.
#[verifier::loop_isolation(false)]
fn insert_field_sorted(fields: &mut Vec<InputField>, f: InputField)
    ensures
        fields_view(*final(fields)) == insert_field(fields_view(*old(fields)), f@),
{
    let ghost fs: Seq<FieldV> = fields_view(*old(fields));
    let n = fields.len();
    let mut idx: usize = 0;
    while idx < n && str_le(fields[idx].name.as_str(), f.name.as_str())
        invariant
            n == fields@.len(),
            idx <= n,
            forall|j: int| 0 <= j < idx ==> lex_le((#[trigger] fs[j]).name, f@.name),
        decreases n - idx,
    {
        idx += 1;
    }
    proof {
        lemma_insert_field_skip(fs, f@, idx as int);
    }
    let ghost tail = fs.subrange(idx as int, n as int);
    proof {
        if idx < n {
            assert(tail[0] == fs[idx as int]);
            assert(insert_field(tail, f@) == seq![f@] + tail);
        } else {
            assert(tail.len() == 0);
            assert(insert_field(tail, f@) == seq![f@]);
        }
    }
    fields.insert(idx, f);
    proof {
        assert(fields_view(*fields) =~~= fs.subrange(0, idx as int) + insert_field(tail, f@));
    }
}

/// One property of an object schema as an input field: the flag carries
/// the `input-` prefix, the required mark comes from the
/// required-property list.
pub open spec fn field_of(doc: JVal, name: Seq<char>, prop: JVal, req: Seq<JVal>) -> FieldV {
    FieldV {
        name,
        flag: "input-"@ + kebab(name),
        required: contains_str(req, name),
        schema: schema_of(doc, prop, SCHEMA_DEPTH as int),
    }
}

pub open spec fn fields_fold(
    doc: JVal,
    props: Seq<(Seq<char>, JVal)>,
    req: Seq<JVal>,
    i: int,
    acc: Seq<FieldV>,
) -> Seq<FieldV>
    decreases props.len() - i,
{
    if i < 0 || i >= props.len() {
        acc
    } else {
        fields_fold(
            doc,
            props,
            req,
            i + 1,
            insert_field(acc, field_of(doc, props[i].0, props[i].1, req)),
        )
    }
}

/// The input fields of an object-shaped body schema: one per declared
/// property, sorted by property name.
pub open spec fn fields_of(doc: JVal, schema_node: JVal) -> Seq<FieldV> {
    let s = resolved(doc, schema_node);
    match jget(s, "properties"@) {
        Option::Some(p) => match p {
            JVal::Obj(props) => fields_fold(
                doc,
                props,
                arr_or_empty(jget(s, "required"@)),
                0,
                Seq::empty(),
            ),
            _ => Seq::empty(),
        },
        Option::None => Seq::empty(),
    }
}

/// Expands an object schema's properties into input fields.
#[verifier::loop_isolation(false)]
pub fn input_fields_from_schema(doc: &Json, schema_node: &Json) -> (r: Vec<InputField>)
    ensures
        fields_view(r) == fields_of(doc@, schema_node@),
{
    let s = resolve_node(doc, schema_node);
    let mut out: Vec<InputField> = Vec::new();
    proof {
        assert(fields_view(out) =~= Seq::<FieldV>::empty());
    }
    let props: &Vec<(String, Json)> = match obj_get(s, "properties") {
        Some(p) => match p {
            Json::Obj(props) => props,
            _ => {
                return out;
            },
        },
        None => {
            return out;
        },
    };
    let empty_req: Vec<Json> = Vec::new();
    let req: &Vec<Json> = match obj_get(s, "required") {
        Some(v) => match v {
            Json::Arr(rs) => rs,
            _ => &empty_req,
        },
        _ => &empty_req,
    };
    let ghost reqv: Seq<JVal> = jvals_of(*req, 0);
    let ghost propsv: Seq<(Seq<char>, JVal)> = jpairs_of(*props, 0);
    proof {
        lemma_jpairs_of(*props, 0);
        lemma_jvals_of(*req, 0);
        if jvals_of(*req, 0).len() == 0 {
            assert(reqv =~= arr_or_empty(jget(resolved(doc@, schema_node@), "required"@)));
        }
    }
    let n = props.len();
    let mut i: usize = 0;
    while i < n
        invariant
            n == props@.len(),
            propsv == jpairs_of(*props, 0),
            propsv.len() == n,
            forall|k: int|
                0 <= k < n ==> #[trigger] propsv[k] == (
                    props@[k].0@,
                    crate::json::jval_of(props@[k].1),
                ),
            reqv == jvals_of(*req, 0),
            i <= n,
            fields_fold(doc@, propsv, reqv, 0, Seq::empty()) == fields_fold(
                doc@,
                propsv,
                reqv,
                i as int,
                fields_view(out),
            ),
        decreases n - i,
    {
        let name: &String = &props[i].0;
        let mut flag = String::from_str("input-");
        let kname = to_kebab(name.as_str());
        flag.append(kname.as_str());
        let required = list_contains_str(req, name.as_str());
        let schema = schema_from(doc, &props[i].1, SCHEMA_DEPTH);
        let field = InputField { name: name.clone(), flag, required, schema };
        proof {
            assert(field@ == field_of(doc@, propsv[i as int].0, propsv[i as int].1, reqv));
        }
        insert_field_sorted(&mut out, field);
        i += 1;
    }
    out
}

// ----- the request body -----

/// The body descriptor an operation's request-body node declares, if
/// any: the JSON content entry where one is declared, else the first
/// declared content entry; an object-shaped schema expands its
/// properties into input fields.
pub open spec fn body_of(doc: JVal, rbo: Option<JVal>) -> Option<BodyV> {
    match rbo {
        Option::None => Option::None,
        Option::Some(node) => {
            let b = resolved(doc, node);
            match jget(b, "content"@) {
                Option::Some(c) => match c {
                    JVal::Obj(content) => {
                        let entry = match crate::json::pairs_get(content, "application/json"@) {
                            Option::Some(v) => Option::Some(("application/json"@, v)),
                            Option::None => if content.len() > 0 {
                                Option::Some((content[0].0, content[0].1))
                            } else {
                                Option::None
                            },
                        };
                        match entry {
                            Option::None => Option::None,
                            Option::Some(ct_node) => {
                                let schema_node = match jget(ct_node.1, "schema"@) {
                                    Option::Some(v) => v,
                                    Option::None => JVal::Null,
                                };
                                let sv = schema_of(doc, schema_node, SCHEMA_DEPTH as int);
                                Option::Some(
                                    BodyV {
                                        required: bool_or_false(jget(b, "required"@)),
                                        content_type: ct_node.0,
                                        schema: sv,
                                        input_fields: if sv.kind == "object"@ {
                                            fields_of(doc, schema_node)
                                        } else {
                                            Seq::empty()
                                        },
                                    },
                                )
                            },
                        }
                    },
                    _ => Option::None,
                },
                Option::None => Option::None,
            }
        },
    }
}

/// Reads an operation's request-body declaration.
pub fn parse_request_body(doc: &Json, request_body: Option<&Json>) -> (r: Option<BodyDef>)
    ensures
        ({
            let rbo = match request_body {
                Option::Some(v) => Option::Some(v@),
                Option::None => Option::<JVal>::None,
            };
            match r {
                Option::Some(b) => body_of(doc@, rbo) == Option::Some(b@),
                Option::None => body_of(doc@, rbo) is None,
            }
        }),
{
    let node: &Json = match request_body {
        Some(v) => v,
        None => {
            return None;
        },
    };
    let b = resolve_node(doc, node);
    let required: bool = match obj_get(b, "required") {
        Some(v) => match v {
            Json::Bool(x) => *x,
            _ => false,
        },
        _ => false,
    };
    let content: &Json = match obj_get(b, "content") {
        Some(c) => c,
        None => {
            return None;
        },
    };
    let content_pairs: &Vec<(String, Json)> = match content {
        Json::Obj(pairs) => pairs,
        _ => {
            return None;
        },
    };
    let ghost contentv: Seq<(Seq<char>, JVal)> = jpairs_of(*content_pairs, 0);
    proof {
        lemma_jpairs_of(*content_pairs, 0);
    }
    let entry: (String, &Json) = match obj_get(content, "application/json") {
        Some(v) => (String::from_str("application/json"), v),
        None => {
            if content_pairs.len() > 0 {
                proof {
                    assert(contentv[0] == (
                        content_pairs@[0].0@,
                        crate::json::jval_of(content_pairs@[0].1),
                    ));
                }
                (content_pairs[0].0.clone(), &content_pairs[0].1)
            } else {
                return None;
            }
        },
    };
    let null_node = Json::Null;
    let schema_node: &Json = match obj_get(entry.1, "schema") {
        Some(v) => v,
        None => &null_node,
    };
    let schema = schema_from(doc, schema_node, SCHEMA_DEPTH);
    let input_fields: Vec<InputField> = if str_eq(schema.kind.as_str(), "object") {
        input_fields_from_schema(doc, schema_node)
    } else {
        Vec::new()
    };
    let body = BodyDef { required, content_type: entry.0, schema, input_fields };
    proof {
        assert(body@.input_fields =~= (match body_of(doc@, Option::Some(node@)) {
            Option::Some(bv) => bv.input_fields,
            Option::None => Seq::empty(),
        }));
        assert(body@ =~= body_of(doc@, Option::Some(node@))->Some_0);
    }
    Some(body)
}

// ----- the tree -----

pub open spec fn ops_view(v: Vec<Operation>) -> Seq<OpV> {
    Seq::new(v@.len(), |i: int| v@[i]@)
}

pub open spec fn rmap_view(v: Vec<(String, Vec<Operation>)>) -> Seq<(Seq<char>, Seq<OpV>)> {
    Seq::new(v@.len(), |i: int| (v@[i].0@, ops_view(v@[i].1)))
}

pub open spec fn resources_view(v: Vec<Resource>) -> Seq<ResourceV> {
    Seq::new(v@.len(), |i: int| v@[i]@)
}

/// The resource map with `o` appended under `name`: an existing
/// resource keeps its place and gains the operation, a new one enters
/// at its place in the sort order.
pub open spec fn add_op(
    m: Seq<(Seq<char>, Seq<OpV>)>,
    name: Seq<char>,
    o: OpV,
) -> Seq<(Seq<char>, Seq<OpV>)>
    decreases m.len(),
{
    if m.len() == 0 {
        seq![(name, seq![o])]
    } else if m[0].0 == name {
        seq![(name, m[0].1.push(o))] + m.drop_first()
    } else if lex_lt(name, m[0].0) {
        seq![(name, seq![o])] + m
    } else {
        seq![m[0]] + add_op(m.drop_first(), name, o)
    }
}

proof fn lemma_add_op_skip(m: Seq<(Seq<char>, Seq<OpV>)>, name: Seq<char>, o: OpV, i: int)
    requires
        0 <= i <= m.len(),
        forall|j: int| 0 <= j < i ==> !lex_le(name, (#[trigger] m[j]).0),
    ensures
        add_op(m, name, o) == m.subrange(0, i) + add_op(m.subrange(i, m.len() as int), name, o),
    decreases i,
{
    if i == 0 {
        assert(m.subrange(0, m.len() as int) =~= m);
        assert(m.subrange(0, 0) + add_op(m, name, o) =~= add_op(m, name, o));
    } else {
        assert(!lex_le(name, m[0].0));
        crate::text::lemma_lex_le_refl(name);
        assert(name != m[0].0);
        assert(!lex_lt(name, m[0].0));
        let t = m.drop_first();
        lemma_add_op_skip(t, name, o, i - 1);
        assert(t.subrange(i - 1, t.len() as int) =~= m.subrange(i, m.len() as int));
        assert(seq![m[0]] + (t.subrange(0, i - 1) + add_op(
            m.subrange(i, m.len() as int),
            name,
            o,
        )) =~= m.subrange(0, i) + add_op(m.subrange(i, m.len() as int), name, o));
    }
}

/// Appends one operation under its resource name.
#[verifier::loop_isolation(false)]
fn add_op_sorted(rmap: &mut Vec<(String, Vec<Operation>)>, name: String, op: Operation)
    ensures
        rmap_view(*final(rmap)) == add_op(rmap_view(*old(rmap)), name@, op@),
{
    let ghost mv: Seq<(Seq<char>, Seq<OpV>)> = rmap_view(*old(rmap));
    let n = rmap.len();
    let mut idx: usize = 0;
    while idx < n && !str_le(name.as_str(), rmap[idx].0.as_str())
        invariant
            n == rmap@.len(),
            idx <= n,
            forall|j: int| 0 <= j < idx ==> !lex_le(name@, (#[trigger] mv[j]).0),
        decreases n - idx,
    {
        idx += 1;
    }
    proof {
        lemma_add_op_skip(mv, name@, op@, idx as int);
    }
    let ghost tail = mv.subrange(idx as int, n as int);
    if idx < n && str_eq(name.as_str(), rmap[idx].0.as_str()) {
        proof {
            assert(tail[0] == mv[idx as int]);
            assert(add_op(tail, name@, op@) == seq![(name@, mv[idx as int].1.push(op@))]
                + tail.drop_first());
        }
        let mut entry = rmap.remove(idx);
        let ghost entry_ops = ops_view(entry.1);
        entry.1.push(op);
        proof {
            assert(ops_view(entry.1) =~~= entry_ops.push(op@));
        }
        rmap.insert(idx, (name, entry.1));
        proof {
            assert(rmap_view(*rmap) =~~= mv.subrange(0, idx as int) + add_op(tail, name@, op@));
        }
    } else {
        proof {
            if idx < n {
                assert(tail[0] == mv[idx as int]);
                assert(lex_le(name@, mv[idx as int].0));
                assert(name@ != mv[idx as int].0);
                assert(add_op(tail, name@, op@) == seq![(name@, seq![op@])] + tail);
            } else {
                assert(tail.len() == 0);
                assert(add_op(tail, name@, op@) == seq![(name@, seq![op@])]);
            }
        }
        let mut ops: Vec<Operation> = Vec::new();
        ops.push(op);
        proof {
            assert(ops_view(ops) =~~= seq![op@]);
        }
        rmap.insert(idx, (name, ops));
        proof {
            assert(rmap_view(*rmap) =~~= mv.subrange(0, idx as int) + add_op(tail, name@, op@));
        }
    }
}

/// An operation list with `o` placed at its position in name order,
/// after any operation of the same name.
pub open spec fn insert_op(s: Seq<OpV>, o: OpV) -> Seq<OpV>
    decreases s.len(),
{
    if s.len() == 0 {
        seq![o]
    } else if lex_le(s[0].name, o.name) {
        seq![s[0]] + insert_op(s.drop_first(), o)
    } else {
        seq![o] + s
    }
}

proof fn lemma_insert_op_skip(s: Seq<OpV>, o: OpV, i: int)
    requires
        0 <= i <= s.len(),
        forall|j: int| 0 <= j < i ==> lex_le((#[trigger] s[j]).name, o.name),
    ensures
        insert_op(s, o) == s.subrange(0, i) + insert_op(s.subrange(i, s.len() as int), o),
    decreases i,
{
    if i == 0 {
        assert(s.subrange(0, s.len() as int) =~= s);
        assert(s.subrange(0, 0) + insert_op(s, o) =~= insert_op(s, o));
    } else {
        let t = s.drop_first();
        lemma_insert_op_skip(t, o, i - 1);
        assert(t.subrange(i - 1, t.len() as int) =~= s.subrange(i, s.len() as int));
        assert(seq![s[0]] + (t.subrange(0, i - 1) + insert_op(s.subrange(i, s.len() as int), o))
            =~= s.subrange(0, i) + insert_op(s.subrange(i, s.len() as int), o));
    }
}

#[verifier::loop_isolation(false)]
fn insert_op_sorted(ops: &mut Vec<Operation>, o: Operation)
    ensures
        ops_view(*final(ops)) == insert_op(ops_view(*old(ops)), o@),
{
    let ghost sv: Seq<OpV> = ops_view(*old(ops));
    let n = ops.len();
    let mut idx: usize = 0;
    while idx < n && str_le(ops[idx].name.as_str(), o.name.as_str())
        invariant
            n == ops@.len(),
            idx <= n,
            forall|j: int| 0 <= j < idx ==> lex_le((#[trigger] sv[j]).name, o@.name),
        decreases n - idx,
    {
        idx += 1;
    }
    proof {
        lemma_insert_op_skip(sv, o@, idx as int);
    }
    let ghost tail = sv.subrange(idx as int, n as int);
    proof {
        if idx < n {
            assert(tail[0] == sv[idx as int]);
            assert(insert_op(tail, o@) == seq![o@] + tail);
        } else {
            assert(tail.len() == 0);
            assert(insert_op(tail, o@) == seq![o@]);
        }
    }
    ops.insert(idx, o);
    proof {
        assert(ops_view(*ops) =~~= sv.subrange(0, idx as int) + insert_op(tail, o@));
    }
}

pub open spec fn sort_fold(ops: Seq<OpV>, i: int, acc: Seq<OpV>) -> Seq<OpV>
    decreases ops.len() - i,
{
    if i < 0 || i >= ops.len() {
        acc
    } else {
        sort_fold(ops, i + 1, insert_op(acc, ops[i]))
    }
}

/// An operation list sorted by name, operations of one name keeping
/// their order.
pub open spec fn sorted_ops(ops: Seq<OpV>) -> Seq<OpV> {
    sort_fold(ops, 0, Seq::empty())
}

/// Sorts a resource's operations by name.
#[verifier::loop_isolation(false)]
fn sort_ops_vec(ops: Vec<Operation>) -> (r: Vec<Operation>)
    ensures
        ops_view(r) == sorted_ops(ops_view(ops)),
{
    let ghost orig: Seq<OpV> = ops_view(ops);
    let mut rest = ops;
    let mut out: Vec<Operation> = Vec::new();
    let ghost total: int = orig.len() as int;
    let ghost mut k: int = 0;
    proof {
        assert(ops_view(out) =~= Seq::<OpV>::empty());
        assert(ops_view(rest) =~= orig.skip(0));
    }
    while rest.len() > 0
        invariant
            0 <= k <= total,
            ops_view(rest) == orig.skip(k),
            rest@.len() == total - k,
            sort_fold(orig, 0, Seq::empty()) == sort_fold(orig, k, ops_view(out)),
        decreases rest@.len(),
    {
        let ghost restv = ops_view(rest);
        let o = rest.remove(0);
        proof {
            assert(o@ == restv[0]);
            assert(restv[0] == orig[k]);
            assert(ops_view(rest) =~~= restv.drop_first());
            assert(restv.drop_first() =~~= orig.skip(k + 1));
        }
        insert_op_sorted(&mut out, o);
        proof {
            k = k + 1;
        }
    }
    out
}

/// The five HTTP verbs a path item may declare, with their uppercase
/// method names, in the order they are scanned.
pub open spec fn http_methods() -> Seq<(Seq<char>, Seq<char>)> {
    seq![
        ("get"@, "GET"@),
        ("post"@, "POST"@),
        ("put"@, "PUT"@),
        ("patch"@, "PATCH"@),
        ("delete"@, "DELETE"@),
    ]
}

/// The resource name an operation files under: its first category tag,
/// normalized; `default` where none is declared.
pub open spec fn op_resource(opnode: JVal) -> Seq<char> {
    let tags = arr_or_empty(jget(opnode, "tags"@));
    let tag = if tags.len() > 0 {
        match tags[0] {
            JVal::Str(s) => s,
            _ => "default"@,
        }
    } else {
        "default"@
    };
    kebab(tag)
}

/// The identifier an operation's name normalizes from: its declared
/// identifier, a vendor alias as fallback, else the word `call`.
pub open spec fn op_id(opnode: JVal) -> Seq<char> {
    match as_str_opt(jget(opnode, "operationId"@)) {
        Option::Some(s) => s,
        Option::None => match as_str_opt(jget(opnode, "x-eov-operation-id"@)) {
            Option::Some(s) => s,
            Option::None => "call"@,
        },
    }
}

/// The operation one path, verb and operation node compile to.
pub open spec fn make_op(
    doc: JVal,
    path: Seq<char>,
    method_upper: Seq<char>,
    opnode: JVal,
    path_params: Seq<JVal>,
) -> OpV {
    OpV {
        name: kebab(op_id(opnode)),
        method: method_upper,
        path,
        summary: as_str_opt(jget(opnode, "summary"@)),
        description: as_str_opt(jget(opnode, "description"@)),
        params: merged_params(doc, path_params, arr_or_empty(jget(opnode, "parameters"@))),
        body: body_of(doc, jget(opnode, "requestBody"@)),
    }
}

/// Scans one path item's verbs from `j` on, filing each declared
/// operation under its resource; a verb whose operation is not an
/// object stops the build.
pub open spec fn method_fold(
    doc: JVal,
    path: Seq<char>,
    item: JVal,
    path_params: Seq<JVal>,
    j: int,
    acc: Seq<(Seq<char>, Seq<OpV>)>,
) -> Result<Seq<(Seq<char>, Seq<OpV>)>, Seq<char>>
    decreases http_methods().len() - j,
{
    if j < 0 || j >= http_methods().len() {
        Result::Ok(acc)
    } else {
        let mv = http_methods()[j];
        match jget(item, mv.0) {
            Option::None => method_fold(doc, path, item, path_params, j + 1, acc),
            Option::Some(opnode) => if !(opnode is Obj) {
                Result::Err("operation not object"@)
            } else {
                method_fold(
                    doc,
                    path,
                    item,
                    path_params,
                    j + 1,
                    add_op(
                        acc,
                        op_resource(opnode),
                        make_op(doc, path, mv.1, opnode, path_params),
                    ),
                )
            },
        }
    }
}

/// Scans the document's paths from `i` on.
pub open spec fn paths_fold(
    doc: JVal,
    pairs: Seq<(Seq<char>, JVal)>,
    i: int,
    acc: Seq<(Seq<char>, Seq<OpV>)>,
) -> Result<Seq<(Seq<char>, Seq<OpV>)>, Seq<char>>
    decreases pairs.len() - i,
{
    if i < 0 || i >= pairs.len() {
        Result::Ok(acc)
    } else {
        let pps = arr_or_empty(jget(pairs[i].1, "parameters"@));
        match method_fold(doc, pairs[i].0, pairs[i].1, pps, 0, acc) {
            Result::Err(t) => Result::Err(t),
            Result::Ok(a2) => paths_fold(doc, pairs, i + 1, a2),
        }
    }
}

/// The document's declared version, `0` where none is declared.
pub open spec fn version_of(doc: JVal) -> Seq<char> {
    match jget(doc, "info"@) {
        Option::Some(info) => match as_str_opt(jget(info, "version"@)) {
            Option::Some(s) => s,
            Option::None => "0"@,
        },
        Option::None => "0"@,
    }
}

/// The first declared server URL, `/api/v1` where none is declared.
pub open spec fn base_path_of(doc: JVal) -> Seq<char> {
    let servers = arr_or_empty(jget(doc, "servers"@));
    if servers.len() > 0 {
        match as_str_opt(jget(servers[0], "url"@)) {
            Option::Some(s) => s,
            Option::None => "/api/v1"@,
        }
    } else {
        "/api/v1"@
    }
}

/// The command tree a description document compiles to, or the wording
/// of the failure: every declared path and verb becomes an operation
/// under its resource, resources and operations sorted by name.
pub open spec fn built_tree(doc: JVal) -> Result<TreeV, Seq<char>> {
    match jget(doc, "paths"@) {
        Option::Some(p) => match p {
            JVal::Obj(pairs) => match paths_fold(doc, pairs, 0, Seq::empty()) {
                Result::Err(t) => Result::Err(t),
                Result::Ok(m) => Result::Ok(
                    TreeV {
                        version: version_of(doc),
                        base_path: base_path_of(doc),
                        resources: m.map_values(
                            |e: (Seq<char>, Seq<OpV>)|
                                ResourceV { name: e.0, ops: sorted_ops(e.1) },
                        ),
                    },
                ),
            },
            _ => Result::Err("paths missing"@),
        },
        Option::None => Result::Err("paths missing"@),
    }
}

/// Files every operation of one path item.
#[verifier::loop_isolation(false)]
fn process_path_item(
    doc: &Json,
    path: &String,
    item: &Json,
    rmap: &mut Vec<(String, Vec<Operation>)>,
) -> (r: Result<(), BuildError>)
    ensures
        match r {
            Result::Ok(_) => method_fold(
                doc@,
                path@,
                item@,
                arr_or_empty(jget(item@, "parameters"@)),
                0,
                rmap_view(*old(rmap)),
            ) == Result::<Seq<(Seq<char>, Seq<OpV>)>, Seq<char>>::Ok(rmap_view(*final(rmap))),
            Result::Err(e) => method_fold(
                doc@,
                path@,
                item@,
                arr_or_empty(jget(item@, "parameters"@)),
                0,
                rmap_view(*old(rmap)),
            ) == Result::<Seq<(Seq<char>, Seq<OpV>)>, Seq<char>>::Err(e.text()),
        },
{
    let empty_params: Vec<Json> = Vec::new();
    let path_params: &Vec<Json> = match obj_get(item, "parameters") {
        Some(v) => match v {
            Json::Arr(a) => a,
            _ => &empty_params,
        },
        _ => &empty_params,
    };
    let ghost ppsv: Seq<JVal> = jvals_of(*path_params, 0);
    proof {
        lemma_jvals_of(*path_params, 0);
        if jvals_of(*path_params, 0).len() == 0 {
            assert(ppsv =~= arr_or_empty(jget(item@, "parameters"@)));
        }
    }
    let mut j: usize = 0;
    while j < 5
        invariant
            j <= 5,
            ppsv == arr_or_empty(jget(item@, "parameters"@)),
            ppsv == jvals_of(*path_params, 0),
            method_fold(doc@, path@, item@, ppsv, 0, rmap_view(*old(rmap))) == method_fold(
                doc@,
                path@,
                item@,
                ppsv,
                j as int,
                rmap_view(*rmap),
            ),
        decreases 5 - j,
    {
        let mname: &str = match j {
            0 => "get",
            1 => "post",
            2 => "put",
            3 => "patch",
            _ => "delete",
        };
        let mupper: &str = match j {
            0 => "GET",
            1 => "POST",
            2 => "PUT",
            3 => "PATCH",
            _ => "DELETE",
        };
        proof {
            assert((mname@, mupper@) == http_methods()[j as int]);
        }
        match obj_get(item, mname) {
            None => {},
            Some(opnode) => {
                let op_pairs_check: bool = match opnode {
                    Json::Obj(_) => true,
                    _ => false,
                };
                if !op_pairs_check {
                    return Err(BuildError::OperationNotObject);
                }
                let tag: String = match obj_get(opnode, "tags") {
                    Some(v) => match v {
                        Json::Arr(ts) => {
                            if ts.len() > 0 {
                                proof {
                                    lemma_jvals_of(*ts, 0);
                                }
                                match &ts[0] {
                                    Json::Str(s) => s.clone(),
                                    _ => String::from_str("default"),
                                }
                            } else {
                                String::from_str("default")
                            }
                        },
                        _ => String::from_str("default"),
                    },
                    None => String::from_str("default"),
                };
                let resource = to_kebab(tag.as_str());
                let opid: String = match obj_get(opnode, "operationId") {
                    Some(v) => match v {
                        Json::Str(s) => s.clone(),
                        _ => fallback_op_id(opnode),
                    },
                    None => fallback_op_id(opnode),
                };
                let summary: Option<String> = match obj_get(opnode, "summary") {
                    Some(v) => match v {
                        Json::Str(s) => Some(s.clone()),
                        _ => None,
                    },
                    None => None,
                };
                let description: Option<String> = match obj_get(opnode, "description") {
                    Some(v) => match v {
                        Json::Str(s) => Some(s.clone()),
                        _ => None,
                    },
                    None => None,
                };
                let empty_op_params: Vec<Json> = Vec::new();
                let op_params: &Vec<Json> = match obj_get(opnode, "parameters") {
                    Some(v) => match v {
                        Json::Arr(a) => a,
                        _ => &empty_op_params,
                    },
                    _ => &empty_op_params,
                };
                proof {
                    lemma_jvals_of(*op_params, 0);
                    if jvals_of(*op_params, 0).len() == 0 {
                        assert(jvals_of(*op_params, 0) =~= arr_or_empty(
                            jget(opnode@, "parameters"@),
                        ));
                    }
                }
                let params = merge_params(doc, path_params, op_params);
                let body = parse_request_body(doc, obj_get(opnode, "requestBody"));
                let op = Operation {
                    name: to_kebab(opid.as_str()),
                    method: String::from_str(mupper),
                    path: path.clone(),
                    summary,
                    description,
                    params,
                    body,
                };
                proof {
                    assert(op@.params =~= make_op(
                        doc@,
                        path@,
                        mupper@,
                        opnode@,
                        ppsv,
                    ).params);
                    assert(op@ =~= make_op(doc@, path@, mupper@, opnode@, ppsv));
                }
                add_op_sorted(rmap, resource, op);
            },
        }
        j += 1;
    }
    Ok(())
}

/// The fallback identifier of an operation without a declared one.
fn fallback_op_id(opnode: &Json) -> (r: String)
    ensures
        r@ == (match as_str_opt(jget(opnode@, "x-eov-operation-id"@)) {
            Option::Some(s) => s,
            Option::None => "call"@,
        }),
{
    match obj_get(opnode, "x-eov-operation-id") {
        Some(v) => match v {
            Json::Str(s) => s.clone(),
            _ => String::from_str("call"),
        },
        None => String::from_str("call"),
    }
}

/// Compiles a description document into the command tree.
#[verifier::loop_isolation(false)]
pub fn build_tree(doc: &Json) -> (r: Result<CommandTree, BuildError>)
    ensures
        match r {
            Result::Ok(t) => built_tree(doc@) == Result::<TreeV, Seq<char>>::Ok(t@),
            Result::Err(e) => built_tree(doc@) == Result::<TreeV, Seq<char>>::Err(e.text()),
        },
{
    let version: String = match obj_get(doc, "info") {
        Some(info) => match obj_get(info, "version") {
            Some(v) => match v {
                Json::Str(s) => s.clone(),
                _ => String::from_str("0"),
            },
            None => String::from_str("0"),
        },
        None => String::from_str("0"),
    };
    let base_path: String = match obj_get(doc, "servers") {
        Some(v) => match v {
            Json::Arr(svs) => {
                if svs.len() > 0 {
                    proof {
                        lemma_jvals_of(*svs, 0);
                    }
                    match obj_get(&svs[0], "url") {
                        Some(u) => match u {
                            Json::Str(s) => s.clone(),
                            _ => String::from_str("/api/v1"),
                        },
                        None => String::from_str("/api/v1"),
                    }
                } else {
                    String::from_str("/api/v1")
                }
            },
            _ => String::from_str("/api/v1"),
        },
        None => String::from_str("/api/v1"),
    };
    let paths: &Vec<(String, Json)> = match obj_get(doc, "paths") {
        Some(p) => match p {
            Json::Obj(pairs) => pairs,
            _ => {
                return Err(BuildError::PathsMissing);
            },
        },
        None => {
            return Err(BuildError::PathsMissing);
        },
    };
    let ghost pathsv: Seq<(Seq<char>, JVal)> = jpairs_of(*paths, 0);
    proof {
        lemma_jpairs_of(*paths, 0);
    }
    let n = paths.len();
    let mut rmap: Vec<(String, Vec<Operation>)> = Vec::new();
    let mut i: usize = 0;
    proof {
        assert(rmap_view(rmap) =~= Seq::<(Seq<char>, Seq<OpV>)>::empty());
    }
    while i < n
        invariant
            n == paths@.len(),
            pathsv == jpairs_of(*paths, 0),
            pathsv.len() == n,
            forall|k: int|
                0 <= k < n ==> #[trigger] pathsv[k] == (
                    paths@[k].0@,
                    crate::json::jval_of(paths@[k].1),
                ),
            i <= n,
            paths_fold(doc@, pathsv, 0, Seq::empty()) == paths_fold(
                doc@,
                pathsv,
                i as int,
                rmap_view(rmap),
            ),
        decreases n - i,
    {
        match process_path_item(doc, &paths[i].0, &paths[i].1, &mut rmap) {
            Ok(_) => {},
            Err(e) => {
                return Err(e);
            },
        }
        i += 1;
    }
    let ghost mfinal: Seq<(Seq<char>, Seq<OpV>)> = rmap_view(rmap);
    let mut resources: Vec<Resource> = Vec::new();
    let ghost total: int = mfinal.len() as int;
    let ghost mut k: int = 0;
    let mut rest = rmap;
    proof {
        assert(rmap_view(rest) =~= mfinal.skip(0));
        assert(resources_view(resources) =~= Seq::<ResourceV>::empty());
    }
    while rest.len() > 0
        invariant
            0 <= k <= total,
            rmap_view(rest) == mfinal.skip(k),
            rest@.len() == total - k,
            resources_view(resources) == mfinal.subrange(0, k).map_values(
                |e: (Seq<char>, Seq<OpV>)| ResourceV { name: e.0, ops: sorted_ops(e.1) },
            ),
        decreases rest@.len(),
    {
        let ghost restv = rmap_view(rest);
        let entry = rest.remove(0);
        proof {
            assert((entry.0@, ops_view(entry.1)) == restv[0]);
            assert(restv[0] == mfinal[k]);
            assert(rmap_view(rest) =~~= restv.drop_first());
            assert(restv.drop_first() =~~= mfinal.skip(k + 1));
        }
        let sorted = sort_ops_vec(entry.1);
        let ghost prevr = resources_view(resources);
        resources.push(Resource { name: entry.0, ops: sorted });
        proof {
            assert(resources_view(resources) =~~= prevr.push(
                ResourceV { name: mfinal[k].0, ops: sorted_ops(mfinal[k].1) },
            ));
            assert(mfinal.subrange(0, k + 1).map_values(
                |e: (Seq<char>, Seq<OpV>)| ResourceV { name: e.0, ops: sorted_ops(e.1) },
            ) =~~= mfinal.subrange(0, k).map_values(
                |e: (Seq<char>, Seq<OpV>)| ResourceV { name: e.0, ops: sorted_ops(e.1) },
            ).push(ResourceV { name: mfinal[k].0, ops: sorted_ops(mfinal[k].1) }));
            k = k + 1;
        }
    }
    let tree = CommandTree { version, base_path, resources };
    proof {
        assert(mfinal.subrange(0, total) =~= mfinal);
        assert(tree@.resources =~~= mfinal.map_values(
            |e: (Seq<char>, Seq<OpV>)| ResourceV { name: e.0, ops: sorted_ops(e.1) },
        ));
        assert(tree@ =~~= built_tree(doc@)->Ok_0);
    }
    Ok(tree)
}

/// Compiling is deterministic: two runs on documents that hold the same
/// value yield trees that hold the same value.
pub proof fn lemma_build_deterministic(doc1: Json, doc2: Json, t1: TreeV, t2: TreeV)
    requires
        doc1@ == doc2@,
        built_tree(doc1@) == Result::<TreeV, Seq<char>>::Ok(t1),
        built_tree(doc2@) == Result::<TreeV, Seq<char>>::Ok(t2),
    ensures
        t1 == t2,
{
}

} // verus!
