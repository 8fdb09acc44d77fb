//! Response triage: the body view and the raw envelope view of the one
//! HTTP answer.

use vstd::prelude::*;
use vstd::string::StringExecFns;
use crate::json::{jpairs_of, lemma_jpairs_of, JVal, Json};
use crate::outside::json_of_text;
use crate::request::sorted_insert_pair;
use crate::text::trimmed;

verus! {

broadcast use vstd::std_specs::vec::axiom_vec_index_decreases;

/// The triaged answer of one HTTP call.
pub struct HttpOutcome {
    /// Whether the status lies in the success range.
    pub ok: bool,
    pub status: u16,
    /// The response body as a JSON value.
    pub body: Json,
    /// The full envelope: status, headers and body.
    pub raw: Json,
}

/// The JSON value a response body's text carries: null where the text
/// is blank, the parsed document where it parses, else the raw text as
/// a JSON string.
pub open spec fn triaged_body(text: Seq<char>) -> JVal {
    if trimmed(text).len() == 0 {
        JVal::Null
    } else {
        match json_of_text(text) {
            Option::Some(v) => v,
            Option::None => JVal::Str(text),
        }
    }
}

/// The response headers as a JSON object: keys sorted and unique, a
/// repeated header name keeping its last value.
pub open spec fn headers_fold(
    hs: Seq<(Seq<char>, Seq<char>)>,
    i: int,
    acc: Seq<(Seq<char>, JVal)>,
) -> Seq<(Seq<char>, JVal)>
    decreases hs.len() - i,
{
    if i < 0 || i >= hs.len() {
        acc
    } else {
        headers_fold(hs, i + 1, sorted_insert_pair(acc, hs[i].0, JVal::Str(hs[i].1)))
    }
}

/// The raw envelope: body, headers and status, under those member
/// names.
pub open spec fn envelope_of(
    status: u16,
    hs: Seq<(Seq<char>, Seq<char>)>,
    body: JVal,
) -> JVal {
    JVal::Obj(
        seq![
            ("body"@, body),
            ("headers"@, JVal::Obj(headers_fold(hs, 0, Seq::empty()))),
            ("status"@, JVal::Int(status as int)),
        ],
    )
}

/// Triages one response: its status, header list and body text become
/// the body view and the raw envelope view.  A body that is not JSON
/// degrades to a string value; a blank body becomes null.
#[verifier::loop_isolation(false)]
pub fn triage_response(status: u16, headers: &Vec<(String, String)>, text: &String) -> (r:
    HttpOutcome)
    ensures
        r.ok == (200 <= status < 300),
        r.status == status,
        r.body@ == triaged_body(text@),
        r.raw@ == envelope_of(status, crate::request::pairs_texts_of(*headers), r.body@),
{
    let t = crate::text::trim(text.as_str());
    let body: Json = if t.as_str().unicode_len() == 0 {
        Json::Null
    } else {
        match crate::json::parse_json_text(text.as_str()) {
            Some(v) => v,
            None => Json::Str(text.clone()),
        }
    };
    let ghost hs: Seq<(Seq<char>, Seq<char>)> = crate::request::pairs_texts_of(*headers);
    let n = headers.len();
    let mut hdr: Vec<(String, Json)> = Vec::new();
    let mut i: usize = 0;
    proof {
        lemma_jpairs_of(hdr, 0);
        assert(jpairs_of(hdr, 0) =~= Seq::<(Seq<char>, JVal)>::empty());
    }
    while i < n
        invariant
            n == headers@.len(),
            i <= n,
            hs == crate::request::pairs_texts_of(*headers),
            headers_fold(hs, 0, Seq::empty()) == headers_fold(hs, i as int, jpairs_of(hdr, 0)),
        decreases n - i,
    {
        proof {
            assert(hs[i as int] == (headers@[i as int].0@, headers@[i as int].1@));
        }
        crate::request::insert_pair_sorted(
            &mut hdr,
            headers[i].0.clone(),
            Json::Str(headers[i].1.clone()),
        );
        i += 1;
    }
    let mut raw_pairs: Vec<(String, Json)> = Vec::new();
    raw_pairs.push((String::from_str("body"), clone_json_body(&body)));
    raw_pairs.push((String::from_str("headers"), Json::Obj(hdr)));
    raw_pairs.push((String::from_str("status"), Json::Int(status as i64)));
    let raw = Json::Obj(raw_pairs);
    proof {
        lemma_jpairs_of(raw_pairs, 0);
        assert(jpairs_of(raw_pairs, 0) =~~= seq![
            ("body"@, body@),
            ("headers"@, JVal::Obj(headers_fold(hs, 0, Seq::empty()))),
            ("status"@, JVal::Int(status as int)),
        ]);
    }
    HttpOutcome { ok: 200 <= status && status < 300, status, body, raw }
}

/// Copies a JSON value, member by member.
#[verifier::loop_isolation(false)]
fn clone_json_body(j: &Json) -> (r: Json)
    ensures
        r@ == j@,
    decreases *j,
{
    match j {
        Json::Null => Json::Null,
        Json::Bool(b) => Json::Bool(*b),
        Json::Int(n) => Json::Int(*n),
        Json::Num(t) => Json::Num(t.clone()),
        Json::Str(s) => Json::Str(s.clone()),
        Json::Arr(items) => {
            let ghost sq = crate::json::jvals_of(*items, 0);
            proof {
                crate::json::lemma_jvals_of(*items, 0);
            }
            let n = items.len();
            let mut out: Vec<Json> = Vec::new();
            let mut i: usize = 0;
            while i < n
                invariant
                    n == items@.len(),
                    i <= n,
                    sq == crate::json::jvals_of(*items, 0),
                    sq.len() == n,
                    forall|k: int|
                        0 <= k < n ==> #[trigger] sq[k] == crate::json::jval_of(items@[k]),
                    out@.len() == i,
                    forall|k: int|
                        0 <= k < i ==> crate::json::jval_of(#[trigger] out@[k]) == sq[k],
                decreases n - i,
            {
                let piece = clone_json_body(&items[i]);
                out.push(piece);
                i += 1;
            }
            let r = Json::Arr(out);
            proof {
                crate::json::lemma_jvals_of(out, 0);
                assert(crate::json::jvals_of(out, 0) =~~= sq);
            }
            r
        },
        Json::Obj(pairs) => {
            let ghost sq = jpairs_of(*pairs, 0);
            proof {
                lemma_jpairs_of(*pairs, 0);
            }
            let n = pairs.len();
            let mut out: Vec<(String, Json)> = Vec::new();
            let mut i: usize = 0;
            while i < n
                invariant
                    n == pairs@.len(),
                    i <= n,
                    sq == jpairs_of(*pairs, 0),
                    sq.len() == n,
                    forall|k: int|
                        0 <= k < n ==> #[trigger] sq[k] == (
                            pairs@[k].0@,
                            crate::json::jval_of(pairs@[k].1),
                        ),
                    out@.len() == i,
                    forall|k: int|
                        0 <= k < i ==> (#[trigger] out@[k].0@, crate::json::jval_of(out@[k].1))
                            == sq[k],
                decreases n - i,
            {
                let piece = clone_json_body(&pairs[i].1);
                out.push((pairs[i].0.clone(), piece));
                i += 1;
            }
            let r = Json::Obj(out);
            proof {
                lemma_jpairs_of(out, 0);
                assert(jpairs_of(out, 0) =~~= sq);
            }
            r
        },
    }
}

} // verus!
