use n8n_cli::cli::{describe_lines, op_arg_specs};
use n8n_cli::coerce::{parse_bool, parse_list_value, parse_scalar_value};
use n8n_cli::json::{json_to_text, Json};
use n8n_cli::request::{build_body, build_url, wants_body_file, ArgValues};
use n8n_cli::response::triage_response;
use n8n_cli::tree::{
    find_op, input_field_key, BodyDef, CommandTree, InputField, Operation, ParamDef, Resource,
    SchemaDef,
};

fn schema(kind: &str) -> SchemaDef {
    SchemaDef { kind: String::from(kind), item: None }
}

fn array_schema(item_kind: &str) -> SchemaDef {
    SchemaDef { kind: String::from("array"), item: Some(Box::new(schema(item_kind))) }
}

fn param(name: &str, location: &str, required: bool, s: SchemaDef) -> ParamDef {
    ParamDef {
        name: String::from(name),
        flag: String::from(name),
        location: String::from(location),
        required,
        schema: s,
    }
}

fn field(name: &str, required: bool, s: SchemaDef) -> InputField {
    InputField {
        name: String::from(name),
        flag: format!("input-{}", name),
        required,
        schema: s,
    }
}

fn get_op(params: Vec<ParamDef>, body: Option<BodyDef>) -> Operation {
    Operation {
        name: String::from("get"),
        method: String::from("GET"),
        path: String::from("/workflows/{id}"),
        summary: Some(String::from("Fetch one workflow")),
        description: None,
        params,
        body,
    }
}

fn bind(pairs: Vec<(&str, Vec<&str>)>) -> ArgValues {
    let mut args = ArgValues::new();
    for (name, values) in pairs {
        args.bind(
            String::from(name),
            values.into_iter().map(String::from).collect(),
        );
    }
    args
}

#[test]
fn coerce_integer_token() {
    let v = parse_scalar_value(&schema("integer"), "42").expect("ok");
    assert_eq!(json_to_text(&v), "42");
}

#[test]
fn coerce_integer_rejects_text_and_overflow() {
    let e = parse_scalar_value(&schema("integer"), "4x").expect_err("err");
    assert_eq!(e.message(), "invalid integer: 4x");
    assert!(parse_scalar_value(&schema("integer"), "9223372036854775807").is_ok());
    assert!(parse_scalar_value(&schema("integer"), "9223372036854775808").is_err());
    let v = parse_scalar_value(&schema("integer"), "-9223372036854775808").expect("ok");
    assert_eq!(json_to_text(&v), "-9223372036854775808");
}

#[test]
fn coerce_boolean_tokens() {
    let v = parse_scalar_value(&schema("boolean"), "yes").expect("ok");
    assert_eq!(json_to_text(&v), "true");
    assert!(matches!(parse_bool("FALSE"), Ok(false)));
    assert!(matches!(parse_bool("1"), Ok(true)));
    let e = parse_scalar_value(&schema("boolean"), "maybe").expect_err("err");
    assert_eq!(e.message(), "invalid boolean: maybe");
}

#[test]
fn coerce_number_token() {
    let v = parse_scalar_value(&schema("number"), "1.5e3").expect("ok");
    assert_eq!(json_to_text(&v), "1.5e3");
    let e = parse_scalar_value(&schema("number"), "abc").expect_err("err");
    assert_eq!(e.message(), "invalid number: abc");
    assert!(parse_scalar_value(&schema("number"), "01").is_err());
}

#[test]
fn coerce_string_and_unknown() {
    let v = parse_scalar_value(&schema("string"), "plain").expect("ok");
    assert_eq!(json_to_text(&v), "\"plain\"");
    let v = parse_scalar_value(&schema("unknown"), "{\"k\":[1,null]}").expect("ok");
    assert!(matches!(v, Json::Obj(_)));
    assert_eq!(json_to_text(&v), "{\"k\":[1,null]}");
    let e = parse_scalar_value(&schema("object"), "{oops").expect_err("err");
    assert_eq!(e.message(), "invalid JSON value: {oops");
}

#[test]
fn list_dual_modes_agree() {
    let s = array_schema("integer");
    let repeated = parse_list_value(&s, &vec![String::from("1"), String::from("2")]).expect("ok");
    let literal = parse_list_value(&s, &vec![String::from("[1,2]")]).expect("ok");
    assert_eq!(json_to_text(&repeated), "[1,2]");
    assert_eq!(json_to_text(&literal), "[1,2]");
}

#[test]
fn list_bad_literal_and_bad_element() {
    let s = array_schema("integer");
    let e = parse_list_value(&s, &vec![String::from("[1,")]).expect_err("err");
    assert_eq!(e.message(), "invalid JSON list");
    let e = parse_list_value(&s, &vec![String::from("1"), String::from("x")]).expect_err("err");
    assert_eq!(e.message(), "invalid integer: x");
}

#[test]
fn url_does_not_duplicate_base_path() {
    let op = get_op(vec![param("id", "path", true, schema("string"))], None);
    let args = bind(vec![("id", vec!["a b"])]);
    let url = build_url("https://h/api/v1", "/api/v1", &op, &args).expect("url");
    assert_eq!(url, "https://h/api/v1/workflows/a%20b");
    let url = build_url("https://h", "/api/v1", &op, &args).expect("url");
    assert_eq!(url, "https://h/api/v1/workflows/a%20b");
    let url = build_url("https://h/", "api/v1", &op, &args).expect("url");
    assert_eq!(url, "https://h/api/v1/workflows/a%20b");
}

#[test]
fn url_path_parameter_is_percent_encoded() {
    let op = get_op(vec![param("id", "path", true, schema("string"))], None);
    let args = bind(vec![("id", vec!["a/b?c"])]);
    let url = build_url("https://h", "/api/v1", &op, &args).expect("url");
    assert_eq!(url, "https://h/api/v1/workflows/a%2Fb%3Fc");
}

#[test]
fn url_missing_path_parameter() {
    let op = get_op(vec![param("id", "path", true, schema("string"))], None);
    let args = bind(vec![]);
    let e = build_url("https://h", "/api/v1", &op, &args).expect_err("err");
    assert_eq!(e.message(), "missing required param --id");
}

#[test]
fn url_query_pairs() {
    let mut op = get_op(
        vec![
            param("id", "path", true, schema("string")),
            param("filter", "query", false, schema("string")),
            param("n", "query", false, array_schema("integer")),
        ],
        None,
    );
    op.path = String::from("/workflows/{id}");
    let args = bind(vec![
        ("id", vec!["7"]),
        ("filter", vec!["a b"]),
        ("n", vec!["1", "2"]),
    ]);
    let url = build_url("https://h", "/api/v1", &op, &args).expect("url");
    assert_eq!(url, "https://h/api/v1/workflows/7?filter=a+b&n=1&n=2");
}

#[test]
fn url_unbound_query_contributes_nothing() {
    let op = get_op(
        vec![
            param("id", "path", true, schema("string")),
            param("filter", "query", false, schema("string")),
        ],
        None,
    );
    let args = bind(vec![("id", vec!["7"])]);
    let url = build_url("https://h", "/api/v1", &op, &args).expect("url");
    assert_eq!(url, "https://h/api/v1/workflows/7");
}

fn body_def(required: bool, fields: Vec<InputField>) -> BodyDef {
    BodyDef {
        required,
        content_type: String::from("application/json"),
        schema: schema("object"),
        input_fields: fields,
    }
}

#[test]
fn body_required_violation() {
    let op = get_op(vec![], Some(body_def(true, vec![field("name", true, schema("string"))])));
    let args = bind(vec![]);
    let e = build_body(&op, None, None, &args).expect_err("err");
    assert_eq!(e.message(), "request body required");
}

#[test]
fn body_not_accepted() {
    let op = get_op(vec![], None);
    let args = bind(vec![]);
    let raw = String::from("{}");
    let e = build_body(&op, Some(&raw), None, &args).expect_err("err");
    assert_eq!(e.message(), "request does not accept a body");
    let e = wants_body_file(&op, false, true).expect_err("err");
    assert_eq!(e.message(), "request does not accept a body");
}

#[test]
fn body_sources_conflict() {
    let op = get_op(vec![], Some(body_def(false, vec![])));
    let args = bind(vec![]);
    let raw = String::from("{}");
    let file = String::from("{}");
    let e = build_body(&op, Some(&raw), Some(&file), &args).expect_err("err");
    assert_eq!(e.message(), "use only one of --body or --body-file");
    let e = wants_body_file(&op, true, true).expect_err("err");
    assert_eq!(e.message(), "use only one of --body or --body-file");
    assert!(matches!(wants_body_file(&op, false, true), Ok(true)));
    assert!(matches!(wants_body_file(&op, false, false), Ok(false)));
}

#[test]
fn body_raw_and_file_parse_or_fail() {
    let op = get_op(vec![], Some(body_def(false, vec![])));
    let args = bind(vec![]);
    let raw = String::from("{\"a\":1}");
    let b = build_body(&op, Some(&raw), None, &args).expect("ok").expect("some");
    assert_eq!(json_to_text(&b), "{\"a\":1}");
    let bad = String::from("nope");
    let e = build_body(&op, Some(&bad), None, &args).expect_err("err");
    assert_eq!(e.message(), "invalid JSON body");
    let e = build_body(&op, None, Some(&bad), &args).expect_err("err");
    assert_eq!(e.message(), "invalid JSON body file");
}

#[test]
fn body_from_input_fields() {
    let op = get_op(
        vec![],
        Some(body_def(
            true,
            vec![
                field("name", true, schema("string")),
                field("active", false, schema("boolean")),
                field("tags", false, array_schema("string")),
            ],
        )),
    );
    let args = bind(vec![
        ("body__name", vec!["x"]),
        ("body__active", vec!["true"]),
        ("body__tags", vec!["a", "b"]),
    ]);
    let b = build_body(&op, None, None, &args).expect("ok").expect("some");
    assert_eq!(
        json_to_text(&b),
        "{\"active\":true,\"name\":\"x\",\"tags\":[\"a\",\"b\"]}"
    );
}

#[test]
fn body_optional_absent_fields_are_omitted() {
    let op = get_op(
        vec![],
        Some(body_def(false, vec![
            field("name", false, schema("string")),
            field("active", false, schema("boolean")),
        ])),
    );
    let args = bind(vec![("body__name", vec!["x"])]);
    let b = build_body(&op, None, None, &args).expect("ok").expect("some");
    assert_eq!(json_to_text(&b), "{\"name\":\"x\"}");
    let none = build_body(&op, None, None, &bind(vec![])).expect("ok");
    assert!(none.is_none());
}

fn sample_tree() -> CommandTree {
    CommandTree {
        version: String::from("1.0"),
        base_path: String::from("/api/v1"),
        resources: vec![Resource {
            name: String::from("workflow"),
            ops: vec![get_op(vec![param("id", "path", true, schema("string"))], None)],
        }],
    }
}

#[test]
fn end_to_end_url_and_statuses() {
    let tree = sample_tree();
    let op = find_op(&tree, "workflow", "get").expect("op");
    let args = bind(vec![("id", vec!["42"])]);
    let url = build_url("https://h", &tree.base_path, op, &args).expect("url");
    assert_eq!(url, "https://h/api/v1/workflows/42");

    let body_text = String::from("{\"name\":\"x\"}");
    let ok = triage_response(200, &vec![], &body_text);
    assert!(ok.ok);
    assert_eq!(ok.status, 200);
    assert_eq!(json_to_text(&ok.body), "{\"name\":\"x\"}");

    let not_found = triage_response(404, &vec![], &body_text);
    assert!(!not_found.ok);
    assert_eq!(json_to_text(&not_found.body), "{\"name\":\"x\"}");
}

#[test]
fn find_op_misses() {
    let tree = sample_tree();
    assert!(find_op(&tree, "workflow", "get").is_some());
    assert!(find_op(&tree, "workflow", "list").is_none());
    assert!(find_op(&tree, "user", "get").is_none());
}

#[test]
fn triage_degrades_gracefully() {
    let raw_text = String::from("not json");
    let r = triage_response(200, &vec![], &raw_text);
    assert_eq!(json_to_text(&r.body), "\"not json\"");

    let blank = String::from("  \n ");
    let r = triage_response(204, &vec![], &blank);
    assert_eq!(json_to_text(&r.body), "null");
    assert_eq!(json_to_text(&r.raw), "{\"body\":null,\"headers\":{},\"status\":204}");
}

#[test]
fn triage_envelope_holds_headers_sorted() {
    let headers = vec![
        (String::from("x-b"), String::from("2")),
        (String::from("x-a"), String::from("1")),
    ];
    let body_text = String::from("");
    let r = triage_response(500, &headers, &body_text);
    assert!(!r.ok);
    assert_eq!(
        json_to_text(&r.raw),
        "{\"body\":null,\"headers\":{\"x-a\":\"1\",\"x-b\":\"2\"},\"status\":500}"
    );
}

#[test]
fn arg_specs_cover_params_and_body() {
    let op = get_op(
        vec![
            param("id", "path", true, schema("string")),
            param("n", "query", false, array_schema("integer")),
        ],
        Some(body_def(false, vec![field("name", false, schema("string"))])),
    );
    let specs = op_arg_specs(&op);
    assert_eq!(specs.len(), 5);
    assert_eq!(specs[0].id, "id");
    assert!(specs[0].required);
    assert!(!specs[0].repeatable);
    assert_eq!(specs[1].id, "n");
    assert!(specs[1].repeatable);
    assert_eq!(specs[1].value_label, "array<integer>");
    assert_eq!(specs[2].id, "body");
    assert_eq!(specs[3].id, "body-file");
    assert_eq!(specs[4].id, "body__name");
    assert_eq!(specs[4].long, "input-name");
}

#[test]
fn input_field_key_shape() {
    let f = field("name", false, schema("string"));
    assert_eq!(input_field_key(&f), "body__name");
}

#[test]
fn describe_lines_render() {
    let op = get_op(
        vec![param("id", "path", true, schema("string"))],
        Some(body_def(false, vec![field("name", false, schema("string"))])),
    );
    let lines = describe_lines("workflow", &op);
    assert_eq!(
        lines,
        vec![
            String::from("workflow get"),
            String::from("  method: GET"),
            String::from("  path: /workflows/{id}"),
            String::from("  summary: Fetch one workflow"),
            String::from("  params:"),
            String::from("    --id  string (path)"),
            String::from("  body: application/json"),
            String::from("  body fields:"),
            String::from("    --input-name  string"),
        ]
    );
}

#[test]
fn list_lines_render() {
    let tree = sample_tree();
    let lines = n8n_cli::cli::list_lines(&tree);
    assert_eq!(lines, vec![String::from("workflow"), String::from("  get")]);
}

#[test]
fn other_kinds_pass_through_as_strings() {
    let v = parse_scalar_value(&schema("file"), "token").expect("ok");
    assert_eq!(json_to_text(&v), "\"token\"");
}
