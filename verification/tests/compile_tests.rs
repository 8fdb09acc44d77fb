use n8n_cli::compile::{build_tree, merge_params, schema_from, SCHEMA_DEPTH};
use n8n_cli::json::{json_to_text, Json};
use n8n_cli::text::to_kebab;
use n8n_cli::tree::schema_label;

fn key(s: &str) -> String {
    String::from(s)
}

fn jstr(s: &str) -> Json {
    Json::Str(String::from(s))
}

fn jobj(pairs: Vec<(&str, Json)>) -> Json {
    Json::Obj(pairs.into_iter().map(|(k, v)| (key(k), v)).collect())
}

fn param_node(name: &str, location: &str, required: bool, kind: &str) -> Json {
    jobj(vec![
        ("name", jstr(name)),
        ("in", jstr(location)),
        ("required", Json::Bool(required)),
        ("schema", jobj(vec![("type", jstr(kind))])),
    ])
}

#[test]
fn kebab_camel_case() {
    assert_eq!(to_kebab("fooBarBaz"), "foo-bar-baz");
}

#[test]
fn kebab_separators() {
    assert_eq!(to_kebab("foo_bar baz"), "foo-bar-baz");
}

#[test]
fn kebab_idempotent_samples() {
    for sample in ["fooBarBaz", "foo_bar baz", "__Weird  Name__", "already-normal", "A"] {
        let once = to_kebab(sample);
        let twice = to_kebab(once.as_str());
        assert_eq!(once, twice);
    }
}

#[test]
fn merge_overrides_shared_entry() {
    let doc = Json::Null;
    let shared = vec![param_node("id", "path", true, "string")];
    let op_level = vec![param_node("id", "path", false, "string")];
    let merged = merge_params(&doc, &shared, &op_level);
    assert_eq!(merged.len(), 1);
    assert_eq!(merged[0].name, "id");
    assert_eq!(merged[0].location, "path");
    assert!(!merged[0].required);
}

#[test]
fn merge_keeps_distinct_keys_sorted() {
    let doc = Json::Null;
    let shared = vec![param_node("limit", "query", false, "integer")];
    let op_level = vec![param_node("id", "path", true, "string")];
    let merged = merge_params(&doc, &shared, &op_level);
    assert_eq!(merged.len(), 2);
    assert_eq!(merged[0].location, "path");
    assert_eq!(merged[0].name, "id");
    assert_eq!(merged[1].location, "query");
    assert_eq!(merged[1].name, "limit");
}

fn sample_doc() -> Json {
    let op = jobj(vec![
        ("tags", Json::Arr(vec![jstr("workflow")])),
        ("operationId", jstr("get")),
        ("summary", jstr("Fetch one workflow")),
        (
            "parameters",
            Json::Arr(vec![param_node("id", "path", true, "string")]),
        ),
    ]);
    jobj(vec![
        ("info", jobj(vec![("version", jstr("1.0"))])),
        ("servers", Json::Arr(vec![jobj(vec![("url", jstr("/api/v1"))])])),
        (
            "paths",
            jobj(vec![("/workflows/{id}", jobj(vec![("get", op)]))]),
        ),
    ])
}

#[test]
fn build_tree_minimal() {
    let tree = build_tree(&sample_doc()).expect("tree");
    assert_eq!(tree.version, "1.0");
    assert_eq!(tree.base_path, "/api/v1");
    assert_eq!(tree.resources.len(), 1);
    assert_eq!(tree.resources[0].name, "workflow");
    let op = &tree.resources[0].ops[0];
    assert_eq!(op.name, "get");
    assert_eq!(op.method, "GET");
    assert_eq!(op.path, "/workflows/{id}");
    assert_eq!(op.params.len(), 1);
    assert_eq!(op.params[0].flag, "id");
    assert!(op.params[0].required);
    assert!(op.body.is_none());
}

#[test]
fn build_tree_deterministic() {
    let t1 = build_tree(&sample_doc()).expect("tree");
    let t2 = build_tree(&sample_doc()).expect("tree");
    assert_eq!(t1.version, t2.version);
    assert_eq!(t1.base_path, t2.base_path);
    let l1 = n8n_cli::cli::list_lines(&t1);
    let l2 = n8n_cli::cli::list_lines(&t2);
    assert_eq!(l1, l2);
}

#[test]
fn build_tree_defaults() {
    let doc = jobj(vec![("paths", jobj(vec![]))]);
    let tree = build_tree(&doc).expect("tree");
    assert_eq!(tree.version, "0");
    assert_eq!(tree.base_path, "/api/v1");
    assert_eq!(tree.resources.len(), 0);
}

#[test]
fn build_tree_paths_missing() {
    let doc = jobj(vec![("info", jobj(vec![]))]);
    let err = build_tree(&doc).expect_err("error");
    assert_eq!(err.message(), "paths missing");
}

#[test]
fn build_tree_operation_not_object() {
    let doc = jobj(vec![(
        "paths",
        jobj(vec![("/x", jobj(vec![("get", Json::Int(5))]))]),
    )]);
    let err = build_tree(&doc).expect_err("error");
    assert_eq!(err.message(), "operation not object");
}

#[test]
fn build_tree_default_resource_and_name() {
    let doc = jobj(vec![(
        "paths",
        jobj(vec![("/x", jobj(vec![("post", jobj(vec![]))]))]),
    )]);
    let tree = build_tree(&doc).expect("tree");
    assert_eq!(tree.resources[0].name, "default");
    assert_eq!(tree.resources[0].ops[0].name, "call");
    assert_eq!(tree.resources[0].ops[0].method, "POST");
}

#[test]
fn schema_ref_resolves() {
    let doc = jobj(vec![(
        "components",
        jobj(vec![(
            "schemas",
            jobj(vec![("Thing", jobj(vec![("type", jstr("integer"))]))]),
        )]),
    )]);
    let node = jobj(vec![("$ref", jstr("#/components/schemas/Thing"))]);
    let schema = schema_from(&doc, &node, SCHEMA_DEPTH);
    assert_eq!(schema.kind, "integer");
}

#[test]
fn schema_unresolvable_ref_degrades() {
    let doc = jobj(vec![]);
    let node = jobj(vec![("$ref", jstr("#/components/schemas/Gone"))]);
    let schema = schema_from(&doc, &node, SCHEMA_DEPTH);
    assert_eq!(schema.kind, "unknown");
}

#[test]
fn schema_all_of_takes_first_branch() {
    let doc = Json::Null;
    let node = jobj(vec![(
        "allOf",
        Json::Arr(vec![
            jobj(vec![("type", jstr("string"))]),
            jobj(vec![("type", jstr("integer"))]),
        ]),
    )]);
    let schema = schema_from(&doc, &node, SCHEMA_DEPTH);
    assert_eq!(schema.kind, "string");
}

#[test]
fn schema_infers_from_shape() {
    let doc = Json::Null;
    let obj_node = jobj(vec![("properties", jobj(vec![]))]);
    assert_eq!(schema_from(&doc, &obj_node, SCHEMA_DEPTH).kind, "object");
    let arr_node = jobj(vec![("items", jobj(vec![("type", jstr("integer"))]))]);
    let schema = schema_from(&doc, &arr_node, SCHEMA_DEPTH);
    assert_eq!(schema_label(&schema), "array<integer>");
    let bare = jobj(vec![]);
    assert_eq!(schema_from(&doc, &bare, SCHEMA_DEPTH).kind, "unknown");
}

#[test]
fn schema_cycle_degrades_instead_of_looping() {
    let doc = jobj(vec![(
        "components",
        jobj(vec![(
            "schemas",
            jobj(vec![(
                "Loop",
                jobj(vec![("allOf", Json::Arr(vec![jobj(vec![(
                    "$ref",
                    jstr("#/components/schemas/Loop"),
                )])]))]),
            )]),
        )]),
    )]);
    let node = jobj(vec![("$ref", jstr("#/components/schemas/Loop"))]);
    let schema = schema_from(&doc, &node, SCHEMA_DEPTH);
    assert_eq!(schema.kind, "unknown");
}

#[test]
fn request_body_fields_sorted_and_flagged() {
    let op = jobj(vec![(
        "requestBody",
        jobj(vec![
            ("required", Json::Bool(true)),
            (
                "content",
                jobj(vec![(
                    "application/json",
                    jobj(vec![(
                        "schema",
                        jobj(vec![
                            ("type", jstr("object")),
                            (
                                "properties",
                                jobj(vec![
                                    ("b", jobj(vec![("type", jstr("string"))])),
                                    ("a", jobj(vec![("type", jstr("integer"))])),
                                ]),
                            ),
                            ("required", Json::Arr(vec![jstr("a")])),
                        ]),
                    )]),
                )]),
            ),
        ]),
    )]);
    let doc = jobj(vec![(
        "paths",
        jobj(vec![("/x", jobj(vec![("post", op)]))]),
    )]);
    let tree = build_tree(&doc).expect("tree");
    let body = tree.resources[0].ops[0].body.as_ref().expect("body");
    assert!(body.required);
    assert_eq!(body.content_type, "application/json");
    assert_eq!(body.schema.kind, "object");
    assert_eq!(body.input_fields.len(), 2);
    assert_eq!(body.input_fields[0].name, "a");
    assert_eq!(body.input_fields[0].flag, "input-a");
    assert!(body.input_fields[0].required);
    assert_eq!(body.input_fields[1].name, "b");
    assert!(!body.input_fields[1].required);
}

#[test]
fn request_body_picks_first_content_type() {
    let op = jobj(vec![(
        "requestBody",
        jobj(vec![(
            "content",
            jobj(vec![(
                "text/plain",
                jobj(vec![("schema", jobj(vec![("type", jstr("string"))]))]),
            )]),
        )]),
    )]);
    let doc = jobj(vec![(
        "paths",
        jobj(vec![("/x", jobj(vec![("put", op)]))]),
    )]);
    let tree = build_tree(&doc).expect("tree");
    let body = tree.resources[0].ops[0].body.as_ref().expect("body");
    assert!(!body.required);
    assert_eq!(body.content_type, "text/plain");
    assert_eq!(body.input_fields.len(), 0);
}

#[test]
fn json_text_compact_form() {
    let v = jobj(vec![
        ("k", Json::Arr(vec![Json::Int(1), Json::Null])),
        ("s", jstr("a\nb")),
    ]);
    assert_eq!(json_to_text(&v), "{\"k\":[1,null],\"s\":\"a\\nb\"}");
}
