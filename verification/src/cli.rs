//! The declarative command surface: the argument registry of one
//! operation, and the plain-text introspection views.

use vstd::prelude::*;
use vstd::string::{StrSliceExecFns, StringExecFns};
use crate::text::{texts_of, trim, trimmed};
use crate::tree::{
    field_key_text, input_field_key, label_text, schema_label, CommandTree, FieldV, Operation,
    OpV, ParamV, ResourceV, TreeV,
};

verus! {

/// One argument of the generated command surface, interpreted
/// generically by the outer argument parser.
pub struct ArgSpec {
    /// The key under which the bound value is stored.
    pub id: String,
    /// The long flag.
    pub long: String,
    /// The wording under which the value's shape is shown.
    pub value_label: String,
    /// Whether the flag may be repeated to collect a list.
    pub repeatable: bool,
    /// Whether the argument must be bound.
    pub required: bool,
}

#[verifier::ext_equal]
pub ghost struct ArgSpecV {
    pub id: Seq<char>,
    pub long: Seq<char>,
    pub value_label: Seq<char>,
    pub repeatable: bool,
    pub required: bool,
}

impl View for ArgSpec {
    type V = ArgSpecV;

    open spec fn view(&self) -> ArgSpecV {
        ArgSpecV {
            id: self.id@,
            long: self.long@,
            value_label: self.value_label@,
            repeatable: self.repeatable,
            required: self.required,
        }
    }
}

pub open spec fn specs_view(v: Vec<ArgSpec>) -> Seq<ArgSpecV> {
    Seq::new(v@.len(), |i: int| v@[i]@)
}

/// The argument one parameter contributes: keyed by the parameter's
/// name, under its flag, repeatable for the array kind.
pub open spec fn param_arg_spec(p: ParamV) -> ArgSpecV {
    ArgSpecV {
        id: p.name,
        long: p.flag,
        value_label: label_text(p.schema),
        repeatable: p.schema.kind == "array"@,
        required: p.required,
    }
}

/// The argument one body input field contributes: keyed by the field's
/// storage key, under its flag, never required on its own.
pub open spec fn field_arg_spec(f: FieldV) -> ArgSpecV {
    ArgSpecV {
        id: field_key_text(f.name),
        long: f.flag,
        value_label: label_text(f.schema),
        repeatable: f.schema.kind == "array"@,
        required: false,
    }
}

/// The raw-body argument of an operation that declares a body.
pub open spec fn body_arg_spec() -> ArgSpecV {
    ArgSpecV {
        id: "body"@,
        long: "body"@,
        value_label: "JSON"@,
        repeatable: false,
        required: false,
    }
}

/// The body-file argument of an operation that declares a body.
pub open spec fn body_file_arg_spec() -> ArgSpecV {
    ArgSpecV {
        id: "body-file"@,
        long: "body-file"@,
        value_label: "PATH"@,
        repeatable: false,
        required: false,
    }
}

/// The whole argument registry of one operation: its parameters in
/// order, and for an operation with a body the raw-body and body-file
/// arguments and one argument per input field.
pub open spec fn op_arg_specs_of(op: OpV) -> Seq<ArgSpecV> {
    op.params.map_values(|p: ParamV| param_arg_spec(p)) + (match op.body {
        Option::Some(b) => seq![body_arg_spec(), body_file_arg_spec()] + b.input_fields.map_values(
            |f: FieldV| field_arg_spec(f),
        ),
        Option::None => Seq::empty(),
    })
}

/// Builds the argument registry of one operation.
#[verifier::loop_isolation(false)]
pub fn op_arg_specs(op: &Operation) -> (r: Vec<ArgSpec>)
    ensures
        specs_view(r) == op_arg_specs_of(op@),
{
    let mut out: Vec<ArgSpec> = Vec::new();
    let n = op.params.len();
    let mut i: usize = 0;
    while i < n
        invariant
            n == op.params@.len(),
            i <= n,
            specs_view(out) == op@.params.subrange(0, i as int).map_values(
                |p: ParamV| param_arg_spec(p),
            ),
        decreases n - i,
    {
        let param = &op.params[i];
        let is_array = crate::text::str_eq(param.schema.kind.as_str(), "array");
        out.push(
            ArgSpec {
                id: param.name.clone(),
                long: param.flag.clone(),
                value_label: schema_label(&param.schema),
                repeatable: is_array,
                required: param.required,
            },
        );
        proof {
            crate::text::lemma_map_prefix_push(op@.params, |p: ParamV| param_arg_spec(p), i as int);
            assert(specs_view(out) =~~= op@.params.subrange(0, i + 1).map_values(
                |p: ParamV| param_arg_spec(p),
            ));
        }
        i += 1;
    }
    proof {
        assert(op@.params.subrange(0, n as int) =~= op@.params);
    }
    match &op.body {
        Option::None => {
            proof {
                assert(specs_view(out) =~~= op_arg_specs_of(op@));
            }
            out
        },
        Option::Some(body) => {
            out.push(
                ArgSpec {
                    id: String::from_str("body"),
                    long: String::from_str("body"),
                    value_label: String::from_str("JSON"),
                    repeatable: false,
                    required: false,
                },
            );
            out.push(
                ArgSpec {
                    id: String::from_str("body-file"),
                    long: String::from_str("body-file"),
                    value_label: String::from_str("PATH"),
                    repeatable: false,
                    required: false,
                },
            );
            let ghost base: Seq<ArgSpecV> = specs_view(out);
            let m = body.input_fields.len();
            let mut k: usize = 0;
            while k < m
                invariant
                    m == body.input_fields@.len(),
                    k <= m,
                    specs_view(out) == base + body@.input_fields.subrange(0, k as int).map_values(
                        |f: FieldV| field_arg_spec(f),
                    ),
                decreases m - k,
            {
                let field = &body.input_fields[k];
                let is_array = crate::text::str_eq(field.schema.kind.as_str(), "array");
                out.push(
                    ArgSpec {
                        id: input_field_key(field),
                        long: field.flag.clone(),
                        value_label: schema_label(&field.schema),
                        repeatable: is_array,
                        required: false,
                    },
                );
                proof {
                    crate::text::lemma_map_prefix_push(
                        body@.input_fields,
                        |f: FieldV| field_arg_spec(f),
                        k as int,
                    );
                    let img = field_arg_spec(body@.input_fields[k as int]);
                    assert(out@.last()@ =~~= img);
                    let prev = base + body@.input_fields.subrange(0, k as int).map_values(
                        |f: FieldV| field_arg_spec(f),
                    );
                    assert(specs_view(out) =~~= prev.push(img));
                    assert(prev.push(img) =~~= base + body@.input_fields.subrange(
                        0,
                        k + 1,
                    ).map_values(|f: FieldV| field_arg_spec(f)));
                }
                k += 1;
            }
            proof {
                assert(body@.input_fields.subrange(0, m as int) =~= body@.input_fields);
                assert(specs_view(out) =~~= op_arg_specs_of(op@));
            }
            out
        },
    }
}

// ----- the introspection views -----

pub open spec fn lines_view(v: Vec<String>) -> Seq<Seq<char>> {
    texts_of(v)
}

/// The listing's lines for one resource: its name, then each operation
/// name indented.
pub open spec fn resource_lines(r: ResourceV) -> Seq<Seq<char>> {
    seq![r.name] + r.ops.map_values(|o: OpV| "  "@ + o.name)
}

pub open spec fn list_fold(rs: Seq<ResourceV>, i: int) -> Seq<Seq<char>>
    decreases rs.len() - i,
{
    if i < 0 || i >= rs.len() {
        Seq::empty()
    } else {
        resource_lines(rs[i]) + list_fold(rs, i + 1)
    }
}

/// The plain listing of the whole tree: every resource's lines in tree
/// order.
pub open spec fn list_lines_of(t: TreeV) -> Seq<Seq<char>> {
    list_fold(t.resources, 0)
}

/// Renders the plain listing of resources and operations.
#[verifier::loop_isolation(false)]
pub fn list_lines(tree: &CommandTree) -> (r: Vec<String>)
    ensures
        lines_view(r) == list_lines_of(tree@),
{
    let mut out: Vec<String> = Vec::new();
    let n = tree.resources.len();
    let mut i: usize = 0;
    proof {
        assert(Seq::<Seq<char>>::empty() + list_fold(tree@.resources, 0) =~= list_fold(
            tree@.resources,
            0,
        ));
        assert(lines_view(out) =~= Seq::<Seq<char>>::empty());
    }
    while i < n
        invariant
            n == tree.resources@.len(),
            i <= n,
            list_fold(tree@.resources, 0) == lines_view(out) + list_fold(
                tree@.resources,
                i as int,
            ),
        decreases n - i,
    {
        let rsc = &tree.resources[i];
        proof {
            assert(rsc@ == tree@.resources[i as int]);
        }
        let ghost pre: Seq<Seq<char>> = lines_view(out);
        let mut name = String::new();
        name.append(rsc.name.as_str());
        proof {
            assert(name@ =~= rsc@.name);
        }
        out.push(name);
        let m = rsc.ops.len();
        let mut k: usize = 0;
        proof {
            assert(lines_view(out) =~~= pre + seq![rsc@.name] + rsc@.ops.subrange(
                0,
                0,
            ).map_values(|o: OpV| "  "@ + o.name));
        }
        while k < m
            invariant
                m == rsc.ops@.len(),
                k <= m,
                rsc == tree.resources@[i as int],
                i < n,
                lines_view(out) == pre + seq![rsc@.name] + rsc@.ops.subrange(0, k as int)
                    .map_values(|o: OpV| "  "@ + o.name),
            decreases m - k,
        {
            let mut line = String::from_str("  ");
            line.append(rsc.ops[k].name.as_str());
            out.push(line);
            proof {
                crate::text::lemma_map_prefix_push(rsc@.ops, |o: OpV| "  "@ + o.name, k as int);
                let img = "  "@ + rsc@.ops[k as int].name;
                let prev = pre + seq![rsc@.name] + rsc@.ops.subrange(0, k as int).map_values(
                    |o: OpV| "  "@ + o.name,
                );
                assert(lines_view(out) =~~= prev.push(img));
                assert(prev.push(img) =~~= pre + seq![rsc@.name] + rsc@.ops.subrange(
                    0,
                    k + 1,
                ).map_values(|o: OpV| "  "@ + o.name));
            }
            k += 1;
        }
        proof {
            assert(rsc@.ops.subrange(0, m as int) =~= rsc@.ops);
            assert(lines_view(out) =~~= pre + resource_lines(tree@.resources[i as int]));
            assert(pre + resource_lines(tree@.resources[i as int]) + list_fold(
                tree@.resources,
                i + 1,
            ) =~~= pre + (resource_lines(tree@.resources[i as int]) + list_fold(
                tree@.resources,
                i + 1,
            )));
        }
        i += 1;
    }
    out
}

/// The lines describing one operation: the heading, method and path,
/// the summary where one with visible text is declared, the parameters
/// with their flags, shapes and locations, and the body's content type
/// and input-field flags where a body is declared.
pub open spec fn describe_lines_of(resource: Seq<char>, op: OpV) -> Seq<Seq<char>> {
    seq![resource + " "@ + op.name, "  method: "@ + op.method, "  path: "@ + op.path] + (match op
        .summary {
        Option::Some(s) => if trimmed(s).len() > 0 {
            seq!["  summary: "@ + trimmed(s)]
        } else {
            Seq::empty()
        },
        Option::None => Seq::<Seq<char>>::empty(),
    }) + (if op.params.len() > 0 {
        seq!["  params:"@] + op.params.map_values(
            |p: ParamV| "    --"@ + p.flag + "  "@ + p.schema.kind + " ("@ + p.location + ")"@,
        )
    } else {
        Seq::<Seq<char>>::empty()
    }) + (match op.body {
        Option::Some(b) => seq!["  body: "@ + b.content_type] + (if b.input_fields.len() > 0 {
            seq!["  body fields:"@] + b.input_fields.map_values(
                |f: FieldV| "    --"@ + f.flag + "  "@ + f.schema.kind,
            )
        } else {
            Seq::<Seq<char>>::empty()
        }),
        Option::None => Seq::<Seq<char>>::empty(),
    })
}

/// Renders the description of one operation.
#[verifier::loop_isolation(false)]
pub fn describe_lines(resource: &str, op: &Operation) -> (r: Vec<String>)
    ensures
        lines_view(r) == describe_lines_of(resource@, op@),
{
    let mut out: Vec<String> = Vec::new();

    let mut heading = String::new();
    heading.append(resource);
    heading.append(" ");
    heading.append(op.name.as_str());
    proof {
        assert(heading@ =~= resource@ + " "@ + op@.name);
    }
    out.push(heading);

    let mut method_line = String::from_str("  method: ");
    method_line.append(op.method.as_str());
    out.push(method_line);

    let mut path_line = String::from_str("  path: ");
    path_line.append(op.path.as_str());
    out.push(path_line);

    match &op.summary {
        Option::Some(s) => {
            let t = trim(s.as_str());
            if t.as_str().unicode_len() > 0 {
                let mut line = String::from_str("  summary: ");
                line.append(t.as_str());
                out.push(line);
            }
        },
        Option::None => {},
    }
    let ghost head: Seq<Seq<char>> = lines_view(out);
    proof {
        assert(head =~~= seq![
            resource@ + " "@ + op@.name,
            "  method: "@ + op@.method,
            "  path: "@ + op@.path,
        ] + (match op@.summary {
            Option::Some(s) => if trimmed(s).len() > 0 {
                seq!["  summary: "@ + trimmed(s)]
            } else {
                Seq::<Seq<char>>::empty()
            },
            Option::None => Seq::<Seq<char>>::empty(),
        }));
    }

    let n = op.params.len();
    if n > 0 {
        out.push(String::from_str("  params:"));
        let mut i: usize = 0;
        proof {
            assert(lines_view(out) =~~= head + seq!["  params:"@] + op@.params.subrange(
                0,
                0,
            ).map_values(
                |p: ParamV| "    --"@ + p.flag + "  "@ + p.schema.kind + " ("@ + p.location
                    + ")"@,
            ));
        }
        while i < n
            invariant
                n == op.params@.len(),
                n > 0,
                i <= n,
                lines_view(out) == head + seq!["  params:"@] + op@.params.subrange(0, i as int)
                    .map_values(
                    |p: ParamV| "    --"@ + p.flag + "  "@ + p.schema.kind + " ("@ + p.location
                        + ")"@,
                ),
            decreases n - i,
        {
            let param = &op.params[i];
            let mut line = String::from_str("    --");
            line.append(param.flag.as_str());
            line.append("  ");
            line.append(param.schema.kind.as_str());
            line.append(" (");
            line.append(param.location.as_str());
            line.append(")");
            out.push(line);
            proof {
                crate::text::lemma_map_prefix_push(
                    op@.params,
                    |p: ParamV| "    --"@ + p.flag + "  "@ + p.schema.kind + " ("@ + p.location
                        + ")"@,
                    i as int,
                );
                let pv = op@.params[i as int];
                let img = "    --"@ + pv.flag + "  "@ + pv.schema.kind + " ("@ + pv.location
                    + ")"@;
                let prev = head + seq!["  params:"@] + op@.params.subrange(0, i as int)
                    .map_values(
                    |p: ParamV| "    --"@ + p.flag + "  "@ + p.schema.kind + " ("@ + p.location
                        + ")"@,
                );
                assert(lines_view(out) =~~= prev.push(img));
                assert(prev.push(img) =~~= head + seq!["  params:"@] + op@.params.subrange(
                    0,
                    i + 1,
                ).map_values(
                    |p: ParamV| "    --"@ + p.flag + "  "@ + p.schema.kind + " ("@ + p.location
                        + ")"@,
                ));
            }
            i += 1;
        }
        proof {
            assert(op@.params.subrange(0, n as int) =~= op@.params);
        }
    }
    let ghost with_params: Seq<Seq<char>> = lines_view(out);
    proof {
        assert(with_params =~~= head + (if op@.params.len() > 0 {
            seq!["  params:"@] + op@.params.map_values(
                |p: ParamV| "    --"@ + p.flag + "  "@ + p.schema.kind + " ("@ + p.location
                    + ")"@,
            )
        } else {
            Seq::<Seq<char>>::empty()
        }));
    }

    match &op.body {
        Option::Some(body) => {
            let mut line = String::from_str("  body: ");
            line.append(body.content_type.as_str());
            out.push(line);
            let m = body.input_fields.len();
            if m > 0 {
                out.push(String::from_str("  body fields:"));
                let ghost base: Seq<Seq<char>> = lines_view(out);
                let mut k: usize = 0;
                proof {
                    assert(base =~~= with_params + seq!["  body: "@ + body@.content_type] + seq![
                        "  body fields:"@,
                    ]);
                }
                while k < m
                    invariant
                        m == body.input_fields@.len(),
                        k <= m,
                        lines_view(out) == base + body@.input_fields.subrange(0, k as int)
                            .map_values(|f: FieldV| "    --"@ + f.flag + "  "@ + f.schema.kind),
                    decreases m - k,
                {
                    let field = &body.input_fields[k];
                    let mut fl = String::from_str("    --");
                    fl.append(field.flag.as_str());
                    fl.append("  ");
                    fl.append(field.schema.kind.as_str());
                    out.push(fl);
                    proof {
                        crate::text::lemma_map_prefix_push(
                            body@.input_fields,
                            |f: FieldV| "    --"@ + f.flag + "  "@ + f.schema.kind,
                            k as int,
                        );
                        let fv = body@.input_fields[k as int];
                        let img = "    --"@ + fv.flag + "  "@ + fv.schema.kind;
                        let prev = base + body@.input_fields.subrange(0, k as int).map_values(
                            |f: FieldV| "    --"@ + f.flag + "  "@ + f.schema.kind,
                        );
                        assert(lines_view(out) =~~= prev.push(img));
                        assert(prev.push(img) =~~= base + body@.input_fields.subrange(
                            0,
                            k + 1,
                        ).map_values(|f: FieldV| "    --"@ + f.flag + "  "@ + f.schema.kind));
                    }
                    k += 1;
                }
                proof {
                    assert(body@.input_fields.subrange(0, m as int) =~= body@.input_fields);
                    assert(lines_view(out) =~~= describe_lines_of(resource@, op@));
                }
            } else {
                proof {
                    assert(lines_view(out) =~~= describe_lines_of(resource@, op@));
                }
            }
        },
        Option::None => {
            proof {
                assert(lines_view(out) =~~= describe_lines_of(resource@, op@));
            }
        },
    }
    out
}

} // verus!
