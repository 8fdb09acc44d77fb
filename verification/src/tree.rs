//! The compiled command tree: the immutable artifact the compiler writes
//! and the runtime consults.

use vstd::prelude::*;
use crate::text::str_eq;

verus! {

/// The compiled, versioned description of the whole command surface.
#[derive(Debug)]
pub struct CommandTree {
    pub version: String,
    pub base_path: String,
    pub resources: Vec<Resource>,
}

/// A named group of operations sharing a category tag.
#[derive(Debug)]
pub struct Resource {
    pub name: String,
    pub ops: Vec<Operation>,
}

/// One HTTP method and path endpoint with its parameter and body shape.
#[derive(Debug)]
pub struct Operation {
    pub name: String,
    pub method: String,
    pub path: String,
    pub summary: Option<String>,
    pub description: Option<String>,
    pub params: Vec<ParamDef>,
    pub body: Option<BodyDef>,
}

/// One parameter of an operation, keyed by location and name.
#[derive(Debug)]
pub struct ParamDef {
    pub name: String,
    pub flag: String,
    pub location: String,
    pub required: bool,
    pub schema: SchemaDef,
}

/// The request payload an operation declares, if any.
#[derive(Debug)]
pub struct BodyDef {
    pub required: bool,
    pub content_type: String,
    pub schema: SchemaDef,
    pub input_fields: Vec<InputField>,
}

/// One property of an object-shaped body, flattened into a flag.
#[derive(Debug)]
pub struct InputField {
    pub name: String,
    pub flag: String,
    pub required: bool,
    pub schema: SchemaDef,
}

/// The normalized type shape of a parameter or body: a kind, and for
/// arrays the element's shape.
#[derive(Debug)]
pub struct SchemaDef {
    pub kind: String,
    pub item: Option<Box<SchemaDef>>,
}

// ----- the mathematical models -----

#[verifier::ext_equal]
pub ghost struct SchemaV {
    pub kind: Seq<char>,
    pub item: Option<Box<SchemaV>>,
}

#[verifier::ext_equal]
pub ghost struct ParamV {
    pub name: Seq<char>,
    pub flag: Seq<char>,
    pub location: Seq<char>,
    pub required: bool,
    pub schema: SchemaV,
}

#[verifier::ext_equal]
pub ghost struct FieldV {
    pub name: Seq<char>,
    pub flag: Seq<char>,
    pub required: bool,
    pub schema: SchemaV,
}

#[verifier::ext_equal]
pub ghost struct BodyV {
    pub required: bool,
    pub content_type: Seq<char>,
    pub schema: SchemaV,
    pub input_fields: Seq<FieldV>,
}

#[verifier::ext_equal]
pub ghost struct OpV {
    pub name: Seq<char>,
    pub method: Seq<char>,
    pub path: Seq<char>,
    pub summary: Option<Seq<char>>,
    pub description: Option<Seq<char>>,
    pub params: Seq<ParamV>,
    pub body: Option<BodyV>,
}

#[verifier::ext_equal]
pub ghost struct ResourceV {
    pub name: Seq<char>,
    pub ops: Seq<OpV>,
}

#[verifier::ext_equal]
pub ghost struct TreeV {
    pub version: Seq<char>,
    pub base_path: Seq<char>,
    pub resources: Seq<ResourceV>,
}

impl View for SchemaDef {
    type V = SchemaV;

    open spec fn view(&self) -> SchemaV
        decreases self,
    {
        SchemaV {
            kind: self.kind@,
            item: match self.item {
                Option::Some(b) => Option::Some(Box::new((*b)@)),
                Option::None => Option::None,
            },
        }
    }
}

impl View for ParamDef {
    type V = ParamV;

    open spec fn view(&self) -> ParamV {
        ParamV {
            name: self.name@,
            flag: self.flag@,
            location: self.location@,
            required: self.required,
            schema: self.schema@,
        }
    }
}

impl View for InputField {
    type V = FieldV;

    open spec fn view(&self) -> FieldV {
        FieldV {
            name: self.name@,
            flag: self.flag@,
            required: self.required,
            schema: self.schema@,
        }
    }
}

impl View for BodyDef {
    type V = BodyV;

    open spec fn view(&self) -> BodyV {
        BodyV {
            required: self.required,
            content_type: self.content_type@,
            schema: self.schema@,
            input_fields: Seq::new(self.input_fields@.len(), |i: int| self.input_fields@[i]@),
        }
    }
}

impl View for Operation {
    type V = OpV;

    open spec fn view(&self) -> OpV {
        OpV {
            name: self.name@,
            method: self.method@,
            path: self.path@,
            summary: match self.summary {
                Option::Some(ref s) => Option::Some(s@),
                Option::None => Option::None,
            },
            description: match self.description {
                Option::Some(ref s) => Option::Some(s@),
                Option::None => Option::None,
            },
            params: Seq::new(self.params@.len(), |i: int| self.params@[i]@),
            body: match self.body {
                Option::Some(ref b) => Option::Some(b@),
                Option::None => Option::None,
            },
        }
    }
}

impl View for Resource {
    type V = ResourceV;

    open spec fn view(&self) -> ResourceV {
        ResourceV {
            name: self.name@,
            ops: Seq::new(self.ops@.len(), |i: int| self.ops@[i]@),
        }
    }
}

impl View for CommandTree {
    type V = TreeV;

    open spec fn view(&self) -> TreeV {
        TreeV {
            version: self.version@,
            base_path: self.base_path@,
            resources: Seq::new(self.resources@.len(), |i: int| self.resources@[i]@),
        }
    }
}

// ----- looking one operation up -----

/// The first resource of the given name, if any.
pub open spec fn find_resource(rs: Seq<ResourceV>, name: Seq<char>) -> Option<ResourceV>
    decreases rs.len(),
{
    if rs.len() == 0 {
        Option::None
    } else if rs[0].name == name {
        Option::Some(rs[0])
    } else {
        find_resource(rs.drop_first(), name)
    }
}

/// The first operation of the given name, if any.
pub open spec fn find_operation(ops: Seq<OpV>, name: Seq<char>) -> Option<OpV>
    decreases ops.len(),
{
    if ops.len() == 0 {
        Option::None
    } else if ops[0].name == name {
        Option::Some(ops[0])
    } else {
        find_operation(ops.drop_first(), name)
    }
}

/// The operation a resource name and an operation name select.
pub open spec fn tree_find_op(t: TreeV, res: Seq<char>, op: Seq<char>) -> Option<OpV> {
    match find_resource(t.resources, res) {
        Option::Some(r) => find_operation(r.ops, op),
        Option::None => Option::None,
    }
}

proof fn lemma_find_resource_skip(rs: Seq<ResourceV>, name: Seq<char>, i: int)
    requires
        0 <= i <= rs.len(),
        forall|j: int| 0 <= j < i ==> (#[trigger] rs[j]).name != name,
    ensures
        find_resource(rs, name) == find_resource(rs.subrange(i, rs.len() as int), name),
    decreases i,
{
    if i == 0 {
        assert(rs.subrange(0, rs.len() as int) =~= rs);
    } else {
        assert(rs.len() > 0 && rs[0].name != name);
        lemma_find_resource_skip(rs.drop_first(), name, i - 1);
        assert(rs.drop_first().subrange(i - 1, rs.drop_first().len() as int) =~= rs.subrange(
            i,
            rs.len() as int,
        ));
    }
}

proof fn lemma_find_operation_skip(ops: Seq<OpV>, name: Seq<char>, i: int)
    requires
        0 <= i <= ops.len(),
        forall|j: int| 0 <= j < i ==> (#[trigger] ops[j]).name != name,
    ensures
        find_operation(ops, name) == find_operation(ops.subrange(i, ops.len() as int), name),
    decreases i,
{
    if i == 0 {
        assert(ops.subrange(0, ops.len() as int) =~= ops);
    } else {
        assert(ops.len() > 0 && ops[0].name != name);
        lemma_find_operation_skip(ops.drop_first(), name, i - 1);
        assert(ops.drop_first().subrange(i - 1, ops.drop_first().len() as int) =~= ops.subrange(
            i,
            ops.len() as int,
        ));
    }
}

/// Selects the operation named `op` of the resource named `res`: the
/// first of each in tree order.
#[verifier::loop_isolation(false)]
pub fn find_op<'a>(tree: &'a CommandTree, res: &str, op: &str) -> (r: Option<&'a Operation>)
    ensures
        match r {
            Option::Some(o) => tree_find_op(tree@, res@, op@) == Option::Some(o@),
            Option::None => tree_find_op(tree@, res@, op@) is None,
        },
{
    let n = tree.resources.len();
    let mut i: usize = 0;
    while i < n
        invariant
            n == tree.resources@.len(),
            i <= n,
            forall|j: int| 0 <= j < i ==> (#[trigger] tree@.resources[j]).name != res@,
        decreases n - i,
    {
        let rsc = &tree.resources[i];
        if str_eq(rsc.name.as_str(), res) {
            proof {
                lemma_find_resource_skip(tree@.resources, res@, i as int);
                assert(tree@.resources.subrange(i as int, n as int)[0] == tree@.resources[
                    i as int
                ]);
                assert(find_resource(tree@.resources, res@) == Option::Some(
                    tree@.resources[i as int],
                ));
            }
            let m = rsc.ops.len();
            let mut k: usize = 0;
            while k < m
                invariant
                    m == rsc.ops@.len(),
                    k <= m,
                    rsc == tree.resources@[i as int],
                    i < n,
                    find_resource(tree@.resources, res@) == Option::Some(
                        tree@.resources[i as int],
                    ),
                    forall|j: int| 0 <= j < k ==> (#[trigger] rsc@.ops[j]).name != op@,
                decreases m - k,
            {
                let o = &rsc.ops[k];
                if str_eq(o.name.as_str(), op) {
                    proof {
                        lemma_find_operation_skip(rsc@.ops, op@, k as int);
                        assert(rsc@.ops.subrange(k as int, m as int)[0] == rsc@.ops[k as int]);
                    }
                    return Some(o);
                }
                k += 1;
            }
            proof {
                lemma_find_operation_skip(rsc@.ops, op@, m as int);
                assert(rsc@.ops.subrange(m as int, m as int).len() == 0);
            }
            return None;
        }
        i += 1;
    }
    proof {
        lemma_find_resource_skip(tree@.resources, res@, n as int);
        assert(tree@.resources.subrange(n as int, n as int).len() == 0);
    }
    None
}

/// The wording under which a schema shape is shown: its kind, an array
/// with its element kind spelled out.
pub open spec fn label_text(s: SchemaV) -> Seq<char> {
    if s.kind == "array"@ {
        "array<"@ + (match s.item {
            Option::Some(b) => b.kind,
            Option::None => "unknown"@,
        }) + ">"@
    } else {
        s.kind
    }
}

/// Labels a schema shape for display.
pub fn schema_label(schema: &SchemaDef) -> (r: String)
    ensures
        r@ == label_text(schema@),
{
    if str_eq(schema.kind.as_str(), "array") {
        let item_kind: &str = match &schema.item {
            Option::Some(b) => {
                proof {
                    assert(schema.item == Option::Some(*b));
                    assert(schema@.item == Option::Some(Box::new((**b)@)));
                    assert(Box::new((**b)@).kind == (**b)@.kind);
                }
                b.kind.as_str()
            },
            Option::None => "unknown",
        };
        proof {
            assert(item_kind@ == match schema@.item {
                Option::Some(bx) => bx.kind,
                Option::None => "unknown"@,
            });
        }
        let mut s = String::from_str("array<");
        s.append(item_kind);
        s.append(">");
        proof {
            assert(s@ =~= label_text(schema@));
        }
        s
    } else {
        let mut s = String::new();
        s.append(schema.kind.as_str());
        proof {
            assert(s@ =~= label_text(schema@));
        }
        s
    }
}

/// The key under which a body input field's bound value is stored.
pub open spec fn field_key_text(name: Seq<char>) -> Seq<char> {
    "body__"@ + name
}

/// The argument key of a body input field.
pub fn input_field_key(field: &InputField) -> (r: String)
    ensures
        r@ == field_key_text(field.name@),
{
    let mut s = String::from_str("body__");
    s.append(field.name.as_str());
    s
}

} // verus!
