//! The pretty JSON form of the graph: only graph data, no file paths, no
//! hash-map order and no toolchain or version strings.

use vstd::prelude::*;
use vstd::string::StringExecFns;
use crate::ir::json::{array_of, depth, json_view, strings, strings_view, JsonValue, JsonView};
use crate::ir::json::render_view;
use crate::ir::model::{
    IrDiagnosticView, IrEdgeView, IrEnumRepr, IrEnumReprView, IrField, IrFieldView,
    IrGenericParamView, IrGraph, IrNode, IrNodeView, IrSccView, IrTopoGroupView, IrVariant,
    IrVariantPayload, IrVariantPayloadView, IrVariantView,
};
use crate::text::push_char;

verus! {

/// An empty JSON object.
fn object() -> (r: JsonValue)
    ensures
        r is Object,
        json_view(r) == JsonView::Object(Seq::empty()),
        depth(json_view(r)) == 1,
{
    JsonValue::Object(Vec::new())
}

/// Adds the entry `key: value` to an object.
fn put(obj: &mut JsonValue, key: &str, value: JsonValue)
    requires
        *old(obj) is Object,
    ensures
        *final(obj) is Object,
        json_view(*final(obj)) == JsonView::Object(json_view(*old(obj))->Object_0.push((key@, json_view(value)))),
        depth(json_view(*final(obj))) <= if depth(json_view(*old(obj))) < 1 + depth(json_view(value)) {
            1 + depth(json_view(value))
        } else {
            depth(json_view(*old(obj)))
        },
{
    obj.push(String::from_str(key), value);
}

/// A JSON string of a text.
fn text(s: &String) -> (r: JsonValue)
    ensures
        json_view(r) == JsonView::Str(s@),
        depth(json_view(r)) == 0,
{
    JsonValue::string(s.clone())
}

/// A JSON string of a literal.
fn label(s: &str) -> (r: JsonValue)
    ensures
        json_view(r) == JsonView::Str(s@),
        depth(json_view(r)) == 0,
{
    JsonValue::string(String::from_str(s))
}

/// The JSON of a field.
pub open spec fn field_json(f: IrFieldView) -> JsonView {
    JsonView::Object(
        seq![
            ("original"@, JsonView::Str(f.original)),
            ("renamed"@, JsonView::Str(f.renamed)),
            ("serde_rename"@, JsonView::Bool(f.serde_rename)),
            ("ty"@, JsonView::Str(f.ty)),
        ],
    )
}

/// The JSON of a field list.
pub open spec fn fields_json_view(fs: Seq<IrFieldView>) -> JsonView {
    JsonView::Array(Seq::new(fs.len(), |k: int| field_json(fs[k])))
}

/// The JSON array of a field list.
pub fn fields_json(fields: &Vec<IrField>) -> (r: JsonValue)
    ensures
        json_view(r) == fields_json_view(fields.deep_view()),
        depth(json_view(r)) <= 2,
{
    let ghost fv = fields.deep_view();
    let mut items: Vec<JsonValue> = Vec::new();
    let mut k: usize = 0;
    while k < fields.len()
        invariant
            k <= fields.len(),
            fv == fields.deep_view(),
            items.len() == k,
            forall|j: int| 0 <= j < k ==> #[trigger] json_view(items@[j]) == field_json(fv[j]) && depth(json_view(items@[j])) <= 1,
        decreases fields.len() - k,
    {
        let field = &fields[k];
        assert(fv[k as int] == field@);
        let mut value = object();
        put(&mut value, "original", text(&field.original));
        put(&mut value, "renamed", text(&field.renamed));
        put(&mut value, "serde_rename", JsonValue::Bool(field.serde_rename));
        put(&mut value, "ty", text(&field.ty));
        assert(json_view(value)->Object_0 =~= field_json(fv[k as int])->Object_0);
        items.push(value);
        k = k + 1;
    }
    let ghost iv = items@;
    let r = array_of(items, Ghost(1));
    assert(json_view(r)->Array_0 =~= fields_json_view(fv)->Array_0);
    r
}

/// The JSON of a generic parameter.
pub open spec fn param_json(p: IrGenericParamView) -> JsonView {
    JsonView::Object(seq![("name"@, JsonView::Str(p.name)), ("index"@, JsonView::Number(p.index as nat))])
}

/// The JSON of an enum representation.
pub open spec fn repr_json(r: IrEnumReprView) -> JsonView {
    match r {
        IrEnumReprView::Unit => JsonView::Object(seq![("tagging"@, JsonView::Str("unit"@))]),
        IrEnumReprView::Tagged { tag, content } => JsonView::Object(
            seq![
                ("tagging"@, JsonView::Str("adjacently_tagged"@)),
                ("tag"@, JsonView::Str(tag)),
                ("content"@, JsonView::Str(content)),
            ],
        ),
    }
}

/// The JSON of an enum variant.
pub open spec fn variant_json(v: IrVariantView) -> JsonView {
    let base = seq![
        ("original"@, JsonView::Str(v.original)),
        ("renamed"@, JsonView::Str(v.renamed)),
        ("serde_rename"@, JsonView::Bool(v.serde_rename)),
    ];
    JsonView::Object(
        match v.payload {
            IrVariantPayloadView::Unit => base.push(("payload"@, JsonView::Str("unit"@))),
            IrVariantPayloadView::Tuple(ty) => base.push(("payload"@, JsonView::Str("tuple"@))).push(("payload_ty"@, JsonView::Str(ty))),
            IrVariantPayloadView::AnonymousStruct(fs) => base.push(("payload"@, JsonView::Str("anonymous_struct"@))).push(
                ("payload_fields"@, fields_json_view(fs)),
            ),
        },
    )
}

fn repr_value(repr: &IrEnumRepr) -> (r: JsonValue)
    ensures
        json_view(r) == repr_json(repr@),
        depth(json_view(r)) <= 1,
{
    let mut value = object();
    match repr {
        IrEnumRepr::Unit => {
            put(&mut value, "tagging", label("unit"));
        },
        IrEnumRepr::Tagged { tag, content } => {
            put(&mut value, "tagging", label("adjacently_tagged"));
            put(&mut value, "tag", text(tag));
            put(&mut value, "content", text(content));
        },
    }
    assert(json_view(value)->Object_0 =~= repr_json(repr@)->Object_0);
    value
}

fn variant_value(variant: &IrVariant) -> (r: JsonValue)
    ensures
        json_view(r) == variant_json(variant@),
        depth(json_view(r)) <= 3,
{
    let mut value = object();
    put(&mut value, "original", text(&variant.original));
    put(&mut value, "renamed", text(&variant.renamed));
    put(&mut value, "serde_rename", JsonValue::Bool(variant.serde_rename));
    match &variant.payload {
        IrVariantPayload::Unit => {
            put(&mut value, "payload", label("unit"));
        },
        IrVariantPayload::Tuple(ty) => {
            put(&mut value, "payload", label("tuple"));
            put(&mut value, "payload_ty", text(ty));
        },
        IrVariantPayload::AnonymousStruct(fields) => {
            put(&mut value, "payload", label("anonymous_struct"));
            put(&mut value, "payload_fields", fields_json(fields));
        },
    }
    assert(json_view(value)->Object_0 =~= variant_json(variant@)->Object_0);
    value
}

/// The JSON of a node: identity, kind, names, crate, module and generic
/// parameters, then, where present, the aliased type, the enum
/// representation, the recursion mark, the fields and the variants.
pub open spec fn node_json(n: IrNodeView) -> JsonView {
    let e0 = seq![
        ("key"@, JsonView::Str(n.key)),
        ("kind"@, JsonView::Str(n.kind.label())),
        ("original"@, JsonView::Str(n.original)),
        ("renamed"@, JsonView::Str(n.renamed)),
        ("serde_rename"@, JsonView::Bool(n.serde_rename)),
        ("crate"@, JsonView::Str(n.crate_name)),
        ("module"@, strings_view(n.module)),
        ("generic_params"@, JsonView::Array(Seq::new(n.generic_params.len(), |k: int| param_json(n.generic_params[k])))),
    ];
    let e1 = match n.aliased_type {
        Some(ty) => e0.push(("aliased_type"@, JsonView::Str(ty))),
        None => e0,
    };
    let e2 = match n.enum_repr {
        Some(r) => e1.push(("enum_repr"@, repr_json(r))),
        None => e1,
    };
    let e3 = if n.is_recursive {
        e2.push(("is_recursive"@, JsonView::Bool(true)))
    } else {
        e2
    };
    let e4 = if n.fields.len() > 0 {
        e3.push(("fields"@, fields_json_view(n.fields)))
    } else {
        e3
    };
    let e5 = if n.variants.len() > 0 {
        e4.push(("variants"@, JsonView::Array(Seq::new(n.variants.len(), |k: int| variant_json(n.variants[k])))))
    } else {
        e4
    };
    JsonView::Object(e5)
}

fn params_value(node: &IrNode) -> (r: JsonValue)
    ensures
        json_view(r) == JsonView::Array(Seq::new(node@.generic_params.len(), |k: int| param_json(node@.generic_params[k]))),
        depth(json_view(r)) <= 2,
{
    let ghost pv = node@.generic_params;
    let mut items: Vec<JsonValue> = Vec::new();
    let mut k: usize = 0;
    while k < node.generic_params.len()
        invariant
            k <= node.generic_params.len(),
            pv == node@.generic_params,
            items.len() == k,
            forall|j: int| 0 <= j < k ==> #[trigger] json_view(items@[j]) == param_json(pv[j]) && depth(json_view(items@[j])) <= 1,
        decreases node.generic_params.len() - k,
    {
        let param = &node.generic_params[k];
        assert(pv[k as int] == param@);
        let mut entry = object();
        put(&mut entry, "name", text(&param.name));
        put(&mut entry, "index", JsonValue::Number(param.index));
        assert(json_view(entry)->Object_0 =~= param_json(pv[k as int])->Object_0);
        items.push(entry);
        k = k + 1;
    }
    let r = array_of(items, Ghost(1));
    assert(json_view(r)->Array_0 =~= Seq::new(pv.len(), |k: int| param_json(pv[k])));
    r
}

fn variants_value(node: &IrNode) -> (r: JsonValue)
    ensures
        json_view(r) == JsonView::Array(Seq::new(node@.variants.len(), |k: int| variant_json(node@.variants[k]))),
        depth(json_view(r)) <= 4,
{
    let ghost vv = node@.variants;
    let mut items: Vec<JsonValue> = Vec::new();
    let mut k: usize = 0;
    while k < node.variants.len()
        invariant
            k <= node.variants.len(),
            vv == node@.variants,
            items.len() == k,
            forall|j: int| 0 <= j < k ==> #[trigger] json_view(items@[j]) == variant_json(vv[j]) && depth(json_view(items@[j])) <= 3,
        decreases node.variants.len() - k,
    {
        assert(vv[k as int] == node.variants@[k as int]@);
        items.push(variant_value(&node.variants[k]));
        k = k + 1;
    }
    let r = array_of(items, Ghost(3));
    assert(json_view(r)->Array_0 =~= Seq::new(vv.len(), |k: int| variant_json(vv[k])));
    r
}

/// The JSON object of a node.
#[verifier::rlimit(40)]
fn node_value(node: &IrNode) -> (r: JsonValue)
    ensures
        json_view(r) == node_json(node@),
        depth(json_view(r)) <= 5,
{
    let ghost n = node@;
    let mut object = object();
    put(&mut object, "key", text(&node.key));
    put(&mut object, "kind", label(node.kind.as_str()));
    put(&mut object, "original", text(&node.original));
    put(&mut object, "renamed", text(&node.renamed));
    put(&mut object, "serde_rename", JsonValue::Bool(node.serde_rename));
    put(&mut object, "crate", text(&node.crate_name));
    put(&mut object, "module", strings(&node.module));
    put(&mut object, "generic_params", params_value(node));
    let ghost e0 = seq![
        ("key"@, JsonView::Str(n.key)),
        ("kind"@, JsonView::Str(n.kind.label())),
        ("original"@, JsonView::Str(n.original)),
        ("renamed"@, JsonView::Str(n.renamed)),
        ("serde_rename"@, JsonView::Bool(n.serde_rename)),
        ("crate"@, JsonView::Str(n.crate_name)),
        ("module"@, strings_view(n.module)),
        ("generic_params"@, JsonView::Array(Seq::new(n.generic_params.len(), |k: int| param_json(n.generic_params[k])))),
    ];
    assert(json_view(object)->Object_0 =~= e0);
    let ghost e1 = match n.aliased_type {
        Some(ty) => e0.push(("aliased_type"@, JsonView::Str(ty))),
        None => e0,
    };
    if let Some(ty) = &node.aliased_type {
        put(&mut object, "aliased_type", text(ty));
    }
    assert(json_view(object)->Object_0 == e1);
    let ghost e2 = match n.enum_repr {
        Some(r) => e1.push(("enum_repr"@, repr_json(r))),
        None => e1,
    };
    if let Some(repr) = &node.enum_repr {
        put(&mut object, "enum_repr", repr_value(repr));
    }
    assert(json_view(object)->Object_0 == e2);
    let ghost e3 = if n.is_recursive {
        e2.push(("is_recursive"@, JsonView::Bool(true)))
    } else {
        e2
    };
    if node.is_recursive {
        put(&mut object, "is_recursive", JsonValue::Bool(true));
    }
    assert(json_view(object)->Object_0 == e3);
    let ghost e4 = if n.fields.len() > 0 {
        e3.push(("fields"@, fields_json_view(n.fields)))
    } else {
        e3
    };
    if node.fields.len() > 0 {
        put(&mut object, "fields", fields_json(&node.fields));
    }
    assert(json_view(object)->Object_0 == e4);
    if node.variants.len() > 0 {
        put(&mut object, "variants", variants_value(node));
    }
    object
}

/// The JSON of an edge.
pub open spec fn edge_json(e: IrEdgeView) -> JsonView {
    JsonView::Object(
        seq![
            ("from"@, JsonView::Str(e.from)),
            ("to"@, JsonView::Str(e.to)),
            ("from_module"@, strings_view(e.from_module)),
            ("to_module"@, strings_view(e.to_module)),
            ("to_original"@, JsonView::Str(e.to_original)),
            ("to_renamed"@, JsonView::Str(e.to_renamed)),
            ("site"@, JsonView::Str(e.site.label())),
            ("via_rename_reconcile"@, JsonView::Bool(e.via_rename_reconcile)),
        ],
    )
}

/// The JSON of an SCC.
pub open spec fn scc_json(c: IrSccView) -> JsonView {
    JsonView::Object(
        seq![
            ("members"@, strings_view(c.members)),
            ("edges"@, JsonView::Array(Seq::new(c.edges.len(), |k: int| JsonView::Array(seq![JsonView::Str(c.edges[k].0), JsonView::Str(c.edges[k].1)])))),
            ("induced_by_rename"@, JsonView::Bool(c.induced_by_rename)),
        ],
    )
}

/// The JSON of a topological group.
pub open spec fn group_json(g: IrTopoGroupView) -> JsonView {
    JsonView::Object(seq![("level"@, JsonView::Number(g.level as nat)), ("members"@, strings_view(g.members))])
}

/// The JSON of a diagnostic.
pub open spec fn diagnostic_json(d: IrDiagnosticView) -> JsonView {
    JsonView::Object(
        seq![("kind"@, JsonView::Str(d.kind.label())), ("message"@, JsonView::Str(d.message)), ("nodes"@, strings_view(d.nodes))],
    )
}

/// The JSON of the whole graph: nodes in key order, edges, SCCs,
/// topological groups and diagnostics.
pub open spec fn graph_json(
    nodes: Seq<IrNodeView>,
    edges: Seq<IrEdgeView>,
    sccs: Seq<IrSccView>,
    groups: Seq<IrTopoGroupView>,
    diagnostics: Seq<IrDiagnosticView>,
) -> JsonView {
    JsonView::Object(
        seq![
            ("nodes"@, JsonView::Array(Seq::new(nodes.len(), |k: int| node_json(nodes[k])))),
            ("edges"@, JsonView::Array(Seq::new(edges.len(), |k: int| edge_json(edges[k])))),
            ("sccs"@, JsonView::Array(Seq::new(sccs.len(), |k: int| scc_json(sccs[k])))),
            ("topo_groups"@, JsonView::Array(Seq::new(groups.len(), |k: int| group_json(groups[k])))),
            ("diagnostics"@, JsonView::Array(Seq::new(diagnostics.len(), |k: int| diagnostic_json(diagnostics[k])))),
        ],
    )
}

impl IrGraph {
    fn nodes_json(&self) -> (r: JsonValue)
        ensures
            json_view(r) == JsonView::Array(Seq::new(self.nodes.deep_view().len(), |k: int| node_json(self.nodes.deep_view()[k]))),
            depth(json_view(r)) <= 6,
    {
        let ghost nv = self.nodes.deep_view();
        let mut items: Vec<JsonValue> = Vec::new();
        let mut k: usize = 0;
        while k < self.nodes.len()
            invariant
                k <= self.nodes.len(),
                nv == self.nodes.deep_view(),
                items.len() == k,
                forall|j: int| 0 <= j < k ==> #[trigger] json_view(items@[j]) == node_json(nv[j]) && depth(json_view(items@[j])) <= 5,
            decreases self.nodes.len() - k,
        {
            assert(nv[k as int] == self.nodes@[k as int]@);
            items.push(node_value(&self.nodes[k]));
            k = k + 1;
        }
        let r = array_of(items, Ghost(5));
        assert(json_view(r)->Array_0 =~= Seq::new(nv.len(), |k: int| node_json(nv[k])));
        r
    }

    fn edges_json(&self) -> (r: JsonValue)
        ensures
            json_view(r) == JsonView::Array(Seq::new(self.edges.deep_view().len(), |k: int| edge_json(self.edges.deep_view()[k]))),
            depth(json_view(r)) <= 3,
    {
        let ghost ev = self.edges.deep_view();
        let mut items: Vec<JsonValue> = Vec::new();
        let mut k: usize = 0;
        while k < self.edges.len()
            invariant
                k <= self.edges.len(),
                ev == self.edges.deep_view(),
                items.len() == k,
                forall|j: int| 0 <= j < k ==> #[trigger] json_view(items@[j]) == edge_json(ev[j]) && depth(json_view(items@[j])) <= 2,
            decreases self.edges.len() - k,
        {
            let edge = &self.edges[k];
            assert(ev[k as int] == edge@);
            let mut value = object();
            put(&mut value, "from", text(&edge.from));
            put(&mut value, "to", text(&edge.to));
            put(&mut value, "from_module", strings(&edge.from_module));
            put(&mut value, "to_module", strings(&edge.to_module));
            put(&mut value, "to_original", text(&edge.to_original));
            put(&mut value, "to_renamed", text(&edge.to_renamed));
            let site = edge.site.as_label();
            put(&mut value, "site", text(&site));
            put(&mut value, "via_rename_reconcile", JsonValue::Bool(edge.via_rename_reconcile));
            assert(json_view(value)->Object_0 =~= edge_json(ev[k as int])->Object_0);
            items.push(value);
            k = k + 1;
        }
        let r = array_of(items, Ghost(2));
        assert(json_view(r)->Array_0 =~= Seq::new(ev.len(), |k: int| edge_json(ev[k])));
        r
    }

    fn sccs_json(&self) -> (r: JsonValue)
        ensures
            json_view(r) == JsonView::Array(Seq::new(self.sccs.deep_view().len(), |k: int| scc_json(self.sccs.deep_view()[k]))),
            depth(json_view(r)) <= 4,
    {
        let ghost sv = self.sccs.deep_view();
        let mut items: Vec<JsonValue> = Vec::new();
        let mut k: usize = 0;
        while k < self.sccs.len()
            invariant
                k <= self.sccs.len(),
                sv == self.sccs.deep_view(),
                items.len() == k,
                forall|j: int| 0 <= j < k ==> #[trigger] json_view(items@[j]) == scc_json(sv[j]) && depth(json_view(items@[j])) <= 3,
            decreases self.sccs.len() - k,
        {
            let scc = &self.sccs[k];
            assert(sv[k as int] == scc@);
            let ghost pv = scc.edges.deep_view();
            let mut pairs: Vec<JsonValue> = Vec::new();
            let mut e: usize = 0;
            while e < scc.edges.len()
                invariant
                    e <= scc.edges.len(),
                    pv == scc.edges.deep_view(),
                    pairs.len() == e,
                    forall|j: int| 0 <= j < e ==> #[trigger] json_view(pairs@[j]) == JsonView::Array(seq![JsonView::Str(pv[j].0), JsonView::Str(pv[j].1)])
                        && depth(json_view(pairs@[j])) <= 1,
                decreases scc.edges.len() - e,
            {
                let (from, to) = &scc.edges[e];
                assert(pv[e as int] == (from@, to@));
                let mut pair: Vec<JsonValue> = Vec::new();
                pair.push(text(from));
                pair.push(text(to));
                let value = array_of(pair, Ghost(0));
                assert(json_view(value)->Array_0 =~= seq![JsonView::Str(from@), JsonView::Str(to@)]);
                pairs.push(value);
                e = e + 1;
            }
            let edges_value = array_of(pairs, Ghost(1));
            let mut value = object();
            put(&mut value, "members", strings(&scc.members));
            put(&mut value, "edges", edges_value);
            put(&mut value, "induced_by_rename", JsonValue::Bool(scc.induced_by_rename));
            assert(json_view(edges_value)->Array_0 =~= Seq::new(pv.len(), |j: int| JsonView::Array(seq![JsonView::Str(pv[j].0), JsonView::Str(pv[j].1)])));
            assert(json_view(value)->Object_0 =~= scc_json(sv[k as int])->Object_0);
            items.push(value);
            k = k + 1;
        }
        let r = array_of(items, Ghost(3));
        assert(json_view(r)->Array_0 =~= Seq::new(sv.len(), |k: int| scc_json(sv[k])));
        r
    }

    fn topo_groups_json(&self) -> (r: JsonValue)
        ensures
            json_view(r) == JsonView::Array(Seq::new(self.topo_groups.deep_view().len(), |k: int| group_json(self.topo_groups.deep_view()[k]))),
            depth(json_view(r)) <= 3,
    {
        let ghost gv = self.topo_groups.deep_view();
        let mut items: Vec<JsonValue> = Vec::new();
        let mut k: usize = 0;
        while k < self.topo_groups.len()
            invariant
                k <= self.topo_groups.len(),
                gv == self.topo_groups.deep_view(),
                items.len() == k,
                forall|j: int| 0 <= j < k ==> #[trigger] json_view(items@[j]) == group_json(gv[j]) && depth(json_view(items@[j])) <= 2,
            decreases self.topo_groups.len() - k,
        {
            let group = &self.topo_groups[k];
            assert(gv[k as int] == group@);
            let mut value = object();
            put(&mut value, "level", JsonValue::Number(group.level));
            put(&mut value, "members", strings(&group.members));
            assert(json_view(value)->Object_0 =~= group_json(gv[k as int])->Object_0);
            items.push(value);
            k = k + 1;
        }
        let r = array_of(items, Ghost(2));
        assert(json_view(r)->Array_0 =~= Seq::new(gv.len(), |k: int| group_json(gv[k])));
        r
    }

    fn diagnostics_json(&self) -> (r: JsonValue)
        ensures
            json_view(r) == JsonView::Array(Seq::new(self.diagnostics.deep_view().len(), |k: int| diagnostic_json(self.diagnostics.deep_view()[k]))),
            depth(json_view(r)) <= 3,
    {
        let ghost dv = self.diagnostics.deep_view();
        let mut items: Vec<JsonValue> = Vec::new();
        let mut k: usize = 0;
        while k < self.diagnostics.len()
            invariant
                k <= self.diagnostics.len(),
                dv == self.diagnostics.deep_view(),
                items.len() == k,
                forall|j: int| 0 <= j < k ==> #[trigger] json_view(items@[j]) == diagnostic_json(dv[j]) && depth(json_view(items@[j])) <= 2,
            decreases self.diagnostics.len() - k,
        {
            let diagnostic = &self.diagnostics[k];
            assert(dv[k as int] == diagnostic@);
            let mut value = object();
            put(&mut value, "kind", label(diagnostic.kind.as_str()));
            put(&mut value, "message", text(&diagnostic.message));
            put(&mut value, "nodes", strings(&diagnostic.nodes));
            assert(json_view(value)->Object_0 =~= diagnostic_json(dv[k as int])->Object_0);
            items.push(value);
            k = k + 1;
        }
        let r = array_of(items, Ghost(2));
        assert(json_view(r)->Array_0 =~= Seq::new(dv.len(), |k: int| diagnostic_json(dv[k])));
        r
    }

    /// Serializes the graph to deterministic pretty JSON (two spaces per
    /// level), followed by a newline.
    pub fn to_json_pretty(&self) -> (res: String)
        ensures
            res@ == render_view(
                graph_json(
                    self.nodes.deep_view(),
                    self.edges.deep_view(),
                    self.sccs.deep_view(),
                    self.topo_groups.deep_view(),
                    self.diagnostics.deep_view(),
                ),
                0,
            ) + seq!['\n'],
    {
        let mut root = object();
        put(&mut root, "nodes", self.nodes_json());
        put(&mut root, "edges", self.edges_json());
        put(&mut root, "sccs", self.sccs_json());
        put(&mut root, "topo_groups", self.topo_groups_json());
        put(&mut root, "diagnostics", self.diagnostics_json());
        assert(json_view(root)->Object_0 =~= graph_json(
            self.nodes.deep_view(),
            self.edges.deep_view(),
            self.sccs.deep_view(),
            self.topo_groups.deep_view(),
            self.diagnostics.deep_view(),
        )->Object_0);
        let mut out = String::new();
        root.render(&mut out, 0);
        push_char(&mut out, '\n');
        out
    }
}

} // verus!
