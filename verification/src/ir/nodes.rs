//! Graph nodes built from parsed declarations.

use vstd::prelude::*;
use crate::input::{
    type_display, ParsedData, RustConst, RustEnum, RustEnumVariant, RustField, RustStruct,
    RustTypeAlias,
};
use crate::ir::model::{
    field_view, IrEnumRepr, IrEnumReprView, IrField, IrFieldView, IrGenericParam,
    IrGenericParamView, IrNode, IrNodeKind, IrNodeView, IrVariant, IrVariantPayload,
    IrVariantPayloadView, IrVariantView,
};
use crate::text::{clone_strings, compare_str, join_strings, lemma_lex_order_basics, lemma_lex_order_trans, lex_order, seq_join};

verus! {

/// Stable graph key: crate name, module path and original name joined by
/// `::`.
pub open spec fn key_of(crate_name: Seq<char>, module: Seq<Seq<char>>, original: Seq<char>) -> Seq<char> {
    seq_join(seq![crate_name] + module + seq![original], "::"@)
}

/// Builds the stable graph key of a declaration.
pub fn make_key(crate_name: &str, module: &Vec<String>, original: &str) -> (res: String)
    ensures
        res@ == key_of(crate_name@, module.deep_view(), original@),
{
    let mut parts: Vec<String> = Vec::new();
    parts.push(crate_name.to_owned());
    let mut i: usize = 0;
    while i < module.len()
        invariant
            i <= module.len(),
            parts.len() == i + 1,
            parts.deep_view()[0] == crate_name@,
            forall|j: int| 0 <= j < i ==> parts@[j + 1]@ == #[trigger] module.deep_view()[j],
        decreases module.len() - i,
    {
        let item = module[i].clone();
        parts.push(item);
        assert(parts@[i + 1]@ == module.deep_view()[i as int]);
        i = i + 1;
    }
    parts.push(original.to_owned());
    assert forall|j: int| 0 <= j < parts.len() implies #[trigger] parts.deep_view()[j] == (seq![crate_name@] + module.deep_view() + seq![original@])[j] by {
        if 0 < j < parts.len() - 1 {
            assert(parts@[(j - 1) + 1]@ == module.deep_view()[j - 1]);
        }
    }
    assert(parts.deep_view() =~= seq![crate_name@] + module.deep_view() + seq![original@]);
    join_strings(&parts, "::")
}

/// Generic parameters with their declaration indices.
pub open spec fn generic_params_view(names: Seq<Seq<char>>) -> Seq<IrGenericParamView> {
    Seq::new(names.len(), |i: int| IrGenericParamView { name: names[i], index: i as usize })
}

/// Numbers the declared generic parameters in order.
pub fn make_generic_params(names: &Vec<String>) -> (res: Vec<IrGenericParam>)
    ensures
        res.deep_view() == generic_params_view(names.deep_view()),
{
    let mut res: Vec<IrGenericParam> = Vec::new();
    let mut i: usize = 0;
    while i < names.len()
        invariant
            i <= names.len(),
            res.len() == i,
            res.deep_view() =~= generic_params_view(names.deep_view()).take(i as int),
        decreases names.len() - i,
    {
        let param = IrGenericParam { name: names[i].clone(), index: i };
        res.push(param);
        assert(res.deep_view()[i as int] == generic_params_view(names.deep_view())[i as int]);
        i = i + 1;
    }
    assert(generic_params_view(names.deep_view()).take(names.len() as int) =~= generic_params_view(
        names.deep_view(),
    ));
    res
}

/// The fields a list of parsed fields becomes.
pub open spec fn fields_view(fields: Seq<RustField>) -> Seq<IrFieldView> {
    Seq::new(fields.len(), |i: int| field_view(fields[i]))
}

fn convert_fields(fields: &Vec<RustField>) -> (res: Vec<IrField>)
    ensures
        res.deep_view() == fields_view(fields@),
{
    let mut res: Vec<IrField> = Vec::new();
    let mut i: usize = 0;
    while i < fields.len()
        invariant
            i <= fields.len(),
            res.len() == i,
            res.deep_view() =~= fields_view(fields@).take(i as int),
        decreases fields.len() - i,
    {
        let field = IrField::from(&fields[i]);
        res.push(field);
        assert(res.deep_view()[i as int] == fields_view(fields@)[i as int]);
        i = i + 1;
    }
    assert(fields_view(fields@).take(fields.len() as int) =~= fields_view(fields@));
    res
}

/// The variant a parsed enum variant becomes.
pub open spec fn variant_view(variant: RustEnumVariant) -> IrVariantView {
    let id = variant.spec_shared().id;
    IrVariantView {
        original: id.original@,
        renamed: id.renamed@,
        serde_rename: id.serde_rename,
        payload: match variant {
            RustEnumVariant::Unit(_) => IrVariantPayloadView::Unit,
            RustEnumVariant::Tuple { ty, .. } => IrVariantPayloadView::Tuple(type_display(ty)),
            RustEnumVariant::AnonymousStruct { fields, .. } => IrVariantPayloadView::AnonymousStruct(
                fields_view(fields@),
            ),
        },
    }
}

/// Converts a parsed enum variant.
pub fn variant_ir(variant: &RustEnumVariant) -> (res: IrVariant)
    ensures
        res@ == variant_view(*variant),
{
    let shared = variant.shared();
    let payload = match variant {
        RustEnumVariant::Unit(_) => IrVariantPayload::Unit,
        RustEnumVariant::Tuple { ty, .. } => IrVariantPayload::Tuple(ty.display()),
        RustEnumVariant::AnonymousStruct { fields, .. } => IrVariantPayload::AnonymousStruct(
            convert_fields(fields),
        ),
    };
    IrVariant {
        original: shared.id.original.clone(),
        renamed: shared.id.renamed.clone(),
        serde_rename: shared.id.serde_rename,
        payload,
    }
}

/// The variants a list of parsed variants becomes.
pub open spec fn variants_view(variants: Seq<RustEnumVariant>) -> Seq<IrVariantView> {
    Seq::new(variants.len(), |i: int| variant_view(variants[i]))
}

fn convert_variants(variants: &Vec<RustEnumVariant>) -> (res: Vec<IrVariant>)
    ensures
        res.deep_view() == variants_view(variants@),
{
    let mut res: Vec<IrVariant> = Vec::new();
    let mut i: usize = 0;
    while i < variants.len()
        invariant
            i <= variants.len(),
            res.len() == i,
            res.deep_view() =~= variants_view(variants@).take(i as int),
        decreases variants.len() - i,
    {
        let variant = variant_ir(&variants[i]);
        res.push(variant);
        assert(res.deep_view()[i as int] == variants_view(variants@)[i as int]);
        i = i + 1;
    }
    assert(variants_view(variants@).take(variants.len() as int) =~= variants_view(variants@));
    res
}

/// The node of a type alias.
pub open spec fn alias_node(crate_name: Seq<char>, item: RustTypeAlias, order: usize) -> IrNodeView {
    IrNodeView {
        key: key_of(crate_name, item.module.deep_view(), item.id.original@),
        original: item.id.original@,
        renamed: item.id.renamed@,
        serde_rename: item.id.serde_rename,
        crate_name,
        module: item.module.deep_view(),
        kind: IrNodeKind::Alias,
        generic_params: generic_params_view(item.generic_types.deep_view()),
        fields: Seq::empty(),
        variants: Seq::empty(),
        aliased_type: Some(type_display(item.ty)),
        enum_repr: None,
        is_recursive: false,
        source_order: order,
    }
}

/// The node of a struct.
pub open spec fn struct_node(crate_name: Seq<char>, item: RustStruct, order: usize) -> IrNodeView {
    IrNodeView {
        key: key_of(crate_name, item.module.deep_view(), item.id.original@),
        original: item.id.original@,
        renamed: item.id.renamed@,
        serde_rename: item.id.serde_rename,
        crate_name,
        module: item.module.deep_view(),
        kind: IrNodeKind::Struct,
        generic_params: generic_params_view(item.generic_types.deep_view()),
        fields: fields_view(item.fields@),
        variants: Seq::empty(),
        aliased_type: None,
        enum_repr: None,
        is_recursive: false,
        source_order: order,
    }
}

/// The representation of an enum.
pub open spec fn enum_repr_view(item: RustEnum) -> IrEnumReprView {
    match item {
        RustEnum::Unit(_) => IrEnumReprView::Unit,
        RustEnum::Algebraic { tag_key, content_key, .. } => IrEnumReprView::Tagged {
            tag: tag_key@,
            content: content_key@,
        },
    }
}

/// The node of an enum.
pub open spec fn enum_node(crate_name: Seq<char>, item: RustEnum, order: usize) -> IrNodeView {
    let shared = item.spec_shared();
    IrNodeView {
        key: key_of(crate_name, shared.module.deep_view(), shared.id.original@),
        original: shared.id.original@,
        renamed: shared.id.renamed@,
        serde_rename: shared.id.serde_rename,
        crate_name,
        module: shared.module.deep_view(),
        kind: IrNodeKind::Enum,
        generic_params: generic_params_view(shared.generic_types.deep_view()),
        fields: Seq::empty(),
        variants: variants_view(shared.variants@),
        aliased_type: None,
        enum_repr: Some(enum_repr_view(item)),
        is_recursive: shared.is_recursive,
        source_order: order,
    }
}

/// The node of a const.
pub open spec fn const_node(crate_name: Seq<char>, item: RustConst, order: usize) -> IrNodeView {
    IrNodeView {
        key: key_of(crate_name, item.module.deep_view(), item.id.original@),
        original: item.id.original@,
        renamed: item.id.renamed@,
        serde_rename: item.id.serde_rename,
        crate_name,
        module: item.module.deep_view(),
        kind: IrNodeKind::Const,
        generic_params: Seq::empty(),
        fields: Seq::empty(),
        variants: Seq::empty(),
        aliased_type: Some(type_display(item.ty)),
        enum_repr: None,
        is_recursive: false,
        source_order: order,
    }
}

/// Builds the node of a type alias.
pub fn node_from_alias(crate_name: &str, item: &RustTypeAlias, source_order: usize) -> (res: IrNode)
    ensures
        res@ == alias_node(crate_name@, *item, source_order),
{
    let res = IrNode {
        key: make_key(crate_name, &item.module, item.id.original.as_str()),
        original: item.id.original.clone(),
        renamed: item.id.renamed.clone(),
        serde_rename: item.id.serde_rename,
        crate_name: crate_name.to_owned(),
        module: clone_strings(&item.module),
        kind: IrNodeKind::Alias,
        generic_params: make_generic_params(&item.generic_types),
        fields: Vec::new(),
        variants: Vec::new(),
        aliased_type: Some(item.ty.display()),
        enum_repr: None,
        is_recursive: false,
        source_order,
    };
    assert(res.fields.deep_view() =~= Seq::<IrFieldView>::empty());
    assert(res.variants.deep_view() =~= Seq::<IrVariantView>::empty());
    res
}

/// Builds the node of a struct.
pub fn node_from_struct(crate_name: &str, item: &RustStruct, source_order: usize) -> (res: IrNode)
    ensures
        res@ == struct_node(crate_name@, *item, source_order),
{
    let res = IrNode {
        key: make_key(crate_name, &item.module, item.id.original.as_str()),
        original: item.id.original.clone(),
        renamed: item.id.renamed.clone(),
        serde_rename: item.id.serde_rename,
        crate_name: crate_name.to_owned(),
        module: clone_strings(&item.module),
        kind: IrNodeKind::Struct,
        generic_params: make_generic_params(&item.generic_types),
        fields: convert_fields(&item.fields),
        variants: Vec::new(),
        aliased_type: None,
        enum_repr: None,
        is_recursive: false,
        source_order,
    };
    assert(res.variants.deep_view() =~= Seq::<IrVariantView>::empty());
    res
}

/// Builds the node of an enum.
pub fn node_from_enum(crate_name: &str, item: &RustEnum, source_order: usize) -> (res: IrNode)
    ensures
        res@ == enum_node(crate_name@, *item, source_order),
{
    let shared = item.shared();
    let (enum_repr, variants) = match item {
        RustEnum::Unit(_) => (IrEnumRepr::Unit, convert_variants(&shared.variants)),
        RustEnum::Algebraic { tag_key, content_key, .. } => (
            IrEnumRepr::Tagged { tag: tag_key.clone(), content: content_key.clone() },
            convert_variants(&shared.variants),
        ),
    };
    let res = IrNode {
        key: make_key(crate_name, &shared.module, shared.id.original.as_str()),
        original: shared.id.original.clone(),
        renamed: shared.id.renamed.clone(),
        serde_rename: shared.id.serde_rename,
        crate_name: crate_name.to_owned(),
        module: clone_strings(&shared.module),
        kind: IrNodeKind::Enum,
        generic_params: make_generic_params(&shared.generic_types),
        fields: Vec::new(),
        variants,
        aliased_type: None,
        enum_repr: Some(enum_repr),
        is_recursive: shared.is_recursive,
        source_order,
    };
    assert(res.fields.deep_view() =~= Seq::<IrFieldView>::empty());
    res
}

/// Builds the node of a const.
pub fn node_from_const(crate_name: &str, item: &RustConst, source_order: usize) -> (res: IrNode)
    ensures
        res@ == const_node(crate_name@, *item, source_order),
{
    let res = IrNode {
        key: make_key(crate_name, &item.module, item.id.original.as_str()),
        original: item.id.original.clone(),
        renamed: item.id.renamed.clone(),
        serde_rename: item.id.serde_rename,
        crate_name: crate_name.to_owned(),
        module: clone_strings(&item.module),
        kind: IrNodeKind::Const,
        generic_params: Vec::new(),
        fields: Vec::new(),
        variants: Vec::new(),
        aliased_type: Some(item.ty.display()),
        enum_repr: None,
        is_recursive: false,
        source_order,
    };
    assert(res.generic_params.deep_view() =~= Seq::<IrGenericParamView>::empty());
    assert(res.fields.deep_view() =~= Seq::<IrFieldView>::empty());
    assert(res.variants.deep_view() =~= Seq::<IrVariantView>::empty());
    res
}

/// Node keys strictly increase along the list.
pub open spec fn keys_sorted(nodes: Seq<IrNodeView>) -> bool {
    forall|i: int, j: int| 0 <= i < j < nodes.len() ==> lex_order(#[trigger] nodes[i].key, #[trigger] nodes[j].key) < 0
}

/// The list holds exactly the entries of `m`, each node under its key.
pub open spec fn lists_map(nodes: Seq<IrNodeView>, m: Map<Seq<char>, IrNodeView>) -> bool {
    &&& forall|i: int| 0 <= i < nodes.len() ==> m.contains_key(#[trigger] nodes[i].key) && m[nodes[i].key] == nodes[i]
    &&& forall|k: Seq<char>| #[trigger] m.contains_key(k) ==> exists|i: int| 0 <= i < nodes.len() && nodes[i].key == k
}

/// Stores a node under its key, replacing a node with the same key (the
/// behaviour of `BTreeMap::insert` on a key-ordered list).
pub(crate) fn insert_node(nodes: &mut Vec<IrNode>, node: IrNode, Ghost(m): Ghost<Map<Seq<char>, IrNodeView>>)
    requires
        keys_sorted(old(nodes).deep_view()),
        lists_map(old(nodes).deep_view(), m),
    ensures
        keys_sorted(final(nodes).deep_view()),
        lists_map(final(nodes).deep_view(), m.insert(node.key@, node@)),
{
    let ghost old_nodes = nodes.deep_view();
    let ghost nv = node@;
    let ghost m2 = m.insert(node.key@, node@);
    let mut i: usize = 0;
    while i < nodes.len()
        invariant
            i <= nodes.len(),
            nodes.deep_view() == old_nodes,
            nv == node@,
            keys_sorted(old_nodes),
            lists_map(old_nodes, m),
            m2 == m.insert(node.key@, node@),
            forall|j: int| 0 <= j < i ==> lex_order(#[trigger] old_nodes[j].key, node.key@) < 0,
        decreases nodes.len() - i,
    {
        let c = compare_str(nodes[i].key.as_str(), node.key.as_str());
        assert(old_nodes[i as int] == nodes[i as int]@);
        if c == 0 {
            proof {
                lemma_lex_order_basics(nodes[i as int].key@, node.key@);
            }
            nodes.set(i, node);
            proof {
                let nn = nodes.deep_view();
                assert(nn =~= old_nodes.update(i as int, nv));
                assert forall|a: int, b: int| 0 <= a < b < nn.len() implies lex_order(#[trigger] nn[a].key, #[trigger] nn[b].key) < 0 by {
                    assert(nn[a].key == old_nodes[a].key);
                    assert(nn[b].key == old_nodes[b].key);
                }
                assert forall|a: int| 0 <= a < nn.len() implies m2.contains_key(#[trigger] nn[a].key) && m2[nn[a].key] == nn[a] by {
                    if a != i {
                        assert(nn[a] == old_nodes[a]);
                        lemma_lex_order_basics(old_nodes[a].key, old_nodes[i as int].key);
                    }
                }
                assert forall|k: Seq<char>| #[trigger] m2.contains_key(k) implies exists|a: int| 0 <= a < nn.len() && nn[a].key == k by {
                    if k == nv.key {
                        assert(nn[i as int].key == k);
                    } else {
                        let a = choose|a: int| 0 <= a < old_nodes.len() && old_nodes[a].key == k;
                        assert(nn[a].key == k);
                    }
                }
            }
            return;
        }
        if c > 0 {
            nodes.insert(i, node);
            proof {
                let nn = nodes.deep_view();
                assert(nn =~= old_nodes.insert(i as int, nv));
                lemma_lex_order_basics(old_nodes[i as int].key, nv.key);
                assert forall|a: int, b: int| 0 <= a < b < nn.len() implies lex_order(#[trigger] nn[a].key, #[trigger] nn[b].key) < 0 by {
                    if b < i {
                        assert(nn[a] == old_nodes[a]);
                        assert(nn[b] == old_nodes[b]);
                    } else if b == i {
                        assert(nn[a] == old_nodes[a]);
                    } else if a == i {
                        assert(nn[b] == old_nodes[b - 1]);
                        if b - 1 > i {
                            lemma_lex_order_trans(nv.key, old_nodes[i as int].key, old_nodes[b - 1].key);
                        }
                    } else if a < i {
                        assert(nn[a] == old_nodes[a]);
                        assert(nn[b] == old_nodes[b - 1]);
                        lemma_lex_order_trans(old_nodes[a].key, nv.key, old_nodes[i as int].key);
                        if b - 1 > i {
                            lemma_lex_order_trans(old_nodes[a].key, old_nodes[i as int].key, old_nodes[b - 1].key);
                        }
                    } else {
                        assert(nn[a] == old_nodes[a - 1]);
                        assert(nn[b] == old_nodes[b - 1]);
                    }
                }
                assert forall|a: int| 0 <= a < nn.len() implies m2.contains_key(#[trigger] nn[a].key) && m2[nn[a].key] == nn[a] by {
                    if a < i {
                        assert(nn[a] == old_nodes[a]);
                        lemma_lex_order_basics(old_nodes[a].key, nv.key);
                    } else if a > i {
                        assert(nn[a] == old_nodes[a - 1]);
                        if a - 1 > i {
                            lemma_lex_order_trans(nv.key, old_nodes[i as int].key, old_nodes[a - 1].key);
                        }
                        lemma_lex_order_basics(old_nodes[a - 1].key, nv.key);
                    }
                }
                assert forall|k: Seq<char>| #[trigger] m2.contains_key(k) implies exists|a: int| 0 <= a < nn.len() && nn[a].key == k by {
                    if k == nv.key {
                        assert(nn[i as int].key == k);
                    } else {
                        let a = choose|a: int| 0 <= a < old_nodes.len() && old_nodes[a].key == k;
                        if a < i {
                            assert(nn[a].key == k);
                        } else {
                            assert(nn[a + 1].key == k);
                        }
                    }
                }
            }
            return;
        }
        proof {
            lemma_lex_order_basics(nodes[i as int].key@, node.key@);
        }
        i = i + 1;
    }
    nodes.push(node);
    proof {
        let nn = nodes.deep_view();
        assert(nn =~= old_nodes.push(nv));
        assert forall|a: int, b: int| 0 <= a < b < nn.len() implies lex_order(#[trigger] nn[a].key, #[trigger] nn[b].key) < 0 by {
            assert(nn[a] == old_nodes[a]);
            if b < old_nodes.len() {
                assert(nn[b] == old_nodes[b]);
            }
        }
        assert forall|a: int| 0 <= a < nn.len() implies m2.contains_key(#[trigger] nn[a].key) && m2[nn[a].key] == nn[a] by {
            if a < old_nodes.len() {
                assert(nn[a] == old_nodes[a]);
                lemma_lex_order_basics(old_nodes[a].key, nv.key);
            }
        }
        assert forall|k: Seq<char>| #[trigger] m2.contains_key(k) implies exists|a: int| 0 <= a < nn.len() && nn[a].key == k by {
            if k == nv.key {
                assert(nn[old_nodes.len() as int].key == k);
            } else {
                let a = choose|a: int| 0 <= a < old_nodes.len() && old_nodes[a].key == k;
                assert(nn[a].key == k);
            }
        }
    }
}

/// The node keys include `key`.
pub open spec fn has_key(nodes: Seq<IrNodeView>, key: Seq<char>) -> bool {
    exists|i: int| 0 <= i < nodes.len() && #[trigger] nodes[i].key == key
}

/// Position of the node with key `key`, if there is one.
pub open spec fn key_position(nodes: Seq<IrNodeView>, key: Seq<char>) -> Option<int> {
    if has_key(nodes, key) {
        Some(choose|i: int| 0 <= i < nodes.len() && #[trigger] nodes[i].key == key)
    } else {
        None
    }
}

/// In a key-ordered list a key sits at one position only.
pub proof fn lemma_key_position(nodes: Seq<IrNodeView>, i: int)
    requires
        keys_sorted(nodes),
        0 <= i < nodes.len(),
    ensures
        key_position(nodes, nodes[i].key) == Some(i),
{
    let key = nodes[i].key;
    assert(has_key(nodes, key));
    let j = choose|j: int| 0 <= j < nodes.len() && #[trigger] nodes[j].key == key;
    lemma_lex_order_basics(key, key);
    if j < i {
        assert(lex_order(nodes[j].key, nodes[i].key) < 0);
    } else if j > i {
        assert(lex_order(nodes[i].key, nodes[j].key) < 0);
    }
}

/// Finds the position of the node with key `key`.
pub fn find_node(nodes: &Vec<IrNode>, key: &String) -> (r: Option<usize>)
    requires
        keys_sorted(nodes.deep_view()),
    ensures
        match r {
            Some(i) => i < nodes.len() && nodes[i as int].key@ == key@ && key_position(nodes.deep_view(), key@) == Some(i as int),
            None => key_position(nodes.deep_view(), key@) is None,
        },
{
    let ghost nv = nodes.deep_view();
    let mut i: usize = 0;
    while i < nodes.len()
        invariant
            i <= nodes.len(),
            nv == nodes.deep_view(),
            keys_sorted(nv),
            forall|j: int| 0 <= j < i ==> #[trigger] nv[j].key != key@,
        decreases nodes.len() - i,
    {
        assert(nv[i as int] == nodes[i as int]@);
        if nodes[i].key == *key {
            proof {
                lemma_key_position(nv, i as int);
            }
            return Some(i);
        }
        i = i + 1;
    }
    None
}

} // verus!
