//! The types of the reconciled graph and their mathematical views.

use vstd::prelude::*;
use crate::input::{type_display, RustField};
use crate::text::{clone_strings, join_strings, seq_join};
use vstd::string::StringExecFns;

verus! {

/// Kind of a reconciled type node.
#[derive(Debug, Clone, Copy, PartialEq, Eq, Structural)]
pub enum IrNodeKind {
    /// A `struct` with named fields.
    Struct,
    /// A unit or algebraic `enum`.
    Enum,
    /// A `type` alias or a newtype/tuple struct lowered to an alias.
    Alias,
    /// A numeric `const`.
    Const,
}

impl IrNodeKind {
    /// The JSON label of the kind.
    pub open spec fn label(self) -> Seq<char> {
        match self {
            IrNodeKind::Struct => "struct"@,
            IrNodeKind::Enum => "enum"@,
            IrNodeKind::Alias => "alias"@,
            IrNodeKind::Const => "const"@,
        }
    }

    /// The JSON label of the kind.
    pub fn as_str(self) -> (r: &'static str)
        ensures
            r@ == self.label(),
    {
        match self {
            IrNodeKind::Struct => "struct",
            IrNodeKind::Enum => "enum",
            IrNodeKind::Alias => "alias",
            IrNodeKind::Const => "const",
        }
    }
}

/// A generic parameter declared on a type, with its index in the declaration
/// order.
#[derive(Debug, Clone, PartialEq, Eq)]
pub struct IrGenericParam {
    /// Parameter name, e.g. the `T` in `struct Foo<T>`.
    pub name: String,
    /// Zero-based declaration index.
    pub index: usize,
}

/// View of an [`IrGenericParam`].
pub struct IrGenericParamView {
    pub name: Seq<char>,
    pub index: usize,
}

impl View for IrGenericParam {
    type V = IrGenericParamView;

    open spec fn view(&self) -> IrGenericParamView {
        IrGenericParamView { name: self.name@, index: self.index }
    }
}

impl DeepView for IrGenericParam {
    type V = IrGenericParamView;

    open spec fn deep_view(&self) -> IrGenericParamView {
        self@
    }
}

/// A struct/enum field after parsing and skip filtering.
#[derive(Debug, Clone, PartialEq, Eq)]
pub struct IrField {
    /// Original Rust field name.
    pub original: String,
    /// Serialized/generated field name after `rename_all`/`rename`.
    pub renamed: String,
    /// Whether `#[serde(rename = "...")]` overrode `rename_all`.
    pub serde_rename: bool,
    /// Canonical display form of the field's type, e.g. `Vec<Option<T>>`.
    pub ty: String,
}

/// View of an [`IrField`].
pub struct IrFieldView {
    pub original: Seq<char>,
    pub renamed: Seq<char>,
    pub serde_rename: bool,
    pub ty: Seq<char>,
}

impl View for IrField {
    type V = IrFieldView;

    open spec fn view(&self) -> IrFieldView {
        IrFieldView {
            original: self.original@,
            renamed: self.renamed@,
            serde_rename: self.serde_rename,
            ty: self.ty@,
        }
    }
}

impl DeepView for IrField {
    type V = IrFieldView;

    open spec fn deep_view(&self) -> IrFieldView {
        self@
    }
}

/// The field a parsed field becomes in the graph.
pub open spec fn field_view(field: RustField) -> IrFieldView {
    IrFieldView {
        original: field.id.original@,
        renamed: field.id.renamed@,
        serde_rename: field.id.serde_rename,
        ty: type_display(field.ty),
    }
}

impl IrField {
    /// Converts a parsed field.
    pub fn from(field: &RustField) -> (res: Self)
        ensures
            res@ == field_view(*field),
    {
        IrField {
            original: field.id.original.clone(),
            renamed: field.id.renamed.clone(),
            serde_rename: field.id.serde_rename,
            ty: field.ty.display(),
        }
    }
}

/// An enum variant in the reconciled graph.
#[derive(Debug, Clone, PartialEq, Eq)]
pub struct IrVariant {
    /// Original variant identifier.
    pub original: String,
    /// Serialized variant name.
    pub renamed: String,
    /// Whether an explicit `serde(rename)` was used.
    pub serde_rename: bool,
    /// Variant payload kind.
    pub payload: IrVariantPayload,
}

/// Payload shape of an enum variant.
#[derive(Debug, Clone, PartialEq, Eq)]
pub enum IrVariantPayload {
    /// No associated data.
    Unit,
    /// A single tuple/newtype payload with the given type.
    Tuple(String),
    /// An anonymous struct with the given fields.
    AnonymousStruct(Vec<IrField>),
}

/// View of an [`IrVariantPayload`].
pub enum IrVariantPayloadView {
    Unit,
    Tuple(Seq<char>),
    AnonymousStruct(Seq<IrFieldView>),
}

impl View for IrVariantPayload {
    type V = IrVariantPayloadView;

    open spec fn view(&self) -> IrVariantPayloadView {
        match self {
            IrVariantPayload::Unit => IrVariantPayloadView::Unit,
            IrVariantPayload::Tuple(ty) => IrVariantPayloadView::Tuple(ty@),
            IrVariantPayload::AnonymousStruct(fields) => IrVariantPayloadView::AnonymousStruct(
                fields.deep_view(),
            ),
        }
    }
}

/// View of an [`IrVariant`].
pub struct IrVariantView {
    pub original: Seq<char>,
    pub renamed: Seq<char>,
    pub serde_rename: bool,
    pub payload: IrVariantPayloadView,
}

impl View for IrVariant {
    type V = IrVariantView;

    open spec fn view(&self) -> IrVariantView {
        IrVariantView {
            original: self.original@,
            renamed: self.renamed@,
            serde_rename: self.serde_rename,
            payload: self.payload@,
        }
    }
}

impl DeepView for IrVariant {
    type V = IrVariantView;

    open spec fn deep_view(&self) -> IrVariantView {
        self@
    }
}

/// Enum representation metadata.
#[derive(Debug, Clone, PartialEq, Eq)]
pub enum IrEnumRepr {
    /// All variants are unit variants; serialized as a bare string.
    Unit,
    /// Adjacently tagged representation with the given `tag`/`content` JSON
    /// keys.
    Tagged {
        /// JSON key carrying the variant discriminant.
        tag: String,
        /// JSON key carrying the variant payload.
        content: String,
    },
}

/// View of an [`IrEnumRepr`].
pub enum IrEnumReprView {
    Unit,
    Tagged { tag: Seq<char>, content: Seq<char> },
}

impl View for IrEnumRepr {
    type V = IrEnumReprView;

    open spec fn view(&self) -> IrEnumReprView {
        match self {
            IrEnumRepr::Unit => IrEnumReprView::Unit,
            IrEnumRepr::Tagged { tag, content } => IrEnumReprView::Tagged {
                tag: tag@,
                content: content@,
            },
        }
    }
}

/// A single node in the reconciled type graph.
#[derive(Debug, Clone)]
pub struct IrNode {
    /// Stable graph key: `crate` + `module path` + `original name`.
    pub key: String,
    /// Original Rust identifier.
    pub original: String,
    /// Serialized/generated identifier after serde renaming.
    pub renamed: String,
    /// Whether the top-level type was renamed with `serde(rename)`.
    pub serde_rename: bool,
    /// Crate the type belongs to.
    pub crate_name: String,
    /// Nested source module path (empty for a crate-root item).
    pub module: Vec<String>,
    /// Struct/enum/alias/const discriminant.
    pub kind: IrNodeKind,
    /// Declared generic parameters in declaration order.
    pub generic_params: Vec<IrGenericParam>,
    /// Fields (structs only).
    pub fields: Vec<IrField>,
    /// Variants (enums only).
    pub variants: Vec<IrVariant>,
    /// Aliased type display form (aliases and consts).
    pub aliased_type: Option<String>,
    /// Enum representation.
    pub enum_repr: Option<IrEnumRepr>,
    /// True if the enum directly references its own original name.
    pub is_recursive: bool,
    /// Source declaration order (module walk order) used as a stable
    /// tie-break.
    pub source_order: usize,
}

/// View of an [`IrNode`].
pub struct IrNodeView {
    pub key: Seq<char>,
    pub original: Seq<char>,
    pub renamed: Seq<char>,
    pub serde_rename: bool,
    pub crate_name: Seq<char>,
    pub module: Seq<Seq<char>>,
    pub kind: IrNodeKind,
    pub generic_params: Seq<IrGenericParamView>,
    pub fields: Seq<IrFieldView>,
    pub variants: Seq<IrVariantView>,
    pub aliased_type: Option<Seq<char>>,
    pub enum_repr: Option<IrEnumReprView>,
    pub is_recursive: bool,
    pub source_order: usize,
}

impl View for IrNode {
    type V = IrNodeView;

    open spec fn view(&self) -> IrNodeView {
        IrNodeView {
            key: self.key@,
            original: self.original@,
            renamed: self.renamed@,
            serde_rename: self.serde_rename,
            crate_name: self.crate_name@,
            module: self.module.deep_view(),
            kind: self.kind,
            generic_params: self.generic_params.deep_view(),
            fields: self.fields.deep_view(),
            variants: self.variants.deep_view(),
            aliased_type: match self.aliased_type {
                Some(ty) => Some(ty@),
                None => None,
            },
            enum_repr: match self.enum_repr {
                Some(repr) => Some(repr@),
                None => None,
            },
            is_recursive: self.is_recursive,
            source_order: self.source_order,
        }
    }
}

impl DeepView for IrNode {
    type V = IrNodeView;

    open spec fn deep_view(&self) -> IrNodeView {
        self@
    }
}

/// The module-qualified name of a declaration: its module path followed by
/// its original name, joined by `::`.
pub open spec fn identity_of(module: Seq<Seq<char>>, original: Seq<char>) -> Seq<char> {
    seq_join(module.push(original), "::"@)
}

impl IrNode {
    /// The module-qualified original name of the node.
    pub fn identity(&self) -> (res: String)
        ensures
            res@ == identity_of(self.module.deep_view(), self.original@),
    {
        let mut path = clone_strings(&self.module);
        path.push(self.original.clone());
        assert(path.deep_view() =~= self.module.deep_view().push(self.original@));
        join_strings(&path, "::")
    }
}

/// A resolved dependency edge between two nodes of the graph.
#[derive(Debug, Clone, PartialEq, Eq, PartialOrd, Ord)]
pub struct IrEdge {
    /// Key of the node that depends on another.
    pub from: String,
    /// Module of the depending declaration.
    pub from_module: Vec<String>,
    /// Key of the referenced node.
    pub to: String,
    /// Module of the referenced declaration.
    pub to_module: Vec<String>,
    /// Original name of the referenced declaration.
    pub to_original: String,
    /// Serialized name of the referenced declaration.
    pub to_renamed: String,
    /// Where the edge originates.
    pub site: IrEdgeSite,
    /// True when the reference was expressed using the target's pre-rename
    /// name and reconcile rewrote it to its serde-renamed identity.
    pub via_rename_reconcile: bool,
}

/// Syntactic site a dependency edge was collected from.
#[derive(Debug, Clone, PartialEq, Eq, PartialOrd, Ord)]
pub enum IrEdgeSite {
    /// A struct field, carrying the field's serialized name.
    Field(String),
    /// A tuple enum variant, carrying the variant's serialized name.
    TupleVariant(String),
    /// The right-hand side of a type alias.
    AliasRhs,
    /// The type of a const.
    ConstType,
}

/// View of an [`IrEdgeSite`].
pub enum IrEdgeSiteView {
    Field(Seq<char>),
    TupleVariant(Seq<char>),
    AliasRhs,
    ConstType,
}

impl View for IrEdgeSite {
    type V = IrEdgeSiteView;

    open spec fn view(&self) -> IrEdgeSiteView {
        match self {
            IrEdgeSite::Field(name) => IrEdgeSiteView::Field(name@),
            IrEdgeSite::TupleVariant(name) => IrEdgeSiteView::TupleVariant(name@),
            IrEdgeSite::AliasRhs => IrEdgeSiteView::AliasRhs,
            IrEdgeSite::ConstType => IrEdgeSiteView::ConstType,
        }
    }
}

impl IrEdgeSiteView {
    /// The JSON label of a site.
    pub open spec fn label(self) -> Seq<char> {
        match self {
            IrEdgeSiteView::Field(name) => "field:"@ + name,
            IrEdgeSiteView::TupleVariant(name) => "tuple_variant:"@ + name,
            IrEdgeSiteView::AliasRhs => "alias_rhs"@,
            IrEdgeSiteView::ConstType => "const_type"@,
        }
    }
}

impl IrEdgeSite {
    /// Copies the site.
    pub fn duplicate(&self) -> (res: IrEdgeSite)
        ensures
            res@ == self@,
    {
        match self {
            IrEdgeSite::Field(name) => IrEdgeSite::Field(name.clone()),
            IrEdgeSite::TupleVariant(name) => IrEdgeSite::TupleVariant(name.clone()),
            IrEdgeSite::AliasRhs => IrEdgeSite::AliasRhs,
            IrEdgeSite::ConstType => IrEdgeSite::ConstType,
        }
    }

    /// The JSON label of the site.
    pub fn as_label(&self) -> (res: String)
        ensures
            res@ == self@.label(),
    {
        match self {
            IrEdgeSite::Field(name) => {
                let mut res = String::from_str("field:");
                res.append(name.as_str());
                res
            },
            IrEdgeSite::TupleVariant(name) => {
                let mut res = String::from_str("tuple_variant:");
                res.append(name.as_str());
                res
            },
            IrEdgeSite::AliasRhs => String::from_str("alias_rhs"),
            IrEdgeSite::ConstType => String::from_str("const_type"),
        }
    }
}

/// View of an [`IrEdge`].
pub struct IrEdgeView {
    pub from: Seq<char>,
    pub from_module: Seq<Seq<char>>,
    pub to: Seq<char>,
    pub to_module: Seq<Seq<char>>,
    pub to_original: Seq<char>,
    pub to_renamed: Seq<char>,
    pub site: IrEdgeSiteView,
    pub via_rename_reconcile: bool,
}

impl View for IrEdge {
    type V = IrEdgeView;

    open spec fn view(&self) -> IrEdgeView {
        IrEdgeView {
            from: self.from@,
            from_module: self.from_module.deep_view(),
            to: self.to@,
            to_module: self.to_module.deep_view(),
            to_original: self.to_original@,
            to_renamed: self.to_renamed@,
            site: self.site@,
            via_rename_reconcile: self.via_rename_reconcile,
        }
    }
}

impl DeepView for IrEdge {
    type V = IrEdgeView;

    open spec fn deep_view(&self) -> IrEdgeView {
        self@
    }
}

/// Kind of an identity/naming diagnostic.
#[derive(Debug, Clone, Copy, PartialEq, Eq, PartialOrd, Ord, Structural)]
pub enum IrDiagnosticKind {
    /// Two declarations share an original name but live in different
    /// modules.
    SameNameDifferentModule,
    /// Two declarations serialize under the same wire name.
    SerializedNameConflict,
    /// An SCC only exists because a serde rename rewired references.
    RenameCycle,
    /// A generic parameter name shadows a named type in scope.
    GenericShadowing,
}

impl IrDiagnosticKind {
    /// Position of the kind in the declaration order of the variants.
    pub open spec fn rank(self) -> int {
        match self {
            IrDiagnosticKind::SameNameDifferentModule => 0,
            IrDiagnosticKind::SerializedNameConflict => 1,
            IrDiagnosticKind::RenameCycle => 2,
            IrDiagnosticKind::GenericShadowing => 3,
        }
    }

    /// Position of the kind in the declaration order of the variants.
    pub fn position(self) -> (r: u8)
        ensures
            r as int == self.rank(),
    {
        match self {
            IrDiagnosticKind::SameNameDifferentModule => 0,
            IrDiagnosticKind::SerializedNameConflict => 1,
            IrDiagnosticKind::RenameCycle => 2,
            IrDiagnosticKind::GenericShadowing => 3,
        }
    }

    /// The JSON label of the kind.
    pub open spec fn label(self) -> Seq<char> {
        match self {
            IrDiagnosticKind::SameNameDifferentModule => "same_name_different_module"@,
            IrDiagnosticKind::SerializedNameConflict => "serialized_name_conflict"@,
            IrDiagnosticKind::RenameCycle => "rename_cycle"@,
            IrDiagnosticKind::GenericShadowing => "generic_shadowing"@,
        }
    }

    /// The JSON label of the kind.
    pub fn as_str(self) -> (r: &'static str)
        ensures
            r@ == self.label(),
    {
        match self {
            IrDiagnosticKind::SameNameDifferentModule => "same_name_different_module",
            IrDiagnosticKind::SerializedNameConflict => "serialized_name_conflict",
            IrDiagnosticKind::RenameCycle => "rename_cycle",
            IrDiagnosticKind::GenericShadowing => "generic_shadowing",
        }
    }
}

/// A deterministic diagnostic about identity resolution.
#[derive(Debug, Clone, PartialEq, Eq)]
pub struct IrDiagnostic {
    /// Diagnostic kind.
    pub kind: IrDiagnosticKind,
    /// Stable, human-readable explanation.
    pub message: String,
    /// Involved node keys, sorted.
    pub nodes: Vec<String>,
}

/// View of an [`IrDiagnostic`].
pub struct IrDiagnosticView {
    pub kind: IrDiagnosticKind,
    pub message: Seq<char>,
    pub nodes: Seq<Seq<char>>,
}

impl View for IrDiagnostic {
    type V = IrDiagnosticView;

    open spec fn view(&self) -> IrDiagnosticView {
        IrDiagnosticView { kind: self.kind, message: self.message@, nodes: self.nodes.deep_view() }
    }
}

impl DeepView for IrDiagnostic {
    type V = IrDiagnosticView;

    open spec fn deep_view(&self) -> IrDiagnosticView {
        self@
    }
}

/// A strongly connected component of nodes.
#[derive(Debug, Clone)]
pub struct IrScc {
    /// Member node keys in source-declaration order.
    pub members: Vec<String>,
    /// Internal edges (both endpoints in the SCC).
    pub edges: Vec<(String, String)>,
    /// True when SCC membership is induced by a serde rename.
    pub induced_by_rename: bool,
}

/// View of an [`IrScc`].
pub struct IrSccView {
    pub members: Seq<Seq<char>>,
    pub edges: Seq<(Seq<char>, Seq<char>)>,
    pub induced_by_rename: bool,
}

impl View for IrScc {
    type V = IrSccView;

    open spec fn view(&self) -> IrSccView {
        IrSccView {
            members: self.members.deep_view(),
            edges: self.edges.deep_view(),
            induced_by_rename: self.induced_by_rename,
        }
    }
}

impl DeepView for IrScc {
    type V = IrSccView;

    open spec fn deep_view(&self) -> IrSccView {
        self@
    }
}

/// One topological dependency group: nodes/SCCs at the same depth.
#[derive(Debug, Clone)]
pub struct IrTopoGroup {
    /// Zero-based level; members only depend on groups with smaller levels.
    pub level: usize,
    /// Member node keys in the deterministic emission order.
    pub members: Vec<String>,
}

/// View of an [`IrTopoGroup`].
pub struct IrTopoGroupView {
    pub level: usize,
    pub members: Seq<Seq<char>>,
}

impl View for IrTopoGroup {
    type V = IrTopoGroupView;

    open spec fn view(&self) -> IrTopoGroupView {
        IrTopoGroupView { level: self.level, members: self.members.deep_view() }
    }
}

impl DeepView for IrTopoGroup {
    type V = IrTopoGroupView;

    open spec fn deep_view(&self) -> IrTopoGroupView {
        self@
    }
}

/// The reconciled type graph shared by every language generator.
#[derive(Debug, Clone)]
pub struct IrGraph {
    /// Nodes in strictly increasing key order (one node per key).
    pub nodes: Vec<IrNode>,
    /// Resolved dependency edges, sorted and de-duplicated.
    pub edges: Vec<IrEdge>,
    /// Strongly connected components with more than one node, plus any node
    /// with a self edge.
    pub sccs: Vec<IrScc>,
    /// Topological groups over the SCC condensation.
    pub topo_groups: Vec<IrTopoGroup>,
    /// Identity diagnostics, sorted for stable snapshots.
    pub diagnostics: Vec<IrDiagnostic>,
}

} // verus!
