//! Post-reconcile parsed declarations: the input of the type graph.
//!
//! A crate's parsed data holds its type aliases, structs, enums and consts in
//! declaration order.  Every declaration carries its identity triple
//! (original name, serialized name, explicit `serde(rename)` flag) and the
//! nested module path it was declared in.

use vstd::prelude::*;
use crate::text::{decimal, join_strings, push_decimal, seq_join};
use vstd::string::StringExecFns;

verus! {

/// Identity of a parsed item: its Rust name, its serialized name, and whether
/// an explicit `serde(rename)` produced the serialized name.
pub struct Id {
    /// Rust identifier as written.
    pub original: String,
    /// Name after `rename_all` / `rename`.
    pub renamed: String,
    /// True when an explicit `serde(rename = "...")` was used.
    pub serde_rename: bool,
}

/// A parsed Rust type expression.
pub enum RustType {
    /// A named type without arguments, such as `Inner` or `T`.
    Simple { id: String },
    /// A named type applied to arguments, such as `Wrapper<Inner>`.
    Generic { id: String, parameters: Vec<RustType> },
    /// A type with a dedicated meaning.
    Special(SpecialRustType),
}

/// Types with a dedicated meaning.
pub enum SpecialRustType {
    /// `Vec<T>`.
    Vec(Box<RustType>),
    /// `[T; N]`.
    Array(Box<RustType>, usize),
    /// `[T]`.
    Slice(Box<RustType>),
    /// `Option<T>`.
    Option(Box<RustType>),
    /// `HashMap<K, V>`.
    HashMap(Box<RustType>, Box<RustType>),
    /// A primitive or standard type without inner types, named as it is
    /// displayed (`String`, `u32`, `bool`, ...).
    Builtin(String),
}

/// Canonical display form of a type, e.g. `Vec<Option<T>>`.
pub open spec fn type_display(t: RustType) -> Seq<char>
    decreases t, 0int,
{
    match t {
        RustType::Simple { id } => id@,
        RustType::Generic { id, parameters } => id@ + "<"@ + seq_join(
            params_display(parameters@, parameters@.len() as int),
            ", "@,
        ) + ">"@,
        RustType::Special(special) => match special {
            SpecialRustType::Vec(inner) => "Vec<"@ + type_display(*inner) + ">"@,
            SpecialRustType::Array(inner, size) => "["@ + type_display(*inner) + "; "@ + decimal(
                size as nat,
            ) + "]"@,
            SpecialRustType::Slice(inner) => "["@ + type_display(*inner) + "]"@,
            SpecialRustType::Option(inner) => "Option<"@ + type_display(*inner) + ">"@,
            SpecialRustType::HashMap(key, value) => "HashMap<"@ + type_display(*key) + ", "@
                + type_display(*value) + ">"@,
            SpecialRustType::Builtin(name) => name@,
        },
    }
}

/// Display forms of the first `n` type arguments.
pub open spec fn params_display(ps: Seq<RustType>, n: int) -> Seq<Seq<char>>
    decreases ps, n,
{
    if n <= 0 || n > ps.len() {
        Seq::empty()
    } else {
        params_display(ps, n - 1).push(type_display(ps[n - 1]))
    }
}

impl RustType {
    /// Renders the canonical display form of the type.
    pub fn display(&self) -> (res: String)
        ensures
            res@ == type_display(*self),
        decreases self,
    {
        match self {
            RustType::Simple { id } => {
                let res = id.clone();
                assert(res@ == id@);
                res
            },
            RustType::Generic { id, parameters } => {
                let mut parts: Vec<String> = Vec::new();
                let mut i: usize = 0;
                assert(forall|j: int|
                    0 <= j < parameters.len() ==> decreases_to!(*self => #[trigger] parameters@[j]));
                while i < parameters.len()
                    invariant
                        i <= parameters.len(),
                        forall|j: int|
                            0 <= j < parameters.len() ==> decreases_to!(*self => #[trigger] parameters@[j]),
                        parts.len() == i,
                        parts.deep_view() =~= params_display(parameters@, i as int),
                    decreases parameters.len() - i,
                {
                    let shown = parameters[i].display();
                    parts.push(shown);
                    assert(parts.deep_view()[i as int] == shown@);
                    i = i + 1;
                }
                let joined = join_strings(&parts, ", ");
                let mut res = id.clone();
                res.append("<");
                res.append(joined.as_str());
                res.append(">");
                res
            },
            RustType::Special(special) => match special {
                SpecialRustType::Vec(inner) => {
                    let mut res = String::from_str("Vec<");
                    let shown = inner.display();
                    res.append(shown.as_str());
                    res.append(">");
                    res
                },
                SpecialRustType::Array(inner, size) => {
                    let mut res = String::from_str("[");
                    let shown = inner.display();
                    res.append(shown.as_str());
                    res.append("; ");
                    push_decimal(&mut res, *size);
                    res.append("]");
                    res
                },
                SpecialRustType::Slice(inner) => {
                    let mut res = String::from_str("[");
                    let shown = inner.display();
                    res.append(shown.as_str());
                    res.append("]");
                    res
                },
                SpecialRustType::Option(inner) => {
                    let mut res = String::from_str("Option<");
                    let shown = inner.display();
                    res.append(shown.as_str());
                    res.append(">");
                    res
                },
                SpecialRustType::HashMap(key, value) => {
                    let mut res = String::from_str("HashMap<");
                    let shown_key = key.display();
                    res.append(shown_key.as_str());
                    res.append(", ");
                    let shown_value = value.display();
                    res.append(shown_value.as_str());
                    res.append(">");
                    res
                },
                SpecialRustType::Builtin(name) => name.clone(),
            },
        }
    }
}

/// A struct field or anonymous-variant field.
pub struct RustField {
    /// Field identity.
    pub id: Id,
    /// Field type.
    pub ty: RustType,
}

/// A `type` alias (or a newtype lowered to one).
pub struct RustTypeAlias {
    /// Alias identity.
    pub id: Id,
    /// Declaring module path, empty at the crate root.
    pub module: Vec<String>,
    /// Declared generic parameters in order.
    pub generic_types: Vec<String>,
    /// Right-hand side.
    pub ty: RustType,
}

/// A struct with named fields.
pub struct RustStruct {
    /// Struct identity.
    pub id: Id,
    /// Declaring module path, empty at the crate root.
    pub module: Vec<String>,
    /// Declared generic parameters in order.
    pub generic_types: Vec<String>,
    /// Fields that survived skip filtering, in order.
    pub fields: Vec<RustField>,
}

/// Data shared by every enum variant shape.
pub struct RustEnumVariantShared {
    /// Variant identity.
    pub id: Id,
}

/// An enum variant.
pub enum RustEnumVariant {
    /// A variant without data.
    Unit(RustEnumVariantShared),
    /// A newtype variant.
    Tuple { ty: RustType, shared: RustEnumVariantShared },
    /// A variant with named fields.
    AnonymousStruct { fields: Vec<RustField>, shared: RustEnumVariantShared },
}

impl RustEnumVariant {
    /// The data shared by every variant shape.
    pub open spec fn spec_shared(self) -> RustEnumVariantShared {
        match self {
            RustEnumVariant::Unit(shared) => shared,
            RustEnumVariant::Tuple { shared, .. } => shared,
            RustEnumVariant::AnonymousStruct { shared, .. } => shared,
        }
    }

    /// The data shared by every variant shape.
    pub fn shared(&self) -> (r: &RustEnumVariantShared)
        ensures
            *r == self.spec_shared(),
    {
        match self {
            RustEnumVariant::Unit(shared) => shared,
            RustEnumVariant::Tuple { shared, .. } => shared,
            RustEnumVariant::AnonymousStruct { shared, .. } => shared,
        }
    }
}

/// Data shared by unit and algebraic enums.
pub struct RustEnumShared {
    /// Enum identity.
    pub id: Id,
    /// Declaring module path, empty at the crate root.
    pub module: Vec<String>,
    /// Declared generic parameters in order.
    pub generic_types: Vec<String>,
    /// Variants that survived skip filtering, in order.
    pub variants: Vec<RustEnumVariant>,
    /// True if the enum refers to its own name.
    pub is_recursive: bool,
}

/// A parsed enum.
pub enum RustEnum {
    /// All variants are unit variants.
    Unit(RustEnumShared),
    /// Adjacently tagged enum with the given `tag` and `content` keys.
    Algebraic { tag_key: String, content_key: String, shared: RustEnumShared },
}

impl RustEnum {
    /// The data shared by both enum shapes.
    pub open spec fn spec_shared(self) -> RustEnumShared {
        match self {
            RustEnum::Unit(shared) => shared,
            RustEnum::Algebraic { shared, .. } => shared,
        }
    }

    /// The data shared by both enum shapes.
    pub fn shared(&self) -> (r: &RustEnumShared)
        ensures
            *r == self.spec_shared(),
    {
        match self {
            RustEnum::Unit(shared) => shared,
            RustEnum::Algebraic { shared, .. } => shared,
        }
    }
}

/// A numeric const.
pub struct RustConst {
    /// Const identity.
    pub id: Id,
    /// Declaring module path, empty at the crate root.
    pub module: Vec<String>,
    /// Type of the const.
    pub ty: RustType,
}

/// The reconciled declarations of one crate, in declaration order.
pub struct ParsedData {
    /// Type aliases.
    pub aliases: Vec<RustTypeAlias>,
    /// Structs.
    pub structs: Vec<RustStruct>,
    /// Enums.
    pub enums: Vec<RustEnum>,
    /// Consts.
    pub consts: Vec<RustConst>,
}

} // verus!
