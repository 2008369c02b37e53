//! The interface-description data model: what a service exports, its
//! functions, its defined types, and the build context that generation
//! runs under.

use vstd::prelude::*;

verus! {

/// A name in an interface description.
pub type Ident = String;

/// A whole service interface.
#[derive(Debug)]
pub struct Interface {
    pub name: Ident,
    pub namespace: Ident,
    pub version: Ident,
    pub imports: Vec<Import>,
    pub type_defs: Vec<TypeDef>,
    pub constructor: Constructor,
    pub functions: Vec<Function>,
    pub oasis_build_version: String,
}

/// One exported function.
#[derive(Debug)]
pub struct Function {
    pub name: Ident,
    pub mutability: StateMutability,
    pub inputs: Vec<Field>,
    pub output: Option<Type>,
}

/// One named type exported by the interface.
#[derive(Debug)]
pub enum TypeDef {
    Struct { name: Ident, fields: Vec<Field> },
    Enum { name: Ident, variants: Vec<EnumVariant> },
    Event { name: Ident, fields: Vec<IndexedField> },
}

impl TypeDef {
    /// The name a type definition declares, whichever shape it has.
    pub open spec fn name_spec(&self) -> Seq<char> {
        match self {
            TypeDef::Struct { name, .. } => name@,
            TypeDef::Enum { name, .. } => name@,
            TypeDef::Event { name, .. } => name@,
        }
    }

    /// The name a type definition declares.
    pub fn name(&self) -> (r: &str)
        ensures
            r@ == self.name_spec(),
    {
        match self {
            TypeDef::Struct { name, .. } => name.as_str(),
            TypeDef::Enum { name, .. } => name.as_str(),
            TypeDef::Event { name, .. } => name.as_str(),
        }
    }
}

/// One named, typed field.
#[derive(Debug)]
pub struct Field {
    pub name: Ident,
    pub ty: Type,
}

/// One variant of an exported enum.
#[derive(Debug)]
pub struct EnumVariant {
    pub name: Ident,
    pub fields: Option<EnumFields>,
}

/// The fields of an enum variant: named, or by position.
#[derive(Debug)]
pub enum EnumFields {
    Named(Vec<Field>),
    Tuple(Vec<Type>),
}

/// One field of an exported event, possibly indexed.
#[derive(Debug)]
pub struct IndexedField {
    pub name: Ident,
    pub ty: Type,
    pub indexed: bool,
}

/// Whether a function may write service state.
#[derive(Clone, Copy, Debug, PartialEq, Eq, Structural)]
pub enum StateMutability {
    Immutable,
    Mutable,
}

/// One imported interface.
#[derive(Debug)]
pub struct Import {
    pub name: Ident,
    pub version: String,
    pub registry: Option<String>,
}

/// The service's constructor.
#[derive(Debug)]
pub struct Constructor {
    pub inputs: Vec<Field>,
    pub error: Option<Type>,
}

/// A type in an interface description.
#[derive(Debug)]
pub enum Type {
    Bool,
    U8,
    I8,
    U16,
    I16,
    U32,
    I32,
    U64,
    I64,
    F32,
    F64,
    Bytes,
    String,
    Address,
    Balance,
    Defined { namespace: Option<Ident>, ty: Ident },
    Tuple(Vec<Type>),
    Array(Box<Type>, u64),
    List(Box<Type>),
    SetOf(Box<Type>),
    MapOf(Box<Type>, Box<Type>),
    Optional(Box<Type>),
    Result(Box<Type>, Box<Type>),
}

/// What a build produces.
#[derive(Clone, Copy, Debug, PartialEq, Eq, Structural)]
pub enum BuildTarget {
    Wasi,
    Test,
    Dep,
}

/// The context an interface generation runs under.
#[derive(Debug)]
pub struct BuildContext {
    pub target: BuildTarget,
    pub crate_name: String,
    pub out_dir: String,
}

} // verus!
