//! Value kinds and visibility levels.

use vstd::prelude::*;

verus! {

/// Identity of a registered type: an opaque 64-bit hash. Two types are the
/// same type exactly when their hashes are equal.
pub type TypeHash = u64;

/// Type hash of the unit primitive.
pub const TH_UNIT: TypeHash = 1;
/// Type hash of the boolean primitive.
pub const TH_BOOL: TypeHash = 2;
/// Type hash of the 8-bit signed integer primitive.
pub const TH_I8: TypeHash = 3;
/// Type hash of the 16-bit signed integer primitive.
pub const TH_I16: TypeHash = 4;
/// Type hash of the 32-bit signed integer primitive.
pub const TH_I32: TypeHash = 5;
/// Type hash of the 64-bit signed integer primitive.
pub const TH_I64: TypeHash = 6;
/// Type hash of the 128-bit signed integer primitive.
pub const TH_I128: TypeHash = 7;
/// Type hash of the pointer-sized signed integer primitive.
pub const TH_ISIZE: TypeHash = 8;
/// Type hash of the 8-bit unsigned integer primitive.
pub const TH_U8: TypeHash = 9;
/// Type hash of the 16-bit unsigned integer primitive.
pub const TH_U16: TypeHash = 10;
/// Type hash of the 32-bit unsigned integer primitive.
pub const TH_U32: TypeHash = 11;
/// Type hash of the 64-bit unsigned integer primitive.
pub const TH_U64: TypeHash = 12;
/// Type hash of the 128-bit unsigned integer primitive.
pub const TH_U128: TypeHash = 13;
/// Type hash of the pointer-sized unsigned integer primitive.
pub const TH_USIZE: TypeHash = 14;
/// Type hash of the 32-bit float primitive (payload held as raw bits).
pub const TH_F32: TypeHash = 15;
/// Type hash of the 64-bit float primitive (payload held as raw bits).
pub const TH_F64: TypeHash = 16;
/// Type hash of the character primitive.
pub const TH_CHAR: TypeHash = 17;
/// Type hash of the string primitive.
pub const TH_STRING: TypeHash = 18;
/// Type hash of a reflection handle to a registered type.
pub const TH_TYPE: TypeHash = 19;
/// Type hash of a reflection handle to a registered function.
pub const TH_FUNCTION: TypeHash = 20;
/// Type hash of the owned managed container.
pub const TH_OWNED: TypeHash = 21;
/// Type hash of the shared-reference managed container.
pub const TH_REF: TypeHash = 22;
/// Type hash of the exclusive-reference managed container.
pub const TH_REF_MUT: TypeHash = 23;
/// Type hash of the lazy managed container.
pub const TH_LAZY: TypeHash = 24;
/// Type hash of the box managed container.
pub const TH_BOX: TypeHash = 25;
/// Host-registered types must use hashes from here upward so that they never
/// collide with the built-in primitives and containers.
pub const TH_FIRST_FREE: TypeHash = 32;

/// Visibility of a type, function or field. Queries that specify a visibility
/// match it exactly.
#[derive(Debug, Clone, Copy, PartialEq, Eq, Structural)]
pub enum Visibility {
    Private,
    Module,
    Public,
}

impl Default for Visibility {
    fn default() -> (r: Self)
        ensures
            r == Visibility::Public,
    {
        Visibility::Public
    }
}

impl Visibility {
    pub fn is_public(&self) -> (r: bool)
        ensures
            r == (*self == Visibility::Public),
    {
        matches!(self, Visibility::Public)
    }
}

/// The ownership role of a managed value. `Any` is the wildcard used by
/// queries and register declarations that accept every role.
#[derive(Debug, Clone, Copy, PartialEq, Eq, Structural)]
pub enum AnkhaValueKind {
    Any,
    Owned,
    Ref,
    RefMut,
    Lazy,
    Box,
}

impl Default for AnkhaValueKind {
    fn default() -> (r: Self)
        ensures
            r == AnkhaValueKind::Any,
    {
        AnkhaValueKind::Any
    }
}

impl AnkhaValueKind {
    /// The kind whose managed-container type has the given hash; `Any` when
    /// the hash is not a container type's.
    pub fn from_type_hash(type_hash: TypeHash) -> (r: Self)
        ensures
            r == Self::spec_from_type_hash(type_hash),
    {
        if type_hash == TH_OWNED {
            Self::Owned
        } else if type_hash == TH_REF {
            Self::Ref
        } else if type_hash == TH_REF_MUT {
            Self::RefMut
        } else if type_hash == TH_LAZY {
            Self::Lazy
        } else if type_hash == TH_BOX {
            Self::Box
        } else {
            Self::Any
        }
    }

    pub open spec fn spec_from_type_hash(type_hash: TypeHash) -> Self {
        if type_hash == TH_OWNED {
            Self::Owned
        } else if type_hash == TH_REF {
            Self::Ref
        } else if type_hash == TH_REF_MUT {
            Self::RefMut
        } else if type_hash == TH_LAZY {
            Self::Lazy
        } else if type_hash == TH_BOX {
            Self::Box
        } else {
            Self::Any
        }
    }

    pub fn is_any(&self) -> (r: bool)
        ensures
            r == (*self == AnkhaValueKind::Any),
    {
        matches!(self, Self::Any)
    }

    /// The hash of the managed-container type for this kind; `None` for `Any`.
    pub fn type_hash(self) -> (r: Option<TypeHash>)
        ensures
            r == self.spec_type_hash(),
    {
        match self {
            Self::Any => None,
            Self::Owned => Some(TH_OWNED),
            Self::Ref => Some(TH_REF),
            Self::RefMut => Some(TH_REF_MUT),
            Self::Lazy => Some(TH_LAZY),
            Self::Box => Some(TH_BOX),
        }
    }

    pub open spec fn spec_type_hash(self) -> Option<TypeHash> {
        match self {
            Self::Any => None,
            Self::Owned => Some(TH_OWNED),
            Self::Ref => Some(TH_REF),
            Self::RefMut => Some(TH_REF_MUT),
            Self::Lazy => Some(TH_LAZY),
            Self::Box => Some(TH_BOX),
        }
    }
}

} // verus!
