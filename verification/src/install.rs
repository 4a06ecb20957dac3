//! Registering the built-in types and host-defined composite types.
//!
//! `install_core_types` interns the primitive types, the five managed
//! container descriptors and the two reflection handle types. Struct
//! registration computes each field's byte offset once, with standard
//! alignment rules: a field starts at its size's alignment boundary, the
//! struct's size is the aligned extent.

use vstd::prelude::*;
use crate::abort::Abort;
use crate::kind::{
    AnkhaValueKind, TypeHash, Visibility, TH_BOOL, TH_BOX, TH_CHAR, TH_F32, TH_F64, TH_FUNCTION,
    TH_I128, TH_I16, TH_I32, TH_I64, TH_I8, TH_ISIZE, TH_LAZY, TH_OWNED, TH_REF, TH_REF_MUT,
    TH_STRING, TH_TYPE, TH_U128, TH_U16, TH_U32, TH_U64, TH_U8, TH_UNIT, TH_USIZE,
};
use crate::registry::{
    FieldDef, FieldInit, Registry, TypeDef, TypeShape, MANAGED_FIELD_ALIGN, MANAGED_FIELD_SIZE,
};

verus! {

/// A field as the host declares it, before its offset is computed.
pub struct FieldDecl {
    pub name: String,
    pub visibility: Visibility,
    pub kind: AnkhaValueKind,
    pub type_hash: TypeHash,
    pub init: FieldInit,
}

/// Round `x` up to the next multiple of `align`; `align` is positive.
pub fn align_up(x: usize, align: usize) -> (r: Option<usize>)
    requires
        align > 0,
    ensures
        r matches Some(v) ==> {
            &&& v >= x
            &&& v % align == 0
            &&& v < x + align
        },
{
    let rem = x % align;
    if rem == 0 {
        Some(x)
    } else {
        if x > usize::MAX - (align - rem) {
            None
        } else {
            let v = x + (align - rem);
            proof {
                let q = x as int / align as int;
                assert(x == q * align + rem) by (nonlinear_arith)
                    requires
                        align > 0,
                        rem == x as int % align as int,
                        q == x as int / align as int,
                ;
                assert(v == (q + 1) * align) by (nonlinear_arith)
                    requires
                        v == x + align - rem,
                        x == q * align + rem,
                ;
                assert(v as int % align as int == 0) by (nonlinear_arith)
                    requires
                        align > 0,
                        q + 1 >= 0,
                        v == (q + 1) * align,
                ;
            }
            Some(v)
        }
    }
}

/// Whether a computed field default is the declared one (raw default bytes
/// are compared by content).
pub open spec fn init_matches(a: FieldInit, b: FieldInit) -> bool {
    match (a, b) {
        (FieldInit::Required, FieldInit::Required) => true,
        (FieldInit::Owned(x), FieldInit::Owned(y)) => x == y,
        (FieldInit::Boxed(x), FieldInit::Boxed(y)) => x == y,
        (FieldInit::Raw(x), FieldInit::Raw(y)) => x@ == y@,
        _ => false,
    }
}

/// Register one primitive (or otherwise opaque) type. Owed exactly when no
/// registered type already uses the hash; the appended definition carries the
/// given name, hash, layout and copy bit, is default-initializable and is
/// shaped as an opaque native type.
fn add_native(
    reg: &mut Registry,
    name: &str,
    type_hash: TypeHash,
    size: usize,
    align: usize,
    is_copy: bool,
) -> (r: Result<(), Abort>)
    ensures
        final(reg).functions@ == old(reg).functions@,
        r is Ok <==> !old(reg).spec_has_type_hash(type_hash),
        r is Err ==> final(reg).types@ == old(reg).types@,
        r is Ok ==> {
            &&& final(reg).types@ == old(reg).types@.push(final(reg).types@.last())
            &&& final(reg).types@.last().name@ == name@
            &&& final(reg).types@.last().type_hash == type_hash
            &&& final(reg).types@.last().size == size
            &&& final(reg).types@.last().align == align
            &&& final(reg).types@.last().is_copy == is_copy
            &&& final(reg).types@.last().can_initialize
            &&& final(reg).types@.last().shape is Native
        },
{
    reg.add_type(
        TypeDef {
            name: name.to_string(),
            module_name: None,
            visibility: Visibility::Public,
            type_hash,
            size,
            align,
            is_copy,
            can_initialize: true,
            shape: TypeShape::Native,
        },
    )
}

/// Register the primitive types, the five managed container descriptors and
/// the reflection handle types, in that fixed order. On a registry holding no
/// type yet — the usual case — success is owed; otherwise registration stops
/// at the first hash collision.
#[verifier::rlimit(100)]
#[verifier::spinoff_prover]
pub fn install_core_types(reg: &mut Registry) -> (r: Result<(), Abort>)
    ensures
        final(reg).functions@ == old(reg).functions@,
        old(reg).types@.len() == 0 ==> r is Ok,
        r is Ok ==> {
            &&& final(reg).types@.len() == old(reg).types@.len() + 25
            &&& final(reg).types@.take(old(reg).types@.len() as int) == old(reg).types@
            &&& final(reg).types@[old(reg).types@.len() as int + 0].type_hash == TH_UNIT
            &&& final(reg).types@[old(reg).types@.len() as int + 0].size == 0
            &&& final(reg).types@[old(reg).types@.len() as int + 0].is_copy == true
            &&& final(reg).types@[old(reg).types@.len() as int + 1].type_hash == TH_BOOL
            &&& final(reg).types@[old(reg).types@.len() as int + 1].size == 1
            &&& final(reg).types@[old(reg).types@.len() as int + 1].is_copy == true
            &&& final(reg).types@[old(reg).types@.len() as int + 2].type_hash == TH_I8
            &&& final(reg).types@[old(reg).types@.len() as int + 2].size == 1
            &&& final(reg).types@[old(reg).types@.len() as int + 2].is_copy == true
            &&& final(reg).types@[old(reg).types@.len() as int + 3].type_hash == TH_I16
            &&& final(reg).types@[old(reg).types@.len() as int + 3].size == 2
            &&& final(reg).types@[old(reg).types@.len() as int + 3].is_copy == true
            &&& final(reg).types@[old(reg).types@.len() as int + 4].type_hash == TH_I32
            &&& final(reg).types@[old(reg).types@.len() as int + 4].size == 4
            &&& final(reg).types@[old(reg).types@.len() as int + 4].is_copy == true
            &&& final(reg).types@[old(reg).types@.len() as int + 5].type_hash == TH_I64
            &&& final(reg).types@[old(reg).types@.len() as int + 5].size == 8
            &&& final(reg).types@[old(reg).types@.len() as int + 5].is_copy == true
            &&& final(reg).types@[old(reg).types@.len() as int + 6].type_hash == TH_I128
            &&& final(reg).types@[old(reg).types@.len() as int + 6].size == 16
            &&& final(reg).types@[old(reg).types@.len() as int + 6].is_copy == true
            &&& final(reg).types@[old(reg).types@.len() as int + 7].type_hash == TH_ISIZE
            &&& final(reg).types@[old(reg).types@.len() as int + 7].size == 8
            &&& final(reg).types@[old(reg).types@.len() as int + 7].is_copy == true
            &&& final(reg).types@[old(reg).types@.len() as int + 8].type_hash == TH_U8
            &&& final(reg).types@[old(reg).types@.len() as int + 8].size == 1
            &&& final(reg).types@[old(reg).types@.len() as int + 8].is_copy == true
            &&& final(reg).types@[old(reg).types@.len() as int + 9].type_hash == TH_U16
            &&& final(reg).types@[old(reg).types@.len() as int + 9].size == 2
            &&& final(reg).types@[old(reg).types@.len() as int + 9].is_copy == true
            &&& final(reg).types@[old(reg).types@.len() as int + 10].type_hash == TH_U32
            &&& final(reg).types@[old(reg).types@.len() as int + 10].size == 4
            &&& final(reg).types@[old(reg).types@.len() as int + 10].is_copy == true
            &&& final(reg).types@[old(reg).types@.len() as int + 11].type_hash == TH_U64
            &&& final(reg).types@[old(reg).types@.len() as int + 11].size == 8
            &&& final(reg).types@[old(reg).types@.len() as int + 11].is_copy == true
            &&& final(reg).types@[old(reg).types@.len() as int + 12].type_hash == TH_U128
            &&& final(reg).types@[old(reg).types@.len() as int + 12].size == 16
            &&& final(reg).types@[old(reg).types@.len() as int + 12].is_copy == true
            &&& final(reg).types@[old(reg).types@.len() as int + 13].type_hash == TH_USIZE
            &&& final(reg).types@[old(reg).types@.len() as int + 13].size == 8
            &&& final(reg).types@[old(reg).types@.len() as int + 13].is_copy == true
            &&& final(reg).types@[old(reg).types@.len() as int + 14].type_hash == TH_F32
            &&& final(reg).types@[old(reg).types@.len() as int + 14].size == 4
            &&& final(reg).types@[old(reg).types@.len() as int + 14].is_copy == true
            &&& final(reg).types@[old(reg).types@.len() as int + 15].type_hash == TH_F64
            &&& final(reg).types@[old(reg).types@.len() as int + 15].size == 8
            &&& final(reg).types@[old(reg).types@.len() as int + 15].is_copy == true
            &&& final(reg).types@[old(reg).types@.len() as int + 16].type_hash == TH_CHAR
            &&& final(reg).types@[old(reg).types@.len() as int + 16].size == 4
            &&& final(reg).types@[old(reg).types@.len() as int + 16].is_copy == true
            &&& final(reg).types@[old(reg).types@.len() as int + 17].type_hash == TH_STRING
            &&& final(reg).types@[old(reg).types@.len() as int + 17].size == 24
            &&& final(reg).types@[old(reg).types@.len() as int + 17].is_copy == false
            &&& final(reg).types@[old(reg).types@.len() as int + 18].type_hash == TH_TYPE
            &&& final(reg).types@[old(reg).types@.len() as int + 18].size == 8
            &&& final(reg).types@[old(reg).types@.len() as int + 18].is_copy == true
            &&& final(reg).types@[old(reg).types@.len() as int + 19].type_hash == TH_FUNCTION
            &&& final(reg).types@[old(reg).types@.len() as int + 19].size == 8
            &&& final(reg).types@[old(reg).types@.len() as int + 19].is_copy == true
            &&& final(reg).types@[old(reg).types@.len() as int + 20].type_hash == TH_OWNED
            &&& final(reg).types@[old(reg).types@.len() as int + 20].size == MANAGED_FIELD_SIZE
            &&& final(reg).types@[old(reg).types@.len() as int + 20].is_copy == false
            &&& final(reg).types@[old(reg).types@.len() as int + 21].type_hash == TH_REF
            &&& final(reg).types@[old(reg).types@.len() as int + 21].size == MANAGED_FIELD_SIZE
            &&& final(reg).types@[old(reg).types@.len() as int + 21].is_copy == false
            &&& final(reg).types@[old(reg).types@.len() as int + 22].type_hash == TH_REF_MUT
            &&& final(reg).types@[old(reg).types@.len() as int + 22].size == MANAGED_FIELD_SIZE
            &&& final(reg).types@[old(reg).types@.len() as int + 22].is_copy == false
            &&& final(reg).types@[old(reg).types@.len() as int + 23].type_hash == TH_LAZY
            &&& final(reg).types@[old(reg).types@.len() as int + 23].size == MANAGED_FIELD_SIZE
            &&& final(reg).types@[old(reg).types@.len() as int + 23].is_copy == false
            &&& final(reg).types@[old(reg).types@.len() as int + 24].type_hash == TH_BOX
            &&& final(reg).types@[old(reg).types@.len() as int + 24].size == MANAGED_FIELD_SIZE
            &&& final(reg).types@[old(reg).types@.len() as int + 24].is_copy == false
        },
{
    let r = add_native(reg, "unit", TH_UNIT, 0, 1, true);
    if r.is_err() {
        return r;
    }
    let r = add_native(reg, "bool", TH_BOOL, 1, 1, true);
    if r.is_err() {
        return r;
    }
    let r = add_native(reg, "i8", TH_I8, 1, 1, true);
    if r.is_err() {
        return r;
    }
    let r = add_native(reg, "i16", TH_I16, 2, 2, true);
    if r.is_err() {
        return r;
    }
    let r = add_native(reg, "i32", TH_I32, 4, 4, true);
    if r.is_err() {
        return r;
    }
    let r = add_native(reg, "i64", TH_I64, 8, 8, true);
    if r.is_err() {
        return r;
    }
    let r = add_native(reg, "i128", TH_I128, 16, 16, true);
    if r.is_err() {
        return r;
    }
    let r = add_native(reg, "isize", TH_ISIZE, 8, 8, true);
    if r.is_err() {
        return r;
    }
    let r = add_native(reg, "u8", TH_U8, 1, 1, true);
    if r.is_err() {
        return r;
    }
    let r = add_native(reg, "u16", TH_U16, 2, 2, true);
    if r.is_err() {
        return r;
    }
    let r = add_native(reg, "u32", TH_U32, 4, 4, true);
    if r.is_err() {
        return r;
    }
    let r = add_native(reg, "u64", TH_U64, 8, 8, true);
    if r.is_err() {
        return r;
    }
    let r = add_native(reg, "u128", TH_U128, 16, 16, true);
    if r.is_err() {
        return r;
    }
    let r = add_native(reg, "usize", TH_USIZE, 8, 8, true);
    if r.is_err() {
        return r;
    }
    let r = add_native(reg, "f32", TH_F32, 4, 4, true);
    if r.is_err() {
        return r;
    }
    let r = add_native(reg, "f64", TH_F64, 8, 8, true);
    if r.is_err() {
        return r;
    }
    let r = add_native(reg, "char", TH_CHAR, 4, 4, true);
    if r.is_err() {
        return r;
    }
    let r = add_native(reg, "string", TH_STRING, 24, 8, false);
    if r.is_err() {
        return r;
    }
    let r = add_native(reg, "type", TH_TYPE, 8, 8, true);
    if r.is_err() {
        return r;
    }
    let r = add_native(reg, "function", TH_FUNCTION, 8, 8, true);
    if r.is_err() {
        return r;
    }
    let r = add_native(reg, "owned", TH_OWNED, MANAGED_FIELD_SIZE, MANAGED_FIELD_ALIGN, false);
    if r.is_err() {
        return r;
    }
    let r = add_native(reg, "ref", TH_REF, MANAGED_FIELD_SIZE, MANAGED_FIELD_ALIGN, false);
    if r.is_err() {
        return r;
    }
    let r = add_native(reg, "ref_mut", TH_REF_MUT, MANAGED_FIELD_SIZE, MANAGED_FIELD_ALIGN, false);
    if r.is_err() {
        return r;
    }
    let r = add_native(reg, "lazy", TH_LAZY, MANAGED_FIELD_SIZE, MANAGED_FIELD_ALIGN, false);
    if r.is_err() {
        return r;
    }
    add_native(reg, "box", TH_BOX, MANAGED_FIELD_SIZE, MANAGED_FIELD_ALIGN, false)
}

/// Register a struct type. The fields' byte offsets and the struct's size are
/// computed here, once, by standard alignment rules; the field order is kept.
/// Unmanaged fields must name an already-registered data type. The type can
/// default-initialize exactly when every field declares a default.
pub fn register_struct(
    reg: &mut Registry,
    name: &str,
    module_name: Option<&str>,
    visibility: Visibility,
    type_hash: TypeHash,
    is_copy: bool,
    decls: Vec<FieldDecl>,
) -> (r: Result<(), Abort>)
    ensures
        final(reg).functions@ == old(reg).functions@,
        match r {
            Ok(u) => {
                &&& final(reg).types@.len() == old(reg).types@.len() + 1
                &&& final(reg).types@.take(old(reg).types@.len() as int) == old(reg).types@
                &&& {
                    let td = final(reg).types@.last();
                    &&& td.name@ == name@
                    &&& td.type_hash == type_hash
                    &&& td.visibility == visibility
                    &&& td.shape matches TypeShape::Struct(fields) && {
                        &&& fields@.len() == decls@.len()
                        &&& forall|i: int|
                            0 <= i < decls@.len() ==> {
                                &&& (#[trigger] fields@[i]).name@ == decls@[i].name@
                                &&& fields@[i].kind == decls@[i].kind
                                &&& fields@[i].visibility == decls@[i].visibility
                                &&& init_matches(fields@[i].init, decls@[i].init)
                            }
                    }
                }
            },
            Err(a) => final(reg).types@ == old(reg).types@,
        },
{
    let ghost pre = reg.types@;
    let mut fields: Vec<FieldDef> = Vec::new();
    let mut offset: usize = 0;
    let mut max_align: usize = 1;
    let mut all_defaulted = true;
    let mut i: usize = 0;
    while i < decls.len()
        invariant
            0 <= i <= decls@.len(),
            fields@.len() == i,
            max_align >= 1,
            reg.types@ == pre,
            reg.functions@ == old(reg).functions@,
            forall|j: int|
                0 <= j < i ==> {
                    &&& (#[trigger] fields@[j]).name@ == decls@[j].name@
                    &&& fields@[j].kind == decls@[j].kind
                    &&& fields@[j].visibility == decls@[j].visibility
                    &&& init_matches(fields@[j].init, decls@[j].init)
                },
        decreases decls@.len() - i,
    {
        let d = &decls[i];
        let (fsize, falign, fth) = if d.kind.is_any() {
            // an unmanaged field: its data type must be registered
            match reg.find_type_by_hash(d.type_hash) {
                Some((_, td)) => (td.size, td.align, d.type_hash),
                None => {
                    return Err(Abort::RegistryMiss);
                },
            }
        } else {
            // a managed container field
            let th = match d.kind.type_hash() {
                Some(th) => th,
                None => {
                    return Err(Abort::KindMismatch);
                },
            };
            (MANAGED_FIELD_SIZE, MANAGED_FIELD_ALIGN, th)
        };
        if falign == 0 {
            return Err(Abort::InitializationError);
        }
        let field_offset = match align_up(offset, falign) {
            Some(o) => o,
            None => {
                return Err(Abort::InitializationError);
            },
        };
        if field_offset > usize::MAX - fsize {
            return Err(Abort::InitializationError);
        }
        offset = field_offset + fsize;
        if falign > max_align {
            max_align = falign;
        }
        if matches!(d.init, FieldInit::Required) {
            all_defaulted = false;
        }
        fields.push(
            FieldDef {
                name: d.name.clone(),
                visibility: d.visibility,
                kind: d.kind,
                type_hash: fth,
                offset: field_offset,
                init: match &d.init {
                    FieldInit::Required => FieldInit::Required,
                    FieldInit::Owned(l) => FieldInit::Owned(l.duplicate()),
                    FieldInit::Boxed(l) => FieldInit::Boxed(l.duplicate()),
                    FieldInit::Raw(b) => FieldInit::Raw(crate::value::clone_bytes(b)),
                },
            },
        );
        i = i + 1;
    }
    let size = match align_up(offset, max_align) {
        Some(sz) => sz,
        None => {
            return Err(Abort::InitializationError);
        },
    };
    let r = reg.add_type(
        TypeDef {
            name: name.to_string(),
            module_name: match module_name {
                Some(m) => Some(m.to_string()),
                None => None,
            },
            visibility,
            type_hash,
            size,
            align: max_align,
            is_copy,
            can_initialize: all_defaulted,
            shape: TypeShape::Struct(fields),
        },
    );
    proof {
        if r is Ok {
            assert(final(reg).types@.take(pre.len() as int) =~= pre);
        }
    }
    r
}

} // verus!
