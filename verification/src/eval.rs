//! The operation evaluator: dynamic assertions, register traffic, scopes,
//! function calls and the script interpreter.
//!
//! Evaluation threads a step budget: each function call and each loop pass
//! consumes one unit, and an exhausted budget is a fatal abort. Within one
//! budget the evaluator always terminates.

use vstd::prelude::*;
use crate::abort::Abort;
use crate::context::{
    ctx_wf, entry_ok, spec_register_base, spec_stack_base, value_in_bounds, Context, CtxV,
};
use crate::expr::{spec_value_target, value_target};
use crate::kind::{AnkhaValueKind, TypeHash, TH_FUNCTION, TH_TYPE};
use crate::literal::AnkhaLiteral;
use crate::registry::{AnkhaFunctionQuery, AnkhaTypeQuery, Registry};
use crate::script::{AnkhaExpression, AnkhaOperation, AnkhaRegisterAddress};
use crate::value::{AnkhaValue, Body, BodyV, CellV, EntryV, Frame, Place, Register, StackEntry};

verus! {

broadcast use crate::context::lemma_release_len;

/// Why the stack-type assertion fails, or `None` when it passes: no type
/// matches the query, an empty suffix, a raw record, or a payload of another
/// type.
pub open spec fn spec_ensure_stack_type_abort(
    c: CtxV,
    types: Seq<crate::registry::TypeDef>,
    q: &AnkhaTypeQuery,
) -> Option<Abort> {
    match crate::registry::spec_find_type(types, q) {
        None => Some(Abort::RegistryMiss),
        Some(ti) => if c.stack.len() <= spec_stack_base(c) {
            Some(Abort::StackUnderflow)
        } else {
            match c.stack.last() {
                EntryV::Raw { .. } => Some(Abort::KindMismatch),
                EntryV::Value(v) => if Context::spec_value_type_hash(c.cells, v)
                    != types[ti].type_hash {
                    Some(Abort::TypeMismatch)
                } else {
                    None
                },
            }
        },
    }
}

/// Abort unless the top managed value's payload has the queried type. The
/// stack is left as it was.
pub fn eval_ensure_stack_type(ctx: &mut Context, reg: &Registry, type_query: &AnkhaTypeQuery) -> (r:
    Result<(), Abort>)
    requires
        old(ctx).wf(),
    ensures
        final(ctx).wf(),
        final(ctx)@ == old(ctx)@,
        r is Ok <==> spec_ensure_stack_type_abort(old(ctx)@, reg.types@, type_query) is None,
        r matches Err(a) ==> spec_ensure_stack_type_abort(old(ctx)@, reg.types@, type_query)
            == Some(a),
        match r {
            Ok(u) => {
                &&& crate::registry::spec_find_type(reg.types@, type_query) matches Some(ti)
                &&& old(ctx)@.stack.len() > spec_stack_base(old(ctx)@)
                &&& old(ctx)@.stack.last() matches EntryV::Value(v) && Context::spec_value_type_hash(
                    old(ctx)@.cells,
                    v,
                ) == reg.types@[ti].type_hash
            },
            Err(a) => true,
        },
{
    let expected = match reg.find_type(type_query) {
        Some((_, td)) => td.type_hash,
        None => {
            return Err(Abort::RegistryMiss);
        },
    };
    if ctx.stack.len() <= ctx.stack_base() {
        return Err(Abort::StackUnderflow);
    }
    let v = match &ctx.stack[ctx.stack.len() - 1] {
        StackEntry::Value(v) => *v,
        StackEntry::Raw { .. } => {
            return Err(Abort::KindMismatch);
        },
    };
    proof {
        assert(entry_ok(old(ctx)@.stack.last(), old(ctx)@.cells.len()));
    }
    let th = ctx.value_type_hash(&v);
    if th != expected {
        return Err(Abort::TypeMismatch);
    }
    Ok(())
}

/// Abort unless the top managed value has the given ownership kind. A raw
/// record has the wildcard kind `Any`.
pub fn eval_ensure_stack_kind(ctx: &mut Context, kind: AnkhaValueKind) -> (r: Result<(), Abort>)
    requires
        old(ctx).wf(),
    ensures
        final(ctx).wf(),
        final(ctx)@ == old(ctx)@,
        r is Ok <==> old(ctx)@.stack.len() > spec_stack_base(old(ctx)@) && (match old(
            ctx,
        )@.stack.last() {
            EntryV::Value(v) => v.spec_kind() == kind,
            EntryV::Raw { .. } => kind == AnkhaValueKind::Any,
        }),
        r matches Err(a) ==> (a == Abort::StackUnderflow <==> old(ctx)@.stack.len()
            <= spec_stack_base(old(ctx)@)) && (a == Abort::StackUnderflow || a
            == Abort::KindMismatch),
        match r {
            Ok(u) => {
                &&& old(ctx)@.stack.len() > spec_stack_base(old(ctx)@)
                &&& match old(ctx)@.stack.last() {
                    EntryV::Value(v) => v.spec_kind() == kind,
                    EntryV::Raw { .. } => kind == AnkhaValueKind::Any,
                }
            },
            Err(a) => true,
        },
{
    if ctx.stack.len() <= ctx.stack_base() {
        return Err(Abort::StackUnderflow);
    }
    let provided = match &ctx.stack[ctx.stack.len() - 1] {
        StackEntry::Value(v) => v.kind(),
        StackEntry::Raw { .. } => AnkhaValueKind::Any,
    };
    if provided != kind {
        return Err(Abort::KindMismatch);
    }
    Ok(())
}

/// Resolve a scope-relative register index to an absolute one.
fn absolute_register(ctx: &Context, index: usize) -> (r: Result<usize, Abort>)
    requires
        ctx.wf(),
    ensures
        r is Ok <==> spec_register_base(ctx@) + index < ctx@.registers.len(),
        match r {
            Ok(abs) => {
                &&& abs == spec_register_base(ctx@) + index
                &&& abs < ctx@.registers.len()
            },
            Err(a) => a == Abort::RegisterOutOfRange,
        },
{
    let base = ctx.register_base();
    if index >= ctx.registers.len() || base > ctx.registers.len() - 1 - index {
        return Err(Abort::RegisterOutOfRange);
    }
    Ok(base + index)
}

/// Why the register-type assertion fails, or `None` when it passes.
pub open spec fn spec_ensure_register_type_abort(
    c: CtxV,
    types: Seq<crate::registry::TypeDef>,
    q: &AnkhaTypeQuery,
    index: usize,
) -> Option<Abort> {
    match crate::registry::spec_find_type(types, q) {
        None => Some(Abort::RegistryMiss),
        Some(ti) => if spec_register_base(c) + index >= c.registers.len() {
            Some(Abort::RegisterOutOfRange)
        } else {
            match c.registers[spec_register_base(c) + index].value {
                None => Some(Abort::InitializationError),
                Some(v) => if Context::spec_value_type_hash(c.cells, v) != types[ti].type_hash {
                    Some(Abort::TypeMismatch)
                } else {
                    None
                },
            }
        },
    }
}

/// Abort unless the addressed register holds a value whose payload has the
/// queried type.
pub fn eval_ensure_register_type(
    ctx: &mut Context,
    reg: &Registry,
    type_query: &AnkhaTypeQuery,
    index: usize,
) -> (r: Result<(), Abort>)
    requires
        old(ctx).wf(),
    ensures
        final(ctx).wf(),
        final(ctx)@ == old(ctx)@,
        r is Ok <==> spec_ensure_register_type_abort(old(ctx)@, reg.types@, type_query, index)
            is None,
        r matches Err(a) ==> spec_ensure_register_type_abort(
            old(ctx)@,
            reg.types@,
            type_query,
            index,
        ) == Some(a),
        match r {
            Ok(u) => {
                &&& crate::registry::spec_find_type(reg.types@, type_query) matches Some(ti)
                &&& spec_register_base(old(ctx)@) + index < old(ctx)@.registers.len()
                &&& old(ctx)@.registers[spec_register_base(old(ctx)@) + index].value matches Some(
                    v,
                ) && Context::spec_value_type_hash(old(ctx)@.cells, v) == reg.types@[ti].type_hash
            },
            Err(a) => true,
        },
{
    let expected = match reg.find_type(type_query) {
        Some((_, td)) => td.type_hash,
        None => {
            return Err(Abort::RegistryMiss);
        },
    };
    let abs = match absolute_register(ctx, index) {
        Ok(a) => a,
        Err(a) => {
            return Err(a);
        },
    };
    let v = match ctx.registers[abs].value {
        Some(v) => v,
        None => {
            return Err(Abort::InitializationError);
        },
    };
    proof {
        assert(crate::context::register_ok(old(ctx)@.registers[abs as int], old(ctx)@.cells.len()));
    }
    let th = ctx.value_type_hash(&v);
    if th != expected {
        return Err(Abort::TypeMismatch);
    }
    Ok(())
}

/// Abort unless the addressed register is declared for the given kind.
pub fn eval_ensure_register_kind(ctx: &mut Context, kind: AnkhaValueKind, index: usize) -> (r:
    Result<(), Abort>)
    requires
        old(ctx).wf(),
    ensures
        final(ctx).wf(),
        final(ctx)@ == old(ctx)@,
        r is Ok <==> spec_register_base(old(ctx)@) + index < old(ctx)@.registers.len() && old(
            ctx,
        )@.registers[spec_register_base(old(ctx)@) + index].kind == kind,
        r matches Err(a) ==> a == (if spec_register_base(old(ctx)@) + index >= old(
            ctx,
        )@.registers.len() {
            Abort::RegisterOutOfRange
        } else {
            Abort::KindMismatch
        }),
        match r {
            Ok(u) => {
                &&& spec_register_base(old(ctx)@) + index < old(ctx)@.registers.len()
                &&& old(ctx)@.registers[spec_register_base(old(ctx)@) + index].kind == kind
            },
            Err(a) => true,
        },
{
    let abs = match absolute_register(ctx, index) {
        Ok(a) => a,
        Err(a) => {
            return Err(a);
        },
    };
    if ctx.registers[abs].kind != kind {
        return Err(Abort::KindMismatch);
    }
    Ok(())
}

/// Allocate a fresh register of the given kind at the top of the current
/// scope. The wildcard kind cannot declare a register.
pub fn eval_make_register(ctx: &mut Context, kind: AnkhaValueKind) -> (r: Result<(), Abort>)
    requires
        old(ctx).wf(),
    ensures
        final(ctx).wf(),
        match r {
            Ok(u) => {
                &&& kind != AnkhaValueKind::Any
                &&& final(ctx)@ == (CtxV {
                    registers: old(ctx)@.registers.push(
                        Register { kind, value: None::<AnkhaValue> },
                    ),
                    ..old(ctx)@
                })
            },
            Err(a) => {
                &&& a == Abort::KindMismatch
                &&& kind == AnkhaValueKind::Any
                &&& final(ctx)@ == old(ctx)@
            },
        },
{
    if kind.is_any() {
        return Err(Abort::KindMismatch);
    }
    ctx.registers.push(Register { kind, value: None });
    proof {
        assert(ctx@.registers =~= old(ctx)@.registers.push(
            Register { kind, value: None::<AnkhaValue> },
        ));
        assert(ctx@ =~= (CtxV {
            registers: old(ctx)@.registers.push(Register { kind, value: None::<AnkhaValue> }),
            ..old(ctx)@
        }));
    }
    Ok(())
}

/// Why dropping a register's value fails, or `None` when it is owed: an
/// address outside the register file, or a faulting release of the held
/// container. An empty register drops to nothing, successfully.
pub open spec fn spec_drop_register_abort(c: CtxV, index: usize) -> Option<Abort> {
    if spec_register_base(c) + index >= c.registers.len() {
        Some(Abort::RegisterOutOfRange)
    } else {
        match c.registers[spec_register_base(c) + index].value {
            None => None,
            Some(v) => match crate::context::spec_release(c.cells, v) {
                Err(a) => Some(a),
                Ok(_) => None,
            },
        }
    }
}

/// Drop the addressed register's value, running its finalizer; the slot stays
/// allocated and empty.
pub fn eval_drop_register(ctx: &mut Context, index: usize) -> (r: Result<(), Abort>)
    requires
        old(ctx).wf(),
    ensures
        final(ctx).wf(),
        final(ctx)@.stack == old(ctx)@.stack,
        final(ctx)@.frames == old(ctx)@.frames,
        r is Ok <==> spec_drop_register_abort(old(ctx)@, index) is None,
        r matches Err(a) ==> spec_drop_register_abort(old(ctx)@, index) == Some(a),
        match r {
            Ok(u) => {
                &&& spec_register_base(old(ctx)@) + index < old(ctx)@.registers.len()
                &&& {
                    let abs = spec_register_base(old(ctx)@) + index;
                    match old(ctx)@.registers[abs as int].value {
                        None => final(ctx)@ == old(ctx)@,
                        Some(v) => {
                            &&& crate::context::spec_release(old(ctx)@.cells, v) is Ok
                            &&& final(ctx)@.cells == crate::context::spec_release(
                                old(ctx)@.cells,
                                v,
                            )->Ok_0.0
                            &&& final(ctx)@.finalized == old(ctx)@.finalized
                                + crate::context::spec_release(old(ctx)@.cells, v)->Ok_0.1
                            &&& final(ctx)@.registers == old(ctx)@.registers.update(
                                abs as int,
                                Register {
                                    kind: old(ctx)@.registers[abs as int].kind,
                                    value: None::<AnkhaValue>,
                                },
                            )
                        },
                    }
                }
            },
            Err(a) => final(ctx)@ == old(ctx)@,
        },
{
    let abs = match absolute_register(ctx, index) {
        Ok(a) => a,
        Err(a) => {
            return Err(a);
        },
    };
    let v = match ctx.registers[abs].value {
        Some(v) => v,
        None => {
            proof {
                assert(final(ctx)@ =~= old(ctx)@);
            }
            return Ok(());
        },
    };
    proof {
        assert(crate::context::register_ok(old(ctx)@.registers[abs as int], old(ctx)@.cells.len()));
    }
    match ctx.release_value(v) {
        Ok(u) => {},
        Err(a) => {
            return Err(a);
        },
    }
    let kind = ctx.registers[abs].kind;
    ctx.registers[abs] = Register { kind, value: None };
    proof {
        assert(ctx@.registers =~= old(ctx)@.registers.update(
            abs as int,
            Register { kind: old(ctx)@.registers[abs as int].kind, value: None::<AnkhaValue> },
        ));
    }
    Ok(())
}

/// Why pushing from a register fails, or `None` when it is owed: an address
/// outside the register file, or an empty register.
pub open spec fn spec_push_from_register_abort(c: CtxV, index: usize) -> Option<Abort> {
    if spec_register_base(c) + index >= c.registers.len() {
        Some(Abort::RegisterOutOfRange)
    } else if c.registers[spec_register_base(c) + index].value is None {
        Some(Abort::InitializationError)
    } else {
        None
    }
}

/// Move the addressed register's value onto the stack, leaving the register
/// empty. An empty register cannot be pushed from.
pub fn eval_push_from_register(ctx: &mut Context, index: usize) -> (r: Result<(), Abort>)
    requires
        old(ctx).wf(),
    ensures
        final(ctx).wf(),
        final(ctx)@.cells == old(ctx)@.cells,
        final(ctx)@.frames == old(ctx)@.frames,
        final(ctx)@.finalized == old(ctx)@.finalized,
        r is Ok <==> spec_push_from_register_abort(old(ctx)@, index) is None,
        r matches Err(a) ==> spec_push_from_register_abort(old(ctx)@, index) == Some(a),
        match r {
            Ok(u) => {
                &&& spec_register_base(old(ctx)@) + index < old(ctx)@.registers.len()
                &&& {
                    let abs = spec_register_base(old(ctx)@) + index;
                    &&& old(ctx)@.registers[abs as int].value matches Some(v) && {
                        &&& final(ctx)@.stack == old(ctx)@.stack.push(EntryV::Value(v))
                        &&& final(ctx)@.registers == old(ctx)@.registers.update(
                            abs as int,
                            Register {
                                kind: old(ctx)@.registers[abs as int].kind,
                                value: None::<AnkhaValue>,
                            },
                        )
                    }
                }
            },
            Err(a) => final(ctx)@ == old(ctx)@,
        },
{
    let abs = match absolute_register(ctx, index) {
        Ok(a) => a,
        Err(a) => {
            return Err(a);
        },
    };
    let v = match ctx.registers[abs].value {
        Some(v) => v,
        None => {
            return Err(Abort::InitializationError);
        },
    };
    proof {
        assert(crate::context::register_ok(old(ctx)@.registers[abs as int], old(ctx)@.cells.len()));
    }
    let kind = ctx.registers[abs].kind;
    let ghost pre = ctx@;
    ctx.registers[abs] = Register { kind, value: None };
    proof {
        crate::context::lemma_register_update_wf(pre, ctx@, abs as int);
    }
    ctx.push_entry(StackEntry::Value(v));
    proof {
        assert(final(ctx)@.registers =~= old(ctx)@.registers.update(
            abs as int,
            Register { kind: old(ctx)@.registers[abs as int].kind, value: None::<AnkhaValue> },
        ));
        assert(final(ctx)@.stack =~= old(ctx)@.stack.push(EntryV::Value(v)));
    }
    Ok(())
}

/// Why popping into a register fails, or `None` when it is owed: an address
/// outside the register file, an empty suffix, a raw record, a kind that the
/// register does not take, or a faulting release of the evicted container.
pub open spec fn spec_pop_to_register_abort(c: CtxV, index: usize) -> Option<Abort> {
    if spec_register_base(c) + index >= c.registers.len() {
        Some(Abort::RegisterOutOfRange)
    } else if c.stack.len() <= spec_stack_base(c) {
        Some(Abort::StackUnderflow)
    } else {
        match c.stack.last() {
            EntryV::Raw { .. } => Some(Abort::KindMismatch),
            EntryV::Value(v) => {
                let slot = c.registers[spec_register_base(c) + index];
                if slot.kind != AnkhaValueKind::Any && v.spec_kind() != slot.kind {
                    Some(Abort::KindMismatch)
                } else {
                    match slot.value {
                        None => None,
                        Some(w) => match crate::context::spec_release(c.cells, w) {
                            Err(a) => Some(a),
                            Ok(_) => None,
                        },
                    }
                }
            },
        }
    }
}

/// Pop the top stack value into the addressed register; what the register
/// held is dropped (its finalizer runs). The value's kind must match the
/// register's declared kind, unless the register takes any kind.
pub fn eval_pop_to_register(ctx: &mut Context, index: usize) -> (r: Result<(), Abort>)
    requires
        old(ctx).wf(),
    ensures
        final(ctx).wf(),
        final(ctx)@.frames == old(ctx)@.frames,
        r is Ok <==> spec_pop_to_register_abort(old(ctx)@, index) is None,
        r matches Err(a) ==> spec_pop_to_register_abort(old(ctx)@, index) == Some(a),
        match r {
            Ok(u) => {
                &&& spec_register_base(old(ctx)@) + index < old(ctx)@.registers.len()
                &&& old(ctx)@.stack.len() > spec_stack_base(old(ctx)@)
                &&& old(ctx)@.stack.last() matches EntryV::Value(v) && {
                    let abs = spec_register_base(old(ctx)@) + index;
                    let slot = old(ctx)@.registers[abs as int];
                    &&& (slot.kind == AnkhaValueKind::Any || v.spec_kind() == slot.kind)
                    &&& final(ctx)@.stack == old(ctx)@.stack.drop_last()
                    &&& final(ctx)@.registers == old(ctx)@.registers.update(
                        abs as int,
                        Register { kind: slot.kind, value: Some(v) },
                    )
                    &&& match slot.value {
                        None => {
                            &&& final(ctx)@.cells == old(ctx)@.cells
                            &&& final(ctx)@.finalized == old(ctx)@.finalized
                        },
                        Some(w) => {
                            &&& crate::context::spec_release(old(ctx)@.cells, w) is Ok
                            &&& final(ctx)@.cells == crate::context::spec_release(
                                old(ctx)@.cells,
                                w,
                            )->Ok_0.0
                            &&& final(ctx)@.finalized == old(ctx)@.finalized
                                + crate::context::spec_release(old(ctx)@.cells, w)->Ok_0.1
                        },
                    }
                }
            },
            Err(a) => final(ctx)@ == old(ctx)@,
        },
{
    let abs = match absolute_register(ctx, index) {
        Ok(a) => a,
        Err(a) => {
            return Err(a);
        },
    };
    let e = match ctx.pop_entry() {
        Ok(e) => e,
        Err(a) => {
            return Err(a);
        },
    };
    let v = match e {
        StackEntry::Value(v) => v,
        StackEntry::Raw { type_hash, bytes } => {
            ctx.push_entry(StackEntry::Raw { type_hash, bytes });
            proof {
                assert(ctx@.stack =~= old(ctx)@.stack);
                assert(ctx@ =~= old(ctx)@);
            }
            return Err(Abort::KindMismatch);
        },
    };
    let kind = ctx.registers[abs].kind;
    if !kind.is_any() && v.kind() != kind {
        ctx.push_entry(StackEntry::Value(v));
        proof {
            assert(ctx@.stack =~= old(ctx)@.stack);
            assert(ctx@ =~= old(ctx)@);
        }
        return Err(Abort::KindMismatch);
    }
    if let Some(w) = ctx.registers[abs].value {
        proof {
            assert(crate::context::register_ok(
                old(ctx)@.registers[abs as int],
                old(ctx)@.cells.len(),
            ));
        }
        match ctx.release_value(w) {
            Ok(u) => {},
            Err(a) => {
                ctx.push_entry(StackEntry::Value(v));
                proof {
                    assert(ctx@.stack =~= old(ctx)@.stack);
                    assert(ctx@ =~= old(ctx)@);
                }
                return Err(a);
            },
        }
    }
    ctx.registers[abs] = Register { kind, value: Some(v) };
    proof {
        assert(ctx@.registers =~= old(ctx)@.registers.update(
            abs as int,
            Register { kind: old(ctx)@.registers[abs as int].kind, value: Some(v) },
        ));
    }
    Ok(())
}

/// The host side of native functions: the registry refers to a host function
/// by an identifier, the evaluator pops the declared inputs, hands them over
/// as literals and pushes the returned literals back. Nothing is assumed
/// about what a host function computes.
pub trait AnkhaHost {
    fn call(&mut self, id: u64, args: Vec<AnkhaLiteral>) -> Result<Vec<AnkhaLiteral>, Abort>;
}

/// A host that offers no native functions: every call fails.
pub struct NoHost;

impl AnkhaHost for NoHost {
    fn call(&mut self, id: u64, args: Vec<AnkhaLiteral>) -> Result<Vec<AnkhaLiteral>, Abort> {
        Err(Abort::HostFailure)
    }
}

/// The literal a payload encodes under a primitive type, or `None` when the
/// pair decodes to nothing: a non-primitive hash, a shape that does not fit
/// the type, or bytes of the wrong length.
pub open spec fn spec_literal_from_body(type_hash: TypeHash, b: &Body) -> Option<AnkhaLiteral> {
    match b {
        Body::Text(t) => if type_hash == crate::kind::TH_STRING {
            Some(AnkhaLiteral::String(*t))
        } else {
            None
        },
        Body::Fields(_) => None,
        Body::Raw(bytes) => if type_hash == crate::kind::TH_UNIT {
            if bytes@.len() == 0 {
                Some(AnkhaLiteral::Unit)
            } else {
                None
            }
        } else if type_hash == crate::kind::TH_BOOL {
            if bytes@.len() == 1 && bytes@[0] <= 1 {
                Some(AnkhaLiteral::Bool(bytes@[0] == 1))
            } else {
                None
            }
        } else if type_hash == crate::kind::TH_I8 {
            if bytes@.len() == 1 {
                Some(AnkhaLiteral::I8(bytes@[0] as i8))
            } else {
                None
            }
        } else if type_hash == crate::kind::TH_U8 {
            if bytes@.len() == 1 {
                Some(AnkhaLiteral::U8(bytes@[0]))
            } else {
                None
            }
        } else if type_hash == crate::kind::TH_I16 {
            if bytes@.len() == 2 {
                Some(AnkhaLiteral::I16(vstd::bytes::spec_u16_from_le_bytes(bytes@) as i16))
            } else {
                None
            }
        } else if type_hash == crate::kind::TH_U16 {
            if bytes@.len() == 2 {
                Some(AnkhaLiteral::U16(vstd::bytes::spec_u16_from_le_bytes(bytes@)))
            } else {
                None
            }
        } else if type_hash == crate::kind::TH_I32 {
            if bytes@.len() == 4 {
                Some(AnkhaLiteral::I32(vstd::bytes::spec_u32_from_le_bytes(bytes@) as i32))
            } else {
                None
            }
        } else if type_hash == crate::kind::TH_U32 {
            if bytes@.len() == 4 {
                Some(AnkhaLiteral::U32(vstd::bytes::spec_u32_from_le_bytes(bytes@)))
            } else {
                None
            }
        } else if type_hash == crate::kind::TH_I64 {
            if bytes@.len() == 8 {
                Some(AnkhaLiteral::I64(vstd::bytes::spec_u64_from_le_bytes(bytes@) as i64))
            } else {
                None
            }
        } else if type_hash == crate::kind::TH_U64 {
            if bytes@.len() == 8 {
                Some(AnkhaLiteral::U64(vstd::bytes::spec_u64_from_le_bytes(bytes@)))
            } else {
                None
            }
        } else if type_hash == crate::kind::TH_ISIZE {
            if bytes@.len() == 8 {
                Some(AnkhaLiteral::Isize(vstd::bytes::spec_u64_from_le_bytes(bytes@) as i64))
            } else {
                None
            }
        } else if type_hash == crate::kind::TH_USIZE {
            if bytes@.len() == 8 {
                Some(AnkhaLiteral::Usize(vstd::bytes::spec_u64_from_le_bytes(bytes@)))
            } else {
                None
            }
        } else if type_hash == crate::kind::TH_I128 {
            if bytes@.len() == 16 {
                Some(AnkhaLiteral::I128(vstd::bytes::spec_u128_from_le_bytes(bytes@) as i128))
            } else {
                None
            }
        } else if type_hash == crate::kind::TH_U128 {
            if bytes@.len() == 16 {
                Some(AnkhaLiteral::U128(vstd::bytes::spec_u128_from_le_bytes(bytes@)))
            } else {
                None
            }
        } else if type_hash == crate::kind::TH_F32 {
            if bytes@.len() == 4 {
                Some(AnkhaLiteral::F32Bits(vstd::bytes::spec_u32_from_le_bytes(bytes@)))
            } else {
                None
            }
        } else if type_hash == crate::kind::TH_F64 {
            if bytes@.len() == 8 {
                Some(AnkhaLiteral::F64Bits(vstd::bytes::spec_u64_from_le_bytes(bytes@)))
            } else {
                None
            }
        } else {
            None
        },
    }
}

/// Decode a payload back into the literal it encodes, exactly as
/// [`spec_literal_from_body`] says. A decoded literal re-encodes to the same
/// payload.
pub fn literal_from_body(type_hash: TypeHash, body: &Body) -> (r: Option<AnkhaLiteral>)
    ensures
        r == spec_literal_from_body(type_hash, body),
        r matches Some(lit) ==> {
            &&& lit.spec_type_hash() == type_hash
            &&& crate::expr::spec_literal_body(&lit) == body@
        },
{
    proof {
        vstd::bytes::lemma_auto_spec_u16_to_from_le_bytes();
        vstd::bytes::lemma_auto_spec_u32_to_from_le_bytes();
        vstd::bytes::lemma_auto_spec_u64_to_from_le_bytes();
        vstd::bytes::lemma_auto_spec_u128_to_from_le_bytes();
    }
    match body {
        Body::Text(s) => {
            if type_hash == crate::kind::TH_STRING {
                Some(AnkhaLiteral::String(s.clone()))
            } else {
                None
            }
        },
        Body::Fields(_) => None,
        Body::Raw(bytes) => {
            if type_hash == crate::kind::TH_UNIT {
                if bytes.len() == 0 {
                    proof {
                        assert(bytes@ =~= Seq::<u8>::empty());
                    }
                    Some(AnkhaLiteral::Unit)
                } else {
                    None
                }
            } else if type_hash == crate::kind::TH_BOOL {
                if bytes.len() == 1 && bytes[0] <= 1 {
                    let lit = AnkhaLiteral::Bool(bytes[0] == 1);
                    proof {
                        assert(lit.spec_bytes() =~= bytes@);
                    }
                    Some(lit)
                } else {
                    None
                }
            } else if type_hash == crate::kind::TH_I8 {
                if bytes.len() == 1 {
                    let lit = AnkhaLiteral::I8(bytes[0] as i8);
                    proof {
                        let b = bytes@[0];
                        assert((b as i8) as u8 == b) by (bit_vector);
                        assert(lit.spec_bytes() =~= bytes@);
                    }
                    Some(lit)
                } else {
                    None
                }
            } else if type_hash == crate::kind::TH_U8 {
                if bytes.len() == 1 {
                    let lit = AnkhaLiteral::U8(bytes[0]);
                    proof {
                        assert(lit.spec_bytes() =~= bytes@);
                    }
                    Some(lit)
                } else {
                    None
                }
            } else if type_hash == crate::kind::TH_I16 {
                if bytes.len() == 2 {
                    let v = vstd::bytes::u16_from_le_bytes(bytes.as_slice());
                    proof {
                        assert(((v as i16) as u16) == v) by (bit_vector);
                    }
                    Some(AnkhaLiteral::I16(v as i16))
                } else {
                    None
                }
            } else if type_hash == crate::kind::TH_U16 {
                if bytes.len() == 2 {
                    Some(AnkhaLiteral::U16(vstd::bytes::u16_from_le_bytes(bytes.as_slice())))
                } else {
                    None
                }
            } else if type_hash == crate::kind::TH_I32 {
                if bytes.len() == 4 {
                    let v = vstd::bytes::u32_from_le_bytes(bytes.as_slice());
                    proof {
                        assert(((v as i32) as u32) == v) by (bit_vector);
                    }
                    Some(AnkhaLiteral::I32(v as i32))
                } else {
                    None
                }
            } else if type_hash == crate::kind::TH_U32 {
                if bytes.len() == 4 {
                    Some(AnkhaLiteral::U32(vstd::bytes::u32_from_le_bytes(bytes.as_slice())))
                } else {
                    None
                }
            } else if type_hash == crate::kind::TH_I64 {
                if bytes.len() == 8 {
                    let v = vstd::bytes::u64_from_le_bytes(bytes.as_slice());
                    proof {
                        assert(((v as i64) as u64) == v) by (bit_vector);
                    }
                    Some(AnkhaLiteral::I64(v as i64))
                } else {
                    None
                }
            } else if type_hash == crate::kind::TH_U64 {
                if bytes.len() == 8 {
                    Some(AnkhaLiteral::U64(vstd::bytes::u64_from_le_bytes(bytes.as_slice())))
                } else {
                    None
                }
            } else if type_hash == crate::kind::TH_ISIZE {
                if bytes.len() == 8 {
                    let v = vstd::bytes::u64_from_le_bytes(bytes.as_slice());
                    proof {
                        assert(((v as i64) as u64) == v) by (bit_vector);
                    }
                    Some(AnkhaLiteral::Isize(v as i64))
                } else {
                    None
                }
            } else if type_hash == crate::kind::TH_USIZE {
                if bytes.len() == 8 {
                    Some(AnkhaLiteral::Usize(vstd::bytes::u64_from_le_bytes(bytes.as_slice())))
                } else {
                    None
                }
            } else if type_hash == crate::kind::TH_I128 {
                if bytes.len() == 16 {
                    let v = vstd::bytes::u128_from_le_bytes(bytes.as_slice());
                    proof {
                        assert(((v as i128) as u128) == v) by (bit_vector);
                    }
                    Some(AnkhaLiteral::I128(v as i128))
                } else {
                    None
                }
            } else if type_hash == crate::kind::TH_U128 {
                if bytes.len() == 16 {
                    Some(AnkhaLiteral::U128(vstd::bytes::u128_from_le_bytes(bytes.as_slice())))
                } else {
                    None
                }
            } else if type_hash == crate::kind::TH_F32 {
                if bytes.len() == 4 {
                    Some(AnkhaLiteral::F32Bits(vstd::bytes::u32_from_le_bytes(bytes.as_slice())))
                } else {
                    None
                }
            } else if type_hash == crate::kind::TH_F64 {
                if bytes.len() == 8 {
                    Some(AnkhaLiteral::F64Bits(vstd::bytes::u64_from_le_bytes(bytes.as_slice())))
                } else {
                    None
                }
            } else {
                None
            }
        },
    }
}

impl Context {
    /// Enter a new scope: record where the stack and the register file stand.
    /// A hard frame is a function boundary; a soft frame is a branch, loop or
    /// scope body.
    pub fn push_frame(&mut self, hard: bool)
        requires
            old(self).wf(),
        ensures
            final(self).wf(),
            final(self)@.frames.len() == old(self)@.frames.len() + 1,
            final(self)@.frames == old(self)@.frames.push(final(self)@.frames.last()),
            final(self)@.frames.last().stack_base == old(self)@.stack.len(),
            final(self)@.frames.last().register_base == old(self)@.registers.len(),
            final(self)@.frames.last().hard == hard,
            final(self)@ == (CtxV { frames: final(self)@.frames, ..old(self)@ }),
    {
        let f = Frame { stack_base: self.stack.len(), register_base: self.registers.len(), hard };
        self.frames.push(f);
        proof {
            assert(self@.frames =~= old(self)@.frames.push(f));
            assert(self@ =~= (CtxV { frames: old(self)@.frames.push(f), ..old(self)@ }));
        }
    }

    /// Exit the current scope: truncate the register file and the stack back
    /// to the recorded bases, running finalizers on everything displaced,
    /// newest first.
    #[verifier::loop_isolation(false)]
    pub fn exit_scope(&mut self) -> (r: Result<(), Abort>)
        requires
            old(self).wf(),
            old(self)@.frames.len() > 0,
        ensures
            final(self).wf(),
            final(self)@.frames == old(self)@.frames.drop_last(),
            final(self)@.cells.len() == old(self)@.cells.len(),
            old(self)@.finalized.is_prefix_of(final(self)@.finalized),
            final(self)@.registers.len() >= min_nat(
                old(self)@.frames.last().register_base as nat,
                old(self)@.registers.len(),
            ),
            final(self)@.registers.take(
                min_nat(
                    old(self)@.frames.last().register_base as nat,
                    old(self)@.registers.len(),
                ) as int,
            ) == old(self)@.registers.take(
                min_nat(
                    old(self)@.frames.last().register_base as nat,
                    old(self)@.registers.len(),
                ) as int,
            ),
            final(self)@.stack.take(
                min_nat(old(self)@.frames.last().stack_base as nat, old(self)@.stack.len()) as int,
            ) == old(self)@.stack.take(
                min_nat(old(self)@.frames.last().stack_base as nat, old(self)@.stack.len()) as int,
            ),
            final(self)@.stack.len() >= min_nat(
                old(self)@.frames.last().stack_base as nat,
                old(self)@.stack.len(),
            ),
            match r {
                Ok(u) => {
                    &&& final(self)@.registers == old(self)@.registers.take(
                        min_nat(
                            old(self)@.frames.last().register_base as nat,
                            old(self)@.registers.len(),
                        ) as int,
                    )
                    &&& final(self)@.stack == old(self)@.stack.take(
                        min_nat(
                            old(self)@.frames.last().stack_base as nat,
                            old(self)@.stack.len(),
                        ) as int,
                    )
                },
                Err(a) => true,
            },
    {
        let frame = self.frames[self.frames.len() - 1];
        self.frames.pop();
        proof {
            assert(self@.frames =~= old(self)@.frames.drop_last());
            assert(self@ =~= (CtxV { frames: old(self)@.frames.drop_last(), ..old(self)@ }));
        }
        let ghost entered = self@;
        // unwind the register file, newest slot first
        while self.registers.len() > frame.register_base
            invariant
                self.wf(),
                self@.frames == entered.frames,
                self@.cells.len() == entered.cells.len(),
                self@.stack == entered.stack,
                entered.finalized.is_prefix_of(self@.finalized),
                self@.registers.len() <= entered.registers.len(),
                self@.registers.len() >= min_nat(
                    frame.register_base as nat,
                    entered.registers.len(),
                ),
                self@.registers == entered.registers.take(self@.registers.len() as int),
            decreases self@.registers.len(),
        {
            let slot = self.registers[self.registers.len() - 1];
            let ghost pre = self@;
            self.registers.pop();
            proof {
                assert(self@.registers =~= pre.registers.drop_last());
                assert(self@.registers =~= entered.registers.take(self@.registers.len() as int));
            }
            if let Some(v) = slot.value {
                proof {
                    assert(crate::context::register_ok(
                        pre.registers[pre.registers.len() - 1],
                        pre.cells.len(),
                    ));
                }
                match self.release_value(v) {
                    Ok(u) => {},
                    Err(a) => {
                        return Err(a);
                    },
                }
            }
        }
        let ghost regs_done = self@;
        // unwind the stack, newest record first
        while self.stack.len() > frame.stack_base
            invariant
                self.wf(),
                self@.frames == entered.frames,
                self@.cells.len() == entered.cells.len(),
                self@.registers == regs_done.registers,
                entered.finalized.is_prefix_of(self@.finalized),
                self@.stack.len() <= entered.stack.len(),
                self@.stack.len() >= min_nat(frame.stack_base as nat, entered.stack.len()),
                self@.stack == entered.stack.take(self@.stack.len() as int),
            decreases self@.stack.len(),
        {
            let ghost pre = self@;
            let e = self.stack.pop().unwrap();
            proof {
                assert(self@.stack =~= pre.stack.drop_last());
                assert(self@.stack =~= entered.stack.take(self@.stack.len() as int));
            }
            match e {
                StackEntry::Raw { type_hash, .. } => {
                    self.finalized.push(type_hash);
                },
                StackEntry::Value(v) => {
                    proof {
                        assert(ctx_wf(entered));
                        assert(entry_ok(entered.stack[self@.stack.len() as int], entered.cells.len()));
                        assert(e@ == pre.stack[pre.stack.len() - 1]);
                        assert(pre.stack[pre.stack.len() - 1] == entered.stack[self@.stack.len() as int]);
                    }
                    match self.release_value(v) {
                        Ok(u) => {},
                        Err(a) => {
                            return Err(a);
                        },
                    }
                },
            }
        }
        proof {
            assert(self@.registers =~= entered.registers.take(
                min_nat(frame.register_base as nat, entered.registers.len()) as int,
            ));
            assert(self@.stack =~= entered.stack.take(
                min_nat(frame.stack_base as nat, entered.stack.len()) as int,
            ));
        }
        Ok(())
    }
}

/// The smaller of two naturals.
pub open spec fn min_nat(a: nat, b: nat) -> nat {
    if a <= b {
        a
    } else {
        b
    }
}

/// What every balanced evaluation step guarantees its caller: the scope
/// frames are as they were, the arena only grows, the finalizer log only
/// grows, and the stack and register prefixes owned by enclosing scopes are
/// untouched.
pub open spec fn frame_preserved(pre: CtxV, post: CtxV) -> bool {
    &&& post.frames == pre.frames
    &&& post.cells.len() >= pre.cells.len()
    &&& pre.finalized.is_prefix_of(post.finalized)
    &&& post.stack.len() >= spec_owned_stack_base(pre)
    &&& post.stack.take(spec_owned_stack_base(pre) as int) == pre.stack.take(
        spec_owned_stack_base(pre) as int,
    )
    &&& post.registers.len() >= spec_owned_register_base(pre)
    &&& post.registers.take(spec_owned_register_base(pre) as int) == pre.registers.take(
        spec_owned_register_base(pre) as int,
    )
}

/// The current scope's stack base, clipped to the stack that is actually
/// there.
pub open spec fn spec_owned_stack_base(c: CtxV) -> nat {
    min_nat(spec_stack_base(c), c.stack.len())
}

/// The current scope's register base, clipped to the register file that is
/// actually there.
pub open spec fn spec_owned_register_base(c: CtxV) -> nat {
    min_nat(spec_register_base(c), c.registers.len())
}

/// How a script body ended: it ran to completion, or a `PopScope` asked for
/// an early return, which propagates to the enclosing function boundary.
#[derive(Debug, Clone, Copy, PartialEq, Eq, Structural)]
pub enum Flow {
    Run,
    Return,
}

/// Find a type and push an owned reflection handle holding its hash.
pub fn eval_get_type(ctx: &mut Context, reg: &Registry, query: &AnkhaTypeQuery) -> (r: Result<
    (),
    Abort,
>)
    requires
        old(ctx).wf(),
    ensures
        final(ctx).wf(),
        final(ctx)@.registers == old(ctx)@.registers,
        final(ctx)@.frames == old(ctx)@.frames,
        final(ctx)@.finalized == old(ctx)@.finalized,
        match r {
            Ok(u) => {
                &&& crate::registry::spec_find_type(reg.types@, query) matches Some(ti) && {
                    &&& final(ctx)@.cells == old(ctx)@.cells.push(
                        CellV {
                            type_hash: TH_TYPE,
                            body: Some(
                                BodyV::Raw(
                                    vstd::bytes::spec_u64_to_le_bytes(reg.types@[ti].type_hash),
                                ),
                            ),
                            alive: true,
                            shared: 0,
                            exclusive: false,
                            finalized: false,
                            boxed: false,
                            box_refs: 0,
                        },
                    )
                    &&& final(ctx)@.stack == old(ctx)@.stack.push(
                        EntryV::Value(AnkhaValue::Owned { cell: old(ctx)@.cells.len() as usize }),
                    )
                }
            },
            Err(a) => {
                &&& a == Abort::RegistryMiss
                &&& crate::registry::spec_find_type(reg.types@, query) is None
                &&& final(ctx)@ == old(ctx)@
            },
        },
        r is Ok <==> crate::registry::spec_find_type(reg.types@, query) is Some,
{
    let th = match reg.find_type(query) {
        Some((_, td)) => td.type_hash,
        None => {
            return Err(Abort::RegistryMiss);
        },
    };
    let bytes = vstd::bytes::u64_to_le_bytes(th);
    let cell = ctx.alloc_cell(TH_TYPE, Some(Body::Raw(bytes)), false, 0);
    ctx.push_entry(StackEntry::Value(AnkhaValue::Owned { cell }));
    Ok(())
}

/// Find a function and push an owned reflection handle holding its registry
/// index; `CallIndirect` pops such a handle and calls the function.
pub fn eval_get_function(ctx: &mut Context, reg: &Registry, query: &AnkhaFunctionQuery) -> (r:
    Result<(), Abort>)
    requires
        old(ctx).wf(),
    ensures
        final(ctx).wf(),
        final(ctx)@.registers == old(ctx)@.registers,
        final(ctx)@.frames == old(ctx)@.frames,
        final(ctx)@.finalized == old(ctx)@.finalized,
        match r {
            Ok(u) => {
                &&& crate::registry::spec_find_function(reg.functions@, query) matches Some(fi) && {
                    &&& final(ctx)@.cells == old(ctx)@.cells.push(
                        CellV {
                            type_hash: TH_FUNCTION,
                            body: Some(
                                BodyV::Raw(vstd::bytes::spec_u64_to_le_bytes(fi as u64)),
                            ),
                            alive: true,
                            shared: 0,
                            exclusive: false,
                            finalized: false,
                            boxed: false,
                            box_refs: 0,
                        },
                    )
                    &&& final(ctx)@.stack == old(ctx)@.stack.push(
                        EntryV::Value(AnkhaValue::Owned { cell: old(ctx)@.cells.len() as usize }),
                    )
                }
            },
            Err(a) => {
                &&& a == Abort::RegistryMiss
                &&& crate::registry::spec_find_function(reg.functions@, query) is None
                &&& final(ctx)@ == old(ctx)@
            },
        },
        r is Ok <==> crate::registry::spec_find_function(reg.functions@, query) is Some,
{
    let fi = match reg.find_function(query) {
        Some((fi, _)) => fi,
        None => {
            return Err(Abort::RegistryMiss);
        },
    };
    let bytes = vstd::bytes::u64_to_le_bytes(fi as u64);
    let cell = ctx.alloc_cell(TH_FUNCTION, Some(Body::Raw(bytes)), false, 0);
    ctx.push_entry(StackEntry::Value(AnkhaValue::Owned { cell }));
    Ok(())
}

/// Call the function at registry index `fidx`.
///
/// Arguments are popped from the stack in declared order (the first declared
/// input from the top). A host function receives them as literals and its
/// returned literals are pushed back, first output pushed first. A scripted
/// function runs its body in a fresh scope with the inputs in registers; when
/// the body ends (or returns early), the declared number of outputs is taken
/// off the top of the stack, everything else in the scope is unwound with
/// finalizers, and the outputs are pushed back in their original order: at
/// return, the called function has contributed exactly its declared output
/// count, above an untouched caller stack.
#[verifier::loop_isolation(false)]
#[verifier::rlimit(100)]
#[verifier::spinoff_prover]
pub fn call_function<H: AnkhaHost>(
    ctx: &mut Context,
    reg: &Registry,
    host: &mut H,
    fidx: usize,
    fuel: u64,
) -> (r: Result<(), Abort>)
    requires
        old(ctx).wf(),
        fidx < reg.functions@.len(),
    ensures
        final(ctx).wf(),
        frame_preserved(old(ctx)@, final(ctx)@),
        fuel == 0 ==> r == Err::<(), Abort>(Abort::Exhausted) && final(ctx)@ == old(ctx)@,
        match r {
            Ok(u) => {
                let n_in = reg.functions@[fidx as int].inputs@.len();
                let n_out = reg.functions@[fidx as int].outputs@.len();
                &&& n_in <= old(ctx)@.stack.len()
                &&& n_in > 0 ==> old(ctx)@.stack.len() >= spec_stack_base(old(ctx)@) + n_in
                &&& final(ctx)@.stack.len() == old(ctx)@.stack.len() - n_in + n_out
                &&& final(ctx)@.stack.take(old(ctx)@.stack.len() - n_in) == old(ctx)@.stack.take(
                    old(ctx)@.stack.len() - n_in,
                )
                &&& final(ctx)@.registers == old(ctx)@.registers
            },
            Err(a) => true,
        },
    decreases fuel, Flow::Run, 1nat,
{
    if fuel == 0 {
        proof {
            lemma_frame_preserved_refl(old(ctx)@);
        }
        return Err(Abort::Exhausted);
    }
    let raw_host = matches!(
        &reg.functions[fidx].body,
        crate::registry::FnBody::Host { passing: crate::registry::HostPassing::Raw, .. }
    );
    if raw_host {
        return call_host_raw(ctx, reg, host, fidx);
    }
    let n_in = reg.functions[fidx].inputs.len();
    let n_out = reg.functions[fidx].outputs.len();
    // pop the declared inputs, first declared input from the top
    let mut args: Vec<AnkhaValue> = Vec::new();
    let mut i: usize = 0;
    proof {
        assert(old(ctx)@.stack.take(old(ctx)@.stack.len() as int) =~= old(ctx)@.stack);
    }
    while i < n_in
        invariant
            ctx.wf(),
            0 <= i <= n_in,
            i <= old(ctx)@.stack.len(),
            args@.len() == i,
            n_in == reg.functions@[fidx as int].inputs@.len(),
            fidx < reg.functions@.len(),
            ctx@ == (CtxV {
                stack: old(ctx)@.stack.take(old(ctx)@.stack.len() - i),
                ..old(ctx)@
            }),
            i > 0 ==> old(ctx)@.stack.len() - i >= spec_stack_base(old(ctx)@),
            forall|j: int|
                0 <= j < i ==> value_in_bounds(#[trigger] args@[j], old(ctx)@.cells.len()),
        decreases n_in - i,
    {
        let e = match ctx.pop_entry() {
            Ok(e) => e,
            Err(a) => {
                proof {
                    if i == 0 {
                        assert(ctx@ =~= old(ctx)@);
                        lemma_frame_preserved_refl(old(ctx)@);
                    } else {
                        lemma_frame_preserved_take(old(ctx)@, ctx@, i as nat);
                    }
                }
                return Err(a);
            },
        };
        let bad = match &e {
            StackEntry::Value(v) => {
                let declared = reg.functions[fidx].inputs[i].kind;
                !declared.is_any() && v.kind() != declared
            },
            StackEntry::Raw { .. } => true,
        };
        if bad {
            ctx.push_entry(e);
            proof {
                assert(ctx@.stack =~= old(ctx)@.stack.take(old(ctx)@.stack.len() - i));
                if i == 0 {
                    assert(ctx@ =~= old(ctx)@);
                    lemma_frame_preserved_refl(old(ctx)@);
                } else {
                    assert(ctx@ =~= (CtxV {
                        stack: old(ctx)@.stack.take(old(ctx)@.stack.len() - i),
                        ..old(ctx)@
                    }));
                    lemma_frame_preserved_take(old(ctx)@, ctx@, i as nat);
                }
            }
            return Err(Abort::KindMismatch);
        }
        let v = match e {
            StackEntry::Value(v) => v,
            StackEntry::Raw { .. } => {
                proof {
                    assert(false);
                }
                return Err(Abort::KindMismatch);
            },
        };
        args.push(v);
        proof {
            assert(ctx@.stack =~= old(ctx)@.stack.take(old(ctx)@.stack.len() - (i + 1)));
            assert(ctx@ =~= (CtxV {
                stack: old(ctx)@.stack.take(old(ctx)@.stack.len() - (i + 1)),
                ..old(ctx)@
            }));
        }
        i = i + 1;
    }
    proof {
        if n_in > 0 {
            assert(old(ctx)@.stack.len() - n_in >= spec_stack_base(old(ctx)@));
        } else {
            assert(ctx@.stack =~= old(ctx)@.stack);
        }
    }
    let ghost popped = ctx@;
    let is_host = matches!(&reg.functions[fidx].body, crate::registry::FnBody::Host { .. });
    if is_host {
        // convert the arguments to literals and hand them to the host
        let (id, passing) = match &reg.functions[fidx].body {
            crate::registry::FnBody::Host { id, passing } => (*id, *passing),
            _ => {
                proof {
                    assert(false);
                }
                return Err(Abort::HostFailure);
            },
        };
        let mut lits: Vec<AnkhaLiteral> = Vec::new();
        let mut j: usize = 0;
        proof {
            assert(popped.finalized.is_prefix_of(popped.finalized)) by {
                assert(popped.finalized.take(popped.finalized.len() as int) =~= popped.finalized);
            }
        }
        while j < args.len()
            invariant
                ctx.wf(),
                0 <= j <= args@.len(),
                ctx@.frames == popped.frames,
                ctx@.stack == popped.stack,
                ctx@.registers == popped.registers,
                ctx@.cells.len() >= popped.cells.len(),
                popped.finalized.is_prefix_of(ctx@.finalized),
                forall|jj: int|
                    0 <= jj < args@.len() ==> value_in_bounds(
                        #[trigger] args@[jj],
                        popped.cells.len(),
                    ),
            decreases args@.len() - j,
        {
            let v = args[j];
            let place = value_target(&v);
            let (th, body) = match ctx.read_place_body(place) {
                Ok(p) => p,
                Err(a) => {
                    proof {
                        lemma_call_mid_frame(old(ctx)@, popped, ctx@, n_in as nat);
                    }
                    return Err(a);
                },
            };
            let lit = match literal_from_body(th, &body) {
                Some(l) => l,
                None => {
                    proof {
                        lemma_call_mid_frame(old(ctx)@, popped, ctx@, n_in as nat);
                    }
                    return Err(Abort::TypeMismatch);
                },
            };
            match ctx.release_value(v) {
                Ok(u) => {},
                Err(a) => {
                    proof {
                        lemma_call_mid_frame(old(ctx)@, popped, ctx@, n_in as nat);
                    }
                    return Err(a);
                },
            }
            lits.push(lit);
            proof {
                assert(popped.finalized.is_prefix_of(ctx@.finalized)) by {
                    assert(ctx@.finalized.take(popped.finalized.len() as int) =~= popped.finalized);
                }
            }
            j = j + 1;
        }
        let ghost consumed = ctx@;
        let outs = match host.call(id, lits) {
            Ok(outs) => outs,
            Err(a) => {
                proof {
                    lemma_call_mid_frame(old(ctx)@, popped, ctx@, n_in as nat);
                }
                return Err(a);
            },
        };
        if outs.len() != n_out {
            proof {
                lemma_call_mid_frame(old(ctx)@, popped, ctx@, n_in as nat);
            }
            return Err(Abort::HostFailure);
        }
        // push the results, first output first
        let mut k: usize = 0;
        while k < outs.len()
            invariant
                ctx.wf(),
                0 <= k <= outs@.len(),
                ctx@.frames == consumed.frames,
                ctx@.registers == consumed.registers,
                ctx@.cells.len() >= consumed.cells.len(),
                consumed.finalized.is_prefix_of(ctx@.finalized),
                ctx@.stack.len() == consumed.stack.len() + k,
                ctx@.stack.take(consumed.stack.len() as int) == consumed.stack,
            decreases outs@.len() - k,
        {
            match passing {
                crate::registry::HostPassing::Owned => {
                    let body = match &outs[k] {
                        AnkhaLiteral::String(st) => Body::Text(st.clone()),
                        lit => Body::Raw(lit.to_bytes()),
                    };
                    let th = outs[k].type_hash();
                    let cell = ctx.alloc_cell(th, Some(body), false, 0);
                    ctx.push_entry(StackEntry::Value(AnkhaValue::Owned { cell }));
                },
                crate::registry::HostPassing::Raw => {
                    if matches!(&outs[k], AnkhaLiteral::String(_)) {
                        proof {
                            lemma_call_mid_frame(old(ctx)@, popped, ctx@, n_in as nat);
                        }
                        return Err(Abort::HostFailure);
                    }
                    let th = outs[k].type_hash();
                    let bytes = outs[k].to_bytes();
                    ctx.push_entry(StackEntry::Raw { type_hash: th, bytes });
                },
            }
            proof {
                assert(ctx@.stack.take(consumed.stack.len() as int) =~= consumed.stack);
            }
            k = k + 1;
        }
        proof {
            lemma_call_mid_frame(old(ctx)@, popped, ctx@, n_in as nat);
            assert(final(ctx)@.stack.take(old(ctx)@.stack.len() - n_in) =~= old(ctx)@.stack.take(
                old(ctx)@.stack.len() - n_in,
            ));
        }
        Ok(())
    } else {
        // a scripted function: fresh scope, inputs into registers
        ctx.push_frame(true);
        let ghost framed = ctx@;
        let mut i2: usize = 0;
        while i2 < args.len()
            invariant
                ctx.wf(),
                0 <= i2 <= args@.len(),
                args@.len() == reg.functions@[fidx as int].inputs@.len(),
                fidx < reg.functions@.len(),
                forall|jj: int|
                    0 <= jj < args@.len() ==> value_in_bounds(
                        #[trigger] args@[jj],
                        ctx@.cells.len(),
                    ),
                ctx@ == (CtxV { registers: ctx@.registers, ..framed }),
                ctx@.registers.len() == framed.registers.len() + i2,
                ctx@.registers.take(framed.registers.len() as int) == framed.registers,
            decreases args@.len() - i2,
        {
            let kind = reg.functions[fidx].inputs[i2].kind;
            let ghost pre_push = ctx@;
            ctx.registers.push(Register { kind, value: Some(args[i2]) });
            proof {
                assert(ctx@.registers =~= pre_push.registers.push(
                    Register { kind, value: Some(args@[i2 as int]) },
                ));
                assert(ctx@ =~= (CtxV { registers: ctx@.registers, ..pre_push }));
                assert(ctx_wf(ctx@)) by {
                    assert forall|j: int|
                        0 <= j < ctx@.registers.len() implies crate::context::register_ok(
                        #[trigger] ctx@.registers[j],
                        ctx@.cells.len(),
                    ) by {
                        if j < pre_push.registers.len() {
                            assert(crate::context::register_ok(
                                pre_push.registers[j],
                                pre_push.cells.len(),
                            ));
                        } else {
                            assert(value_in_bounds(args@[i2 as int], old(ctx)@.cells.len()));
                        }
                    }
                }
                assert(ctx@.registers.take(framed.registers.len() as int) =~= framed.registers);
            }
            i2 = i2 + 1;
        }
        let ghost filled = ctx@;
        proof {
            assert(filled.registers.take(popped.registers.len() as int) =~= popped.registers);
        }
        // run the body
        let flow = match &reg.functions[fidx].body {
            crate::registry::FnBody::Script(body) => {
                match eval_script(ctx, reg, host, body, 0, fuel - 1) {
                    Ok(flow) => flow,
                    Err(a) => {
                        let ghost before_exit = ctx@;
                        let ex = ctx.exit_scope();
                        proof {
                            assert(frame_preserved(filled, before_exit));
                            lemma_unwind_frame_preserved(old(ctx)@, popped, filled, before_exit, ctx@, n_in as nat);
                        }
                        return Err(a);
                    },
                }
            },
            _ => {
                proof {
                    assert(false);
                }
                return Err(Abort::HostFailure);
            },
        };
        // collect the declared outputs from the top of the scope's stack
        let ghost ran = ctx@;
        proof {
            assert(ran.stack.take(ran.stack.len() as int) =~= ran.stack);
        }
        let mut outs: Vec<StackEntry> = Vec::new();
        let mut k2: usize = 0;
        while k2 < n_out
            invariant
                ctx.wf(),
                0 <= k2 <= n_out,
                outs@.len() == k2,
                ctx@ == (CtxV { stack: ctx@.stack, ..ran }),
                ctx@.stack.len() + k2 == ran.stack.len(),
                ctx@.stack == ran.stack.take(ran.stack.len() - k2),
                ctx@.stack.len() >= spec_owned_stack_base(ran),
                forall|j: int|
                    0 <= j < k2 ==> (#[trigger] outs@[j])@ == ran.stack[ran.stack.len() - 1 - j],
                forall|j: int|
                    0 <= j < k2 ==> entry_ok((#[trigger] outs@[j])@, ctx@.cells.len()),
            decreases n_out - k2,
        {
            let e = match ctx.pop_entry() {
                Ok(e) => e,
                Err(a) => {
                    let ghost before_exit = ctx@;
                    let ex = ctx.exit_scope();
                    proof {
                        lemma_step_frame(ran, before_exit);
                        lemma_frame_preserved_trans(filled, ran, before_exit);
                        lemma_unwind_frame_preserved(old(ctx)@, popped, filled, before_exit, ctx@, n_in as nat);
                    }
                    return Err(a);
                },
            };
            outs.push(e);
            proof {
                assert(ctx@.stack =~= ran.stack.take(ran.stack.len() - (k2 + 1)));
            }
            k2 = k2 + 1;
        }
        // unwind the scope, then hand the outputs back in their original order
        let ghost before_exit = ctx@;
        proof {
            lemma_step_frame(ran, before_exit);
            lemma_frame_preserved_trans(filled, ran, before_exit);
        }
        match ctx.exit_scope() {
            Ok(u) => {},
            Err(a) => {
                proof {
                    lemma_unwind_frame_preserved(old(ctx)@, popped, filled, before_exit, ctx@, n_in as nat);
                }
                return Err(a);
            },
        }
        proof {
            lemma_unwind_frame_preserved(old(ctx)@, popped, filled, before_exit, ctx@, n_in as nat);
            assert(ctx@.stack =~= popped.stack);
            assert(ctx@.registers =~= old(ctx)@.registers);
        }
        let ghost unwound = ctx@;
        let mut k3: usize = outs.len();
        while k3 > 0
            invariant
                ctx.wf(),
                0 <= k3 <= outs@.len(),
                outs@.len() == n_out,
                ctx@ == (CtxV { stack: ctx@.stack, ..unwound }),
                ctx@.stack.len() == unwound.stack.len() + (n_out - k3),
                ctx@.stack.take(unwound.stack.len() as int) == unwound.stack,
                forall|j: int|
                    0 <= j < outs@.len() ==> entry_ok((#[trigger] outs@[j])@, ctx@.cells.len()),
            decreases k3,
        {
            let e = outs[k3 - 1].duplicate();
            ctx.push_entry(e);
            proof {
                assert(ctx@.stack.take(unwound.stack.len() as int) =~= unwound.stack);
            }
            k3 = k3 - 1;
        }
        proof {
            assert(final(ctx)@.stack.take(old(ctx)@.stack.len() - n_in) =~= old(ctx)@.stack.take(
                old(ctx)@.stack.len() - n_in,
            ));
            assert forall|j: int| 0 <= j < popped.stack.len() implies final(ctx)@.stack[j]
                == popped.stack[j] by {
                assert(final(ctx)@.stack.take(unwound.stack.len() as int)[j] == unwound.stack[j]);
            }
            lemma_call_mid_frame(old(ctx)@, popped, final(ctx)@, n_in as nat);
        }
        Ok(())
    }
}

/// Call a host function whose values cross the boundary as raw records: the
/// declared inputs are popped as raw records and decoded, the returned
/// literals are pushed back as raw records, first output first.
#[verifier::loop_isolation(false)]
#[verifier::rlimit(100)]
fn call_host_raw<H: AnkhaHost>(
    ctx: &mut Context,
    reg: &Registry,
    host: &mut H,
    fidx: usize,
) -> (r: Result<(), Abort>)
    requires
        old(ctx).wf(),
        fidx < reg.functions@.len(),
    ensures
        final(ctx).wf(),
        frame_preserved(old(ctx)@, final(ctx)@),
        match r {
            Ok(u) => {
                let n_in = reg.functions@[fidx as int].inputs@.len();
                let n_out = reg.functions@[fidx as int].outputs@.len();
                &&& n_in <= old(ctx)@.stack.len()
                &&& n_in > 0 ==> old(ctx)@.stack.len() >= spec_stack_base(old(ctx)@) + n_in
                &&& final(ctx)@.stack.len() == old(ctx)@.stack.len() - n_in + n_out
                &&& final(ctx)@.stack.take(old(ctx)@.stack.len() - n_in) == old(ctx)@.stack.take(
                    old(ctx)@.stack.len() - n_in,
                )
                &&& final(ctx)@.registers == old(ctx)@.registers
            },
            Err(a) => true,
        },
    decreases 0nat,
{
    let n_in = reg.functions[fidx].inputs.len();
    let n_out = reg.functions[fidx].outputs.len();
    let id = match &reg.functions[fidx].body {
        crate::registry::FnBody::Host { id, .. } => *id,
        _ => {
            proof {
                lemma_frame_preserved_refl(old(ctx)@);
            }
            return Err(Abort::HostFailure);
        },
    };
    let mut lits: Vec<AnkhaLiteral> = Vec::new();
    let mut i: usize = 0;
    proof {
        assert(old(ctx)@.stack.take(old(ctx)@.stack.len() as int) =~= old(ctx)@.stack);
    }
    while i < n_in
        invariant
            ctx.wf(),
            0 <= i <= n_in,
            i <= old(ctx)@.stack.len(),
            ctx@ == (CtxV {
                stack: old(ctx)@.stack.take(old(ctx)@.stack.len() - i),
                ..old(ctx)@
            }),
            i > 0 ==> old(ctx)@.stack.len() - i >= spec_stack_base(old(ctx)@),
        decreases n_in - i,
    {
        let e = match ctx.pop_entry() {
            Ok(e) => e,
            Err(a) => {
                proof {
                    if i == 0 {
                        assert(ctx@ =~= old(ctx)@);
                        lemma_frame_preserved_refl(old(ctx)@);
                    } else {
                        lemma_frame_preserved_take(old(ctx)@, ctx@, i as nat);
                    }
                }
                return Err(a);
            },
        };
        let (th, bytes) = match e {
            StackEntry::Raw { type_hash, bytes } => (type_hash, bytes),
            StackEntry::Value(v) => {
                ctx.push_entry(StackEntry::Value(v));
                proof {
                    assert(ctx@.stack =~= old(ctx)@.stack.take(old(ctx)@.stack.len() - i));
                    if i == 0 {
                        assert(ctx@ =~= old(ctx)@);
                        lemma_frame_preserved_refl(old(ctx)@);
                    } else {
                        assert(ctx@ =~= (CtxV {
                            stack: old(ctx)@.stack.take(old(ctx)@.stack.len() - i),
                            ..old(ctx)@
                        }));
                        lemma_frame_preserved_take(old(ctx)@, ctx@, i as nat);
                    }
                }
                return Err(Abort::KindMismatch);
            },
        };
        let body = Body::Raw(bytes);
        let lit = match literal_from_body(th, &body) {
            Some(l) => l,
            None => {
                let restored = match body {
                    Body::Raw(bytes) => StackEntry::Raw { type_hash: th, bytes },
                    _ => {
                        proof {
                            assert(false);
                        }
                        return Err(Abort::TypeMismatch);
                    },
                };
                ctx.push_entry(restored);
                proof {
                    assert(ctx@.stack =~= old(ctx)@.stack.take(old(ctx)@.stack.len() - i));
                    if i == 0 {
                        assert(ctx@ =~= old(ctx)@);
                        lemma_frame_preserved_refl(old(ctx)@);
                    } else {
                        assert(ctx@ =~= (CtxV {
                            stack: old(ctx)@.stack.take(old(ctx)@.stack.len() - i),
                            ..old(ctx)@
                        }));
                        lemma_frame_preserved_take(old(ctx)@, ctx@, i as nat);
                    }
                }
                return Err(Abort::TypeMismatch);
            },
        };
        lits.push(lit);
        proof {
            assert(ctx@.stack =~= old(ctx)@.stack.take(old(ctx)@.stack.len() - (i + 1)));
            assert(ctx@ =~= (CtxV {
                stack: old(ctx)@.stack.take(old(ctx)@.stack.len() - (i + 1)),
                ..old(ctx)@
            }));
        }
        i = i + 1;
    }
    let ghost popped = ctx@;
    let outs = match host.call(id, lits) {
        Ok(outs) => outs,
        Err(a) => {
            proof {
                lemma_call_mid_frame(old(ctx)@, popped, ctx@, n_in as nat);
            }
            return Err(a);
        },
    };
    if outs.len() != n_out {
        proof {
            lemma_call_mid_frame(old(ctx)@, popped, ctx@, n_in as nat);
        }
        return Err(Abort::HostFailure);
    }
    let mut k: usize = 0;
    while k < outs.len()
        invariant
            ctx.wf(),
            0 <= k <= outs@.len(),
            ctx@.frames == popped.frames,
            ctx@.registers == popped.registers,
            ctx@.cells.len() >= popped.cells.len(),
            popped.finalized.is_prefix_of(ctx@.finalized),
            ctx@.stack.len() == popped.stack.len() + k,
            ctx@.stack.take(popped.stack.len() as int) == popped.stack,
        decreases outs@.len() - k,
    {
        if matches!(&outs[k], AnkhaLiteral::String(_)) {
            proof {
                lemma_call_mid_frame(old(ctx)@, popped, ctx@, n_in as nat);
            }
            return Err(Abort::HostFailure);
        }
        let th = outs[k].type_hash();
        let bytes = outs[k].to_bytes();
        ctx.push_entry(StackEntry::Raw { type_hash: th, bytes });
        proof {
            assert(ctx@.stack.take(popped.stack.len() as int) =~= popped.stack);
        }
        k = k + 1;
    }
    proof {
        lemma_call_mid_frame(old(ctx)@, popped, ctx@, n_in as nat);
        assert(final(ctx)@.stack.take(old(ctx)@.stack.len() - n_in) =~= old(ctx)@.stack.take(
            old(ctx)@.stack.len() - n_in,
        ));
    }
    Ok(())
}

/// Frame preservation is reflexive.
proof fn lemma_frame_preserved_refl(c: CtxV)
    ensures
        frame_preserved(c, c),
{
    assert(c.finalized.is_prefix_of(c.finalized)) by {
        assert(c.finalized.take(c.finalized.len() as int) =~= c.finalized);
    }
}

/// After popping `i` arguments off the caller's owned suffix, the caller's
/// deeper prefix is intact.
proof fn lemma_frame_preserved_take(pre: CtxV, post: CtxV, i: nat)
    requires
        i <= pre.stack.len(),
        post == (CtxV { stack: pre.stack.take(pre.stack.len() - i), ..pre }),
        pre.stack.len() - i >= spec_stack_base(pre),
    ensures
        frame_preserved(pre, post),
{
    assert(pre.finalized.is_prefix_of(post.finalized)) by {
        assert(post.finalized.take(pre.finalized.len() as int) =~= pre.finalized);
    }
    assert(post.stack.take(spec_owned_stack_base(pre) as int) =~= pre.stack.take(
        spec_owned_stack_base(pre) as int,
    ));
}

/// Between popping the arguments and finishing a host call, the caller frame
/// stays preserved: the frames, the remaining stack and the registers are as
/// right after the pops, the arena and the log only grew.
proof fn lemma_call_mid_frame(pre: CtxV, popped: CtxV, post: CtxV, n_in: nat)
    requires
        n_in <= pre.stack.len(),
        n_in > 0 ==> pre.stack.len() - n_in >= spec_stack_base(pre),
        popped == (CtxV { stack: pre.stack.take(pre.stack.len() - n_in), ..pre }),
        post.frames == popped.frames,
        post.stack.len() >= popped.stack.len(),
        forall|j: int| 0 <= j < popped.stack.len() ==> post.stack[j] == popped.stack[j],
        post.registers == popped.registers,
        post.cells.len() >= popped.cells.len(),
        popped.finalized.is_prefix_of(post.finalized),
    ensures
        frame_preserved(pre, post),
{
    assert(pre.finalized.is_prefix_of(post.finalized)) by {
        assert(post.finalized.take(pre.finalized.len() as int) =~= pre.finalized);
    }
    let sb = spec_owned_stack_base(pre);
    assert(sb <= popped.stack.len());
    assert forall|j: int| 0 <= j < sb implies post.stack[j] == pre.stack[j] by {
        assert(popped.stack[j] == pre.stack[j]);
    }
    assert(post.stack.take(sb as int) =~= pre.stack.take(sb as int));
    assert(post.registers.take(spec_owned_register_base(pre) as int) =~= pre.registers.take(
        spec_owned_register_base(pre) as int,
    ));
}

/// Unwinding the callee scope lands back on the caller frame: the frames are
/// as before the call, the caller's stack below the consumed arguments and
/// all of the caller's registers are intact.
proof fn lemma_unwind_frame_preserved(
    pre: CtxV,
    popped: CtxV,
    filled: CtxV,
    body_end: CtxV,
    post: CtxV,
    n_in: nat,
)
    requires
        n_in <= pre.stack.len(),
        n_in > 0 ==> pre.stack.len() - n_in >= spec_stack_base(pre),
        popped == (CtxV { stack: pre.stack.take(pre.stack.len() - n_in), ..pre }),
        // the callee scope as entered: a fresh frame over the popped stack,
        // the inputs appended to the register file
        filled.frames == popped.frames.push(filled.frames.last()),
        filled.frames.last().stack_base == popped.stack.len(),
        filled.frames.last().register_base == popped.registers.len(),
        filled.frames.last().hard,
        filled.stack == popped.stack,
        filled.cells.len() >= popped.cells.len(),
        popped.finalized.is_prefix_of(filled.finalized),
        filled.registers.len() >= popped.registers.len(),
        filled.registers.take(popped.registers.len() as int) == popped.registers,
        // what the body (and the output collection) guaranteed
        frame_preserved(filled, body_end),
        // what exit_scope guaranteed
        post.frames == body_end.frames.drop_last(),
        post.cells.len() == body_end.cells.len(),
        body_end.finalized.is_prefix_of(post.finalized),
        post.registers.len() >= min_nat(popped.registers.len(), body_end.registers.len()),
        post.registers.take(
            min_nat(popped.registers.len(), body_end.registers.len()) as int,
        ) == body_end.registers.take(
            min_nat(popped.registers.len(), body_end.registers.len()) as int,
        ),
        post.stack.len() >= min_nat(popped.stack.len(), body_end.stack.len()),
        post.stack.take(min_nat(popped.stack.len(), body_end.stack.len()) as int)
            == body_end.stack.take(min_nat(popped.stack.len(), body_end.stack.len()) as int),
    ensures
        frame_preserved(pre, post),
        post.frames == pre.frames,
        post.stack.len() >= popped.stack.len(),
        post.stack.take(popped.stack.len() as int) == popped.stack,
        post.registers.len() >= pre.registers.len(),
        post.registers.take(pre.registers.len() as int) == pre.registers,
{
    assert(post.frames =~= pre.frames);
    assert(spec_stack_base(filled) == popped.stack.len());
    assert(spec_register_base(filled) == popped.registers.len());
    assert(spec_owned_stack_base(filled) == popped.stack.len());
    assert(spec_owned_register_base(filled) == popped.registers.len());
    assert(pre.finalized.is_prefix_of(post.finalized)) by {
        assert(filled.finalized.take(pre.finalized.len() as int) =~= pre.finalized);
        assert(body_end.finalized.take(pre.finalized.len() as int) =~= pre.finalized);
        assert(post.finalized.take(pre.finalized.len() as int) =~= pre.finalized);
    }
    assert(body_end.stack.len() >= popped.stack.len());
    assert(min_nat(popped.stack.len(), body_end.stack.len()) == popped.stack.len());
    assert(post.stack.take(popped.stack.len() as int) =~= popped.stack) by {
        assert(filled.stack.take(popped.stack.len() as int) =~= popped.stack);
        assert(body_end.stack.take(popped.stack.len() as int) =~= popped.stack);
    }
    let sb = spec_owned_stack_base(pre);
    assert(sb <= popped.stack.len());
    assert forall|j: int| 0 <= j < sb implies post.stack[j] == pre.stack[j] by {
        assert(post.stack.take(popped.stack.len() as int)[j] == popped.stack[j]);
        assert(popped.stack[j] == pre.stack[j]);
    }
    assert(post.stack.take(sb as int) =~= pre.stack.take(sb as int));
    assert(body_end.registers.len() >= popped.registers.len());
    assert(min_nat(popped.registers.len(), body_end.registers.len()) == popped.registers.len());
    assert(post.registers.take(pre.registers.len() as int) =~= pre.registers) by {
        assert(body_end.registers.take(popped.registers.len() as int) =~= popped.registers);
    }
    assert(post.registers.take(spec_owned_register_base(pre) as int) =~= pre.registers.take(
        spec_owned_register_base(pre) as int,
    )) by {
        assert(spec_owned_register_base(pre) <= pre.registers.len());
        assert forall|j: int| 0 <= j < spec_owned_register_base(pre) implies post.registers[j]
            == pre.registers[j] by {
            assert(post.registers.take(pre.registers.len() as int)[j] == pre.registers[j]);
        }
    }
}

impl StackEntry {
    /// Copy one stack record, payload included.
    pub fn duplicate(&self) -> (r: StackEntry)
        ensures
            r@ == self@,
    {
        match self {
            StackEntry::Value(v) => StackEntry::Value(*v),
            StackEntry::Raw { type_hash, bytes } => StackEntry::Raw {
                type_hash: *type_hash,
                bytes: crate::value::clone_bytes(bytes),
            },
        }
    }
}

/// A state that kept the frames and only touched the stack, the registers,
/// the arena and the log above the current scope's bases preserves the frame.
proof fn lemma_step_frame(pre: CtxV, post: CtxV)
    requires
        post.frames == pre.frames,
        post.cells.len() >= pre.cells.len(),
        post.finalized.len() >= pre.finalized.len(),
        forall|j: int| 0 <= j < pre.finalized.len() ==> post.finalized[j] == pre.finalized[j],
        post.stack.len() >= spec_owned_stack_base(pre),
        forall|j: int| 0 <= j < spec_owned_stack_base(pre) ==> post.stack[j] == pre.stack[j],
        post.registers.len() >= spec_owned_register_base(pre),
        forall|j: int|
            0 <= j < spec_owned_register_base(pre) ==> post.registers[j] == pre.registers[j],
    ensures
        frame_preserved(pre, post),
{
    assert(pre.finalized.is_prefix_of(post.finalized)) by {
        assert(post.finalized.take(pre.finalized.len() as int) =~= pre.finalized);
    }
    assert(post.stack.take(spec_owned_stack_base(pre) as int) =~= pre.stack.take(
        spec_owned_stack_base(pre) as int,
    ));
    assert(post.registers.take(spec_owned_register_base(pre) as int) =~= pre.registers.take(
        spec_owned_register_base(pre) as int,
    ));
}

/// Evaluate one leaf expression.
#[verifier::rlimit(100)]
#[verifier::spinoff_prover]
pub fn eval_expression<H: AnkhaHost>(
    ctx: &mut Context,
    reg: &Registry,
    host: &mut H,
    expr: &AnkhaExpression,
    fuel: u64,
) -> (r: Result<(), Abort>)
    requires
        old(ctx).wf(),
    ensures
        final(ctx).wf(),
        frame_preserved(old(ctx)@, final(ctx)@),
    decreases fuel, Flow::Run, 0nat,
{
    let ghost pre = ctx@;
    let r = match expr {
        AnkhaExpression::Literal(lit) => {
            crate::expr::eval_literal(ctx, lit);
            proof {
                assert(ctx@.cells.len() >= pre.cells.len());
            }
            Ok(())
        },
        AnkhaExpression::StackDrop => {
            let r = crate::expr::eval_stack_drop(ctx);
            proof {
                assert(ctx@.cells.len() >= pre.cells.len());
            }
            r
        },
        AnkhaExpression::StackUnwrapBoolean => {
            let r = crate::expr::eval_stack_unwrap_boolean(ctx);
            proof {
                assert(ctx@.cells.len() >= pre.cells.len());
            }
            r
        },
        AnkhaExpression::Borrow => {
            let r = crate::expr::eval_borrow(ctx);
            proof {
                assert(ctx@.cells.len() >= pre.cells.len());
            }
            r
        },
        AnkhaExpression::BorrowMut => {
            let r = crate::expr::eval_borrow_mut(ctx);
            proof {
                assert(ctx@.cells.len() >= pre.cells.len());
            }
            r
        },
        AnkhaExpression::Lazy => {
            let r = crate::expr::eval_lazy(ctx);
            proof {
                assert(ctx@.cells.len() >= pre.cells.len());
            }
            r
        },
        AnkhaExpression::BorrowField { name, kind, visibility } => {
            let r = crate::fields::eval_borrow_field(ctx, reg, name, *kind, *visibility);
            proof {
                if r is Ok {
                    assert(entry_ok(pre.stack[pre.stack.len() - 1], pre.cells.len()));
                }
                assert(ctx@.cells.len() >= pre.cells.len());
            }
            r
        },
        AnkhaExpression::BorrowMutField { name, kind, visibility } => {
            let r = crate::fields::eval_borrow_mut_field(ctx, reg, name, *kind, *visibility);
            proof {
                if r is Ok {
                    assert(entry_ok(pre.stack[pre.stack.len() - 1], pre.cells.len()));
                }
                assert(ctx@.cells.len() >= pre.cells.len());
            }
            r
        },
        AnkhaExpression::BorrowUnmanagedField { query } => {
            let r = crate::fields::eval_borrow_unmanaged_field(ctx, reg, query);
            proof {
                assert(ctx@.cells.len() >= pre.cells.len());
            }
            r
        },
        AnkhaExpression::BorrowMutUnmanagedField { query } => {
            let r = crate::fields::eval_borrow_mut_unmanaged_field(ctx, reg, query);
            proof {
                assert(ctx@.cells.len() >= pre.cells.len());
            }
            r
        },
        AnkhaExpression::CopyFrom => {
            let r = crate::expr::eval_copy_from(ctx, reg);
            proof {
                assert(ctx@.cells.len() >= pre.cells.len());
            }
            r
        },
        AnkhaExpression::MoveInto => {
            let r = crate::expr::eval_move_into(ctx);
            proof {
                assert(ctx@.cells.len() >= pre.cells.len());
            }
            r
        },
        AnkhaExpression::SwapIn => {
            let r = crate::expr::eval_swap_in(ctx);
            proof {
                assert(ctx@.cells.len() >= pre.cells.len());
            }
            r
        },
        AnkhaExpression::Destructure { fields } => {
            let r = crate::structure::eval_destructure(ctx, reg, fields);
            proof {
                assert(ctx@.cells.len() >= pre.cells.len());
            }
            r
        },
        AnkhaExpression::Structure { type_query, fields } => {
            let r = crate::structure::eval_structure(ctx, reg, type_query, fields);
            proof {
                if r is Ok {
                    match crate::registry::spec_find_type(reg.types@, type_query) {
                        Some(ti) => match reg.types@[ti].shape {
                            crate::registry::TypeShape::Struct(flds) => {
                                let init = Seq::new(flds@.len(), |k: int| None::<AnkhaValue>);
                                let pops = crate::structure::spec_structure_pops(
                                    pre.stack,
                                    spec_stack_base(pre),
                                    flds@,
                                    fields@,
                                    init,
                                );
                                if pops is Ok {
                                    crate::structure::lemma_structure_pops_prefix(
                                        pre.stack,
                                        spec_stack_base(pre),
                                        flds@,
                                        fields@,
                                        init,
                                    );
                                    crate::structure::lemma_structure_slots_grow(
                                        pre.cells,
                                        flds@,
                                        pops->Ok_0.1,
                                    );
                                }
                            },
                            _ => {},
                        },
                        None => {},
                    }
                    assert(ctx@.cells.len() >= pre.cells.len());
                }
            }
            r
        },
        AnkhaExpression::Box => {
            let r = crate::expr::eval_box(ctx);
            proof {
                assert(ctx@.cells.len() >= pre.cells.len());
            }
            r
        },
        AnkhaExpression::Manage => {
            let r = crate::expr::eval_manage(ctx);
            proof {
                assert(ctx@.cells.len() >= pre.cells.len());
            }
            r
        },
        AnkhaExpression::Unmanage => {
            let r = crate::expr::eval_unmanage(ctx);
            proof {
                assert(ctx@.cells.len() >= pre.cells.len());
            }
            r
        },
        AnkhaExpression::Copy => {
            let r = crate::expr::eval_copy(ctx, reg);
            proof {
                assert(ctx@.cells.len() >= pre.cells.len());
            }
            r
        },
        AnkhaExpression::Swap => {
            let r = crate::expr::eval_swap(ctx);
            proof {
                assert(ctx@.cells.len() >= pre.cells.len());
            }
            r
        },
        AnkhaExpression::DuplicateBox => {
            let r = crate::expr::eval_duplicate_box(ctx);
            proof {
                assert(ctx@.cells.len() >= pre.cells.len());
            }
            r
        },
        AnkhaExpression::EnsureStackType { type_query } => eval_ensure_stack_type(
            ctx,
            reg,
            type_query,
        ),
        AnkhaExpression::EnsureRegisterType { type_query, index } => eval_ensure_register_type(
            ctx,
            reg,
            type_query,
            *index,
        ),
        AnkhaExpression::EnsureStackKind { kind } => eval_ensure_stack_kind(ctx, *kind),
        AnkhaExpression::EnsureRegisterKind { kind, index } => eval_ensure_register_kind(
            ctx,
            *kind,
            *index,
        ),
        AnkhaExpression::CallMethod { function_query } => {
            if fuel == 0 {
                Err(Abort::Exhausted)
            } else {
                eval_call_method(ctx, reg, host, function_query, fuel - 1)
            }
        },
        AnkhaExpression::CallIndirect => {
            if fuel == 0 {
                Err(Abort::Exhausted)
            } else {
                eval_call_indirect(ctx, reg, host, fuel - 1)
            }
        },
        AnkhaExpression::GetType { query } => eval_get_type(ctx, reg, query),
        AnkhaExpression::GetFunction { query } => eval_get_function(ctx, reg, query),
    };
    proof {
        if !frame_preserved(pre, ctx@) {
            assert(ctx@.frames == pre.frames);
            assert(ctx@.cells.len() >= pre.cells.len());
            assert(ctx@.finalized.len() >= pre.finalized.len());
            assert(forall|j: int|
                0 <= j < pre.finalized.len() ==> ctx@.finalized[j] == pre.finalized[j]);
            assert(ctx@.stack.len() >= spec_owned_stack_base(pre));
            assert(forall|j: int|
                0 <= j < spec_owned_stack_base(pre) ==> ctx@.stack[j] == pre.stack[j]);
            assert(ctx@.registers.len() >= spec_owned_register_base(pre));
            lemma_step_frame(pre, ctx@);
        }
    }
    r
}

/// Dispatch on the top value's payload type: call the first function owned by
/// that type which the query matches.
fn eval_call_method<H: AnkhaHost>(
    ctx: &mut Context,
    reg: &Registry,
    host: &mut H,
    function_query: &AnkhaFunctionQuery,
    fuel: u64,
) -> (r: Result<(), Abort>)
    requires
        old(ctx).wf(),
    ensures
        final(ctx).wf(),
        frame_preserved(old(ctx)@, final(ctx)@),
    decreases fuel, Flow::Run, 2nat,
{
    let ghost pre = ctx@;
    if ctx.stack.len() <= ctx.stack_base() {
        proof {
            lemma_frame_preserved_refl(pre);
        }
        return Err(Abort::StackUnderflow);
    }
    let v = match &ctx.stack[ctx.stack.len() - 1] {
        StackEntry::Value(v) => *v,
        StackEntry::Raw { .. } => {
            proof {
                lemma_frame_preserved_refl(pre);
            }
            return Err(Abort::KindMismatch);
        },
    };
    proof {
        assert(entry_ok(pre.stack.last(), pre.cells.len()));
    }
    let th = ctx.value_type_hash(&v);
    let q = AnkhaFunctionQuery {
        name: function_query.name.clone(),
        module_name: function_query.module_name.clone(),
        owner: Some(th),
        visibility: function_query.visibility,
        inputs: clone_query_params(&function_query.inputs),
        outputs: clone_query_params(&function_query.outputs),
    };
    let fidx = match reg.find_function(&q) {
        Some((fidx, _)) => fidx,
        None => {
            proof {
                lemma_frame_preserved_refl(pre);
            }
            return Err(Abort::RegistryMiss);
        },
    };
    call_function(ctx, reg, host, fidx, fuel)
}

/// Copy a list of query parameters.
fn clone_query_params(ps: &Vec<crate::registry::AnkhaFunctionQueryParam>) -> (r: Vec<
    crate::registry::AnkhaFunctionQueryParam,
>)
    ensures
        r@.len() == ps@.len(),
        forall|i: int| 0 <= i < ps@.len() ==> #[trigger] r@[i].name == ps@[i].name && r@[i].kind
            == ps@[i].kind,
{
    let mut out: Vec<crate::registry::AnkhaFunctionQueryParam> = Vec::new();
    let mut i: usize = 0;
    while i < ps.len()
        invariant
            0 <= i <= ps@.len(),
            out@.len() == i,
            forall|j: int| 0 <= j < i ==> #[trigger] out@[j].name == ps@[j].name && out@[j].kind
                == ps@[j].kind,
        decreases ps@.len() - i,
    {
        out.push(crate::registry::AnkhaFunctionQueryParam {
            name: match &ps[i].name {
                Some(n) => Some(n.clone()),
                None => None,
            },
            kind: ps[i].kind,
        });
        i = i + 1;
    }
    out
}

/// Pop a function handle and call the function it names.
fn eval_call_indirect<H: AnkhaHost>(
    ctx: &mut Context,
    reg: &Registry,
    host: &mut H,
    fuel: u64,
) -> (r: Result<(), Abort>)
    requires
        old(ctx).wf(),
    ensures
        final(ctx).wf(),
        frame_preserved(old(ctx)@, final(ctx)@),
    decreases fuel, Flow::Run, 2nat,
{
    let ghost pre = ctx@;
    let e = match ctx.pop_entry() {
        Ok(e) => e,
        Err(a) => {
            proof {
                lemma_frame_preserved_refl(pre);
            }
            return Err(a);
        },
    };
    let v = match e {
        StackEntry::Value(v) => v,
        StackEntry::Raw { type_hash, bytes } => {
            ctx.push_entry(StackEntry::Raw { type_hash, bytes });
            proof {
                assert(ctx@.stack =~= pre.stack);
                assert(ctx@ =~= pre);
                lemma_frame_preserved_refl(pre);
            }
            return Err(Abort::KindMismatch);
        },
    };
    let place = value_target(&v);
    let (th, bytes) = match ctx.read_place_bytes(place) {
        Ok(p) => p,
        Err(a) => {
            ctx.push_entry(StackEntry::Value(v));
            proof {
                assert(ctx@.stack =~= pre.stack);
                assert(ctx@ =~= pre);
                lemma_frame_preserved_refl(pre);
            }
            return Err(a);
        },
    };
    if th != TH_FUNCTION || bytes.len() != 8 {
        ctx.push_entry(StackEntry::Value(v));
        proof {
            assert(ctx@.stack =~= pre.stack);
            assert(ctx@ =~= pre);
            lemma_frame_preserved_refl(pre);
        }
        return Err(Abort::TypeMismatch);
    }
    let handle = vstd::bytes::u64_from_le_bytes(bytes.as_slice());
    if handle >= u64::MAX || handle as usize >= reg.functions.len() {
        ctx.push_entry(StackEntry::Value(v));
        proof {
            assert(ctx@.stack =~= pre.stack);
            assert(ctx@ =~= pre);
            lemma_frame_preserved_refl(pre);
        }
        return Err(Abort::RegistryMiss);
    }
    match ctx.release_value(v) {
        Ok(u) => {},
        Err(a) => {
            ctx.push_entry(StackEntry::Value(v));
            proof {
                assert(ctx@.stack =~= pre.stack);
                assert(ctx@ =~= pre);
                lemma_frame_preserved_refl(pre);
            }
            return Err(a);
        },
    }
    let ghost released = ctx@;
    proof {
        lemma_step_frame(pre, released);
    }
    let r = call_function(ctx, reg, host, handle as usize, fuel);
    proof {
        lemma_frame_preserved_trans(pre, released, ctx@);
    }
    r
}

/// Frame preservation composes.
proof fn lemma_frame_preserved_trans(a: CtxV, b: CtxV, c: CtxV)
    requires
        frame_preserved(a, b),
        frame_preserved(b, c),
    ensures
        frame_preserved(a, c),
{
    assert(spec_stack_base(b) == spec_stack_base(a));
    assert(spec_register_base(b) == spec_register_base(a));
    assert(a.finalized.is_prefix_of(c.finalized)) by {
        assert(b.finalized.take(a.finalized.len() as int) =~= a.finalized);
        assert(c.finalized.take(b.finalized.len() as int) =~= b.finalized);
        assert(c.finalized.take(a.finalized.len() as int) =~= a.finalized);
    }
    let sa = spec_owned_stack_base(a);
    let sb = spec_owned_stack_base(b);
    assert(sb >= sa);
    assert forall|j: int| 0 <= j < sa implies c.stack[j] == a.stack[j] by {
        assert(b.stack.take(sa as int)[j] == a.stack.take(sa as int)[j]);
        assert(c.stack.take(sb as int)[j] == b.stack.take(sb as int)[j]);
    }
    assert(c.stack.take(sa as int) =~= a.stack.take(sa as int));
    let ra = spec_owned_register_base(a);
    let rb = spec_owned_register_base(b);
    assert(rb >= ra);
    assert forall|j: int| 0 <= j < ra implies c.registers[j] == a.registers[j] by {
        assert(b.registers.take(ra as int)[j] == a.registers.take(ra as int)[j]);
        assert(c.registers.take(rb as int)[j] == b.registers.take(rb as int)[j]);
    }
    assert(c.registers.take(ra as int) =~= a.registers.take(ra as int));
}

/// Evaluate one operation. `Flow::Return` reports a `PopScope`, which the
/// enclosing function boundary consumes.
pub fn eval_operation<H: AnkhaHost>(
    ctx: &mut Context,
    reg: &Registry,
    host: &mut H,
    op: &AnkhaOperation,
    fuel: u64,
) -> (r: Result<Flow, Abort>)
    requires
        old(ctx).wf(),
    ensures
        final(ctx).wf(),
        frame_preserved(old(ctx)@, final(ctx)@),
        // an early return asks for the enclosing function boundary, and does
        // nothing else
        *op is PopScope ==> r == Ok::<Flow, Abort>(Flow::Return) && final(ctx)@ == old(ctx)@,
        // a false discriminant with no failure body is a no-op beyond the
        // popped boolean
        (*op matches AnkhaOperation::BranchScope { script_success, script_failure }
            && script_failure is None && old(ctx)@.stack.len() > spec_stack_base(old(ctx)@) && old(
            ctx,
        )@.stack.last() == (EntryV::Raw { type_hash: crate::kind::TH_BOOL, bytes: seq![0u8] }))
            ==> r == Ok::<Flow, Abort>(Flow::Run) && final(ctx)@ == (CtxV {
            stack: old(ctx)@.stack.drop_last(),
            ..old(ctx)@
        }),
        // register traffic forwards the operations' own total contracts
        *op matches AnkhaOperation::MakeRegister { kind, name } ==> {
            &&& (r is Ok <==> kind != AnkhaValueKind::Any)
            &&& (r is Ok ==> final(ctx)@ == (CtxV {
                registers: old(ctx)@.registers.push(
                    crate::value::Register { kind, value: None::<AnkhaValue> },
                ),
                ..old(ctx)@
            }))
        },
        *op matches AnkhaOperation::DropRegister(a) ==> {
            &&& (a matches AnkhaRegisterAddress::Index(i) ==> (r is Ok
                <==> spec_drop_register_abort(old(ctx)@, i) is None))
            &&& (a is Name ==> r == Err::<Flow, Abort>(Abort::RegisterOutOfRange))
        },
        *op matches AnkhaOperation::PushFromRegister(a) ==> {
            &&& (a matches AnkhaRegisterAddress::Index(i) ==> (r is Ok
                <==> spec_push_from_register_abort(old(ctx)@, i) is None))
            &&& (a is Name ==> r == Err::<Flow, Abort>(Abort::RegisterOutOfRange))
        },
        *op matches AnkhaOperation::PopToRegister(a) ==> {
            &&& (a matches AnkhaRegisterAddress::Index(i) ==> (r is Ok
                <==> spec_pop_to_register_abort(old(ctx)@, i) is None))
            &&& (a is Name ==> r == Err::<Flow, Abort>(Abort::RegisterOutOfRange))
        },
        // resolving a function is owed; what its body does is its own affair
        *op matches AnkhaOperation::CallFunction(q) && fuel > 0 && crate::registry::spec_find_function(
            reg.functions@,
            &q,
        ) is None ==> r == Err::<Flow, Abort>(Abort::RegistryMiss) && final(ctx)@ == old(ctx)@,
    decreases fuel, *op, 1nat,
{
    let ghost pre = ctx@;
    match op {
        AnkhaOperation::Expression(expr) => {
            if fuel == 0 {
                proof {
                    lemma_frame_preserved_refl(pre);
                }
                return Err(Abort::Exhausted);
            }
            match eval_expression(ctx, reg, host, expr, fuel - 1) {
                Ok(u) => Ok(Flow::Run),
                Err(a) => Err(a),
            }
        },
        AnkhaOperation::Group(ops) => eval_script(ctx, reg, host, ops, 0, fuel),
        AnkhaOperation::GroupReversed(ops) => eval_script_rev(ctx, reg, host, ops, ops.len(), fuel),
        AnkhaOperation::MakeRegister { kind, name } => {
            match eval_make_register(ctx, *kind) {
                Ok(u) => {
                    proof {
                        lemma_step_frame(pre, ctx@);
                    }
                    Ok(Flow::Run)
                },
                Err(a) => {
                    proof {
                        lemma_frame_preserved_refl(pre);
                    }
                    Err(a)
                },
            }
        },
        AnkhaOperation::DropRegister(address) => {
            let index = match resolve_address(address) {
                Ok(i) => i,
                Err(a) => {
                    proof {
                        lemma_frame_preserved_refl(pre);
                    }
                    return Err(a);
                },
            };
            let r = eval_drop_register(ctx, index);
            proof {
                lemma_step_frame(pre, ctx@);
            }
            match r {
                Ok(u) => Ok(Flow::Run),
                Err(a) => Err(a),
            }
        },
        AnkhaOperation::PushFromRegister(address) => {
            let index = match resolve_address(address) {
                Ok(i) => i,
                Err(a) => {
                    proof {
                        lemma_frame_preserved_refl(pre);
                    }
                    return Err(a);
                },
            };
            let r = eval_push_from_register(ctx, index);
            proof {
                lemma_step_frame(pre, ctx@);
            }
            match r {
                Ok(u) => Ok(Flow::Run),
                Err(a) => Err(a),
            }
        },
        AnkhaOperation::PopToRegister(address) => {
            let index = match resolve_address(address) {
                Ok(i) => i,
                Err(a) => {
                    proof {
                        lemma_frame_preserved_refl(pre);
                    }
                    return Err(a);
                },
            };
            let r = eval_pop_to_register(ctx, index);
            proof {
                lemma_step_frame(pre, ctx@);
            }
            match r {
                Ok(u) => Ok(Flow::Run),
                Err(a) => Err(a),
            }
        },
        AnkhaOperation::CallFunction(query) => {
            if fuel == 0 {
                proof {
                    lemma_frame_preserved_refl(pre);
                }
                return Err(Abort::Exhausted);
            }
            let fidx = match reg.find_function(query) {
                Some((fidx, _)) => fidx,
                None => {
                    proof {
                        lemma_frame_preserved_refl(pre);
                    }
                    return Err(Abort::RegistryMiss);
                },
            };
            match call_function(ctx, reg, host, fidx, fuel - 1) {
                Ok(u) => Ok(Flow::Run),
                Err(a) => Err(a),
            }
        },
        AnkhaOperation::BranchScope { script_success, script_failure } => {
            let b = match pop_condition(ctx) {
                Ok(b) => b,
                Err(a) => {
                    proof {
                        lemma_frame_preserved_refl(pre);
                    }
                    return Err(a);
                },
            };
            let ghost popped = ctx@;
            proof {
                lemma_step_frame(pre, popped);
            }
            let r = if b {
                run_scoped(ctx, reg, host, script_success, fuel)
            } else {
                match script_failure {
                    Some(body) => run_scoped(ctx, reg, host, body, fuel),
                    None => {
                        proof {
                            lemma_frame_preserved_refl(popped);
                        }
                        Ok(Flow::Run)
                    },
                }
            };
            proof {
                lemma_frame_preserved_trans(pre, popped, ctx@);
            }
            r
        },
        AnkhaOperation::LoopScope { script } => eval_loop(ctx, reg, host, script, fuel),
        AnkhaOperation::PushScope { script } => run_scoped(ctx, reg, host, script, fuel),
        AnkhaOperation::PopScope => {
            proof {
                lemma_frame_preserved_refl(pre);
            }
            Ok(Flow::Return)
        },
        AnkhaOperation::EnsureRegisterTypeAddressed { type_query, address } => {
            let index = match resolve_address(address) {
                Ok(i) => i,
                Err(a) => {
                    proof {
                        lemma_frame_preserved_refl(pre);
                    }
                    return Err(a);
                },
            };
            let r = eval_ensure_register_type(ctx, reg, type_query, index);
            proof {
                lemma_frame_preserved_refl(pre);
            }
            match r {
                Ok(u) => Ok(Flow::Run),
                Err(a) => Err(a),
            }
        },
        AnkhaOperation::EnsureRegisterKindAddressed { kind, address } => {
            let index = match resolve_address(address) {
                Ok(i) => i,
                Err(a) => {
                    proof {
                        lemma_frame_preserved_refl(pre);
                    }
                    return Err(a);
                },
            };
            let r = eval_ensure_register_kind(ctx, *kind, index);
            proof {
                lemma_frame_preserved_refl(pre);
            }
            match r {
                Ok(u) => Ok(Flow::Run),
                Err(a) => Err(a),
            }
        },
    }
}

/// A register address must have been resolved to an index when the script was
/// lowered; a name left at evaluation time is out of range.
fn resolve_address(address: &AnkhaRegisterAddress) -> (r: Result<usize, Abort>)
    ensures
        r matches Ok(i) ==> address == AnkhaRegisterAddress::Index(i),
        address is Name ==> r == Err::<usize, Abort>(Abort::RegisterOutOfRange),
        address matches AnkhaRegisterAddress::Index(i) ==> r == Ok::<usize, Abort>(*i),
{
    match address {
        AnkhaRegisterAddress::Index(i) => Ok(*i),
        AnkhaRegisterAddress::Name(_) => Err(Abort::RegisterOutOfRange),
    }
}

/// Why popping a branch or loop condition fails, or `None` when a raw
/// boolean record is there to consume.
pub open spec fn spec_condition_abort(c: CtxV) -> Option<Abort> {
    if c.stack.len() <= spec_stack_base(c) {
        Some(Abort::StackUnderflow)
    } else {
        match c.stack.last() {
            EntryV::Value(_) => Some(Abort::KindMismatch),
            EntryV::Raw { type_hash, bytes } => if type_hash != crate::kind::TH_BOOL
                || bytes.len() != 1 || bytes[0] > 1 {
                Some(Abort::TypeMismatch)
            } else {
                None
            },
        }
    }
}

/// Pop the raw boolean record that branches and loops consume.
fn pop_condition(ctx: &mut Context) -> (r: Result<bool, Abort>)
    requires
        old(ctx).wf(),
    ensures
        final(ctx).wf(),
        r is Ok <==> spec_condition_abort(old(ctx)@) is None,
        r matches Err(a) ==> spec_condition_abort(old(ctx)@) == Some(a),
        match r {
            Ok(b) => {
                &&& old(ctx)@.stack.len() > spec_stack_base(old(ctx)@)
                &&& old(ctx)@.stack.last() matches EntryV::Raw { type_hash, bytes } && type_hash
                    == crate::kind::TH_BOOL && bytes == seq![if b { 1u8 } else { 0u8 }]
                &&& final(ctx)@ == (CtxV { stack: old(ctx)@.stack.drop_last(), ..old(ctx)@ })
            },
            Err(a) => final(ctx)@ == old(ctx)@,
        },
{
    let e = match ctx.pop_entry() {
        Ok(e) => e,
        Err(a) => {
            return Err(a);
        },
    };
    match e {
        StackEntry::Raw { type_hash, bytes } => {
            if type_hash == crate::kind::TH_BOOL && bytes.len() == 1 && bytes[0] <= 1 {
                let b = bytes[0] == 1;
                proof {
                    assert(bytes@ =~= seq![if b { 1u8 } else { 0u8 }]);
                }
                Ok(b)
            } else {
                ctx.push_entry(StackEntry::Raw { type_hash, bytes });
                proof {
                    assert(ctx@.stack =~= old(ctx)@.stack);
                    assert(ctx@ =~= old(ctx)@);
                }
                Err(Abort::TypeMismatch)
            }
        },
        StackEntry::Value(v) => {
            ctx.push_entry(StackEntry::Value(v));
            proof {
                assert(ctx@.stack =~= old(ctx)@.stack);
                assert(ctx@ =~= old(ctx)@);
            }
            Err(Abort::KindMismatch)
        },
    }
}

/// Run a body in a fresh scope, unwinding the scope afterwards, even on an
/// abort. A `Return` from the body propagates after the unwind.
fn run_scoped<H: AnkhaHost>(
    ctx: &mut Context,
    reg: &Registry,
    host: &mut H,
    body: &Vec<AnkhaOperation>,
    fuel: u64,
) -> (r: Result<Flow, Abort>)
    requires
        old(ctx).wf(),
    ensures
        final(ctx).wf(),
        frame_preserved(old(ctx)@, final(ctx)@),
    decreases fuel, *body, body@.len() + 1,
{
    let ghost pre = ctx@;
    ctx.push_frame(false);
    let ghost framed = ctx@;
    let r = eval_script(ctx, reg, host, body, 0, fuel);
    let ghost body_end = ctx@;
    let ex = ctx.exit_scope();
    proof {
        lemma_scoped_frame_preserved(pre, framed, body_end, ctx@);
    }
    match (r, ex) {
        (Err(a), _) => Err(a),
        (Ok(f), Err(a)) => Err(a),
        (Ok(f), Ok(u)) => Ok(f),
    }
}

/// Entering a scope, evaluating frame-locally and unwinding lands back on the
/// enclosing frame.
proof fn lemma_scoped_frame_preserved(pre: CtxV, framed: CtxV, body_end: CtxV, post: CtxV)
    requires
        framed.frames == pre.frames.push(framed.frames.last()),
        framed.frames.last().stack_base == pre.stack.len(),
        framed.frames.last().register_base == pre.registers.len(),
        !framed.frames.last().hard,
        framed == (CtxV { frames: framed.frames, ..pre }),
        frame_preserved(framed, body_end),
        post.frames == body_end.frames.drop_last(),
        post.cells.len() == body_end.cells.len(),
        body_end.finalized.is_prefix_of(post.finalized),
        post.registers.len() >= min_nat(pre.registers.len(), body_end.registers.len()),
        post.registers.take(min_nat(pre.registers.len(), body_end.registers.len()) as int)
            == body_end.registers.take(
            min_nat(pre.registers.len(), body_end.registers.len()) as int,
        ),
        post.stack.len() >= min_nat(pre.stack.len(), body_end.stack.len()),
        post.stack.take(min_nat(pre.stack.len(), body_end.stack.len()) as int)
            == body_end.stack.take(min_nat(pre.stack.len(), body_end.stack.len()) as int),
    ensures
        frame_preserved(pre, post),
{
    assert(post.frames =~= pre.frames);
    assert(spec_stack_base(framed) == spec_stack_base(pre)) by {
        assert(framed.frames.drop_last() =~= pre.frames);
    }
    assert(spec_register_base(framed) == spec_register_base(pre)) by {
        assert(framed.frames.drop_last() =~= pre.frames);
    }
    let ob = spec_owned_stack_base(pre);
    assert(spec_owned_stack_base(framed) == ob);
    assert(pre.finalized.is_prefix_of(post.finalized)) by {
        assert(body_end.finalized.take(pre.finalized.len() as int) =~= pre.finalized);
        assert(post.finalized.take(pre.finalized.len() as int) =~= pre.finalized);
    }
    // the body may consume the enclosing function's stack suffix, but never
    // below the function frame
    assert(body_end.stack.len() >= ob);
    let cut = min_nat(pre.stack.len(), body_end.stack.len());
    assert(cut >= ob);
    assert(post.stack.len() >= ob);
    assert(post.stack.take(ob as int) =~= pre.stack.take(ob as int)) by {
        assert forall|j: int| 0 <= j < ob implies post.stack[j] == pre.stack[j] by {
            assert(post.stack.take(cut as int)[j] == body_end.stack.take(cut as int)[j]);
            assert(body_end.stack.take(ob as int)[j] == framed.stack.take(ob as int)[j]);
        }
    }
    let orb = spec_owned_register_base(pre);
    assert(spec_owned_register_base(framed) == orb);
    assert(body_end.registers.len() >= orb);
    let rcut = min_nat(pre.registers.len(), body_end.registers.len());
    assert(rcut >= orb);
    assert(post.registers.len() >= orb);
    assert(post.registers.take(orb as int) =~= pre.registers.take(orb as int)) by {
        assert forall|j: int| 0 <= j < orb implies post.registers[j] == pre.registers[j] by {
            assert(post.registers.take(rcut as int)[j] == body_end.registers.take(rcut as int)[j]);
            assert(body_end.registers.take(orb as int)[j] == framed.registers.take(orb as int)[j]);
        }
    }
}

/// Evaluate the operations of `script` from `idx` on, in order, stopping at
/// an early return.
pub fn eval_script<H: AnkhaHost>(
    ctx: &mut Context,
    reg: &Registry,
    host: &mut H,
    script: &Vec<AnkhaOperation>,
    idx: usize,
    fuel: u64,
) -> (r: Result<Flow, Abort>)
    requires
        old(ctx).wf(),
        idx <= script@.len(),
    ensures
        final(ctx).wf(),
        frame_preserved(old(ctx)@, final(ctx)@),
    decreases fuel, *script, script@.len() - idx,
{
    let ghost pre = ctx@;
    if idx == script.len() {
        proof {
            lemma_frame_preserved_refl(pre);
        }
        return Ok(Flow::Run);
    }
    let flow = match eval_operation(ctx, reg, host, &script[idx], fuel) {
        Ok(flow) => flow,
        Err(a) => {
            return Err(a);
        },
    };
    if let Flow::Return = flow {
        return Ok(Flow::Return);
    }
    let ghost stepped = ctx@;
    let r = eval_script(ctx, reg, host, script, idx + 1, fuel);
    proof {
        lemma_frame_preserved_trans(pre, stepped, ctx@);
    }
    r
}

/// Evaluate the operations of `script` in reverse order, the tail first (how
/// call-with-arguments compositions are arranged).
pub fn eval_script_rev<H: AnkhaHost>(
    ctx: &mut Context,
    reg: &Registry,
    host: &mut H,
    script: &Vec<AnkhaOperation>,
    remaining: usize,
    fuel: u64,
) -> (r: Result<Flow, Abort>)
    requires
        old(ctx).wf(),
        remaining <= script@.len(),
    ensures
        final(ctx).wf(),
        frame_preserved(old(ctx)@, final(ctx)@),
    decreases fuel, *script, remaining,
{
    let ghost pre = ctx@;
    if remaining == 0 {
        proof {
            lemma_frame_preserved_refl(pre);
        }
        return Ok(Flow::Run);
    }
    let flow = match eval_operation(ctx, reg, host, &script[remaining - 1], fuel) {
        Ok(flow) => flow,
        Err(a) => {
            return Err(a);
        },
    };
    if let Flow::Return = flow {
        return Ok(Flow::Return);
    }
    let ghost stepped = ctx@;
    let r = eval_script_rev(ctx, reg, host, script, remaining - 1, fuel);
    proof {
        lemma_frame_preserved_trans(pre, stepped, ctx@);
    }
    r
}

/// One pass of a loop body in a fresh sub-scope; at the end of the pass a raw
/// boolean decides: true runs another pass, false leaves the loop. The
/// boolean is popped inside the pass's scope, before it unwinds. An early
/// return inside the body exits the loop and propagates.
pub fn eval_loop<H: AnkhaHost>(
    ctx: &mut Context,
    reg: &Registry,
    host: &mut H,
    body: &Vec<AnkhaOperation>,
    fuel: u64,
) -> (r: Result<Flow, Abort>)
    requires
        old(ctx).wf(),
    ensures
        final(ctx).wf(),
        frame_preserved(old(ctx)@, final(ctx)@),
    decreases fuel, *body, body@.len() + 2,
{
    let ghost pre = ctx@;
    ctx.push_frame(false);
    let ghost framed = ctx@;
    let flow = match eval_script(ctx, reg, host, body, 0, fuel) {
        Ok(flow) => flow,
        Err(a) => {
            let ghost body_end = ctx@;
            let ex = ctx.exit_scope();
            proof {
                lemma_scoped_frame_preserved(pre, framed, body_end, ctx@);
            }
            return Err(a);
        },
    };
    let ghost after_body = ctx@;
    let again = if let Flow::Run = flow {
        match pop_condition(ctx) {
            Ok(b) => {
                proof {
                    lemma_step_frame(after_body, ctx@);
                    lemma_frame_preserved_trans(framed, after_body, ctx@);
                }
                b
            },
            Err(a) => {
                let ghost body_end = ctx@;
                let ex = ctx.exit_scope();
                proof {
                    lemma_scoped_frame_preserved(pre, framed, body_end, ctx@);
                }
                return Err(a);
            },
        }
    } else {
        false
    };
    let ghost body_end = ctx@;
    match ctx.exit_scope() {
        Ok(u) => {},
        Err(a) => {
            proof {
                lemma_scoped_frame_preserved(pre, framed, body_end, ctx@);
            }
            return Err(a);
        },
    }
    proof {
        lemma_scoped_frame_preserved(pre, framed, body_end, ctx@);
    }
    if let Flow::Return = flow {
        return Ok(Flow::Return);
    }
    if !again {
        return Ok(Flow::Run);
    }
    if fuel == 0 {
        return Err(Abort::Exhausted);
    }
    let ghost once = ctx@;
    let r = eval_loop(ctx, reg, host, body, fuel - 1);
    proof {
        lemma_frame_preserved_trans(pre, once, ctx@);
    }
    r
}

/// The host-side entry point: find a function by query and call it with the
/// given step budget. At return the called function has left exactly its
/// declared output count on the stack, above whatever the caller had there.
pub fn invoke<H: AnkhaHost>(
    ctx: &mut Context,
    reg: &Registry,
    host: &mut H,
    query: &AnkhaFunctionQuery,
    fuel: u64,
) -> (r: Result<(), Abort>)
    requires
        old(ctx).wf(),
    ensures
        final(ctx).wf(),
        frame_preserved(old(ctx)@, final(ctx)@),
        match r {
            Ok(u) => {
                &&& crate::registry::spec_find_function(reg.functions@, query) matches Some(fi) && {
                    let n_in = reg.functions@[fi].inputs@.len();
                    let n_out = reg.functions@[fi].outputs@.len();
                    &&& n_in <= old(ctx)@.stack.len()
                    &&& n_in > 0 ==> old(ctx)@.stack.len() >= spec_stack_base(old(ctx)@) + n_in
                    &&& final(ctx)@.stack.len() == old(ctx)@.stack.len() - n_in + n_out
                    &&& final(ctx)@.stack.take(old(ctx)@.stack.len() - n_in) == old(
                        ctx,
                    )@.stack.take(old(ctx)@.stack.len() - n_in)
                    &&& final(ctx)@.registers == old(ctx)@.registers
                }
            },
            Err(a) => true,
        },
        crate::registry::spec_find_function(reg.functions@, query) is None ==> r == Err::<
            (),
            Abort,
        >(Abort::RegistryMiss) && final(ctx)@ == old(ctx)@,
        fuel == 0 && crate::registry::spec_find_function(reg.functions@, query) is Some ==> r
            == Err::<(), Abort>(Abort::Exhausted) && final(ctx)@ == old(ctx)@,
{
    let fidx = match reg.find_function(query) {
        Some((fidx, _)) => fidx,
        None => {
            proof {
                lemma_frame_preserved_refl(old(ctx)@);
            }
            return Err(Abort::RegistryMiss);
        },
    };
    call_function(ctx, reg, host, fidx, fuel)
}

} // verus!
