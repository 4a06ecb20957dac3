//! Field borrows: deriving references into the fields of a struct payload.
//!
//! A managed field holds a whole managed container; borrowing it borrows
//! *through* that container, against the container's own token. An unmanaged
//! field holds raw bytes inside the enclosing payload; borrowing it
//! synthesizes a reference bound to the *enclosing* value's token, so the
//! enclosing value cannot die while the field reference lives.
//!
//! The popped referable is consumed by each of these operations: its own
//! borrow is given back.

use vstd::prelude::*;
use crate::abort::Abort;
use crate::context::{spec_release, spec_stack_base, Context, CtxV};
use crate::context::ctx_wf;
use crate::expr::{spec_borrow_source, spec_borrow_mut_source, spec_value_target, value_target};
use crate::kind::{AnkhaValueKind, TypeHash, Visibility};
use crate::registry::{AnkhaFieldQuery, Registry, TypeShape, spec_find_field};
use crate::value::{AnkhaValue, BodyV, CellV, EntryV, Place, SlotV, StackEntry};

verus! {

broadcast use crate::context::lemma_release_len;

/// Resolve a field query against the struct payload a referable addresses:
/// the enclosing cell, the slot index, and the field's declared kind and
/// type. The referable must address a whole, live struct payload whose type
/// is registered as a struct with a field matching the query.
pub open spec fn spec_resolve_field(
    cells: Seq<CellV>,
    types: Seq<crate::registry::TypeDef>,
    v: AnkhaValue,
    q: &AnkhaFieldQuery,
) -> Result<(usize, usize, AnkhaValueKind, TypeHash), Abort> {
    let place = spec_value_target(v);
    if place.field is Some {
        Err(Abort::ShapeMismatch)
    } else {
        let c = cells[place.cell as int];
        if !c.alive {
            Err(Abort::DeadToken)
        } else {
            match c.body {
                None => Err(Abort::InitializationError),
                Some(BodyV::Fields(slots)) => match Registry::spec_find_type_by_hash(
                    types,
                    c.type_hash,
                ) {
                    None => Err(Abort::RegistryMiss),
                    Some(ti) => match types[ti].shape {
                        TypeShape::Struct(fields) => match spec_find_field(fields@, q) {
                            None => Err(Abort::ShapeMismatch),
                            Some(fi) => if fi < slots.len() {
                                Ok(
                                    (
                                        place.cell,
                                        fi as usize,
                                        fields@[fi].kind,
                                        fields@[fi].type_hash,
                                    ),
                                )
                            } else {
                                Err(Abort::ShapeMismatch)
                            },
                        },
                        _ => Err(Abort::ShapeMismatch),
                    },
                },
                Some(_) => Err(Abort::ShapeMismatch),
            }
        }
    }
}

/// Exec mirror of [`spec_resolve_field`]; read-only.
fn resolve_field(ctx: &Context, reg: &Registry, v: &AnkhaValue, q: &AnkhaFieldQuery) -> (r: Result<
    (usize, usize, AnkhaValueKind, TypeHash),
    Abort,
>)
    requires
        ctx.wf(),
        crate::context::value_in_bounds(*v, ctx@.cells.len()),
    ensures
        r == spec_resolve_field(ctx@.cells, reg.types@, *v, q),
        r matches Ok((c, fi, fkind, fth)) ==> {
            &&& spec_value_target(*v).cell == c
            &&& ctx@.cells[c as int].body matches Some(BodyV::Fields(slots)) && (fi as int)
                < slots.len()
        },
{
    let place = value_target(v);
    if place.field.is_some() {
        return Err(Abort::ShapeMismatch);
    }
    if !ctx.cells[place.cell].alive {
        return Err(Abort::DeadToken);
    }
    let n_slots = match &ctx.cells[place.cell].body {
        None => {
            return Err(Abort::InitializationError);
        },
        Some(crate::value::Body::Fields(slots)) => slots.len(),
        Some(_) => {
            return Err(Abort::ShapeMismatch);
        },
    };
    let td = match reg.find_type_by_hash(ctx.cells[place.cell].type_hash) {
        None => {
            return Err(Abort::RegistryMiss);
        },
        Some((_, td)) => td,
    };
    match &td.shape {
        TypeShape::Struct(fields) => match crate::registry::find_field(fields, q) {
            None => Err(Abort::ShapeMismatch),
            Some((fi, f)) => {
                if fi < n_slots {
                    Ok((place.cell, fi, f.kind, f.type_hash))
                } else {
                    Err(Abort::ShapeMismatch)
                }
            },
        },
        _ => Err(Abort::ShapeMismatch),
    }
}

/// Whether consuming this handle can be done without fault right now: a box
/// needs a live reference, and its last reference cannot leave while borrows
/// are outstanding. For every other kind the release always succeeds.
pub open spec fn spec_release_blocked(cells: Seq<CellV>, v: AnkhaValue) -> Option<Abort> {
    match v {
        AnkhaValue::Box { cell } => {
            let c = cells[cell as int];
            if c.box_refs == 0 {
                Some(Abort::DeadToken)
            } else if c.box_refs == 1 && (c.shared > 0 || c.exclusive) {
                Some(Abort::BorrowViolation)
            } else {
                None
            }
        },
        _ => None,
    }
}

fn release_blocked(ctx: &Context, v: &AnkhaValue) -> (r: Option<Abort>)
    requires
        ctx.wf(),
        crate::context::value_in_bounds(*v, ctx@.cells.len()),
    ensures
        r == spec_release_blocked(ctx@.cells, *v),
{
    match v {
        AnkhaValue::Box { cell } => {
            if ctx.cells[*cell].box_refs == 0 {
                Some(Abort::DeadToken)
            } else if ctx.cells[*cell].box_refs == 1 && (ctx.cells[*cell].shared > 0
                || ctx.cells[*cell].exclusive) {
                Some(Abort::BorrowViolation)
            } else {
                None
            }
        },
        _ => None,
    }
}


/// Why borrowing a managed field fails, or `None` when the borrow is owed:
/// missing or wrongly-kinded operand, a failed field resolution, an
/// unmanaged field, a blocked release of the consumed referable, a refused
/// borrow of the field's container, or a faulting release after the borrow.
pub open spec fn spec_borrow_field_abort(
    c: CtxV,
    types: Seq<crate::registry::TypeDef>,
    q: AnkhaFieldQuery,
) -> Option<Abort> {
    if c.stack.len() <= spec_stack_base(c) {
        Some(Abort::StackUnderflow)
    } else {
        match c.stack.last() {
            EntryV::Raw { .. } => Some(Abort::KindMismatch),
            EntryV::Value(v) => if v is Owned {
                Some(Abort::KindMismatch)
            } else {
                match spec_resolve_field(c.cells, types, v, &q) {
                    Err(a) => Some(a),
                    Ok((cc, fi, fkind, _)) => if fkind == AnkhaValueKind::Any {
                        Some(Abort::ShapeMismatch)
                    } else {
                        match c.cells[cc as int].body->Some_0->Fields_0[fi as int] {
                            SlotV::Raw { .. } => Some(Abort::ShapeMismatch),
                            SlotV::Managed(inner) => match spec_release_blocked(c.cells, v) {
                                Some(a) => Some(a),
                                None => match inner {
                                    AnkhaValue::RefMut { .. } => match crate::context::spec_release(
                                        c.cells,
                                        v,
                                    ) {
                                        Err(a) => Some(a),
                                        Ok(_) => None,
                                    },
                                    _ => {
                                        let (place, th, counted) = spec_borrow_source(
                                            c.cells,
                                            inner,
                                        );
                                        match crate::context::spec_borrow_at_abort(
                                            c.cells,
                                            place,
                                        ) {
                                            Some(a) => Some(a),
                                            None => {
                                                let cells1 = c.cells.update(
                                                    place.cell as int,
                                                    CellV {
                                                        shared: (c.cells[place.cell as int].shared
                                                            + 1) as u64,
                                                        ..c.cells[place.cell as int]
                                                    },
                                                );
                                                match crate::context::spec_release(cells1, v) {
                                                    Err(a) => Some(a),
                                                    Ok(_) => None,
                                                }
                                            },
                                        }
                                    },
                                },
                            },
                        }
                    },
                }
            },
        }
    }
}

/// Why borrowing a managed field exclusively fails, or `None` when the
/// borrow is owed; as the shared form, but the referable and the field's
/// container must be able to hand out the exclusive side.
pub open spec fn spec_borrow_mut_field_abort(
    c: CtxV,
    types: Seq<crate::registry::TypeDef>,
    q: AnkhaFieldQuery,
) -> Option<Abort> {
    if c.stack.len() <= spec_stack_base(c) {
        Some(Abort::StackUnderflow)
    } else {
        match c.stack.last() {
            EntryV::Raw { .. } => Some(Abort::KindMismatch),
            EntryV::Value(v) => if !(v is RefMut || v is Lazy || v is Box) {
                Some(Abort::KindMismatch)
            } else {
                match spec_resolve_field(c.cells, types, v, &q) {
                    Err(a) => Some(a),
                    Ok((cc, fi, fkind, _)) => if fkind == AnkhaValueKind::Any {
                        Some(Abort::ShapeMismatch)
                    } else {
                        match c.cells[cc as int].body->Some_0->Fields_0[fi as int] {
                            SlotV::Raw { .. } => Some(Abort::ShapeMismatch),
                            SlotV::Managed(inner) => match spec_release_blocked(c.cells, v) {
                                Some(a) => Some(a),
                                None => match inner {
                                    AnkhaValue::Ref { .. } => Some(Abort::KindMismatch),
                                    AnkhaValue::RefMut { .. } => match crate::context::spec_release(
                                        c.cells,
                                        v,
                                    ) {
                                        Err(a) => Some(a),
                                        Ok(_) => None,
                                    },
                                    _ => {
                                        match spec_borrow_mut_source(c.cells, inner) {
                                            None => Some(Abort::KindMismatch),
                                            Some((place, th, counted)) => match crate::context::spec_borrow_mut_at_abort(
                                                c.cells,
                                                place,
                                            ) {
                                                Some(a) => Some(a),
                                                None => {
                                                    let cells1 = c.cells.update(
                                                        place.cell as int,
                                                        CellV {
                                                            exclusive: true,
                                                            ..c.cells[place.cell as int]
                                                        },
                                                    );
                                                    match crate::context::spec_release(cells1, v) {
                                                        Err(a) => Some(a),
                                                        Ok(_) => None,
                                                    }
                                                },
                                            },
                                        }
                                    },
                                },
                            },
                        }
                    },
                }
            },
        }
    }
}

/// Why borrowing an unmanaged field fails, or `None` when the borrow is
/// owed: the borrow binds to the enclosing token, so the consumed referable
/// must not be the box's last reference, and the token must accept a shared
/// borrow once the referable's own borrow is given back.
pub open spec fn spec_borrow_unmanaged_abort(
    c: CtxV,
    types: Seq<crate::registry::TypeDef>,
    q: AnkhaFieldQuery,
) -> Option<Abort> {
    if c.stack.len() <= spec_stack_base(c) {
        Some(Abort::StackUnderflow)
    } else {
        match c.stack.last() {
            EntryV::Raw { .. } => Some(Abort::KindMismatch),
            EntryV::Value(v) => if v is Owned {
                Some(Abort::KindMismatch)
            } else {
                match spec_resolve_field(c.cells, types, v, &q) {
                    Err(a) => Some(a),
                    Ok((cc, fi, fkind, _)) => if fkind != AnkhaValueKind::Any {
                        Some(Abort::ShapeMismatch)
                    } else {
                        match v {
                            AnkhaValue::Box { cell } => if c.cells[cell as int].box_refs == 0 {
                                Some(Abort::DeadToken)
                            } else if c.cells[cell as int].box_refs == 1 {
                                Some(Abort::BorrowViolation)
                            } else {
                                spec_unmanaged_tail(c.cells, v, cc, fi, false)
                            },
                            _ => spec_unmanaged_tail(c.cells, v, cc, fi, false),
                        }
                    },
                }
            },
        }
    }
}

/// The exclusive form of [`spec_borrow_unmanaged_abort`].
pub open spec fn spec_borrow_mut_unmanaged_abort(
    c: CtxV,
    types: Seq<crate::registry::TypeDef>,
    q: AnkhaFieldQuery,
) -> Option<Abort> {
    if c.stack.len() <= spec_stack_base(c) {
        Some(Abort::StackUnderflow)
    } else {
        match c.stack.last() {
            EntryV::Raw { .. } => Some(Abort::KindMismatch),
            EntryV::Value(v) => if !(v is RefMut || v is Lazy || v is Box) {
                Some(Abort::KindMismatch)
            } else {
                match spec_resolve_field(c.cells, types, v, &q) {
                    Err(a) => Some(a),
                    Ok((cc, fi, fkind, _)) => if fkind != AnkhaValueKind::Any {
                        Some(Abort::ShapeMismatch)
                    } else {
                        match v {
                            AnkhaValue::Box { cell } => if c.cells[cell as int].box_refs == 0 {
                                Some(Abort::DeadToken)
                            } else if c.cells[cell as int].box_refs == 1 {
                                Some(Abort::BorrowViolation)
                            } else {
                                spec_unmanaged_tail(c.cells, v, cc, fi, true)
                            },
                            _ => spec_unmanaged_tail(c.cells, v, cc, fi, true),
                        }
                    },
                }
            },
        }
    }
}

/// After the consumed referable's borrow is given back, whether the field
/// borrow on the enclosing token is refused.
pub open spec fn spec_unmanaged_tail(
    cells: Seq<CellV>,
    v: AnkhaValue,
    cc: usize,
    fi: usize,
    exclusive: bool,
) -> Option<Abort> {
    match crate::context::spec_release(cells, v) {
        Err(a) => Some(a),
        Ok((cells1, _)) => {
            let place = Place { cell: cc, field: Some(fi) };
            if exclusive {
                crate::context::spec_borrow_mut_at_abort(cells1, place)
            } else {
                crate::context::spec_borrow_at_abort(cells1, place)
            }
        },
    }
}

/// Pop a referable (not owned) struct value and push a shared borrow of the
/// managed container held by the matched field. The enclosing referable is
/// consumed; the borrow is taken on the field container's own token.
#[verifier::rlimit(100)]
#[verifier::spinoff_prover]
pub fn eval_borrow_field(
    ctx: &mut Context,
    reg: &Registry,
    name: &String,
    kind: AnkhaValueKind,
    visibility: Option<Visibility>,
) -> (r: Result<(), Abort>)
    requires
        old(ctx).wf(),
    ensures
        final(ctx).wf(),
        final(ctx)@.cells.len() == old(ctx)@.cells.len(),
        ({
            let q = AnkhaFieldQuery { name: *name, kind, type_hash: None, visibility };
            &&& (r is Ok <==> spec_borrow_field_abort(old(ctx)@, reg.types@, q) is None)
            &&& (r matches Err(a) ==> spec_borrow_field_abort(old(ctx)@, reg.types@, q) == Some(a))
        }),
        final(ctx)@.registers == old(ctx)@.registers,
        final(ctx)@.frames == old(ctx)@.frames,
        match r {
            Ok(u) => {
                &&& old(ctx)@.stack.len() > spec_stack_base(old(ctx)@)
                &&& old(ctx)@.stack.last() matches EntryV::Value(v) && !(v is Owned) && {
                    let q = AnkhaFieldQuery {
                        name: *name,
                        kind,
                        type_hash: None,
                        visibility,
                    };
                    &&& spec_resolve_field(old(ctx)@.cells, reg.types@, v, &q) matches Ok(
                        (c, fi, fkind, _),
                    ) && fkind != AnkhaValueKind::Any && (old(ctx)@.cells[c as int].body
                        ->Some_0->Fields_0[fi as int] is Managed) && {
                        let inner = old(ctx)@.cells[c as int].body
                            ->Some_0->Fields_0[fi as int]->Managed_0;
                        let (place, th, counted) = spec_borrow_source(old(ctx)@.cells, inner);
                        let cells1 = if counted {
                            old(ctx)@.cells.update(
                                place.cell as int,
                                CellV {
                                    shared: (old(ctx)@.cells[place.cell as int].shared + 1) as u64,
                                    ..old(ctx)@.cells[place.cell as int]
                                },
                            )
                        } else {
                            old(ctx)@.cells
                        };
                        &&& spec_release(cells1, v) is Ok
                        &&& final(ctx)@.cells == spec_release(cells1, v)->Ok_0.0
                        &&& final(ctx)@.finalized == old(ctx)@.finalized + spec_release(
                            cells1,
                            v,
                        )->Ok_0.1
                        &&& final(ctx)@.stack == old(ctx)@.stack.drop_last().push(
                            EntryV::Value(AnkhaValue::Ref { place, type_hash: th }),
                        )
                    }
                }
            },
            Err(a) => final(ctx)@ == old(ctx)@,
        },
{
    let e = match ctx.pop_entry() {
        Ok(e) => e,
        Err(a) => {
            return Err(a);
        },
    };
    let v = match e {
        StackEntry::Value(v) => v,
        StackEntry::Raw { type_hash, bytes } => {
            ctx.push_entry(StackEntry::Raw { type_hash, bytes });
            proof {
                assert(ctx@.stack =~= old(ctx)@.stack);
                assert(ctx@ =~= old(ctx)@);
            }
            return Err(Abort::KindMismatch);
        },
    };
    if let AnkhaValue::Owned { .. } = v {
        ctx.push_entry(StackEntry::Value(v));
        proof {
            assert(ctx@.stack =~= old(ctx)@.stack);
            assert(ctx@ =~= old(ctx)@);
        }
        return Err(Abort::KindMismatch);
    }
    let q = AnkhaFieldQuery { name: name.clone(), kind, type_hash: None, visibility };
    let (c, fi, fkind, _fth) = match resolve_field(ctx, reg, &v, &q) {
        Ok(t) => t,
        Err(a) => {
            ctx.push_entry(StackEntry::Value(v));
            proof {
                assert(ctx@.stack =~= old(ctx)@.stack);
                assert(ctx@ =~= old(ctx)@);
            }
            return Err(a);
        },
    };
    if fkind.is_any() {
        ctx.push_entry(StackEntry::Value(v));
        proof {
            assert(ctx@.stack =~= old(ctx)@.stack);
            assert(ctx@ =~= old(ctx)@);
        }
        return Err(Abort::ShapeMismatch);
    }
    let inner = match &ctx.cells[c].body {
        Some(crate::value::Body::Fields(slots)) => match &slots[fi] {
            crate::value::Slot::Managed(inner) => *inner,
            _ => {
                ctx.push_entry(StackEntry::Value(v));
                proof {
                    assert(ctx@.stack =~= old(ctx)@.stack);
                    assert(ctx@ =~= old(ctx)@);
                }
                return Err(Abort::ShapeMismatch);
            },
        },
        _ => {
            proof {
                assert(false);
            }
            return Err(Abort::ShapeMismatch);
        },
    };
    if let Some(a) = release_blocked(ctx, &v) {
        ctx.push_entry(StackEntry::Value(v));
        proof {
            assert(ctx@.stack =~= old(ctx)@.stack);
            assert(ctx@ =~= old(ctx)@);
        }
        return Err(a);
    }
    proof {
        assert(crate::context::cell_ok(ctx@.cells[c as int], ctx@.cells.len()));
        assert(crate::context::slot_ok(
            ctx@.cells[c as int].body->Some_0->Fields_0[fi as int],
            ctx@.cells.len(),
        ));
    }
    let (derived, counted) = match inner {
        AnkhaValue::RefMut { place, type_hash } => (
            AnkhaValue::Ref { place, type_hash },
            false,
        ),
        _ => {
            let place = value_target(&inner);
            let th = match inner {
                AnkhaValue::Owned { cell } => ctx.cells[cell].type_hash,
                AnkhaValue::Box { cell } => ctx.cells[cell].type_hash,
                AnkhaValue::Ref { type_hash, .. } => type_hash,
                AnkhaValue::RefMut { type_hash, .. } => type_hash,
                AnkhaValue::Lazy { type_hash, .. } => type_hash,
            };
            match ctx.borrow_at(place, th) {
                Ok(d) => (d, true),
                Err(a) => {
                    ctx.push_entry(StackEntry::Value(v));
                    proof {
                        assert(ctx@.stack =~= old(ctx)@.stack);
                        assert(ctx@ =~= old(ctx)@);
                    }
                    return Err(a);
                },
            }
        },
    };
    let ghost borrowed = ctx@;
    match ctx.release_value(v) {
        Ok(u) => {},
        Err(a) => {
            // the only way the release can fail after the pre-check is that
            // the fresh borrow pinned the same cell; give it back
            if counted {
                let und = ctx.release_value(derived);
                proof {
                    assert(und is Ok);
                    assert(ctx@.cells =~= old(ctx)@.cells);
                    assert(ctx@.finalized =~= old(ctx)@.finalized);
                }
            }
            ctx.push_entry(StackEntry::Value(v));
            proof {
                assert(ctx@.stack =~= old(ctx)@.stack);
                assert(ctx@ =~= old(ctx)@);
            }
            return Err(a);
        },
    }
    ctx.push_entry(StackEntry::Value(derived));
    proof {
        assert(final(ctx)@.stack =~= old(ctx)@.stack.drop_last().push(EntryV::Value(derived)));
    }
    Ok(())
}

/// Pop a referable struct value (not owned, not a shared reference) and push
/// an exclusive borrow of the managed container held by the matched field.
#[verifier::rlimit(100)]
#[verifier::spinoff_prover]
pub fn eval_borrow_mut_field(
    ctx: &mut Context,
    reg: &Registry,
    name: &String,
    kind: AnkhaValueKind,
    visibility: Option<Visibility>,
) -> (r: Result<(), Abort>)
    requires
        old(ctx).wf(),
    ensures
        final(ctx).wf(),
        final(ctx)@.cells.len() == old(ctx)@.cells.len(),
        ({
            let q = AnkhaFieldQuery { name: *name, kind, type_hash: None, visibility };
            &&& (r is Ok <==> spec_borrow_mut_field_abort(old(ctx)@, reg.types@, q) is None)
            &&& (r matches Err(a) ==> spec_borrow_mut_field_abort(old(ctx)@, reg.types@, q) == Some(a))
        }),
        final(ctx)@.registers == old(ctx)@.registers,
        final(ctx)@.frames == old(ctx)@.frames,
        match r {
            Ok(u) => {
                &&& old(ctx)@.stack.len() > spec_stack_base(old(ctx)@)
                &&& old(ctx)@.stack.last() matches EntryV::Value(v) && (v is RefMut || v is Lazy
                    || v is Box) && {
                    let q = AnkhaFieldQuery {
                        name: *name,
                        kind,
                        type_hash: None,
                        visibility,
                    };
                    &&& spec_resolve_field(old(ctx)@.cells, reg.types@, v, &q) matches Ok(
                        (c, fi, fkind, _),
                    ) && fkind != AnkhaValueKind::Any && (old(ctx)@.cells[c as int].body
                        ->Some_0->Fields_0[fi as int] is Managed) && {
                        let inner = old(ctx)@.cells[c as int].body
                            ->Some_0->Fields_0[fi as int]->Managed_0;
                        &&& spec_borrow_mut_source(old(ctx)@.cells, inner) matches Some(
                            (place, th, counted),
                        ) && {
                            let cells1 = if counted {
                                old(ctx)@.cells.update(
                                    place.cell as int,
                                    CellV {
                                        exclusive: true,
                                        ..old(ctx)@.cells[place.cell as int]
                                    },
                                )
                            } else {
                                old(ctx)@.cells
                            };
                            &&& spec_release(cells1, v) is Ok
                            &&& final(ctx)@.cells == spec_release(cells1, v)->Ok_0.0
                            &&& final(ctx)@.finalized == old(ctx)@.finalized + spec_release(
                                cells1,
                                v,
                            )->Ok_0.1
                            &&& final(ctx)@.stack == old(ctx)@.stack.drop_last().push(
                                EntryV::Value(AnkhaValue::RefMut { place, type_hash: th }),
                            )
                        }
                    }
                }
            },
            Err(a) => final(ctx)@ == old(ctx)@,
        },
{
    let e = match ctx.pop_entry() {
        Ok(e) => e,
        Err(a) => {
            return Err(a);
        },
    };
    let v = match e {
        StackEntry::Value(v) => v,
        StackEntry::Raw { type_hash, bytes } => {
            ctx.push_entry(StackEntry::Raw { type_hash, bytes });
            proof {
                assert(ctx@.stack =~= old(ctx)@.stack);
                assert(ctx@ =~= old(ctx)@);
            }
            return Err(Abort::KindMismatch);
        },
    };
    match v {
        AnkhaValue::RefMut { .. } | AnkhaValue::Lazy { .. } | AnkhaValue::Box { .. } => {},
        _ => {
            ctx.push_entry(StackEntry::Value(v));
            proof {
                assert(ctx@.stack =~= old(ctx)@.stack);
                assert(ctx@ =~= old(ctx)@);
            }
            return Err(Abort::KindMismatch);
        },
    }
    let q = AnkhaFieldQuery { name: name.clone(), kind, type_hash: None, visibility };
    let (c, fi, fkind, _fth) = match resolve_field(ctx, reg, &v, &q) {
        Ok(t) => t,
        Err(a) => {
            ctx.push_entry(StackEntry::Value(v));
            proof {
                assert(ctx@.stack =~= old(ctx)@.stack);
                assert(ctx@ =~= old(ctx)@);
            }
            return Err(a);
        },
    };
    if fkind.is_any() {
        ctx.push_entry(StackEntry::Value(v));
        proof {
            assert(ctx@.stack =~= old(ctx)@.stack);
            assert(ctx@ =~= old(ctx)@);
        }
        return Err(Abort::ShapeMismatch);
    }
    let inner = match &ctx.cells[c].body {
        Some(crate::value::Body::Fields(slots)) => match &slots[fi] {
            crate::value::Slot::Managed(inner) => *inner,
            _ => {
                ctx.push_entry(StackEntry::Value(v));
                proof {
                    assert(ctx@.stack =~= old(ctx)@.stack);
                    assert(ctx@ =~= old(ctx)@);
                }
                return Err(Abort::ShapeMismatch);
            },
        },
        _ => {
            proof {
                assert(false);
            }
            return Err(Abort::ShapeMismatch);
        },
    };
    if let Some(a) = release_blocked(ctx, &v) {
        ctx.push_entry(StackEntry::Value(v));
        proof {
            assert(ctx@.stack =~= old(ctx)@.stack);
            assert(ctx@ =~= old(ctx)@);
        }
        return Err(a);
    }
    proof {
        assert(crate::context::cell_ok(ctx@.cells[c as int], ctx@.cells.len()));
        assert(crate::context::slot_ok(
            ctx@.cells[c as int].body->Some_0->Fields_0[fi as int],
            ctx@.cells.len(),
        ));
    }
    let (derived, counted) = match inner {
        AnkhaValue::Ref { .. } => {
            // an exclusive borrow cannot come out of a shared reference
            ctx.push_entry(StackEntry::Value(v));
            proof {
                assert(ctx@.stack =~= old(ctx)@.stack);
                assert(ctx@ =~= old(ctx)@);
            }
            return Err(Abort::KindMismatch);
        },
        AnkhaValue::RefMut { place, type_hash } => (
            AnkhaValue::RefMut { place, type_hash },
            false,
        ),
        _ => {
            let place = value_target(&inner);
            let th = match inner {
                AnkhaValue::Owned { cell } => ctx.cells[cell].type_hash,
                AnkhaValue::Box { cell } => ctx.cells[cell].type_hash,
                AnkhaValue::Ref { type_hash, .. } => type_hash,
                AnkhaValue::RefMut { type_hash, .. } => type_hash,
                AnkhaValue::Lazy { type_hash, .. } => type_hash,
            };
            match ctx.borrow_mut_at(place, th) {
                Ok(d) => (d, true),
                Err(a) => {
                    ctx.push_entry(StackEntry::Value(v));
                    proof {
                        assert(ctx@.stack =~= old(ctx)@.stack);
                        assert(ctx@ =~= old(ctx)@);
                    }
                    return Err(a);
                },
            }
        },
    };
    match ctx.release_value(v) {
        Ok(u) => {},
        Err(a) => {
            if counted {
                let und = ctx.release_value(derived);
                proof {
                    assert(und is Ok);
                    assert(ctx@.cells =~= old(ctx)@.cells);
                    assert(ctx@.finalized =~= old(ctx)@.finalized);
                }
            }
            ctx.push_entry(StackEntry::Value(v));
            proof {
                assert(ctx@.stack =~= old(ctx)@.stack);
                assert(ctx@ =~= old(ctx)@);
            }
            return Err(a);
        },
    }
    ctx.push_entry(StackEntry::Value(derived));
    proof {
        assert(final(ctx)@.stack =~= old(ctx)@.stack.drop_last().push(EntryV::Value(derived)));
    }
    Ok(())
}

/// Pop a referable struct value and push a shared borrow of the raw bytes of
/// the matched unmanaged field. The borrow is bound to the *enclosing*
/// value's token: as long as the field reference lives, the enclosing token
/// counts an outstanding borrow, so its strong side cannot be dropped.
#[verifier::rlimit(100)]
#[verifier::spinoff_prover]
pub fn eval_borrow_unmanaged_field(ctx: &mut Context, reg: &Registry, query: &AnkhaFieldQuery) -> (r:
    Result<(), Abort>)
    requires
        old(ctx).wf(),
    ensures
        final(ctx).wf(),
        r is Ok <==> spec_borrow_unmanaged_abort(old(ctx)@, reg.types@, *query) is None,
        r matches Err(a) ==> spec_borrow_unmanaged_abort(old(ctx)@, reg.types@, *query) == Some(a),
        final(ctx)@.registers == old(ctx)@.registers,
        final(ctx)@.frames == old(ctx)@.frames,
        final(ctx)@.finalized == old(ctx)@.finalized,
        match r {
            Ok(u) => {
                &&& old(ctx)@.stack.len() > spec_stack_base(old(ctx)@)
                &&& old(ctx)@.stack.last() matches EntryV::Value(v) && !(v is Owned) && {
                    &&& spec_resolve_field(old(ctx)@.cells, reg.types@, v, query) matches Ok(
                        (c, fi, fkind, fth),
                    ) && fkind == AnkhaValueKind::Any && {
                        let place = Place { cell: c, field: Some(fi) };
                        let cells1 = spec_release(old(ctx)@.cells, v)->Ok_0.0;
                        &&& spec_release(old(ctx)@.cells, v) is Ok
                        &&& spec_release(old(ctx)@.cells, v)->Ok_0.1 == Seq::<TypeHash>::empty()
                        &&& cells1[c as int].alive
                        &&& !cells1[c as int].exclusive
                        &&& final(ctx)@.cells == cells1.update(
                            c as int,
                            CellV {
                                shared: (cells1[c as int].shared + 1) as u64,
                                ..cells1[c as int]
                            },
                        )
                        &&& final(ctx)@.stack == old(ctx)@.stack.drop_last().push(
                            EntryV::Value(AnkhaValue::Ref { place, type_hash: fth }),
                        )
                    }
                }
            },
            Err(a) => final(ctx)@ == old(ctx)@,
        },
{
    let e = match ctx.pop_entry() {
        Ok(e) => e,
        Err(a) => {
            return Err(a);
        },
    };
    let v = match e {
        StackEntry::Value(v) => v,
        StackEntry::Raw { type_hash, bytes } => {
            ctx.push_entry(StackEntry::Raw { type_hash, bytes });
            proof {
                assert(ctx@.stack =~= old(ctx)@.stack);
                assert(ctx@ =~= old(ctx)@);
            }
            return Err(Abort::KindMismatch);
        },
    };
    if let AnkhaValue::Owned { .. } = v {
        ctx.push_entry(StackEntry::Value(v));
        proof {
            assert(ctx@.stack =~= old(ctx)@.stack);
            assert(ctx@ =~= old(ctx)@);
        }
        return Err(Abort::KindMismatch);
    }
    let (c, fi, fkind, fth) = match resolve_field(ctx, reg, &v, query) {
        Ok(t) => t,
        Err(a) => {
            ctx.push_entry(StackEntry::Value(v));
            proof {
                assert(ctx@.stack =~= old(ctx)@.stack);
                assert(ctx@ =~= old(ctx)@);
            }
            return Err(a);
        },
    };
    if !fkind.is_any() {
        ctx.push_entry(StackEntry::Value(v));
        proof {
            assert(ctx@.stack =~= old(ctx)@.stack);
            assert(ctx@ =~= old(ctx)@);
        }
        return Err(Abort::ShapeMismatch);
    }
    // the fresh borrow will pin the enclosing token, so the popped handle
    // must not be the box's last reference
    let blocked = match v {
        AnkhaValue::Box { cell } => {
            if ctx.cells[cell].box_refs == 0 {
                Some(Abort::DeadToken)
            } else if ctx.cells[cell].box_refs == 1 {
                Some(Abort::BorrowViolation)
            } else {
                None
            }
        },
        _ => None,
    };
    if let Some(a) = blocked {
        ctx.push_entry(StackEntry::Value(v));
        proof {
            assert(ctx@.stack =~= old(ctx)@.stack);
            assert(ctx@ =~= old(ctx)@);
        }
        return Err(a);
    }
    // give the popped handle's borrow back, then take the field borrow on
    // the same (enclosing) token
    let ghost pre = ctx@;
    let saved_shared = ctx.cells[c].shared;
    let saved_exclusive = ctx.cells[c].exclusive;
    let saved_box_cell = match v {
        AnkhaValue::Box { cell } => Some(cell),
        _ => None,
    };
    let saved_box_refs = match saved_box_cell {
        Some(bc) => ctx.cells[bc].box_refs,
        None => 0,
    };
    match ctx.release_value(v) {
        Ok(u) => {},
        Err(a) => {
            proof {
                assert(false);
            }
            return Err(a);
        },
    }
    let ghost rel = ctx@;
    let place = Place { cell: c, field: Some(fi) };
    let derived = match ctx.borrow_at(place, fth) {
        Ok(d) => d,
        Err(a) => {
            // undo the release by restoring the enclosing token's counters
            let ghost mid = ctx@;
            let ghost mid_exec = ctx.cells@;
            ctx.cells[c].shared = saved_shared;
            ctx.cells[c].exclusive = saved_exclusive;
            if let Some(bc) = saved_box_cell {
                ctx.cells[bc].box_refs = saved_box_refs;
            }
            proof {
                assert(mid == rel);
                assert(ctx@.cells.len() == old(ctx)@.cells.len());
                assert forall|j: int| 0 <= j < ctx@.cells.len() implies ctx@.cells[j] =~~= old(
                    ctx,
                )@.cells[j] by {
                    if j != c {
                        assert(ctx.cells@[j] == mid_exec[j]);
                        assert(ctx@.cells[j] == mid_exec[j]@);
                        assert(mid.cells[j] == mid_exec[j]@);
                        assert(mid.cells[j] == old(ctx)@.cells[j]);
                    } else {
                        assert(mid.cells[j] == mid_exec[j]@);
                    }
                }
                assert(ctx@.cells =~~= old(ctx)@.cells);
                assert(crate::context::ctx_wf(old(ctx)@));
                assert(crate::context::ctx_wf(ctx@)) by {
                    assert(ctx@ =~= (crate::context::CtxV { stack: ctx@.stack, ..old(ctx)@ }));
                    assert forall|j: int| 0 <= j < ctx@.stack.len() implies crate::context::entry_ok(
                        #[trigger] ctx@.stack[j],
                        ctx@.cells.len(),
                    ) by {
                        assert(crate::context::entry_ok(old(ctx)@.stack[j], old(ctx)@.cells.len()));
                    }
                }
            }
            ctx.push_entry(StackEntry::Value(v));
            proof {
                assert(ctx@.stack =~= old(ctx)@.stack);
                assert(ctx@ =~= old(ctx)@);
            }
            return Err(a);
        },
    };
    ctx.push_entry(StackEntry::Value(derived));
    proof {
        assert(final(ctx)@.stack =~= old(ctx)@.stack.drop_last().push(EntryV::Value(derived)));
        assert(final(ctx)@.finalized =~= old(ctx)@.finalized);
    }
    Ok(())
}

/// The exclusive form of [`eval_borrow_unmanaged_field`]: the popped
/// referable must be able to hand out an exclusive borrow (not a shared
/// reference), and the field borrow takes the enclosing token's exclusive
/// side.
#[verifier::rlimit(100)]
#[verifier::spinoff_prover]
pub fn eval_borrow_mut_unmanaged_field(
    ctx: &mut Context,
    reg: &Registry,
    query: &AnkhaFieldQuery,
) -> (r: Result<(), Abort>)
    requires
        old(ctx).wf(),
    ensures
        final(ctx).wf(),
        r is Ok <==> spec_borrow_mut_unmanaged_abort(old(ctx)@, reg.types@, *query) is None,
        r matches Err(a) ==> spec_borrow_mut_unmanaged_abort(old(ctx)@, reg.types@, *query) == Some(a),
        final(ctx)@.registers == old(ctx)@.registers,
        final(ctx)@.frames == old(ctx)@.frames,
        final(ctx)@.finalized == old(ctx)@.finalized,
        match r {
            Ok(u) => {
                &&& old(ctx)@.stack.len() > spec_stack_base(old(ctx)@)
                &&& old(ctx)@.stack.last() matches EntryV::Value(v) && (v is RefMut || v is Lazy
                    || v is Box) && {
                    &&& spec_resolve_field(old(ctx)@.cells, reg.types@, v, query) matches Ok(
                        (c, fi, fkind, fth),
                    ) && fkind == AnkhaValueKind::Any && {
                        let place = Place { cell: c, field: Some(fi) };
                        let cells1 = spec_release(old(ctx)@.cells, v)->Ok_0.0;
                        &&& spec_release(old(ctx)@.cells, v) is Ok
                        &&& spec_release(old(ctx)@.cells, v)->Ok_0.1 == Seq::<TypeHash>::empty()
                        &&& cells1[c as int].alive
                        &&& !cells1[c as int].exclusive
                        &&& cells1[c as int].shared == 0
                        &&& final(ctx)@.cells == cells1.update(
                            c as int,
                            CellV { exclusive: true, ..cells1[c as int] },
                        )
                        &&& final(ctx)@.stack == old(ctx)@.stack.drop_last().push(
                            EntryV::Value(AnkhaValue::RefMut { place, type_hash: fth }),
                        )
                    }
                }
            },
            Err(a) => final(ctx)@ == old(ctx)@,
        },
{
    let e = match ctx.pop_entry() {
        Ok(e) => e,
        Err(a) => {
            return Err(a);
        },
    };
    let v = match e {
        StackEntry::Value(v) => v,
        StackEntry::Raw { type_hash, bytes } => {
            ctx.push_entry(StackEntry::Raw { type_hash, bytes });
            proof {
                assert(ctx@.stack =~= old(ctx)@.stack);
                assert(ctx@ =~= old(ctx)@);
            }
            return Err(Abort::KindMismatch);
        },
    };
    match v {
        AnkhaValue::RefMut { .. } | AnkhaValue::Lazy { .. } | AnkhaValue::Box { .. } => {},
        _ => {
            ctx.push_entry(StackEntry::Value(v));
            proof {
                assert(ctx@.stack =~= old(ctx)@.stack);
                assert(ctx@ =~= old(ctx)@);
            }
            return Err(Abort::KindMismatch);
        },
    }
    let (c, fi, fkind, fth) = match resolve_field(ctx, reg, &v, query) {
        Ok(t) => t,
        Err(a) => {
            ctx.push_entry(StackEntry::Value(v));
            proof {
                assert(ctx@.stack =~= old(ctx)@.stack);
                assert(ctx@ =~= old(ctx)@);
            }
            return Err(a);
        },
    };
    if !fkind.is_any() {
        ctx.push_entry(StackEntry::Value(v));
        proof {
            assert(ctx@.stack =~= old(ctx)@.stack);
            assert(ctx@ =~= old(ctx)@);
        }
        return Err(Abort::ShapeMismatch);
    }
    let blocked = match v {
        AnkhaValue::Box { cell } => {
            if ctx.cells[cell].box_refs == 0 {
                Some(Abort::DeadToken)
            } else if ctx.cells[cell].box_refs == 1 {
                Some(Abort::BorrowViolation)
            } else {
                None
            }
        },
        _ => None,
    };
    if let Some(a) = blocked {
        ctx.push_entry(StackEntry::Value(v));
        proof {
            assert(ctx@.stack =~= old(ctx)@.stack);
            assert(ctx@ =~= old(ctx)@);
        }
        return Err(a);
    }
    let saved_shared = ctx.cells[c].shared;
    let saved_exclusive = ctx.cells[c].exclusive;
    let saved_box_cell = match v {
        AnkhaValue::Box { cell } => Some(cell),
        _ => None,
    };
    let saved_box_refs = match saved_box_cell {
        Some(bc) => ctx.cells[bc].box_refs,
        None => 0,
    };
    match ctx.release_value(v) {
        Ok(u) => {},
        Err(a) => {
            proof {
                assert(false);
            }
            return Err(a);
        },
    }
    let ghost rel = ctx@;
    let place = Place { cell: c, field: Some(fi) };
    let derived = match ctx.borrow_mut_at(place, fth) {
        Ok(d) => d,
        Err(a) => {
            let ghost mid = ctx@;
            let ghost mid_exec = ctx.cells@;
            ctx.cells[c].shared = saved_shared;
            ctx.cells[c].exclusive = saved_exclusive;
            if let Some(bc) = saved_box_cell {
                ctx.cells[bc].box_refs = saved_box_refs;
            }
            proof {
                assert(mid == rel);
                assert(ctx@.cells.len() == old(ctx)@.cells.len());
                assert forall|j: int| 0 <= j < ctx@.cells.len() implies ctx@.cells[j] =~~= old(
                    ctx,
                )@.cells[j] by {
                    if j != c {
                        assert(ctx.cells@[j] == mid_exec[j]);
                        assert(ctx@.cells[j] == mid_exec[j]@);
                        assert(mid.cells[j] == mid_exec[j]@);
                        assert(mid.cells[j] == old(ctx)@.cells[j]);
                    } else {
                        assert(mid.cells[j] == mid_exec[j]@);
                    }
                }
                assert(ctx@.cells =~~= old(ctx)@.cells);
                assert(crate::context::ctx_wf(old(ctx)@));
                assert(crate::context::ctx_wf(ctx@)) by {
                    assert(ctx@ =~= (crate::context::CtxV { stack: ctx@.stack, ..old(ctx)@ }));
                    assert forall|j: int| 0 <= j < ctx@.stack.len() implies crate::context::entry_ok(
                        #[trigger] ctx@.stack[j],
                        ctx@.cells.len(),
                    ) by {
                        assert(crate::context::entry_ok(old(ctx)@.stack[j], old(ctx)@.cells.len()));
                    }
                }
            }
            ctx.push_entry(StackEntry::Value(v));
            proof {
                assert(ctx@.stack =~= old(ctx)@.stack);
                assert(ctx@ =~= old(ctx)@);
            }
            return Err(a);
        },
    };
    ctx.push_entry(StackEntry::Value(derived));
    proof {
        assert(final(ctx)@.stack =~= old(ctx)@.stack.drop_last().push(EntryV::Value(derived)));
        assert(final(ctx)@.finalized =~= old(ctx)@.finalized);
    }
    Ok(())
}

} // verus!
