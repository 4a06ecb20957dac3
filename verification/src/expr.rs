//! Evaluation of the leaf expression operations.
//!
//! Each operation is one function from the evaluation context (and, where
//! dispatch or layout is involved, the registry) to the next context. All
//! failures are fatal aborts; on an abort the context is left as it was when
//! the violation was found.

use vstd::prelude::*;
use crate::abort::Abort;
use crate::context::{
    ctx_wf, entry_ok, spec_release, spec_stack_base, value_in_bounds, Context, CtxV,
};
use crate::kind::{AnkhaValueKind, TypeHash, TH_BOOL};
use crate::literal::AnkhaLiteral;
use crate::registry::Registry;
use crate::value::{AnkhaValue, Body, BodyV, CellV, EntryV, Place, SlotV, StackEntry};

verus! {

/// The body a literal evaluates to.
pub open spec fn spec_literal_body(lit: &AnkhaLiteral) -> BodyV {
    match lit {
        AnkhaLiteral::String(s) => BodyV::Text(s@),
        _ => BodyV::Raw(lit.spec_bytes()),
    }
}

/// Push a freshly allocated owned value holding the literal.
pub fn eval_literal(ctx: &mut Context, lit: &AnkhaLiteral)
    requires
        old(ctx).wf(),
    ensures
        final(ctx).wf(),
        final(ctx)@.cells.len() == old(ctx)@.cells.len() + 1,
        final(ctx)@.cells == old(ctx)@.cells.push(
            CellV {
                type_hash: lit.spec_type_hash(),
                body: Some(spec_literal_body(lit)),
                alive: true,
                shared: 0,
                exclusive: false,
                finalized: false,
                boxed: false,
                box_refs: 0,
            },
        ),
        final(ctx)@.stack == old(ctx)@.stack.push(
            EntryV::Value(AnkhaValue::Owned { cell: old(ctx)@.cells.len() as usize }),
        ),
        final(ctx)@.registers == old(ctx)@.registers,
        final(ctx)@.frames == old(ctx)@.frames,
        final(ctx)@.finalized == old(ctx)@.finalized,
{
    let body = match lit {
        AnkhaLiteral::String(s) => Body::Text(s.clone()),
        _ => Body::Raw(lit.to_bytes()),
    };
    let cell = ctx.alloc_cell(lit.type_hash(), Some(body), false, 0);
    ctx.push_entry(StackEntry::Value(AnkhaValue::Owned { cell }));
}

/// What dropping one stack record does to the arena and the finalizer log: a
/// raw record's finalizer runs on its bytes; a managed container is released
/// as [`spec_release`] describes.
pub open spec fn spec_drop_entry(cells: Seq<CellV>, e: EntryV) -> Result<
    (Seq<CellV>, Seq<TypeHash>),
    Abort,
> {
    match e {
        EntryV::Raw { type_hash, .. } => Ok((cells, seq![type_hash])),
        EntryV::Value(v) => spec_release(cells, v),
    }
}

/// Why dropping the top record fails, or `None` when the drop is owed: an
/// empty owned stack suffix, or a faulting release of the popped container.
pub open spec fn spec_stack_drop_abort(c: CtxV) -> Option<Abort> {
    if c.stack.len() <= spec_stack_base(c) {
        Some(Abort::StackUnderflow)
    } else {
        match spec_drop_entry(c.cells, c.stack.last()) {
            Ok(_) => None,
            Err(a) => Some(a),
        }
    }
}

/// Pop and drop the top record, running its finalizer exactly once.
pub fn eval_stack_drop(ctx: &mut Context) -> (r: Result<(), Abort>)
    requires
        old(ctx).wf(),
    ensures
        final(ctx).wf(),
        final(ctx)@.registers == old(ctx)@.registers,
        final(ctx)@.frames == old(ctx)@.frames,
        r is Ok <==> spec_stack_drop_abort(old(ctx)@) is None,
        r matches Err(a) ==> spec_stack_drop_abort(old(ctx)@) == Some(a),
        match r {
            Ok(u) => {
                &&& old(ctx)@.stack.len() > spec_stack_base(old(ctx)@)
                &&& spec_drop_entry(old(ctx)@.cells, old(ctx)@.stack.last()) is Ok
                &&& final(ctx)@.stack == old(ctx)@.stack.drop_last()
                &&& final(ctx)@.cells == spec_drop_entry(
                    old(ctx)@.cells,
                    old(ctx)@.stack.last(),
                )->Ok_0.0
                &&& final(ctx)@.finalized == old(ctx)@.finalized + spec_drop_entry(
                    old(ctx)@.cells,
                    old(ctx)@.stack.last(),
                )->Ok_0.1
            },
            Err(a) => final(ctx)@ == old(ctx)@ && (a == Abort::StackUnderflow ==> old(
                ctx,
            )@.stack.len() <= spec_stack_base(old(ctx)@)),
        },
{
    let e = match ctx.pop_entry() {
        Ok(e) => e,
        Err(a) => {
            return Err(a);
        },
    };
    match e {
        StackEntry::Raw { type_hash, bytes } => {
            ctx.finalized.push(type_hash);
            proof {
                assert(ctx@.finalized =~= old(ctx)@.finalized + seq![type_hash]);
                assert(ctx@ =~= (CtxV {
                    stack: old(ctx)@.stack.drop_last(),
                    finalized: old(ctx)@.finalized + seq![type_hash],
                    ..old(ctx)@
                }));
            }
            Ok(())
        },
        StackEntry::Value(v) => {
            let ghost mid = ctx@;
            match ctx.release_value(v) {
                Ok(u) => Ok(()),
                Err(a) => {
                    // put the record back: an abort leaves the context as it
                    // was when the violation was found
                    ctx.push_entry(StackEntry::Value(v));
                    proof {
                        assert(ctx@.stack =~= old(ctx)@.stack);
                        assert(ctx@ =~= old(ctx)@);
                    }
                    Err(a)
                },
            }
        },
    }
}

/// The raw bytes a place addresses: the whole cell payload, or one raw field
/// slot, together with their type. Reading a dead token, a payload-less cell,
/// a text or struct payload where bytes are needed, or a managed or missing
/// slot is an abort.
pub open spec fn spec_bytes_at(cells: Seq<CellV>, place: Place) -> Result<
    (TypeHash, Seq<u8>),
    Abort,
> {
    let c = cells[place.cell as int];
    if !c.alive {
        Err(Abort::DeadToken)
    } else {
        match c.body {
            None => Err(Abort::InitializationError),
            Some(b) => match place.field {
                None => match b {
                    BodyV::Raw(bytes) => Ok((c.type_hash, bytes)),
                    _ => Err(Abort::ShapeMismatch),
                },
                Some(i) => match b {
                    BodyV::Fields(slots) => if i < slots.len() {
                        match slots[i as int] {
                            SlotV::Raw { type_hash, bytes } => Ok((type_hash, bytes)),
                            SlotV::Managed(_) => Err(Abort::ShapeMismatch),
                        }
                    } else {
                        Err(Abort::ShapeMismatch)
                    },
                    _ => Err(Abort::ShapeMismatch),
                },
            },
        }
    }
}

impl Context {
    /// Read the raw bytes a place addresses, as [`spec_bytes_at`] describes.
    pub fn read_place_bytes(&self, place: Place) -> (r: Result<(TypeHash, Vec<u8>), Abort>)
        requires
            self.wf(),
            place.cell < self@.cells.len(),
        ensures
            match r {
                Ok((th, bytes)) => spec_bytes_at(self@.cells, place) == Ok::<
                    (TypeHash, Seq<u8>),
                    Abort,
                >((th, bytes@)),
                Err(a) => spec_bytes_at(self@.cells, place) == Err::<
                    (TypeHash, Seq<u8>),
                    Abort,
                >(a),
            },
    {
        let c = &self.cells[place.cell];
        if !c.alive {
            return Err(Abort::DeadToken);
        }
        match &c.body {
            None => Err(Abort::InitializationError),
            Some(b) => match place.field {
                None => match b {
                    Body::Raw(bytes) => Ok((c.type_hash, bytes.clone())),
                    _ => Err(Abort::ShapeMismatch),
                },
                Some(i) => match b {
                    Body::Fields(slots) => {
                        if i < slots.len() {
                            match &slots[i] {
                                crate::value::Slot::Raw { type_hash, bytes } => {
                                    proof {
                                        assert(self@.cells[place.cell as int].body->Some_0
                                            is Fields);
                                    }
                                    Ok((*type_hash, bytes.clone()))
                                },
                                crate::value::Slot::Managed(_) => Err(Abort::ShapeMismatch),
                            }
                        } else {
                            Err(Abort::ShapeMismatch)
                        }
                    },
                    _ => Err(Abort::ShapeMismatch),
                },
            },
        }
    }
}

/// The place a container's payload lives at: its own cell for the strong
/// kinds, the borrowed place for the weak kinds.
pub open spec fn spec_value_target(v: AnkhaValue) -> Place {
    match v {
        AnkhaValue::Owned { cell } => Place { cell, field: None },
        AnkhaValue::Ref { place, .. } => place,
        AnkhaValue::RefMut { place, .. } => place,
        AnkhaValue::Lazy { place, .. } => place,
        AnkhaValue::Box { cell } => Place { cell, field: None },
    }
}

pub fn value_target(v: &AnkhaValue) -> (r: Place)
    ensures
        r == spec_value_target(*v),
{
    match v {
        AnkhaValue::Owned { cell } => Place { cell: *cell, field: None },
        AnkhaValue::Ref { place, .. } => *place,
        AnkhaValue::RefMut { place, .. } => *place,
        AnkhaValue::Lazy { place, .. } => *place,
        AnkhaValue::Box { cell } => Place { cell: *cell, field: None },
    }
}

/// Why unwrapping the top boolean fails, or `None` when it is owed: an empty
/// suffix, a raw record on top, an unreadable or non-boolean payload, or a
/// faulting release of the consumed container.
pub open spec fn spec_unwrap_boolean_abort(c: CtxV) -> Option<Abort> {
    if c.stack.len() <= spec_stack_base(c) {
        Some(Abort::StackUnderflow)
    } else {
        match c.stack.last() {
            EntryV::Raw { .. } => Some(Abort::KindMismatch),
            EntryV::Value(v) => match spec_bytes_at(c.cells, spec_value_target(v)) {
                Err(a) => Some(a),
                Ok((th, bytes)) => if th != TH_BOOL || bytes.len() != 1 || bytes[0] > 1 {
                    Some(Abort::TypeMismatch)
                } else {
                    match spec_release(c.cells, v) {
                        Err(a) => Some(a),
                        Ok(_) => None,
                    }
                },
            },
        }
    }
}

/// Pop a managed boolean of any kind, release it, and push the raw boolean
/// record that branches and loops consume.
pub fn eval_stack_unwrap_boolean(ctx: &mut Context) -> (r: Result<(), Abort>)
    requires
        old(ctx).wf(),
    ensures
        final(ctx).wf(),
        final(ctx)@.registers == old(ctx)@.registers,
        final(ctx)@.frames == old(ctx)@.frames,
        r is Ok <==> spec_unwrap_boolean_abort(old(ctx)@) is None,
        r matches Err(a) ==> spec_unwrap_boolean_abort(old(ctx)@) == Some(a),
        match r {
            Ok(u) => {
                &&& old(ctx)@.stack.len() > spec_stack_base(old(ctx)@)
                &&& old(ctx)@.stack.last() matches EntryV::Value(v) && {
                    let bytes = spec_bytes_at(old(ctx)@.cells, spec_value_target(v))->Ok_0.1;
                    &&& spec_bytes_at(old(ctx)@.cells, spec_value_target(v)) matches Ok(
                        (th, _),
                    ) && th == TH_BOOL
                    &&& bytes.len() == 1
                    &&& spec_release(old(ctx)@.cells, v) is Ok
                    &&& final(ctx)@.cells == spec_release(old(ctx)@.cells, v)->Ok_0.0
                    &&& final(ctx)@.finalized == old(ctx)@.finalized + spec_release(
                        old(ctx)@.cells,
                        v,
                    )->Ok_0.1
                    &&& final(ctx)@.stack == old(ctx)@.stack.drop_last().push(
                        EntryV::Raw { type_hash: TH_BOOL, bytes },
                    )
                }
            },
            Err(a) => final(ctx)@ == old(ctx)@,
        },
{
    let e = match ctx.pop_entry() {
        Ok(e) => e,
        Err(a) => {
            return Err(a);
        },
    };
    let v = match e {
        StackEntry::Value(v) => v,
        StackEntry::Raw { type_hash, bytes } => {
            ctx.push_entry(StackEntry::Raw { type_hash, bytes });
            proof {
                assert(ctx@.stack =~= old(ctx)@.stack);
                assert(ctx@ =~= old(ctx)@);
            }
            return Err(Abort::KindMismatch);
        },
    };
    let target = value_target(&v);
    let (th, bytes) = match ctx.read_place_bytes(target) {
        Ok(p) => p,
        Err(a) => {
            ctx.push_entry(StackEntry::Value(v));
            proof {
                assert(ctx@.stack =~= old(ctx)@.stack);
                assert(ctx@ =~= old(ctx)@);
            }
            return Err(a);
        },
    };
    if th != TH_BOOL || bytes.len() != 1 || bytes[0] > 1 {
        ctx.push_entry(StackEntry::Value(v));
        proof {
            assert(ctx@.stack =~= old(ctx)@.stack);
            assert(ctx@ =~= old(ctx)@);
        }
        return Err(Abort::TypeMismatch);
    }
    // the popped container is consumed: its borrow is given back, an owned
    // boolean is finalized
    let ghost mid = ctx@;
    match ctx.release_value(v) {
        Ok(u) => {},
        Err(a) => {
            ctx.push_entry(StackEntry::Value(v));
            proof {
                assert(ctx@.stack =~= old(ctx)@.stack);
                assert(ctx@ =~= old(ctx)@);
            }
            return Err(a);
        },
    }
    ctx.push_entry(StackEntry::Raw { type_hash: TH_BOOL, bytes });
    proof {
        assert(ctx@.stack =~= old(ctx)@.stack.drop_last().push(
            ctx@.stack.last(),
        ));
    }
    Ok(())
}

/// Where a shared borrow of a container comes from: the place and advertised
/// type of the derived reference, and whether the borrow is counted on the
/// token (a reborrow through an exclusive reference is not: that exclusive
/// borrow already guards the place).
pub open spec fn spec_borrow_source(cells: Seq<CellV>, v: AnkhaValue) -> (Place, TypeHash, bool) {
    match v {
        AnkhaValue::Owned { cell } => (
            Place { cell, field: None },
            cells[cell as int].type_hash,
            true,
        ),
        AnkhaValue::Ref { place, type_hash } => (place, type_hash, true),
        AnkhaValue::RefMut { place, type_hash } => (place, type_hash, false),
        AnkhaValue::Lazy { place, type_hash } => (place, type_hash, true),
        AnkhaValue::Box { cell } => (Place { cell, field: None }, cells[cell as int].type_hash, true),
    }
}

/// Why borrowing the top container fails, or `None` when the borrow is owed:
/// an empty suffix, a raw record, or a refused counted borrow. Reborrowing
/// through an exclusive reference is always owed: that exclusive borrow
/// already guards the place.
pub open spec fn spec_borrow_op_abort(c: CtxV) -> Option<Abort> {
    if c.stack.len() <= spec_stack_base(c) {
        Some(Abort::StackUnderflow)
    } else {
        match c.stack.last() {
            EntryV::Raw { .. } => Some(Abort::KindMismatch),
            EntryV::Value(v) => match v {
                AnkhaValue::RefMut { .. } => None,
                _ => crate::context::spec_borrow_at_abort(c.cells, spec_value_target(v)),
            },
        }
    }
}

/// Borrow the top container; push the shared borrow, then the original back
/// on top of it. A counted borrow increments the token's shared count and is
/// refused while the exclusive borrow is out.
///
/// The original stays on top, the derived reference directly beneath it: the
/// order the original runtime and its struct-field scenarios fix (the prose
/// that puts the derived handle above the original contradicts those
/// scenarios, and the scenarios win here).
pub fn eval_borrow(ctx: &mut Context) -> (r: Result<(), Abort>)
    requires
        old(ctx).wf(),
    ensures
        final(ctx).wf(),
        final(ctx)@.registers == old(ctx)@.registers,
        final(ctx)@.frames == old(ctx)@.frames,
        final(ctx)@.finalized == old(ctx)@.finalized,
        r is Ok <==> spec_borrow_op_abort(old(ctx)@) is None,
        r matches Err(a) ==> spec_borrow_op_abort(old(ctx)@) == Some(a),
        match r {
            Ok(u) => {
                &&& old(ctx)@.stack.len() > spec_stack_base(old(ctx)@)
                &&& old(ctx)@.stack.last() matches EntryV::Value(v) && {
                    let (place, th, counted) = spec_borrow_source(old(ctx)@.cells, v);
                    &&& final(ctx)@.stack == old(ctx)@.stack.drop_last().push(
                        EntryV::Value(AnkhaValue::Ref { place, type_hash: th }),
                    ).push(EntryV::Value(v))
                    &&& if counted {
                        let c = old(ctx)@.cells[place.cell as int];
                        &&& c.alive
                        &&& !c.exclusive
                        &&& final(ctx)@.cells == old(ctx)@.cells.update(
                            place.cell as int,
                            CellV { shared: (c.shared + 1) as u64, ..c },
                        )
                    } else {
                        final(ctx)@.cells == old(ctx)@.cells
                    }
                }
            },
            Err(a) => final(ctx)@ == old(ctx)@,
        },
{
    let e = match ctx.pop_entry() {
        Ok(e) => e,
        Err(a) => {
            return Err(a);
        },
    };
    let v = match e {
        StackEntry::Value(v) => v,
        StackEntry::Raw { type_hash, bytes } => {
            ctx.push_entry(StackEntry::Raw { type_hash, bytes });
            proof {
                assert(ctx@.stack =~= old(ctx)@.stack);
                assert(ctx@ =~= old(ctx)@);
            }
            return Err(Abort::KindMismatch);
        },
    };
    let derived = match v {
        AnkhaValue::RefMut { place, type_hash } => AnkhaValue::Ref { place, type_hash },
        _ => {
            let place = value_target(&v);
            let th = match v {
                AnkhaValue::Owned { cell } => ctx.cells[cell].type_hash,
                AnkhaValue::Box { cell } => ctx.cells[cell].type_hash,
                AnkhaValue::Ref { type_hash, .. } => type_hash,
                AnkhaValue::RefMut { type_hash, .. } => type_hash,
                AnkhaValue::Lazy { type_hash, .. } => type_hash,
            };
            match ctx.borrow_at(place, th) {
                Ok(d) => d,
                Err(a) => {
                    ctx.push_entry(StackEntry::Value(v));
                    proof {
                        assert(ctx@.stack =~= old(ctx)@.stack);
                        assert(ctx@ =~= old(ctx)@);
                    }
                    return Err(a);
                },
            }
        },
    };
    ctx.push_entry(StackEntry::Value(derived));
    ctx.push_entry(StackEntry::Value(v));
    proof {
        assert(final(ctx)@.stack =~= old(ctx)@.stack.drop_last().push(
            EntryV::Value(derived),
        ).push(EntryV::Value(v)));
    }
    Ok(())
}

/// Where an exclusive borrow comes from; `None` when the kind cannot hand one
/// out (a shared reference).
pub open spec fn spec_borrow_mut_source(cells: Seq<CellV>, v: AnkhaValue) -> Option<
    (Place, TypeHash, bool),
> {
    match v {
        AnkhaValue::Owned { cell } => Some(
            (Place { cell, field: None }, cells[cell as int].type_hash, true),
        ),
        AnkhaValue::Ref { .. } => None,
        AnkhaValue::RefMut { place, type_hash } => Some((place, type_hash, false)),
        AnkhaValue::Lazy { place, type_hash } => Some((place, type_hash, true)),
        AnkhaValue::Box { cell } => Some(
            (Place { cell, field: None }, cells[cell as int].type_hash, true),
        ),
    }
}

/// Why borrowing the top container exclusively fails, or `None` when the
/// borrow is owed: an empty suffix, a raw record, a shared reference (which
/// cannot hand out the exclusive side), or a refused counted borrow.
pub open spec fn spec_borrow_mut_op_abort(c: CtxV) -> Option<Abort> {
    if c.stack.len() <= spec_stack_base(c) {
        Some(Abort::StackUnderflow)
    } else {
        match c.stack.last() {
            EntryV::Raw { .. } => Some(Abort::KindMismatch),
            EntryV::Value(v) => match v {
                AnkhaValue::Ref { .. } => Some(Abort::KindMismatch),
                AnkhaValue::RefMut { .. } => None,
                _ => crate::context::spec_borrow_mut_at_abort(c.cells, spec_value_target(v)),
            },
        }
    }
}

/// Borrow the top container exclusively; push the exclusive borrow, then the
/// original. Refused on a shared reference, and while any borrow is out.
pub fn eval_borrow_mut(ctx: &mut Context) -> (r: Result<(), Abort>)
    requires
        old(ctx).wf(),
    ensures
        final(ctx).wf(),
        final(ctx)@.registers == old(ctx)@.registers,
        final(ctx)@.frames == old(ctx)@.frames,
        final(ctx)@.finalized == old(ctx)@.finalized,
        r is Ok <==> spec_borrow_mut_op_abort(old(ctx)@) is None,
        r matches Err(a) ==> spec_borrow_mut_op_abort(old(ctx)@) == Some(a),
        match r {
            Ok(u) => {
                &&& old(ctx)@.stack.len() > spec_stack_base(old(ctx)@)
                &&& old(ctx)@.stack.last() matches EntryV::Value(v) && spec_borrow_mut_source(
                    old(ctx)@.cells,
                    v,
                ) matches Some((place, th, counted)) && {
                    &&& final(ctx)@.stack == old(ctx)@.stack.drop_last().push(
                        EntryV::Value(AnkhaValue::RefMut { place, type_hash: th }),
                    ).push(EntryV::Value(v))
                    &&& if counted {
                        let c = old(ctx)@.cells[place.cell as int];
                        &&& c.alive
                        &&& !c.exclusive
                        &&& c.shared == 0
                        &&& final(ctx)@.cells == old(ctx)@.cells.update(
                            place.cell as int,
                            CellV { exclusive: true, ..c },
                        )
                    } else {
                        final(ctx)@.cells == old(ctx)@.cells
                    }
                }
            },
            Err(a) => final(ctx)@ == old(ctx)@,
        },
{
    let e = match ctx.pop_entry() {
        Ok(e) => e,
        Err(a) => {
            return Err(a);
        },
    };
    let v = match e {
        StackEntry::Value(v) => v,
        StackEntry::Raw { type_hash, bytes } => {
            ctx.push_entry(StackEntry::Raw { type_hash, bytes });
            proof {
                assert(ctx@.stack =~= old(ctx)@.stack);
                assert(ctx@ =~= old(ctx)@);
            }
            return Err(Abort::KindMismatch);
        },
    };
    let derived = match v {
        AnkhaValue::Ref { .. } => {
            ctx.push_entry(StackEntry::Value(v));
            proof {
                assert(ctx@.stack =~= old(ctx)@.stack);
                assert(ctx@ =~= old(ctx)@);
            }
            return Err(Abort::KindMismatch);
        },
        AnkhaValue::RefMut { place, type_hash } => AnkhaValue::RefMut { place, type_hash },
        _ => {
            let place = value_target(&v);
            let th = match v {
                AnkhaValue::Owned { cell } => ctx.cells[cell].type_hash,
                AnkhaValue::Box { cell } => ctx.cells[cell].type_hash,
                AnkhaValue::Ref { type_hash, .. } => type_hash,
                AnkhaValue::RefMut { type_hash, .. } => type_hash,
                AnkhaValue::Lazy { type_hash, .. } => type_hash,
            };
            match ctx.borrow_mut_at(place, th) {
                Ok(d) => d,
                Err(a) => {
                    ctx.push_entry(StackEntry::Value(v));
                    proof {
                        assert(ctx@.stack =~= old(ctx)@.stack);
                        assert(ctx@ =~= old(ctx)@);
                    }
                    return Err(a);
                },
            }
        },
    };
    ctx.push_entry(StackEntry::Value(derived));
    ctx.push_entry(StackEntry::Value(v));
    proof {
        assert(final(ctx)@.stack =~= old(ctx)@.stack.drop_last().push(
            EntryV::Value(derived),
        ).push(EntryV::Value(v)));
    }
    Ok(())
}

/// Why taking a lazy handle of the top container fails, or `None` when it is
/// owed: an empty suffix, a raw record, a reference kind (references cannot
/// yield lazy handles), or a dead strong token.
pub open spec fn spec_lazy_op_abort(c: CtxV) -> Option<Abort> {
    if c.stack.len() <= spec_stack_base(c) {
        Some(Abort::StackUnderflow)
    } else {
        match c.stack.last() {
            EntryV::Raw { .. } => Some(Abort::KindMismatch),
            EntryV::Value(v) => match v {
                AnkhaValue::Owned { cell } => if !c.cells[cell as int].alive {
                    Some(Abort::DeadToken)
                } else {
                    None
                },
                AnkhaValue::Box { cell } => if !c.cells[cell as int].alive {
                    Some(Abort::DeadToken)
                } else {
                    None
                },
                AnkhaValue::Lazy { .. } => None,
                _ => Some(Abort::KindMismatch),
            },
        }
    }
}

/// Take a lazy handle of the top container; push it, then the original. Lazy
/// access is non-borrowing: no counter moves; validity is checked when the
/// handle is used. Only owners, boxes and other lazy handles can hand one
/// out.
pub fn eval_lazy(ctx: &mut Context) -> (r: Result<(), Abort>)
    requires
        old(ctx).wf(),
    ensures
        final(ctx).wf(),
        final(ctx)@.cells == old(ctx)@.cells,
        final(ctx)@.registers == old(ctx)@.registers,
        final(ctx)@.frames == old(ctx)@.frames,
        final(ctx)@.finalized == old(ctx)@.finalized,
        r is Ok <==> spec_lazy_op_abort(old(ctx)@) is None,
        r matches Err(a) ==> spec_lazy_op_abort(old(ctx)@) == Some(a),
        match r {
            Ok(u) => {
                &&& old(ctx)@.stack.len() > spec_stack_base(old(ctx)@)
                &&& old(ctx)@.stack.last() matches EntryV::Value(v) && {
                    let (place, th, _) = spec_borrow_source(old(ctx)@.cells, v);
                    &&& (v is Owned || v is Lazy || v is Box)
                    &&& (v is Owned || v is Box) ==> old(ctx)@.cells[place.cell as int].alive
                    &&& final(ctx)@.stack == old(ctx)@.stack.drop_last().push(
                        EntryV::Value(AnkhaValue::Lazy { place, type_hash: th }),
                    ).push(EntryV::Value(v))
                }
            },
            Err(a) => final(ctx)@ == old(ctx)@,
        },
{
    let e = match ctx.pop_entry() {
        Ok(e) => e,
        Err(a) => {
            return Err(a);
        },
    };
    let v = match e {
        StackEntry::Value(v) => v,
        StackEntry::Raw { type_hash, bytes } => {
            ctx.push_entry(StackEntry::Raw { type_hash, bytes });
            proof {
                assert(ctx@.stack =~= old(ctx)@.stack);
                assert(ctx@ =~= old(ctx)@);
            }
            return Err(Abort::KindMismatch);
        },
    };
    let derived = match v {
        AnkhaValue::Owned { cell } => {
            if !ctx.cells[cell].alive {
                ctx.push_entry(StackEntry::Value(v));
                proof {
                    assert(ctx@.stack =~= old(ctx)@.stack);
                    assert(ctx@ =~= old(ctx)@);
                }
                return Err(Abort::DeadToken);
            }
            AnkhaValue::Lazy {
                place: Place { cell, field: None },
                type_hash: ctx.cells[cell].type_hash,
            }
        },
        AnkhaValue::Box { cell } => {
            if !ctx.cells[cell].alive {
                ctx.push_entry(StackEntry::Value(v));
                proof {
                    assert(ctx@.stack =~= old(ctx)@.stack);
                    assert(ctx@ =~= old(ctx)@);
                }
                return Err(Abort::DeadToken);
            }
            AnkhaValue::Lazy {
                place: Place { cell, field: None },
                type_hash: ctx.cells[cell].type_hash,
            }
        },
        AnkhaValue::Lazy { place, type_hash } => AnkhaValue::Lazy { place, type_hash },
        _ => {
            ctx.push_entry(StackEntry::Value(v));
            proof {
                assert(ctx@.stack =~= old(ctx)@.stack);
                assert(ctx@ =~= old(ctx)@);
            }
            return Err(Abort::KindMismatch);
        },
    };
    ctx.push_entry(StackEntry::Value(derived));
    ctx.push_entry(StackEntry::Value(v));
    proof {
        assert(final(ctx)@.stack =~= old(ctx)@.stack.drop_last().push(
            EntryV::Value(derived),
        ).push(EntryV::Value(v)));
    }
    Ok(())
}

/// Exchange the top two records of the current function's stack suffix. Owed
/// exactly when two records are there.
pub fn eval_swap(ctx: &mut Context) -> (r: Result<(), Abort>)
    requires
        old(ctx).wf(),
    ensures
        final(ctx).wf(),
        final(ctx)@.cells == old(ctx)@.cells,
        final(ctx)@.registers == old(ctx)@.registers,
        final(ctx)@.frames == old(ctx)@.frames,
        final(ctx)@.finalized == old(ctx)@.finalized,
        r is Ok <==> old(ctx)@.stack.len() >= spec_stack_base(old(ctx)@) + 2,
        match r {
            Ok(u) => {
                &&& old(ctx)@.stack.len() >= spec_stack_base(old(ctx)@) + 2
                &&& final(ctx)@.stack == old(ctx)@.stack.drop_last().drop_last().push(
                    old(ctx)@.stack.last(),
                ).push(old(ctx)@.stack[old(ctx)@.stack.len() - 2])
            },
            Err(a) => {
                &&& a == Abort::StackUnderflow
                &&& final(ctx)@ == old(ctx)@
            },
        },
{
    let a = match ctx.pop_entry() {
        Ok(e) => e,
        Err(a) => {
            return Err(a);
        },
    };
    let b = match ctx.pop_entry() {
        Ok(e) => e,
        Err(er) => {
            ctx.push_entry(a);
            proof {
                assert(ctx@.stack =~= old(ctx)@.stack);
                assert(ctx@ =~= old(ctx)@);
            }
            return Err(er);
        },
    };
    ctx.push_entry(a);
    ctx.push_entry(b);
    proof {
        assert(final(ctx)@.stack =~= old(ctx)@.stack.drop_last().drop_last().push(
            old(ctx)@.stack.last(),
        ).push(old(ctx)@.stack[old(ctx)@.stack.len() - 2]));
    }
    Ok(())
}

/// Why wrapping the top raw record fails, or `None` when it is owed: an
/// empty suffix, or a managed container on top where a raw record is needed.
pub open spec fn spec_manage_abort(c: CtxV) -> Option<Abort> {
    if c.stack.len() <= spec_stack_base(c) {
        Some(Abort::StackUnderflow)
    } else {
        match c.stack.last() {
            EntryV::Raw { .. } => None,
            EntryV::Value(_) => Some(Abort::KindMismatch),
        }
    }
}

/// Wrap the top raw record into a fresh owned managed value with the same
/// type and bit-identical bytes.
pub fn eval_manage(ctx: &mut Context) -> (r: Result<(), Abort>)
    requires
        old(ctx).wf(),
    ensures
        final(ctx).wf(),
        final(ctx)@.registers == old(ctx)@.registers,
        final(ctx)@.frames == old(ctx)@.frames,
        final(ctx)@.finalized == old(ctx)@.finalized,
        r is Ok <==> spec_manage_abort(old(ctx)@) is None,
        r matches Err(a) ==> spec_manage_abort(old(ctx)@) == Some(a),
        match r {
            Ok(u) => {
                &&& old(ctx)@.stack.len() > spec_stack_base(old(ctx)@)
                &&& old(ctx)@.stack.last() matches EntryV::Raw { type_hash, bytes } && {
                    &&& final(ctx)@.cells == old(ctx)@.cells.push(
                        CellV {
                            type_hash,
                            body: Some(BodyV::Raw(bytes)),
                            alive: true,
                            shared: 0,
                            exclusive: false,
                            finalized: false,
                            boxed: false,
                            box_refs: 0,
                        },
                    )
                    &&& final(ctx)@.stack == old(ctx)@.stack.drop_last().push(
                        EntryV::Value(AnkhaValue::Owned { cell: old(ctx)@.cells.len() as usize }),
                    )
                }
            },
            Err(a) => final(ctx)@ == old(ctx)@,
        },
{
    let e = match ctx.pop_entry() {
        Ok(e) => e,
        Err(a) => {
            return Err(a);
        },
    };
    match e {
        StackEntry::Raw { type_hash, bytes } => {
            let cell = ctx.alloc_cell(type_hash, Some(Body::Raw(bytes)), false, 0);
            ctx.push_entry(StackEntry::Value(AnkhaValue::Owned { cell }));
            Ok(())
        },
        StackEntry::Value(v) => {
            ctx.push_entry(StackEntry::Value(v));
            proof {
                assert(ctx@.stack =~= old(ctx)@.stack);
                assert(ctx@ =~= old(ctx)@);
            }
            Err(Abort::KindMismatch)
        },
    }
}

/// Why unwrapping the top owned value fails, or `None` when it is owed: an
/// empty suffix, a record that is not an owned container, a dead token,
/// outstanding borrows, or a payload that is not plain bytes.
pub open spec fn spec_unmanage_abort(c: CtxV) -> Option<Abort> {
    if c.stack.len() <= spec_stack_base(c) {
        Some(Abort::StackUnderflow)
    } else {
        match c.stack.last() {
            EntryV::Raw { .. } => Some(Abort::KindMismatch),
            EntryV::Value(v) => match v {
                AnkhaValue::Owned { cell } => {
                    let cl = c.cells[cell as int];
                    if !cl.alive {
                        Some(Abort::DeadToken)
                    } else if cl.shared > 0 || cl.exclusive {
                        Some(Abort::BorrowViolation)
                    } else if !(cl.body matches Some(BodyV::Raw(_))) {
                        Some(Abort::ShapeMismatch)
                    } else {
                        None
                    }
                },
                _ => Some(Abort::KindMismatch),
            },
        }
    }
}

/// Unwrap the top owned managed value into a raw record with the same type
/// and bit-identical bytes. The token dies; no finalizer runs (the payload
/// moves into the record). Refused while borrows are outstanding.
pub fn eval_unmanage(ctx: &mut Context) -> (r: Result<(), Abort>)
    requires
        old(ctx).wf(),
    ensures
        final(ctx).wf(),
        final(ctx)@.registers == old(ctx)@.registers,
        final(ctx)@.frames == old(ctx)@.frames,
        final(ctx)@.finalized == old(ctx)@.finalized,
        r is Ok <==> spec_unmanage_abort(old(ctx)@) is None,
        r matches Err(a) ==> spec_unmanage_abort(old(ctx)@) == Some(a),
        match r {
            Ok(u) => {
                &&& old(ctx)@.stack.len() > spec_stack_base(old(ctx)@)
                &&& old(ctx)@.stack.last() matches EntryV::Value(AnkhaValue::Owned { cell }) && {
                    let c = old(ctx)@.cells[cell as int];
                    &&& c.alive
                    &&& c.shared == 0
                    &&& !c.exclusive
                    &&& c.body matches Some(BodyV::Raw(bytes)) && {
                        &&& final(ctx)@.cells == old(ctx)@.cells.update(
                            cell as int,
                            CellV { alive: false, body: None, ..c },
                        )
                        &&& final(ctx)@.stack == old(ctx)@.stack.drop_last().push(
                            EntryV::Raw { type_hash: c.type_hash, bytes },
                        )
                    }
                }
            },
            Err(a) => final(ctx)@ == old(ctx)@,
        },
{
    let e = match ctx.pop_entry() {
        Ok(e) => e,
        Err(a) => {
            return Err(a);
        },
    };
    let v = match e {
        StackEntry::Value(v) => v,
        StackEntry::Raw { type_hash, bytes } => {
            ctx.push_entry(StackEntry::Raw { type_hash, bytes });
            proof {
                assert(ctx@.stack =~= old(ctx)@.stack);
                assert(ctx@ =~= old(ctx)@);
            }
            return Err(Abort::KindMismatch);
        },
    };
    let cell = match v {
        AnkhaValue::Owned { cell } => cell,
        _ => {
            ctx.push_entry(StackEntry::Value(v));
            proof {
                assert(ctx@.stack =~= old(ctx)@.stack);
                assert(ctx@ =~= old(ctx)@);
            }
            return Err(Abort::KindMismatch);
        },
    };
    let abort = if !ctx.cells[cell].alive {
        Some(Abort::DeadToken)
    } else if ctx.cells[cell].shared > 0 || ctx.cells[cell].exclusive {
        Some(Abort::BorrowViolation)
    } else {
        None
    };
    if let Some(a) = abort {
        ctx.push_entry(StackEntry::Value(v));
        proof {
            assert(ctx@.stack =~= old(ctx)@.stack);
            assert(ctx@ =~= old(ctx)@);
        }
        return Err(a);
    }
    let bytes = match &ctx.cells[cell].body {
        Some(Body::Raw(bytes)) => bytes.clone(),
        _ => {
            ctx.push_entry(StackEntry::Value(v));
            proof {
                assert(ctx@.stack =~= old(ctx)@.stack);
                assert(ctx@ =~= old(ctx)@);
            }
            return Err(Abort::ShapeMismatch);
        },
    };
    let th = ctx.cells[cell].type_hash;
    let ghost pre = ctx@;
    ctx.cells[cell].alive = false;
    ctx.cells[cell].body = None;
    proof {
        crate::context::lemma_release_wf(pre, ctx@, cell as int);
        assert(ctx@.cells =~= old(ctx)@.cells.update(
            cell as int,
            CellV { alive: false, body: None, ..old(ctx)@.cells[cell as int] },
        ));
    }
    ctx.push_entry(StackEntry::Raw { type_hash: th, bytes });
    proof {
        assert(final(ctx)@.stack =~= old(ctx)@.stack.drop_last().push(
            final(ctx)@.stack.last(),
        ));
    }
    Ok(())
}

/// Why promoting the top owned value to a box fails, or `None` when it is
/// owed: an empty suffix, a record that is not an owned container, a dead
/// token, outstanding borrows, or a missing payload.
pub open spec fn spec_box_op_abort(c: CtxV) -> Option<Abort> {
    if c.stack.len() <= spec_stack_base(c) {
        Some(Abort::StackUnderflow)
    } else {
        match c.stack.last() {
            EntryV::Raw { .. } => Some(Abort::KindMismatch),
            EntryV::Value(v) => match v {
                AnkhaValue::Owned { cell } => {
                    let cl = c.cells[cell as int];
                    if !cl.alive {
                        Some(Abort::DeadToken)
                    } else if cl.shared > 0 || cl.exclusive {
                        Some(Abort::BorrowViolation)
                    } else if cl.body is None {
                        Some(Abort::InitializationError)
                    } else {
                        None
                    }
                },
                _ => Some(Abort::KindMismatch),
            },
        }
    }
}

/// Promote the top owned value to a box: a fresh reference-counted cell takes
/// the payload, the original token dies without a finalizer run. Refused
/// while borrows are outstanding.
pub fn eval_box(ctx: &mut Context) -> (r: Result<(), Abort>)
    requires
        old(ctx).wf(),
    ensures
        final(ctx).wf(),
        final(ctx)@.registers == old(ctx)@.registers,
        final(ctx)@.frames == old(ctx)@.frames,
        final(ctx)@.finalized == old(ctx)@.finalized,
        r is Ok <==> spec_box_op_abort(old(ctx)@) is None,
        r matches Err(a) ==> spec_box_op_abort(old(ctx)@) == Some(a),
        match r {
            Ok(u) => {
                &&& old(ctx)@.stack.len() > spec_stack_base(old(ctx)@)
                &&& old(ctx)@.stack.last() matches EntryV::Value(AnkhaValue::Owned { cell }) && {
                    let c = old(ctx)@.cells[cell as int];
                    &&& c.alive
                    &&& c.shared == 0
                    &&& !c.exclusive
                    &&& c.body is Some
                    &&& final(ctx)@.cells == old(ctx)@.cells.update(
                        cell as int,
                        CellV { alive: false, body: None, ..c },
                    ).push(
                        CellV {
                            type_hash: c.type_hash,
                            body: c.body,
                            alive: true,
                            shared: 0,
                            exclusive: false,
                            finalized: false,
                            boxed: true,
                            box_refs: 1,
                        },
                    )
                    &&& final(ctx)@.stack == old(ctx)@.stack.drop_last().push(
                        EntryV::Value(AnkhaValue::Box { cell: old(ctx)@.cells.len() as usize }),
                    )
                }
            },
            Err(a) => final(ctx)@ == old(ctx)@,
        },
{
    let e = match ctx.pop_entry() {
        Ok(e) => e,
        Err(a) => {
            return Err(a);
        },
    };
    let v = match e {
        StackEntry::Value(v) => v,
        StackEntry::Raw { type_hash, bytes } => {
            ctx.push_entry(StackEntry::Raw { type_hash, bytes });
            proof {
                assert(ctx@.stack =~= old(ctx)@.stack);
                assert(ctx@ =~= old(ctx)@);
            }
            return Err(Abort::KindMismatch);
        },
    };
    let cell = match v {
        AnkhaValue::Owned { cell } => cell,
        _ => {
            ctx.push_entry(StackEntry::Value(v));
            proof {
                assert(ctx@.stack =~= old(ctx)@.stack);
                assert(ctx@ =~= old(ctx)@);
            }
            return Err(Abort::KindMismatch);
        },
    };
    let abort = if !ctx.cells[cell].alive {
        Some(Abort::DeadToken)
    } else if ctx.cells[cell].shared > 0 || ctx.cells[cell].exclusive {
        Some(Abort::BorrowViolation)
    } else if ctx.cells[cell].body.is_none() {
        Some(Abort::InitializationError)
    } else {
        None
    };
    if let Some(a) = abort {
        ctx.push_entry(StackEntry::Value(v));
        proof {
            assert(ctx@.stack =~= old(ctx)@.stack);
            assert(ctx@ =~= old(ctx)@);
        }
        return Err(a);
    }
    let th = ctx.cells[cell].type_hash;
    let body = match &ctx.cells[cell].body {
        Some(b) => Some(b.duplicate()),
        None => None,
    };
    let ghost pre = ctx@;
    ctx.cells[cell].alive = false;
    ctx.cells[cell].body = None;
    proof {
        crate::context::lemma_release_wf(pre, ctx@, cell as int);
        assert(ctx@.cells =~= old(ctx)@.cells.update(
            cell as int,
            CellV { alive: false, body: None, ..old(ctx)@.cells[cell as int] },
        ));
        match &body {
            Some(b) => {
                assert(crate::context::cell_ok(old(ctx)@.cells[cell as int], old(ctx)@.cells.len()));
                assert(crate::context::body_ok(b@, ctx@.cells.len()));
            },
            None => {},
        }
    }
    let fresh = ctx.alloc_cell(th, body, true, 1);
    ctx.push_entry(StackEntry::Value(AnkhaValue::Box { cell: fresh }));
    proof {
        assert(final(ctx)@.stack =~= old(ctx)@.stack.drop_last().push(
            final(ctx)@.stack.last(),
        ));
    }
    Ok(())
}

/// Why cloning the top box fails, or `None` when the clone is owed: an empty
/// suffix, a record that is not a box, a dead box, or an exhausted reference
/// count.
pub open spec fn spec_duplicate_box_abort(c: CtxV) -> Option<Abort> {
    if c.stack.len() <= spec_stack_base(c) {
        Some(Abort::StackUnderflow)
    } else {
        match c.stack.last() {
            EntryV::Raw { .. } => Some(Abort::KindMismatch),
            EntryV::Value(v) => match v {
                AnkhaValue::Box { cell } => if c.cells[cell as int].box_refs == 0 {
                    Some(Abort::DeadToken)
                } else if c.cells[cell as int].box_refs == u64::MAX {
                    Some(Abort::Exhausted)
                } else {
                    None
                },
                _ => Some(Abort::KindMismatch),
            },
        }
    }
}

/// Clone the top box: the reference count increases by one; push the clone,
/// then the original on top of it.
pub fn eval_duplicate_box(ctx: &mut Context) -> (r: Result<(), Abort>)
    requires
        old(ctx).wf(),
    ensures
        final(ctx).wf(),
        final(ctx)@.registers == old(ctx)@.registers,
        final(ctx)@.frames == old(ctx)@.frames,
        final(ctx)@.finalized == old(ctx)@.finalized,
        r is Ok <==> spec_duplicate_box_abort(old(ctx)@) is None,
        r matches Err(a) ==> spec_duplicate_box_abort(old(ctx)@) == Some(a),
        match r {
            Ok(u) => {
                &&& old(ctx)@.stack.len() > spec_stack_base(old(ctx)@)
                &&& old(ctx)@.stack.last() matches EntryV::Value(AnkhaValue::Box { cell }) && {
                    let c = old(ctx)@.cells[cell as int];
                    &&& c.box_refs >= 1
                    &&& final(ctx)@.cells == old(ctx)@.cells.update(
                        cell as int,
                        CellV { box_refs: (c.box_refs + 1) as u64, ..c },
                    )
                    &&& final(ctx)@.stack == old(ctx)@.stack.drop_last().push(
                        EntryV::Value(AnkhaValue::Box { cell }),
                    ).push(EntryV::Value(AnkhaValue::Box { cell }))
                }
            },
            Err(a) => final(ctx)@ == old(ctx)@,
        },
{
    let e = match ctx.pop_entry() {
        Ok(e) => e,
        Err(a) => {
            return Err(a);
        },
    };
    let v = match e {
        StackEntry::Value(v) => v,
        StackEntry::Raw { type_hash, bytes } => {
            ctx.push_entry(StackEntry::Raw { type_hash, bytes });
            proof {
                assert(ctx@.stack =~= old(ctx)@.stack);
                assert(ctx@ =~= old(ctx)@);
            }
            return Err(Abort::KindMismatch);
        },
    };
    let cell = match v {
        AnkhaValue::Box { cell } => cell,
        _ => {
            ctx.push_entry(StackEntry::Value(v));
            proof {
                assert(ctx@.stack =~= old(ctx)@.stack);
                assert(ctx@ =~= old(ctx)@);
            }
            return Err(Abort::KindMismatch);
        },
    };
    let abort = if ctx.cells[cell].box_refs == 0 {
        Some(Abort::DeadToken)
    } else if ctx.cells[cell].box_refs == u64::MAX {
        Some(Abort::Exhausted)
    } else {
        None
    };
    if let Some(a) = abort {
        ctx.push_entry(StackEntry::Value(v));
        proof {
            assert(ctx@.stack =~= old(ctx)@.stack);
            assert(ctx@ =~= old(ctx)@);
        }
        return Err(a);
    }
    let n = ctx.cells[cell].box_refs;
    let ghost pre = ctx@;
    ctx.cells[cell].box_refs = n + 1;
    proof {
        crate::context::lemma_release_wf(pre, ctx@, cell as int);
        assert(ctx@.cells =~= old(ctx)@.cells.update(
            cell as int,
            CellV {
                box_refs: (old(ctx)@.cells[cell as int].box_refs + 1) as u64,
                ..old(ctx)@.cells[cell as int]
            },
        ));
    }
    ctx.push_entry(StackEntry::Value(AnkhaValue::Box { cell }));
    ctx.push_entry(StackEntry::Value(AnkhaValue::Box { cell }));
    proof {
        assert(final(ctx)@.stack =~= old(ctx)@.stack.drop_last().push(
            EntryV::Value(AnkhaValue::Box { cell }),
        ).push(EntryV::Value(AnkhaValue::Box { cell })));
    }
    Ok(())
}

/// What the destination of a payload write looks like: the place a mutable
/// target (an exclusive reference, a lazy handle, or for swaps a box)
/// addresses, and the type it advertises.
pub open spec fn spec_write_target(cells: Seq<CellV>, v: AnkhaValue, allow_box: bool) -> Option<
    (Place, TypeHash),
> {
    match v {
        AnkhaValue::RefMut { place, type_hash } => Some((place, type_hash)),
        AnkhaValue::Lazy { place, type_hash } => Some((place, type_hash)),
        AnkhaValue::Box { cell } => if allow_box {
            Some((Place { cell, field: None }, cells[cell as int].type_hash))
        } else {
            None
        },
        _ => None,
    }
}

/// What replacing the payload at a place does to the arena: the new arena and
/// the type whose finalizer ran on the displaced payload, if one was there.
/// Writing into a field slot takes raw bytes; everything else is a shape
/// mismatch.
pub open spec fn spec_write_place(cells: Seq<CellV>, place: Place, body: BodyV) -> Result<
    (Seq<CellV>, Option<TypeHash>),
    Abort,
> {
    let c = cells[place.cell as int];
    match place.field {
        None => Ok(
            (
                cells.update(place.cell as int, CellV { body: Some(body), ..c }),
                match c.body {
                    Some(_) => Some(c.type_hash),
                    None => None,
                },
            ),
        ),
        Some(i) => if !(body is Raw) {
            Err(Abort::ShapeMismatch)
        } else {
            match c.body {
                Some(BodyV::Fields(slots)) => if i < slots.len() {
                    match slots[i as int] {
                        SlotV::Raw { type_hash: slot_th, .. } => Ok(
                            (
                                cells.update(
                                    place.cell as int,
                                    CellV {
                                        body: Some(
                                            BodyV::Fields(
                                                slots.update(
                                                    i as int,
                                                    SlotV::Raw {
                                                        type_hash: slot_th,
                                                        bytes: body->Raw_0,
                                                    },
                                                ),
                                            ),
                                        ),
                                        ..c
                                    },
                                ),
                                Some(slot_th),
                            ),
                        ),
                        SlotV::Managed(_) => Err(Abort::ShapeMismatch),
                    }
                } else {
                    Err(Abort::ShapeMismatch)
                },
                _ => Err(Abort::ShapeMismatch),
            }
        },
    }
}

impl Context {
    /// Replace the payload at a whole-cell or field-slot place, exactly as
    /// [`spec_write_place`] describes. The caller has checked liveness and
    /// types; shape mismatches still abort.
    fn write_place(&mut self, place: Place, body: Body) -> (r: Result<Option<TypeHash>, Abort>)
        requires
            old(self).wf(),
            place.cell < old(self)@.cells.len(),
            old(self)@.cells[place.cell as int].alive,
            crate::context::body_ok(body@, old(self)@.cells.len()),
        ensures
            final(self).wf(),
            final(self)@.stack == old(self)@.stack,
            final(self)@.registers == old(self)@.registers,
            final(self)@.frames == old(self)@.frames,
            final(self)@.finalized == old(self)@.finalized,
            match r {
                Ok(dropped) => {
                    &&& spec_write_place(old(self)@.cells, place, body@) is Ok
                    &&& final(self)@.cells == spec_write_place(
                        old(self)@.cells,
                        place,
                        body@,
                    )->Ok_0.0
                    &&& dropped == spec_write_place(old(self)@.cells, place, body@)->Ok_0.1
                },
                Err(a) => {
                    &&& spec_write_place(old(self)@.cells, place, body@) == Err::<
                        (Seq<CellV>, Option<TypeHash>),
                        Abort,
                    >(a)
                    &&& final(self)@ == old(self)@
                },
            },
    {
        let c = place.cell;
        match place.field {
            None => {
                let dropped = if self.cells[c].body.is_some() {
                    Some(self.cells[c].type_hash)
                } else {
                    None
                };
                let ghost pre = self@;
                self.cells[c].body = Some(body);
                proof {
                    crate::context::lemma_release_wf(pre, self@, c as int);
                    assert(self@.cells =~= old(self)@.cells.update(
                        c as int,
                        CellV { body: Some(body@), ..old(self)@.cells[c as int] },
                    ));
                }
                Ok(dropped)
            },
            Some(i) => {
                let new_bytes = match body {
                    Body::Raw(bytes) => bytes,
                    _ => {
                        proof {
                            assert(final(self)@ =~= old(self)@);
                        }
                        return Err(Abort::ShapeMismatch);
                    },
                };
                let (mut slots, slot_th) = match &self.cells[c].body {
                    Some(Body::Fields(slots)) => {
                        if i >= slots.len() {
                            proof {
                                assert(final(self)@ =~= old(self)@);
                            }
                            return Err(Abort::ShapeMismatch);
                        }
                        match &slots[i] {
                            crate::value::Slot::Raw { type_hash, .. } => {
                                let ghost orig = self@.cells[c as int].body->Some_0;
                                (
                                    match &self.cells[c].body {
                                        Some(b) => match b.duplicate() {
                                            Body::Fields(s) => s,
                                            _ => {
                                                proof {
                                                    assert(final(self)@ =~= old(self)@);
                                                }
                                                return Err(Abort::ShapeMismatch);
                                            },
                                        },
                                        None => {
                                            proof {
                                                assert(final(self)@ =~= old(self)@);
                                            }
                                            return Err(Abort::ShapeMismatch);
                                        },
                                    },
                                    *type_hash,
                                )
                            },
                            crate::value::Slot::Managed(_) => {
                                proof {
                                    assert(final(self)@ =~= old(self)@);
                                }
                                return Err(Abort::ShapeMismatch);
                            },
                        }
                    },
                    _ => {
                        proof {
                            assert(final(self)@ =~= old(self)@);
                        }
                        return Err(Abort::ShapeMismatch);
                    },
                };
                slots[i] = crate::value::Slot::Raw { type_hash: slot_th, bytes: new_bytes };
                let ghost pre = self@;
                self.cells[c].body = Some(Body::Fields(slots));
                proof {
                    let csv = old(self)@.cells[c as int];
                    assert(self@.cells[c as int].body->Some_0->Fields_0 =~= csv.body
                        ->Some_0->Fields_0.update(
                        i as int,
                        SlotV::Raw { type_hash: slot_th, bytes: body@->Raw_0 },
                    ));
                    assert forall|k: int|
                        0 <= k < self@.cells[c as int].body->Some_0->Fields_0.len() implies crate::context::slot_ok(
                        #[trigger] self@.cells[c as int].body->Some_0->Fields_0[k],
                        self@.cells.len(),
                    ) by {
                        assert(crate::context::cell_ok(csv, old(self)@.cells.len()));
                        if k != i {
                            assert(crate::context::slot_ok(
                                csv.body->Some_0->Fields_0[k],
                                old(self)@.cells.len(),
                            ));
                        }
                    }
                    crate::context::lemma_release_wf(pre, self@, c as int);
                    assert(self@.cells =~= old(self)@.cells.update(
                        c as int,
                        CellV {
                            body: Some(
                                BodyV::Fields(
                                    csv.body->Some_0->Fields_0.update(
                                        i as int,
                                        SlotV::Raw { type_hash: slot_th, bytes: body@->Raw_0 },
                                    ),
                                ),
                            ),
                            ..csv
                        },
                    ));
                }
                Ok(Some(slot_th))
            },
        }
    }
}

/// The payload at a place, as a whole body: the cell's payload for a whole
/// place, the raw bytes for a field slot.
pub open spec fn spec_body_at(cells: Seq<CellV>, place: Place) -> Result<
    (TypeHash, BodyV),
    Abort,
> {
    let c = cells[place.cell as int];
    if !c.alive {
        Err(Abort::DeadToken)
    } else {
        match c.body {
            None => Err(Abort::InitializationError),
            Some(b) => match place.field {
                None => Ok((c.type_hash, b)),
                Some(i) => match b {
                    BodyV::Fields(slots) => if i < slots.len() {
                        match slots[i as int] {
                            SlotV::Raw { type_hash, bytes } => Ok((type_hash, BodyV::Raw(bytes))),
                            SlotV::Managed(_) => Err(Abort::ShapeMismatch),
                        }
                    } else {
                        Err(Abort::ShapeMismatch)
                    },
                    _ => Err(Abort::ShapeMismatch),
                },
            },
        }
    }
}

impl Context {
    /// Read the payload at a place, as [`spec_body_at`] describes.
    pub fn read_place_body(&self, place: Place) -> (r: Result<(TypeHash, Body), Abort>)
        requires
            self.wf(),
            place.cell < self@.cells.len(),
        ensures
            match r {
                Ok((th, b)) => {
                    &&& spec_body_at(self@.cells, place) == Ok::<(TypeHash, BodyV), Abort>(
                        (th, b@),
                    )
                    &&& crate::context::body_ok(b@, self@.cells.len())
                },
                Err(a) => spec_body_at(self@.cells, place) == Err::<(TypeHash, BodyV), Abort>(a),
            },
    {
        let c = &self.cells[place.cell];
        if !c.alive {
            return Err(Abort::DeadToken);
        }
        match &c.body {
            None => Err(Abort::InitializationError),
            Some(b) => match place.field {
                None => {
                    proof {
                        assert(crate::context::cell_ok(
                            self@.cells[place.cell as int],
                            self@.cells.len(),
                        ));
                    }
                    Ok((c.type_hash, b.duplicate()))
                },
                Some(i) => match b {
                    Body::Fields(slots) => {
                        if i < slots.len() {
                            match &slots[i] {
                                crate::value::Slot::Raw { type_hash, bytes } => Ok(
                                    (*type_hash, Body::Raw(crate::value::clone_bytes(bytes))),
                                ),
                                crate::value::Slot::Managed(_) => Err(Abort::ShapeMismatch),
                            }
                        } else {
                            Err(Abort::ShapeMismatch)
                        }
                    },
                    _ => Err(Abort::ShapeMismatch),
                },
            },
        }
    }
}

/// Why moving the top owned value into the target beneath it fails, or
/// `None` when the move is owed: missing or wrongly-kinded operands, a dead
/// or borrowed or empty source, a type mismatch with the target, a target
/// place inside the source itself, an unwritable target, or a non-byte
/// payload headed for a field slot.
pub open spec fn spec_move_into_abort(c: CtxV) -> Option<Abort> {
    if c.stack.len() <= spec_stack_base(c) {
        Some(Abort::StackUnderflow)
    } else {
        match c.stack.last() {
            EntryV::Value(AnkhaValue::Owned { cell: cs }) => {
                if c.stack.len() <= spec_stack_base(c) + 1 {
                    Some(Abort::StackUnderflow)
                } else {
                    match c.stack[c.stack.len() - 2] {
                        EntryV::Raw { .. } => Some(Abort::KindMismatch),
                        EntryV::Value(vt) => match spec_write_target(c.cells, vt, false) {
                            None => Some(Abort::KindMismatch),
                            Some((place, th)) => {
                                let cl = c.cells[cs as int];
                                if !cl.alive {
                                    Some(Abort::DeadToken)
                                } else if cl.shared > 0 || cl.exclusive {
                                    Some(Abort::BorrowViolation)
                                } else if cl.body is None {
                                    Some(Abort::InitializationError)
                                } else if cl.type_hash != th {
                                    Some(Abort::TypeMismatch)
                                } else if place.cell == cs {
                                    Some(Abort::BorrowViolation)
                                } else {
                                    match spec_body_at(c.cells, place) {
                                        Err(a) => Some(a),
                                        Ok((tth, _)) => if tth != th {
                                            Some(Abort::TypeMismatch)
                                        } else if place.field is Some && !(cl.body matches Some(
                                            BodyV::Raw(_),
                                        )) {
                                            Some(Abort::ShapeMismatch)
                                        } else {
                                            None
                                        },
                                    }
                                }
                            },
                        },
                    }
                }
            },
            _ => Some(Abort::KindMismatch),
        }
    }
}

/// Pop an owned value, then a mutable target (exclusive reference or lazy);
/// drop the target's payload (its finalizer runs), move the owned payload in,
/// and retire the owned token without a finalizer run. The target handle is
/// consumed, giving its borrow back.
#[verifier::rlimit(100)]
#[verifier::spinoff_prover]
pub fn eval_move_into(ctx: &mut Context) -> (r: Result<(), Abort>)
    requires
        old(ctx).wf(),
    ensures
        final(ctx).wf(),
        final(ctx)@.registers == old(ctx)@.registers,
        final(ctx)@.frames == old(ctx)@.frames,
        r is Ok <==> spec_move_into_abort(old(ctx)@) is None,
        r matches Err(a) ==> spec_move_into_abort(old(ctx)@) == Some(a),
        match r {
            Ok(u) => {
                &&& old(ctx)@.stack.len() >= spec_stack_base(old(ctx)@) + 2
                &&& old(ctx)@.stack.last() matches EntryV::Value(AnkhaValue::Owned { cell: cs })
                &&& old(ctx)@.stack[old(ctx)@.stack.len() - 2] matches EntryV::Value(vt)
                    && spec_write_target(old(ctx)@.cells, vt, false) matches Some((place, th)) && {
                    let cso = old(ctx)@.cells[old(ctx)@.stack.last()->Value_0->Owned_cell as int];
                    let cs = old(ctx)@.stack.last()->Value_0->Owned_cell;
                    let cells1 = old(ctx)@.cells.update(
                        cs as int,
                        CellV { alive: false, body: None, ..cso },
                    );
                    &&& cso.alive
                    &&& cso.shared == 0
                    &&& !cso.exclusive
                    &&& cso.body is Some
                    &&& cso.type_hash == th
                    &&& old(ctx)@.cells[place.cell as int].alive
                    &&& spec_write_place(cells1, place, cso.body->Some_0) is Ok
                    &&& spec_release(
                        spec_write_place(cells1, place, cso.body->Some_0)->Ok_0.0,
                        vt,
                    ) is Ok
                    &&& final(ctx)@.cells == spec_release(
                        spec_write_place(cells1, place, cso.body->Some_0)->Ok_0.0,
                        vt,
                    )->Ok_0.0
                    &&& final(ctx)@.stack == old(ctx)@.stack.drop_last().drop_last()
                    &&& final(ctx)@.finalized == old(ctx)@.finalized + (match spec_write_place(
                        cells1,
                        place,
                        cso.body->Some_0,
                    )->Ok_0.1 {
                        Some(t) => seq![t],
                        None => Seq::empty(),
                    })
                }
            },
            Err(a) => final(ctx)@ == old(ctx)@,
        },
{
    let se = match ctx.pop_entry() {
        Ok(e) => e,
        Err(a) => {
            return Err(a);
        },
    };
    let cs = match se {
        StackEntry::Value(AnkhaValue::Owned { cell }) => cell,
        _ => {
            ctx.push_entry(se);
            proof {
                assert(ctx@.stack =~= old(ctx)@.stack);
                assert(ctx@ =~= old(ctx)@);
            }
            return Err(Abort::KindMismatch);
        },
    };
    let te = match ctx.pop_entry() {
        Ok(e) => e,
        Err(a) => {
            ctx.push_entry(StackEntry::Value(AnkhaValue::Owned { cell: cs }));
            proof {
                assert(ctx@.stack =~= old(ctx)@.stack);
                assert(ctx@ =~= old(ctx)@);
            }
            return Err(a);
        },
    };
    let vt = match te {
        StackEntry::Value(v) => v,
        StackEntry::Raw { type_hash, bytes } => {
            ctx.push_entry(StackEntry::Raw { type_hash, bytes });
            ctx.push_entry(StackEntry::Value(AnkhaValue::Owned { cell: cs }));
            proof {
                assert(ctx@.stack =~= old(ctx)@.stack);
                assert(ctx@ =~= old(ctx)@);
            }
            return Err(Abort::KindMismatch);
        },
    };
    let (place, th) = match vt {
        AnkhaValue::RefMut { place, type_hash } => (place, type_hash),
        AnkhaValue::Lazy { place, type_hash } => (place, type_hash),
        _ => {
            ctx.push_entry(StackEntry::Value(vt));
            ctx.push_entry(StackEntry::Value(AnkhaValue::Owned { cell: cs }));
            proof {
                assert(ctx@.stack =~= old(ctx)@.stack);
                assert(ctx@ =~= old(ctx)@);
            }
            return Err(Abort::KindMismatch);
        },
    };
    let target_check = ctx.read_place_body(place);
    let abort = if !ctx.cells[cs].alive {
        Some(Abort::DeadToken)
    } else if ctx.cells[cs].shared > 0 || ctx.cells[cs].exclusive {
        Some(Abort::BorrowViolation)
    } else if ctx.cells[cs].body.is_none() {
        Some(Abort::InitializationError)
    } else if ctx.cells[cs].type_hash != th {
        Some(Abort::TypeMismatch)
    } else if place.cell == cs {
        // a value cannot be moved into a place inside itself
        Some(Abort::BorrowViolation)
    } else {
        match &target_check {
            Err(a) => Some(*a),
            Ok((tth, _)) => if *tth != th {
                Some(Abort::TypeMismatch)
            } else {
                None
            },
        }
    };
    if let Some(a) = abort {
        ctx.push_entry(StackEntry::Value(vt));
        ctx.push_entry(StackEntry::Value(AnkhaValue::Owned { cell: cs }));
        proof {
            assert(ctx@.stack =~= old(ctx)@.stack);
            assert(ctx@ =~= old(ctx)@);
        }
        return Err(a);
    }
    let body = match &ctx.cells[cs].body {
        Some(b) => b.duplicate(),
        None => {
            ctx.push_entry(StackEntry::Value(vt));
            ctx.push_entry(StackEntry::Value(AnkhaValue::Owned { cell: cs }));
            proof {
                assert(ctx@.stack =~= old(ctx)@.stack);
                assert(ctx@ =~= old(ctx)@);
            }
            return Err(Abort::InitializationError);
        },
    };
    if place.field.is_some() && !(matches!(body, Body::Raw(_))) {
        ctx.push_entry(StackEntry::Value(vt));
        ctx.push_entry(StackEntry::Value(AnkhaValue::Owned { cell: cs }));
        proof {
            assert(ctx@.stack =~= old(ctx)@.stack);
            assert(ctx@ =~= old(ctx)@);
        }
        return Err(Abort::ShapeMismatch);
    }
    let ghost pre_kill = ctx@;
    ctx.cells[cs].alive = false;
    ctx.cells[cs].body = None;
    proof {
        crate::context::lemma_release_wf(pre_kill, ctx@, cs as int);
        assert(ctx@.cells =~= old(ctx)@.cells.update(
            cs as int,
            CellV { alive: false, body: None, ..old(ctx)@.cells[cs as int] },
        ));
        assert(crate::context::cell_ok(old(ctx)@.cells[cs as int], old(ctx)@.cells.len()));
        assert(spec_write_place(ctx@.cells, place, body@) is Ok);
    }
    let dropped = match ctx.write_place(place, body) {
        Ok(d) => d,
        Err(a) => {
            proof {
                assert(false);
            }
            return Err(a);
        },
    };
    if let Some(t) = dropped {
        ctx.finalized.push(t);
    }
    let rr = ctx.release_value(vt);
    proof {
        match rr {
            Ok(u) => {},
            Err(_) => {
                // releasing an exclusive or lazy handle never fails
                assert(false);
            },
        }
        match dropped {
            Some(t) => {
                assert(final(ctx)@.finalized =~= old(ctx)@.finalized + seq![t]);
            },
            None => {
                assert(final(ctx)@.finalized =~= old(ctx)@.finalized + Seq::<TypeHash>::empty());
            },
        }
    }
    Ok(())
}

/// Why swapping the top owned value's payload with the target beneath it
/// fails, or `None` when the swap is owed: missing or wrongly-kinded
/// operands, a dead or empty source, a type mismatch, a target place inside
/// the source, an unreadable target, a last box handle with outstanding
/// borrows (its release after the swap would fail fast), or a non-byte
/// payload headed for a field slot.
pub open spec fn spec_swap_in_abort(c: CtxV) -> Option<Abort> {
    if c.stack.len() <= spec_stack_base(c) {
        Some(Abort::StackUnderflow)
    } else {
        match c.stack.last() {
            EntryV::Value(AnkhaValue::Owned { cell: cs }) => {
                if c.stack.len() <= spec_stack_base(c) + 1 {
                    Some(Abort::StackUnderflow)
                } else {
                    match c.stack[c.stack.len() - 2] {
                        EntryV::Raw { .. } => Some(Abort::KindMismatch),
                        EntryV::Value(vt) => match spec_write_target(c.cells, vt, true) {
                            None => Some(Abort::KindMismatch),
                            Some((place, th)) => {
                                let cl = c.cells[cs as int];
                                if !cl.alive {
                                    Some(Abort::DeadToken)
                                } else if cl.body is None {
                                    Some(Abort::InitializationError)
                                } else if cl.type_hash != th {
                                    Some(Abort::TypeMismatch)
                                } else if place.cell == cs {
                                    Some(Abort::BorrowViolation)
                                } else {
                                    match spec_body_at(c.cells, place) {
                                        Err(a) => Some(a),
                                        Ok((tth, _)) => if tth != th {
                                            Some(Abort::TypeMismatch)
                                        } else {
                                            match vt {
                                                AnkhaValue::Box { cell: bc } => {
                                                    let bl = c.cells[bc as int];
                                                    if bl.box_refs == 0 {
                                                        Some(Abort::DeadToken)
                                                    } else if bl.box_refs == 1 && (bl.shared > 0
                                                        || bl.exclusive) {
                                                        Some(Abort::BorrowViolation)
                                                    } else if place.field is Some && !(cl.body
                                                        matches Some(BodyV::Raw(_))) {
                                                        Some(Abort::ShapeMismatch)
                                                    } else {
                                                        None
                                                    }
                                                },
                                                _ => if place.field is Some && !(cl.body matches Some(
                                                    BodyV::Raw(_),
                                                )) {
                                                    Some(Abort::ShapeMismatch)
                                                } else {
                                                    None
                                                },
                                            }
                                        },
                                    }
                                }
                            },
                        },
                    }
                }
            },
            _ => Some(Abort::KindMismatch),
        }
    }
}

/// Pop an owned value, then a mutable target (exclusive reference, lazy or
/// box) of the same type; exchange their payloads. Neither payload is
/// dropped: no finalizer runs for the swap itself. The owned value, now
/// holding the target's old payload, is pushed back; the target handle is
/// consumed. A consumed box handle gives its reference back — when it was the
/// box's last reference, that release finalizes the box, which by then holds
/// the source's old payload.
#[verifier::rlimit(100)]
#[verifier::spinoff_prover]
pub fn eval_swap_in(ctx: &mut Context) -> (r: Result<(), Abort>)
    requires
        old(ctx).wf(),
    ensures
        final(ctx).wf(),
        final(ctx)@.registers == old(ctx)@.registers,
        final(ctx)@.frames == old(ctx)@.frames,
        r is Ok <==> spec_swap_in_abort(old(ctx)@) is None,
        r matches Err(a) ==> spec_swap_in_abort(old(ctx)@) == Some(a),
        match r {
            Ok(u) => {
                &&& old(ctx)@.stack.len() >= spec_stack_base(old(ctx)@) + 2
                &&& old(ctx)@.stack.last() matches EntryV::Value(AnkhaValue::Owned { cell: cs })
                &&& old(ctx)@.stack[old(ctx)@.stack.len() - 2] matches EntryV::Value(vt)
                    && spec_write_target(old(ctx)@.cells, vt, true) matches Some((place, th)) && {
                    let cs = old(ctx)@.stack.last()->Value_0->Owned_cell;
                    let cso = old(ctx)@.cells[cs as int];
                    let tmp = spec_body_at(old(ctx)@.cells, place)->Ok_0.1;
                    let cells1 = spec_write_place(old(ctx)@.cells, place, cso.body->Some_0)->Ok_0.0;
                    let cells2 = cells1.update(
                        cs as int,
                        CellV { body: Some(tmp), ..cells1[cs as int] },
                    );
                    &&& cso.alive
                    &&& cso.body is Some
                    &&& cso.type_hash == th
                    &&& place.cell != cs
                    &&& spec_body_at(old(ctx)@.cells, place) is Ok
                    &&& spec_write_place(old(ctx)@.cells, place, cso.body->Some_0) is Ok
                    &&& spec_release(cells2, vt) is Ok
                    &&& final(ctx)@.cells == spec_release(cells2, vt)->Ok_0.0
                    &&& final(ctx)@.finalized == old(ctx)@.finalized + spec_release(
                        cells2,
                        vt,
                    )->Ok_0.1
                    &&& final(ctx)@.stack == old(ctx)@.stack.drop_last().drop_last().push(
                        EntryV::Value(AnkhaValue::Owned { cell: cs }),
                    )
                }
            },
            Err(a) => final(ctx)@ == old(ctx)@,
        },
{
    let se = match ctx.pop_entry() {
        Ok(e) => e,
        Err(a) => {
            return Err(a);
        },
    };
    let cs = match se {
        StackEntry::Value(AnkhaValue::Owned { cell }) => cell,
        _ => {
            ctx.push_entry(se);
            proof {
                assert(ctx@.stack =~= old(ctx)@.stack);
                assert(ctx@ =~= old(ctx)@);
            }
            return Err(Abort::KindMismatch);
        },
    };
    let te = match ctx.pop_entry() {
        Ok(e) => e,
        Err(a) => {
            ctx.push_entry(StackEntry::Value(AnkhaValue::Owned { cell: cs }));
            proof {
                assert(ctx@.stack =~= old(ctx)@.stack);
                assert(ctx@ =~= old(ctx)@);
            }
            return Err(a);
        },
    };
    let vt = match te {
        StackEntry::Value(v) => v,
        StackEntry::Raw { type_hash, bytes } => {
            ctx.push_entry(StackEntry::Raw { type_hash, bytes });
            ctx.push_entry(StackEntry::Value(AnkhaValue::Owned { cell: cs }));
            proof {
                assert(ctx@.stack =~= old(ctx)@.stack);
                assert(ctx@ =~= old(ctx)@);
            }
            return Err(Abort::KindMismatch);
        },
    };
    let (place, th) = match vt {
        AnkhaValue::RefMut { place, type_hash } => (place, type_hash),
        AnkhaValue::Lazy { place, type_hash } => (place, type_hash),
        AnkhaValue::Box { cell } => (
            Place { cell, field: None },
            ctx.cells[cell].type_hash,
        ),
        _ => {
            ctx.push_entry(StackEntry::Value(vt));
            ctx.push_entry(StackEntry::Value(AnkhaValue::Owned { cell: cs }));
            proof {
                assert(ctx@.stack =~= old(ctx)@.stack);
                assert(ctx@ =~= old(ctx)@);
            }
            return Err(Abort::KindMismatch);
        },
    };
    let target_check = ctx.read_place_body(place);
    let abort = if !ctx.cells[cs].alive {
        Some(Abort::DeadToken)
    } else if ctx.cells[cs].body.is_none() {
        Some(Abort::InitializationError)
    } else if ctx.cells[cs].type_hash != th {
        Some(Abort::TypeMismatch)
    } else if place.cell == cs {
        // a value cannot swap with a place inside itself
        Some(Abort::BorrowViolation)
    } else {
        match &target_check {
            Err(a) => Some(*a),
            Ok((tth, _)) => if *tth != th {
                Some(Abort::TypeMismatch)
            } else {
                // consuming the target handle must be possible: the last box
                // reference cannot leave while borrows are outstanding
                match vt {
                    AnkhaValue::Box { cell } => if ctx.cells[cell].box_refs == 0 {
                        Some(Abort::DeadToken)
                    } else if ctx.cells[cell].box_refs == 1 && (ctx.cells[cell].shared > 0
                        || ctx.cells[cell].exclusive) {
                        Some(Abort::BorrowViolation)
                    } else {
                        None
                    },
                    _ => None,
                }
            },
        }
    };
    if let Some(a) = abort {
        ctx.push_entry(StackEntry::Value(vt));
        ctx.push_entry(StackEntry::Value(AnkhaValue::Owned { cell: cs }));
        proof {
            assert(ctx@.stack =~= old(ctx)@.stack);
            assert(ctx@ =~= old(ctx)@);
        }
        return Err(a);
    }
    let tmp = match target_check {
        Ok((_, b)) => b,
        Err(a) => {
            proof {
                assert(false);
            }
            return Err(a);
        },
    };
    let body = match &ctx.cells[cs].body {
        Some(b) => b.duplicate(),
        None => {
            proof {
                assert(false);
            }
            return Err(Abort::InitializationError);
        },
    };
    if place.field.is_some() && !(matches!(body, Body::Raw(_))) {
        ctx.push_entry(StackEntry::Value(vt));
        ctx.push_entry(StackEntry::Value(AnkhaValue::Owned { cell: cs }));
        proof {
            assert(ctx@.stack =~= old(ctx)@.stack);
            assert(ctx@ =~= old(ctx)@);
        }
        return Err(Abort::ShapeMismatch);
    }
    proof {
        assert(spec_write_place(ctx@.cells, place, body@) is Ok);
    }
    match ctx.write_place(place, body) {
        Ok(d) => d,
        Err(a) => {
            proof {
                assert(false);
            }
            return Err(a);
        },
    };
    let ghost pre_src = ctx@;
    let ghost tmpv = tmp@;
    ctx.cells[cs].body = Some(tmp);
    proof {
        crate::context::lemma_release_wf(pre_src, ctx@, cs as int);
        assert(ctx@.cells =~= pre_src.cells.update(
            cs as int,
            CellV { body: Some(tmpv), ..pre_src.cells[cs as int] },
        ));
    }
    let rr = ctx.release_value(vt);
    let a = match rr {
        Ok(u) => u,
        Err(a) => {
            proof {
                // releasing an exclusive, lazy or live box handle after the
                // swap cannot report a dead token, and the box's counters
                // were untouched
                assert(false);
            }
            return Err(a);
        },
    };
    ctx.push_entry(StackEntry::Value(AnkhaValue::Owned { cell: cs }));
    proof {
        assert(final(ctx)@.stack =~= old(ctx)@.stack.drop_last().drop_last().push(
            EntryV::Value(AnkhaValue::Owned { cell: cs }),
        ));
    }
    Ok(())
}

/// Why duplicating the top owned value fails, or `None` when the copy is
/// owed: an empty suffix, a record that is not an owned container, a dead
/// token, an unregistered or not copy-capable type, or a missing payload.
pub open spec fn spec_copy_abort(c: CtxV, types: Seq<crate::registry::TypeDef>) -> Option<Abort> {
    if c.stack.len() <= spec_stack_base(c) {
        Some(Abort::StackUnderflow)
    } else {
        match c.stack.last() {
            EntryV::Raw { .. } => Some(Abort::KindMismatch),
            EntryV::Value(v) => match v {
                AnkhaValue::Owned { cell } => {
                    let cl = c.cells[cell as int];
                    if !cl.alive {
                        Some(Abort::DeadToken)
                    } else {
                        match Registry::spec_find_type_by_hash(types, cl.type_hash) {
                            None => Some(Abort::RegistryMiss),
                            Some(ti) => if !types[ti].is_copy {
                                Some(Abort::TypeMismatch)
                            } else if cl.body is None {
                                Some(Abort::InitializationError)
                            } else {
                                None
                            },
                        }
                    }
                },
                _ => Some(Abort::KindMismatch),
            },
        }
    }
}

/// Duplicate the top owned value: push the original back, then a fresh owned
/// bitwise copy of its payload on top. The payload's type must be registered
/// and copy-capable. A struct payload is copied slot for slot, container
/// handles included, exactly as a bitwise copy duplicates them.
pub fn eval_copy(ctx: &mut Context, reg: &Registry) -> (r: Result<(), Abort>)
    requires
        old(ctx).wf(),
    ensures
        final(ctx).wf(),
        final(ctx)@.registers == old(ctx)@.registers,
        final(ctx)@.frames == old(ctx)@.frames,
        final(ctx)@.finalized == old(ctx)@.finalized,
        r is Ok <==> spec_copy_abort(old(ctx)@, reg.types@) is None,
        r matches Err(a) ==> spec_copy_abort(old(ctx)@, reg.types@) == Some(a),
        match r {
            Ok(u) => {
                &&& old(ctx)@.stack.len() > spec_stack_base(old(ctx)@)
                &&& old(ctx)@.stack.last() matches EntryV::Value(AnkhaValue::Owned { cell }) && {
                    let c = old(ctx)@.cells[cell as int];
                    &&& c.alive
                    &&& c.body is Some
                    &&& final(ctx)@.cells == old(ctx)@.cells.push(
                        CellV {
                            type_hash: c.type_hash,
                            body: c.body,
                            alive: true,
                            shared: 0,
                            exclusive: false,
                            finalized: false,
                            boxed: false,
                            box_refs: 0,
                        },
                    )
                    &&& final(ctx)@.stack == old(ctx)@.stack.drop_last().push(
                        EntryV::Value(AnkhaValue::Owned { cell }),
                    ).push(EntryV::Value(AnkhaValue::Owned { cell: old(ctx)@.cells.len() as usize }))
                }
            },
            Err(a) => final(ctx)@ == old(ctx)@,
        },
{
    let e = match ctx.pop_entry() {
        Ok(e) => e,
        Err(a) => {
            return Err(a);
        },
    };
    let cell = match e {
        StackEntry::Value(AnkhaValue::Owned { cell }) => cell,
        _ => {
            ctx.push_entry(e);
            proof {
                assert(ctx@.stack =~= old(ctx)@.stack);
                assert(ctx@ =~= old(ctx)@);
            }
            return Err(Abort::KindMismatch);
        },
    };
    let th = ctx.cells[cell].type_hash;
    let abort = if !ctx.cells[cell].alive {
        Some(Abort::DeadToken)
    } else {
        match reg.find_type_by_hash(th) {
            None => Some(Abort::RegistryMiss),
            Some((_, t)) => if !t.is_copy {
                Some(Abort::TypeMismatch)
            } else {
                None
            },
        }
    };
    if let Some(a) = abort {
        ctx.push_entry(StackEntry::Value(AnkhaValue::Owned { cell }));
        proof {
            assert(ctx@.stack =~= old(ctx)@.stack);
            assert(ctx@ =~= old(ctx)@);
        }
        return Err(a);
    }
    let body = match &ctx.cells[cell].body {
        Some(b) => b.duplicate(),
        None => {
            ctx.push_entry(StackEntry::Value(AnkhaValue::Owned { cell }));
            proof {
                assert(ctx@.stack =~= old(ctx)@.stack);
                assert(ctx@ =~= old(ctx)@);
            }
            return Err(Abort::InitializationError);
        },
    };
    proof {
        assert(crate::context::cell_ok(ctx@.cells[cell as int], ctx@.cells.len()));
    }
    let fresh = ctx.alloc_cell(th, Some(body), false, 0);
    ctx.push_entry(StackEntry::Value(AnkhaValue::Owned { cell }));
    ctx.push_entry(StackEntry::Value(AnkhaValue::Owned { cell: fresh }));
    proof {
        assert(final(ctx)@.stack =~= old(ctx)@.stack.drop_last().push(
            EntryV::Value(AnkhaValue::Owned { cell }),
        ).push(EntryV::Value(AnkhaValue::Owned { cell: fresh })));
    }
    Ok(())
}

/// Why copying out of the top reference-like value fails, or `None` when the
/// copy is owed: an empty suffix, a raw record or an owned container on top,
/// an unreadable referent, an unregistered or not copy-capable type, or a
/// faulting release of the consumed handle.
pub open spec fn spec_copy_from_abort(c: CtxV, types: Seq<crate::registry::TypeDef>) -> Option<
    Abort,
> {
    if c.stack.len() <= spec_stack_base(c) {
        Some(Abort::StackUnderflow)
    } else {
        match c.stack.last() {
            EntryV::Raw { .. } => Some(Abort::KindMismatch),
            EntryV::Value(v) => if v is Owned {
                Some(Abort::KindMismatch)
            } else {
                match spec_body_at(c.cells, spec_value_target(v)) {
                    Err(a) => Some(a),
                    Ok((th, _)) => match Registry::spec_find_type_by_hash(types, th) {
                        None => Some(Abort::RegistryMiss),
                        Some(ti) => if !types[ti].is_copy {
                            Some(Abort::TypeMismatch)
                        } else {
                            match spec_release(c.cells, v) {
                                Err(a) => Some(a),
                                Ok(_) => None,
                            }
                        },
                    },
                }
            },
        }
    }
}

/// Pop a reference-like value and push a fresh owned bitwise copy of the
/// payload it addresses. The popped handle is consumed (its borrow is given
/// back; a consumed box handle gives its reference back). The addressed type
/// must be registered and copy-capable; a struct payload is copied slot for
/// slot, container handles included.
pub fn eval_copy_from(ctx: &mut Context, reg: &Registry) -> (r: Result<(), Abort>)
    requires
        old(ctx).wf(),
    ensures
        final(ctx).wf(),
        final(ctx)@.registers == old(ctx)@.registers,
        final(ctx)@.frames == old(ctx)@.frames,
        r is Ok <==> spec_copy_from_abort(old(ctx)@, reg.types@) is None,
        r matches Err(a) ==> spec_copy_from_abort(old(ctx)@, reg.types@) == Some(a),
        match r {
            Ok(u) => {
                &&& old(ctx)@.stack.len() > spec_stack_base(old(ctx)@)
                &&& old(ctx)@.stack.last() matches EntryV::Value(v) && {
                    let data = spec_body_at(old(ctx)@.cells, spec_value_target(v));
                    &&& !(v is Owned)
                    &&& data matches Ok((th, b)) && {
                        &&& spec_release(old(ctx)@.cells, v) is Ok
                        &&& final(ctx)@.cells == spec_release(old(ctx)@.cells, v)->Ok_0.0.push(
                            CellV {
                                type_hash: th,
                                body: Some(b),
                                alive: true,
                                shared: 0,
                                exclusive: false,
                                finalized: false,
                                boxed: false,
                                box_refs: 0,
                            },
                        )
                        &&& final(ctx)@.finalized == old(ctx)@.finalized + spec_release(
                            old(ctx)@.cells,
                            v,
                        )->Ok_0.1
                        &&& final(ctx)@.stack == old(ctx)@.stack.drop_last().push(
                            EntryV::Value(
                                AnkhaValue::Owned { cell: old(ctx)@.cells.len() as usize },
                            ),
                        )
                    }
                }
            },
            Err(a) => final(ctx)@ == old(ctx)@,
        },
{
    let e = match ctx.pop_entry() {
        Ok(e) => e,
        Err(a) => {
            return Err(a);
        },
    };
    let v = match e {
        StackEntry::Value(v) => v,
        StackEntry::Raw { type_hash, bytes } => {
            ctx.push_entry(StackEntry::Raw { type_hash, bytes });
            proof {
                assert(ctx@.stack =~= old(ctx)@.stack);
                assert(ctx@ =~= old(ctx)@);
            }
            return Err(Abort::KindMismatch);
        },
    };
    if let AnkhaValue::Owned { .. } = v {
        ctx.push_entry(StackEntry::Value(v));
        proof {
            assert(ctx@.stack =~= old(ctx)@.stack);
            assert(ctx@ =~= old(ctx)@);
        }
        return Err(Abort::KindMismatch);
    }
    let place = value_target(&v);
    let (th, body) = match ctx.read_place_body(place) {
        Ok(p) => p,
        Err(a) => {
            ctx.push_entry(StackEntry::Value(v));
            proof {
                assert(ctx@.stack =~= old(ctx)@.stack);
                assert(ctx@ =~= old(ctx)@);
            }
            return Err(a);
        },
    };
    let abort = match reg.find_type_by_hash(th) {
        None => Some(Abort::RegistryMiss),
        Some((_, t)) => if !t.is_copy {
            Some(Abort::TypeMismatch)
        } else {
            None
        },
    };
    if let Some(a) = abort {
        ctx.push_entry(StackEntry::Value(v));
        proof {
            assert(ctx@.stack =~= old(ctx)@.stack);
            assert(ctx@ =~= old(ctx)@);
        }
        return Err(a);
    }
    match ctx.release_value(v) {
        Ok(u) => {},
        Err(a) => {
            ctx.push_entry(StackEntry::Value(v));
            proof {
                assert(ctx@.stack =~= old(ctx)@.stack);
                assert(ctx@ =~= old(ctx)@);
            }
            return Err(a);
        },
    }
    let fresh = ctx.alloc_cell(th, Some(body), false, 0);
    ctx.push_entry(StackEntry::Value(AnkhaValue::Owned { cell: fresh }));
    proof {
        assert(final(ctx)@.stack =~= old(ctx)@.stack.drop_last().push(
            EntryV::Value(AnkhaValue::Owned { cell: fresh }),
        ));
    }
    Ok(())
}

} // verus!
