//! Building and taking apart struct values.
//!
//! `Structure` allocates a fresh owned struct of a queried type, popping one
//! managed value per listed field into the matching slots and filling the
//! rest from the type's declared defaults. `Destructure` consumes an owned
//! struct and pushes the managed containers of the listed fields, in reverse
//! listed order, so that popping yields them in listed order.

use vstd::prelude::*;
use crate::abort::Abort;
use crate::context::{spec_stack_base, Context, CtxV};
use crate::kind::{AnkhaValueKind, TypeHash, TH_UNIT};
use crate::literal::AnkhaLiteral;
use crate::registry::{
    AnkhaFieldQuery, AnkhaTypeQuery, FieldDef, FieldInit, Registry, TypeDef, TypeShape,
    spec_find_field, find_field,
};
use crate::value::{AnkhaValue, Body, BodyV, CellV, EntryV, Slot, SlotV, StackEntry};

verus! {

/// The name-only field query a field list is searched with.
pub open spec fn spec_name_query(name: String) -> AnkhaFieldQuery {
    AnkhaFieldQuery { name, kind: AnkhaValueKind::Any, type_hash: None, visibility: None }
}

/// One destructure step: take the named managed field's container out of the
/// slot row, leaving a plain unit marker behind (the struct is about to be
/// finalized; a vacated slot only has to stay harmless). A second take of the
/// same name finds the marker and fails.
pub open spec fn spec_destructure_step(
    slots: Seq<SlotV>,
    fields: Seq<FieldDef>,
    name: String,
) -> Result<(AnkhaValue, Seq<SlotV>), Abort> {
    match spec_find_field(fields, &spec_name_query(name)) {
        None => Err(Abort::ShapeMismatch),
        Some(fi) => if fi < slots.len() && fields[fi].kind != AnkhaValueKind::Any && slots[fi]
            is Managed {
            Ok(
                (
                    slots[fi]->Managed_0,
                    slots.update(fi, SlotV::Raw { type_hash: TH_UNIT, bytes: Seq::empty() }),
                ),
            )
        } else {
            Err(Abort::ShapeMismatch)
        },
    }
}

/// Destructuring a slot row by a list of names, processed from the last name
/// to the first: the values pushed on the stack, bottom first. Popping the
/// result therefore yields the values in listed order.
pub open spec fn spec_destructure(
    slots: Seq<SlotV>,
    fields: Seq<FieldDef>,
    names: Seq<String>,
) -> Result<Seq<AnkhaValue>, Abort>
    decreases names.len(),
{
    if names.len() == 0 {
        Ok(Seq::empty())
    } else {
        match spec_destructure_step(slots, fields, names.last()) {
            Err(a) => Err(a),
            Ok((v, slots1)) => match spec_destructure(slots1, fields, names.drop_last()) {
                Err(a) => Err(a),
                Ok(rest) => Ok(seq![v] + rest),
            },
        }
    }
}

/// Why taking a struct apart fails, or `None` when it is owed: missing or
/// wrongly-kinded operand, a dead or borrowed struct, a payload that is not
/// a struct, an unregistered type, or a listed name that does not resolve to
/// a managed field still in place.
pub open spec fn spec_destructure_abort(
    c: CtxV,
    types: Seq<crate::registry::TypeDef>,
    names: Seq<String>,
) -> Option<Abort> {
    if c.stack.len() <= spec_stack_base(c) {
        Some(Abort::StackUnderflow)
    } else {
        match c.stack.last() {
            EntryV::Value(AnkhaValue::Owned { cell }) => {
                let cl = c.cells[cell as int];
                if !cl.alive {
                    Some(Abort::DeadToken)
                } else if cl.shared > 0 || cl.exclusive {
                    Some(Abort::BorrowViolation)
                } else {
                    match cl.body {
                        Some(BodyV::Fields(slots)) => match Registry::spec_find_type_by_hash(
                            types,
                            cl.type_hash,
                        ) {
                            None => Some(Abort::RegistryMiss),
                            Some(ti) => match types[ti].shape {
                                TypeShape::Struct(fields) => match spec_destructure(
                                    slots,
                                    fields@,
                                    names,
                                ) {
                                    Err(a) => Some(a),
                                    Ok(_) => None,
                                },
                                _ => Some(Abort::ShapeMismatch),
                            },
                        },
                        Some(_) => Some(Abort::ShapeMismatch),
                        None => Some(Abort::InitializationError),
                    }
                }
            },
            _ => Some(Abort::KindMismatch),
        }
    }
}

/// Consume an owned struct and push the managed containers of the listed
/// fields. The struct's own finalizer runs exactly once; the extracted
/// containers live on, now owned by the stack.
#[verifier::loop_isolation(false)]
#[verifier::rlimit(100)]
#[verifier::spinoff_prover]
pub fn eval_destructure(ctx: &mut Context, reg: &Registry, names: &Vec<String>) -> (r: Result<
    (),
    Abort,
>)
    requires
        old(ctx).wf(),
    ensures
        final(ctx).wf(),
        final(ctx)@.registers == old(ctx)@.registers,
        final(ctx)@.frames == old(ctx)@.frames,
        r is Ok <==> spec_destructure_abort(old(ctx)@, reg.types@, names@) is None,
        r matches Err(a) ==> spec_destructure_abort(old(ctx)@, reg.types@, names@) == Some(a),
        match r {
            Ok(u) => {
                &&& old(ctx)@.stack.len() > spec_stack_base(old(ctx)@)
                &&& old(ctx)@.stack.last() matches EntryV::Value(AnkhaValue::Owned { cell }) && {
                    let c = old(ctx)@.cells[cell as int];
                    &&& c.alive
                    &&& c.shared == 0
                    &&& !c.exclusive
                    &&& c.body matches Some(BodyV::Fields(slots))
                    &&& Registry::spec_find_type_by_hash(reg.types@, c.type_hash) matches Some(ti)
                        && reg.types@[ti].shape matches TypeShape::Struct(fields) && {
                        let pushed = spec_destructure(
                            c.body->Some_0->Fields_0,
                            fields@,
                            names@,
                        );
                        &&& pushed is Ok
                        &&& final(ctx)@.cells == old(ctx)@.cells.update(
                            cell as int,
                            CellV { alive: false, body: None, finalized: true, ..c },
                        )
                        &&& final(ctx)@.finalized == old(ctx)@.finalized + seq![c.type_hash]
                        &&& final(ctx)@.stack == old(ctx)@.stack.drop_last() + pushed
                            ->Ok_0.map_values(|v: AnkhaValue| EntryV::Value(v))
                    }
                }
            },
            Err(a) => final(ctx)@ == old(ctx)@,
        },
{
    let e = match ctx.pop_entry() {
        Ok(e) => e,
        Err(a) => {
            return Err(a);
        },
    };
    let cell = match e {
        StackEntry::Value(AnkhaValue::Owned { cell }) => cell,
        _ => {
            ctx.push_entry(e);
            proof {
                assert(ctx@.stack =~= old(ctx)@.stack);
                assert(ctx@ =~= old(ctx)@);
            }
            return Err(Abort::KindMismatch);
        },
    };
    let abort = if !ctx.cells[cell].alive {
        Some(Abort::DeadToken)
    } else if ctx.cells[cell].shared > 0 || ctx.cells[cell].exclusive {
        Some(Abort::BorrowViolation)
    } else {
        match &ctx.cells[cell].body {
            Some(Body::Fields(_)) => None,
            Some(_) => Some(Abort::ShapeMismatch),
            None => Some(Abort::InitializationError),
        }
    };
    if let Some(a) = abort {
        ctx.push_entry(StackEntry::Value(AnkhaValue::Owned { cell }));
        proof {
            assert(ctx@.stack =~= old(ctx)@.stack);
            assert(ctx@ =~= old(ctx)@);
        }
        return Err(a);
    }
    let fields = match reg.find_type_by_hash(ctx.cells[cell].type_hash) {
        Some((_, td)) => match &td.shape {
            TypeShape::Struct(fields) => fields,
            _ => {
                ctx.push_entry(StackEntry::Value(AnkhaValue::Owned { cell }));
                proof {
                    assert(ctx@.stack =~= old(ctx)@.stack);
                    assert(ctx@ =~= old(ctx)@);
                }
                return Err(Abort::ShapeMismatch);
            },
        },
        None => {
            ctx.push_entry(StackEntry::Value(AnkhaValue::Owned { cell }));
            proof {
                assert(ctx@.stack =~= old(ctx)@.stack);
                assert(ctx@ =~= old(ctx)@);
            }
            return Err(Abort::RegistryMiss);
        },
    };
    // walk the names from the back, extracting each field's container from a
    // scratch copy of the slot row
    let mut scratch = match &ctx.cells[cell].body {
        Some(b) => match b.duplicate() {
            Body::Fields(slots) => slots,
            _ => {
                proof {
                    assert(false);
                }
                return Err(Abort::ShapeMismatch);
            },
        },
        None => {
            proof {
                assert(false);
            }
            return Err(Abort::InitializationError);
        },
    };
    let ghost slots0 = ctx@.cells[cell as int].body->Some_0->Fields_0;
    let ghost popped_state = ctx@;
    let mut taken: Vec<AnkhaValue> = Vec::new();
    let mut k: usize = names.len();
    proof {
        assert(popped_state =~= (CtxV { stack: old(ctx)@.stack.drop_last(), ..old(ctx)@ }));
        assert(crate::context::cell_ok(ctx@.cells[cell as int], ctx@.cells.len()));
        assert(scratch@.map_values(|s: Slot| s@) =~= slots0);
        assert forall|j: int| 0 <= j < scratch@.len() implies crate::context::slot_ok(
            (#[trigger] scratch@[j])@,
            ctx@.cells.len(),
        ) by {
            assert(scratch@.map_values(|s: Slot| s@)[j] == scratch@[j]@);
            assert(crate::context::slot_ok(slots0[j], ctx@.cells.len()));
        }
        assert(names@.take(names@.len() as int) =~= names@);
        match spec_destructure(slots0, fields@, names@) {
            Ok(full) => {
                assert(taken@ + spec_destructure(
                    scratch@.map_values(|s: Slot| s@),
                    fields@,
                    names@.take(names@.len() as int),
                )->Ok_0 =~= full);
            },
            Err(_) => {},
        }
    }
    while k > 0
        invariant
            ctx@ == popped_state,
            ctx.wf(),
            popped_state == (CtxV { stack: old(ctx)@.stack.drop_last(), ..old(ctx)@ }),
            cell < ctx@.cells.len(),
            old(ctx)@.stack.len() > 0,
            old(ctx)@.stack.last() == EntryV::Value(AnkhaValue::Owned { cell }),
            0 <= k <= names@.len(),
            forall|j: int|
                0 <= j < taken@.len() ==> crate::context::value_in_bounds(
                    #[trigger] taken@[j],
                    ctx@.cells.len(),
                ),
            forall|j: int|
                0 <= j < scratch@.len() ==> crate::context::slot_ok(
                    (#[trigger] scratch@[j])@,
                    ctx@.cells.len(),
                ),
            scratch@.map_values(|s: Slot| s@).len() == slots0.len(),
            spec_destructure(slots0, fields@, names@) matches Ok(full) ==> {
                &&& spec_destructure(
                    scratch@.map_values(|s: Slot| s@),
                    fields@,
                    names@.take(k as int),
                ) is Ok
                &&& full == taken@ + spec_destructure(
                    scratch@.map_values(|s: Slot| s@),
                    fields@,
                    names@.take(k as int),
                )->Ok_0
            },
            spec_destructure(
                scratch@.map_values(|s: Slot| s@),
                fields@,
                names@.take(k as int),
            ) is Err ==> spec_destructure(slots0, fields@, names@) is Err,
            spec_destructure(slots0, fields@, names@) matches Err(a0) ==> spec_destructure(
                scratch@.map_values(|s: Slot| s@),
                fields@,
                names@.take(k as int),
            ) matches Err(a1) && a1 == a0,
        decreases k,
    {
        proof {
            assert(names@.take(k as int).last() == names@[k - 1]);
            assert(names@.take(k as int).drop_last() =~= names@.take(k - 1));
        }
        let q = AnkhaFieldQuery {
            name: names[k - 1].clone(),
            kind: AnkhaValueKind::Any,
            type_hash: None,
            visibility: None,
        };
        proof {
            assert(q == spec_name_query(names@[k - 1]));
        }
        let (fi, fdef) = match find_field(fields, &q) {
            Some(p) => p,
            None => {
                ctx.push_entry(StackEntry::Value(AnkhaValue::Owned { cell }));
                proof {
                    assert(ctx@.stack =~= old(ctx)@.stack);
                    assert(ctx@ =~= old(ctx)@);
                    assert(spec_destructure(
                        scratch@.map_values(|sl: Slot| sl@),
                        fields@,
                        names@.take(k as int),
                    ) matches Err(aa) && aa == Abort::ShapeMismatch);
                }
                return Err(Abort::ShapeMismatch);
            },
        };
        let bad = fi >= scratch.len() || fdef.kind.is_any() || !(matches!(
            &scratch[fi],
            Slot::Managed(_)
        ));
        if bad {
            ctx.push_entry(StackEntry::Value(AnkhaValue::Owned { cell }));
            proof {
                assert(ctx@.stack =~= old(ctx)@.stack);
                assert(ctx@ =~= old(ctx)@);
                assert(spec_destructure(
                    scratch@.map_values(|sl: Slot| sl@),
                    fields@,
                    names@.take(k as int),
                ) matches Err(aa) && aa == Abort::ShapeMismatch);
            }
            return Err(Abort::ShapeMismatch);
        }
        let v = match &scratch[fi] {
            Slot::Managed(v) => *v,
            _ => {
                proof {
                    assert(false);
                }
                return Err(Abort::ShapeMismatch);
            },
        };
        let ghost pre_scratch = scratch@.map_values(|s: Slot| s@);
        scratch[fi] = Slot::Raw { type_hash: TH_UNIT, bytes: Vec::new() };
        taken.push(v);
        k = k - 1;
        proof {
            assert(scratch@.map_values(|s: Slot| s@) =~= pre_scratch.update(
                fi as int,
                SlotV::Raw { type_hash: TH_UNIT, bytes: Seq::empty() },
            ));
        }
    }
    proof {
        assert(names@.take(names@.len() as int) =~= names@);
        assert(names@.take(0) =~= Seq::<String>::empty());
        assert(spec_destructure(
            scratch@.map_values(|s: Slot| s@),
            fields@,
            names@.take(0),
        ) == Ok::<Seq<AnkhaValue>, Abort>(Seq::empty()));
        assert(spec_destructure(slots0, fields@, names@) is Ok);
        assert(spec_destructure(slots0, fields@, names@)->Ok_0 =~= taken@);
    }
    // the struct is consumed: its finalizer runs now
    let th = ctx.cells[cell].type_hash;
    let ghost pre = ctx@;
    ctx.cells[cell].alive = false;
    ctx.cells[cell].body = None;
    ctx.cells[cell].finalized = true;
    ctx.finalized.push(th);
    proof {
        crate::context::lemma_release_wf(
            CtxV { finalized: pre.finalized, ..pre },
            CtxV { finalized: pre.finalized, ..ctx@ },
            cell as int,
        );
        assert(ctx@.cells =~= old(ctx)@.cells.update(
            cell as int,
            CellV {
                alive: false,
                body: None,
                finalized: true,
                ..old(ctx)@.cells[cell as int]
            },
        ));
        assert(ctx@.finalized =~= old(ctx)@.finalized + seq![th]);
    }
    // push the extracted containers, bottom first
    let ghost mid = ctx@;
    let mut i: usize = 0;
    while i < taken.len()
        invariant
            crate::context::ctx_wf(ctx@),
            0 <= i <= taken@.len(),
            forall|j: int|
                0 <= j < taken@.len() ==> crate::context::value_in_bounds(
                    #[trigger] taken@[j],
                    ctx@.cells.len(),
                ),
            ctx@.cells == mid.cells,
            ctx@.registers == mid.registers,
            ctx@.frames == mid.frames,
            ctx@.finalized == mid.finalized,
            ctx@.stack == mid.stack + taken@.take(i as int).map_values(
                |v: AnkhaValue| EntryV::Value(v),
            ),
        decreases taken@.len() - i,
    {
        ctx.push_entry(StackEntry::Value(taken[i]));
        proof {
            assert(ctx@.stack =~= mid.stack + taken@.take(i + 1).map_values(
                |v: AnkhaValue| EntryV::Value(v),
            ));
        }
        i = i + 1;
    }
    proof {
        assert(taken@.take(taken@.len() as int) =~= taken@);
        assert(final(ctx)@.stack =~= old(ctx)@.stack.drop_last() + spec_destructure(
            slots0,
            fields@,
            names@,
        )->Ok_0.map_values(|v: AnkhaValue| EntryV::Value(v)));
    }
    Ok(())
}

/// Popping the listed fields' values: names are processed in listed order,
/// the first listed name taking the top of the stack. Each popped record must
/// be a managed container of the field's declared kind; listing an unmanaged
/// field, listing a field twice, or popping past `base` fails.
pub open spec fn spec_structure_pops(
    stack: Seq<EntryV>,
    base: nat,
    fields: Seq<FieldDef>,
    names: Seq<String>,
    vals: Seq<Option<AnkhaValue>>,
) -> Result<(Seq<EntryV>, Seq<Option<AnkhaValue>>), Abort>
    decreases names.len(),
{
    if names.len() == 0 {
        Ok((stack, vals))
    } else {
        match spec_find_field(fields, &spec_name_query(names[0])) {
            None => Err(Abort::ShapeMismatch),
            Some(fi) => if fields[fi].kind == AnkhaValueKind::Any {
                Err(Abort::KindMismatch)
            } else if vals[fi] is Some {
                Err(Abort::ShapeMismatch)
            } else if stack.len() <= base {
                Err(Abort::StackUnderflow)
            } else {
                match stack.last() {
                    EntryV::Raw { .. } => Err(Abort::KindMismatch),
                    EntryV::Value(v) => if v.spec_kind() != fields[fi].kind {
                        Err(Abort::KindMismatch)
                    } else {
                        spec_structure_pops(
                            stack.drop_last(),
                            base,
                            fields,
                            names.drop_first(),
                            vals.update(fi, Some(v)),
                        )
                    },
                }
            },
        }
    }
}

/// Filling the slot row: a popped value where one was listed, the declared
/// default otherwise. Defaults with a literal payload allocate fresh cells at
/// the end of the arena, in field order.
pub open spec fn spec_structure_slots(
    cells: Seq<CellV>,
    fields: Seq<FieldDef>,
    vals: Seq<Option<AnkhaValue>>,
) -> (Seq<CellV>, Seq<SlotV>)
    decreases fields.len(),
{
    if fields.len() == 0 {
        (cells, Seq::empty())
    } else {
        let (cells1, slot) = match vals[0] {
            Some(v) => (cells, SlotV::Managed(v)),
            None => match fields[0].init {
                FieldInit::Raw(bytes) => (
                    cells,
                    SlotV::Raw { type_hash: fields[0].type_hash, bytes: bytes@ },
                ),
                FieldInit::Owned(lit) => (
                    cells.push(
                        CellV {
                            type_hash: lit.spec_type_hash(),
                            body: Some(crate::expr::spec_literal_body(&lit)),
                            alive: true,
                            shared: 0,
                            exclusive: false,
                            finalized: false,
                            boxed: false,
                            box_refs: 0,
                        },
                    ),
                    SlotV::Managed(AnkhaValue::Owned { cell: cells.len() as usize }),
                ),
                FieldInit::Boxed(lit) => (
                    cells.push(
                        CellV {
                            type_hash: lit.spec_type_hash(),
                            body: Some(crate::expr::spec_literal_body(&lit)),
                            alive: true,
                            shared: 0,
                            exclusive: false,
                            finalized: false,
                            boxed: true,
                            box_refs: 1,
                        },
                    ),
                    SlotV::Managed(AnkhaValue::Box { cell: cells.len() as usize }),
                ),
                FieldInit::Required => (
                    cells,
                    SlotV::Raw { type_hash: TH_UNIT, bytes: Seq::empty() },
                ),
            },
        };
        let (cells2, rest) = spec_structure_slots(cells1, fields.drop_first(), vals.drop_first());
        (cells2, seq![slot] + rest)
    }
}

/// Filling the slots only appends to the arena: the old cells stay where
/// they were.
pub proof fn lemma_structure_slots_grow(
    cells: Seq<CellV>,
    fields: Seq<FieldDef>,
    vals: Seq<Option<AnkhaValue>>,
)
    ensures
        spec_structure_slots(cells, fields, vals).0.len() >= cells.len(),
        spec_structure_slots(cells, fields, vals).0.take(cells.len() as int) == cells,
    decreases fields.len(),
{
    if fields.len() == 0 {
        assert(cells.take(cells.len() as int) =~= cells);
    } else {
        match vals[0] {
            Some(v) => {
                lemma_structure_slots_grow(cells, fields.drop_first(), vals.drop_first());
            },
            None => match fields[0].init {
                FieldInit::Raw(bytes) => {
                    lemma_structure_slots_grow(cells, fields.drop_first(), vals.drop_first());
                },
                FieldInit::Required => {
                    lemma_structure_slots_grow(cells, fields.drop_first(), vals.drop_first());
                },
                FieldInit::Owned(lit) => {
                    let cells1 = cells.push(
                        CellV {
                            type_hash: lit.spec_type_hash(),
                            body: Some(crate::expr::spec_literal_body(&lit)),
                            alive: true,
                            shared: 0,
                            exclusive: false,
                            finalized: false,
                            boxed: false,
                            box_refs: 0,
                        },
                    );
                    lemma_structure_slots_grow(cells1, fields.drop_first(), vals.drop_first());
                    assert(spec_structure_slots(cells1, fields.drop_first(), vals.drop_first())
                        .0.take(cells.len() as int) =~= cells) by {
                        assert(cells1.take(cells.len() as int) =~= cells);
                    }
                },
                FieldInit::Boxed(lit) => {
                    let cells1 = cells.push(
                        CellV {
                            type_hash: lit.spec_type_hash(),
                            body: Some(crate::expr::spec_literal_body(&lit)),
                            alive: true,
                            shared: 0,
                            exclusive: false,
                            finalized: false,
                            boxed: true,
                            box_refs: 1,
                        },
                    );
                    lemma_structure_slots_grow(cells1, fields.drop_first(), vals.drop_first());
                    assert(spec_structure_slots(cells1, fields.drop_first(), vals.drop_first())
                        .0.take(cells.len() as int) =~= cells) by {
                        assert(cells1.take(cells.len() as int) =~= cells);
                    }
                },
            },
        }
    }
}

/// Popping the listed fields' values only shortens the stack, never below
/// `base`: the remaining stack is a prefix of the old one.
pub proof fn lemma_structure_pops_prefix(
    stack: Seq<EntryV>,
    base: nat,
    fields: Seq<FieldDef>,
    names: Seq<String>,
    vals: Seq<Option<AnkhaValue>>,
)
    requires
        spec_structure_pops(stack, base, fields, names, vals) is Ok,
    ensures
        ({
            let stack1 = spec_structure_pops(stack, base, fields, names, vals)->Ok_0.0;
            &&& stack1.len() <= stack.len()
            &&& stack1.len() >= min_nat_s(base, stack.len())
            &&& stack1 == stack.take(stack1.len() as int)
        }),
    decreases names.len(),
{
    let stack1 = spec_structure_pops(stack, base, fields, names, vals)->Ok_0.0;
    if names.len() == 0 {
        assert(stack.take(stack.len() as int) =~= stack);
    } else {
        let fi = spec_find_field(fields, &spec_name_query(names[0]))->Some_0;
        match stack.last() {
            EntryV::Value(v) => {
                lemma_structure_pops_prefix(
                    stack.drop_last(),
                    base,
                    fields,
                    names.drop_first(),
                    vals.update(fi, Some(v)),
                );
                assert(stack.drop_last().take(stack1.len() as int) =~= stack.take(
                    stack1.len() as int,
                ));
            },
            EntryV::Raw { .. } => {},
        }
    }
}

/// The smaller of two naturals.
pub open spec fn min_nat_s(a: nat, b: nat) -> nat {
    if a <= b {
        a
    } else {
        b
    }
}

/// Whether the field at `i` is named somewhere in `names`.
pub open spec fn spec_field_listed(fields: Seq<FieldDef>, names: Seq<String>, i: int) -> bool {
    exists|j: int| 0 <= j < names.len() && fields[i].name@ == (#[trigger] names[j])@
}

/// Whether every declared field's name occurs in the listed names.
pub open spec fn spec_all_fields_listed(fields: Seq<FieldDef>, names: Seq<String>) -> bool {
    forall|i: int| 0 <= i < fields.len() ==> #[trigger] spec_field_listed(fields, names, i)
}

fn all_fields_listed(fields: &Vec<FieldDef>, names: &Vec<String>) -> (r: bool)
    ensures
        r == spec_all_fields_listed(fields@, names@),
{
    let mut i: usize = 0;
    while i < fields.len()
        invariant
            0 <= i <= fields@.len(),
            forall|k: int| 0 <= k < i ==> #[trigger] spec_field_listed(fields@, names@, k),
        decreases fields@.len() - i,
    {
        let mut found = false;
        let mut j: usize = 0;
        while j < names.len()
            invariant
                0 <= j <= names@.len(),
                i < fields@.len(),
                found ==> spec_field_listed(fields@, names@, i as int),
                !found ==> forall|jj: int|
                    0 <= jj < j ==> (fields@[i as int].name)@ != (#[trigger] names@[jj])@,
            decreases names@.len() - j,
        {
            if fields[i].name == names[j] {
                found = true;
            }
            j = j + 1;
        }
        if !found {
            proof {
                assert(!spec_field_listed(fields@, names@, i as int));
            }
            return false;
        }
        i = i + 1;
    }
    true
}

/// Push saved containers back so that the stack is exactly `target` again:
/// the undo path of an abort that happened after some pops.
fn restore_stack(ctx: &mut Context, undo: &Vec<AnkhaValue>, Ghost(target): Ghost<Seq<EntryV>>)
    requires
        old(ctx).wf(),
        old(ctx)@.stack == target.take(target.len() - undo@.len()),
        undo@.len() <= target.len(),
        forall|j: int|
            0 <= j < undo@.len() ==> target[target.len() - 1 - j] == EntryV::Value(
                #[trigger] undo@[j],
            ),
        forall|j: int|
            0 <= j < undo@.len() ==> crate::context::value_in_bounds(
                #[trigger] undo@[j],
                old(ctx)@.cells.len(),
            ),
    ensures
        final(ctx).wf(),
        final(ctx)@ == (CtxV { stack: target, ..old(ctx)@ }),
{
    let mut j: usize = undo.len();
    while j > 0
        invariant
            ctx.wf(),
            0 <= j <= undo@.len(),
            undo@.len() <= target.len(),
            ctx@ == (CtxV { stack: target.take(target.len() - j), ..old(ctx)@ }),
            forall|jj: int|
                0 <= jj < undo@.len() ==> target[target.len() - 1 - jj] == EntryV::Value(
                    #[trigger] undo@[jj],
                ),
            forall|jj: int|
                0 <= jj < undo@.len() ==> crate::context::value_in_bounds(
                    #[trigger] undo@[jj],
                    ctx@.cells.len(),
                ),
        decreases j,
    {
        ctx.push_entry(StackEntry::Value(undo[j - 1]));
        proof {
            assert(ctx@.stack =~= target.take(target.len() - (j - 1)));
        }
        j = j - 1;
    }
    proof {
        assert(target.take(target.len() as int) =~= target);
        assert(ctx@ =~= (CtxV { stack: target, ..old(ctx)@ }));
    }
}

/// Why building a struct fails, or `None` when it is owed: no type matches
/// the query, the matched type is not a struct, a non-default-initializable
/// type with an unlisted field, or a failing pop of a listed field's value.
pub open spec fn spec_structure_op_abort(
    c: CtxV,
    types: Seq<crate::registry::TypeDef>,
    q: &AnkhaTypeQuery,
    names: Seq<String>,
) -> Option<Abort> {
    match crate::registry::spec_find_type(types, q) {
        None => Some(Abort::RegistryMiss),
        Some(ti) => match types[ti].shape {
            TypeShape::Struct(fields) => if !types[ti].can_initialize && !spec_all_fields_listed(
                fields@,
                names,
            ) {
                Some(Abort::InitializationError)
            } else {
                match spec_structure_pops(
                    c.stack,
                    spec_stack_base(c),
                    fields@,
                    names,
                    Seq::new(fields@.len(), |i: int| None::<AnkhaValue>),
                ) {
                    Err(a) => Some(a),
                    Ok(_) => None,
                }
            },
            _ => Some(Abort::ShapeMismatch),
        },
    }
}

/// Allocate an owned struct of the queried type: pop one managed container
/// per listed field (first listed field from the top of the stack), fill the
/// remaining fields from the type's defaults, and push the new owned value.
/// A type that cannot default-initialize must have every field listed. No
/// finalizer runs.
#[verifier::loop_isolation(false)]
#[verifier::rlimit(100)]
#[verifier::spinoff_prover]
pub fn eval_structure(
    ctx: &mut Context,
    reg: &Registry,
    type_query: &AnkhaTypeQuery,
    names: &Vec<String>,
) -> (r: Result<(), Abort>)
    requires
        old(ctx).wf(),
    ensures
        final(ctx).wf(),
        final(ctx)@.registers == old(ctx)@.registers,
        final(ctx)@.frames == old(ctx)@.frames,
        final(ctx)@.finalized == old(ctx)@.finalized,
        r is Ok <==> spec_structure_op_abort(old(ctx)@, reg.types@, type_query, names@) is None,
        r matches Err(a) ==> spec_structure_op_abort(old(ctx)@, reg.types@, type_query, names@)
            == Some(a),
        match r {
            Ok(u) => {
                &&& crate::registry::spec_find_type(reg.types@, type_query) matches Some(ti) && (
                reg.types@[ti].shape matches TypeShape::Struct(fields)) && {
                    let fields = reg.types@[ti].shape->Struct_0;
                    let pops = spec_structure_pops(
                        old(ctx)@.stack,
                        spec_stack_base(old(ctx)@),
                        fields@,
                        names@,
                        Seq::new(fields@.len(), |i: int| None::<AnkhaValue>),
                    );
                    &&& (reg.types@[ti].can_initialize || spec_all_fields_listed(
                        fields@,
                        names@,
                    ))
                    &&& pops is Ok
                    &&& {
                        let (stack1, vals) = pops->Ok_0;
                        let (cells1, slots) = spec_structure_slots(
                            old(ctx)@.cells,
                            fields@,
                            vals,
                        );
                        &&& final(ctx)@.cells == cells1.push(
                            CellV {
                                type_hash: reg.types@[ti].type_hash,
                                body: Some(BodyV::Fields(slots)),
                                alive: true,
                                shared: 0,
                                exclusive: false,
                                finalized: false,
                                boxed: false,
                                box_refs: 0,
                            },
                        )
                        &&& final(ctx)@.stack == stack1.push(
                            EntryV::Value(AnkhaValue::Owned { cell: cells1.len() as usize }),
                        )
                    }
                }
            },
            Err(a) => final(ctx)@ == old(ctx)@,
        },
{
    let (ti, td) = match reg.find_type(type_query) {
        Some(p) => p,
        None => {
            return Err(Abort::RegistryMiss);
        },
    };
    let fields = match &td.shape {
        TypeShape::Struct(fields) => fields,
        _ => {
            return Err(Abort::ShapeMismatch);
        },
    };
    if !td.can_initialize && !all_fields_listed(fields, names) {
        return Err(Abort::InitializationError);
    }
    // pop the listed fields' values
    let mut vals: Vec<Option<AnkhaValue>> = Vec::new();
    let mut i: usize = 0;
    while i < fields.len()
        invariant
            0 <= i <= fields@.len(),
            vals@.len() == i,
            forall|j: int| 0 <= j < i ==> (#[trigger] vals@[j]) is None,
        decreases fields@.len() - i,
    {
        vals.push(None);
        i = i + 1;
    }
    proof {
        assert(vals@ =~= Seq::new(fields@.len(), |i: int| None::<AnkhaValue>));
    }
    let ghost base = spec_stack_base(old(ctx)@);
    let mut undo: Vec<AnkhaValue> = Vec::new();
    let mut k: usize = 0;
    proof {
        assert(names@.skip(0) =~= names@);
        assert(old(ctx)@.stack.take(old(ctx)@.stack.len() as int) =~= old(ctx)@.stack);
    }
    while k < names.len()
        invariant
            ctx.wf(),
            0 <= k <= names@.len(),
            k <= old(ctx)@.stack.len(),
            vals@.len() == fields@.len(),
            undo@.len() == k,
            ctx@ == (CtxV {
                stack: old(ctx)@.stack.take(old(ctx)@.stack.len() - k),
                ..old(ctx)@
            }),
            forall|j: int|
                0 <= j < k ==> old(ctx)@.stack[old(ctx)@.stack.len() - 1 - j] == EntryV::Value(
                    #[trigger] undo@[j],
                ),
            forall|j: int|
                0 <= j < k ==> crate::context::value_in_bounds(
                    #[trigger] undo@[j],
                    old(ctx)@.cells.len(),
                ),
            forall|j: int|
                0 <= j < vals@.len() && (#[trigger] vals@[j]) is Some
                    ==> crate::context::value_in_bounds(vals@[j]->Some_0, ctx@.cells.len()),
            spec_structure_pops(
                old(ctx)@.stack,
                spec_stack_base(old(ctx)@),
                fields@,
                names@,
                Seq::new(fields@.len(), |i: int| None::<AnkhaValue>),
            ) == spec_structure_pops(
                ctx@.stack,
                spec_stack_base(old(ctx)@),
                fields@,
                names@.skip(k as int),
                vals@,
            ),
        decreases names@.len() - k,
    {
        let ghost loop_stack = ctx@.stack;
        let ghost loop_vals = vals@;
        proof {
            assert(names@.skip(k as int)[0] == names@[k as int]);
            assert(names@.skip(k as int).drop_first() =~= names@.skip(k + 1));
        }
        let q = AnkhaFieldQuery {
            name: names[k].clone(),
            kind: AnkhaValueKind::Any,
            type_hash: None,
            visibility: None,
        };
        proof {
            assert(q == spec_name_query(names@[k as int]));
        }
        let mut fail: Option<Abort> = None;
        let mut popped_value: Option<AnkhaValue> = None;
        let mut slot_index: usize = 0;
        match find_field(fields, &q) {
            None => {
                fail = Some(Abort::ShapeMismatch);
            },
            Some((fi, fdef)) => {
                if fdef.kind.is_any() {
                    fail = Some(Abort::KindMismatch);
                } else if vals[fi].is_some() {
                    fail = Some(Abort::ShapeMismatch);
                } else {
                    match ctx.pop_entry() {
                        Err(a) => {
                            fail = Some(a);
                        },
                        Ok(StackEntry::Raw { type_hash, bytes }) => {
                            ctx.push_entry(StackEntry::Raw { type_hash, bytes });
                            proof {
                                assert(ctx@.stack =~= old(ctx)@.stack.take(
                                    old(ctx)@.stack.len() - k,
                                ));
                            }
                            fail = Some(Abort::KindMismatch);
                        },
                        Ok(StackEntry::Value(v)) => {
                            if v.kind() != fdef.kind {
                                ctx.push_entry(StackEntry::Value(v));
                                proof {
                                    assert(ctx@.stack =~= old(ctx)@.stack.take(
                                        old(ctx)@.stack.len() - k,
                                    ));
                                }
                                fail = Some(Abort::KindMismatch);
                            } else {
                                popped_value = Some(v);
                                slot_index = fi;
                            }
                        },
                    }
                }
            },
        }
        match (fail, popped_value) {
            (Some(a), _) => {
                proof {
                    assert(spec_structure_pops(
                        loop_stack,
                        spec_stack_base(old(ctx)@),
                        fields@,
                        names@.skip(k as int),
                        loop_vals,
                    ) == Err::<(Seq<EntryV>, Seq<Option<AnkhaValue>>), Abort>(a));
                }
                restore_stack(ctx, &undo, Ghost(old(ctx)@.stack));
                proof {
                    assert(ctx@ =~= old(ctx)@);
                }
                return Err(a);
            },
            (None, Some(v)) => {
                proof {
                    assert(ctx@.stack =~= old(ctx)@.stack.take(
                        old(ctx)@.stack.len() - (k + 1),
                    ));
                }
                vals[slot_index] = Some(v);
                undo.push(v);
                k = k + 1;
            },
            (None, None) => {
                proof {
                    assert(false);
                }
            },
        }
    }
    proof {
        assert(names@.skip(names@.len() as int).len() == 0);
    }
    // build the slot row, allocating default cells in field order
    let ghost popped = ctx@;
    let mut slots: Vec<Slot> = Vec::new();
    let mut i2: usize = 0;
    proof {
        assert(fields@.skip(0) =~= fields@);
        assert(vals@.skip(0) =~= vals@);
        let (c2, rest) = spec_structure_slots(popped.cells, fields@, vals@);
        assert(slots@.map_values(|s: Slot| s@) + rest =~= rest);
    }
    while i2 < fields.len()
        invariant
            ctx.wf(),
            0 <= i2 <= fields@.len(),
            vals@.len() == fields@.len(),
            ctx@ == (CtxV { cells: ctx@.cells, ..popped }),
            forall|j: int|
                0 <= j < vals@.len() && (#[trigger] vals@[j]) is Some
                    ==> crate::context::value_in_bounds(vals@[j]->Some_0, popped.cells.len()),
            popped.cells.len() <= ctx@.cells.len(),
            forall|j: int|
                0 <= j < slots@.len() ==> crate::context::slot_ok(
                    (#[trigger] slots@[j])@,
                    ctx@.cells.len(),
                ),
            spec_structure_slots(popped.cells, fields@, vals@) == {
                let (cells2, rest) = spec_structure_slots(
                    ctx@.cells,
                    fields@.skip(i2 as int),
                    vals@.skip(i2 as int),
                );
                (cells2, slots@.map_values(|s: Slot| s@) + rest)
            },
        decreases fields@.len() - i2,
    {
        proof {
            assert(fields@.skip(i2 as int)[0] == fields@[i2 as int]);
            assert(fields@.skip(i2 as int).drop_first() =~= fields@.skip(i2 + 1));
            assert(vals@.skip(i2 as int)[0] == vals@[i2 as int]);
            assert(vals@.skip(i2 as int).drop_first() =~= vals@.skip(i2 + 1));
        }
        let ghost pre_cells = ctx@.cells;
        let slot = match &vals[i2] {
            Some(v) => Slot::Managed(*v),
            None => match &fields[i2].init {
                FieldInit::Raw(bytes) => Slot::Raw {
                    type_hash: fields[i2].type_hash,
                    bytes: crate::value::clone_bytes(bytes),
                },
                FieldInit::Owned(lit) => {
                    let body = match lit {
                        AnkhaLiteral::String(st) => Body::Text(st.clone()),
                        _ => Body::Raw(lit.to_bytes()),
                    };
                    let cellno = ctx.alloc_cell(lit.type_hash(), Some(body), false, 0);
                    Slot::Managed(AnkhaValue::Owned { cell: cellno })
                },
                FieldInit::Boxed(lit) => {
                    let body = match lit {
                        AnkhaLiteral::String(st) => Body::Text(st.clone()),
                        _ => Body::Raw(lit.to_bytes()),
                    };
                    let cellno = ctx.alloc_cell(lit.type_hash(), Some(body), true, 1);
                    Slot::Managed(AnkhaValue::Box { cell: cellno })
                },
                FieldInit::Required => Slot::Raw { type_hash: TH_UNIT, bytes: Vec::new() },
            },
        };
        slots.push(slot);
        proof {
            assert(slots@.map_values(|s: Slot| s@) =~= slots@.drop_last().map_values(
                |s: Slot| s@,
            ).push(slots@.last()@));
        }
        i2 = i2 + 1;
    }
    proof {
        assert(fields@.skip(fields@.len() as int).len() == 0);
        assert(vals@.skip(fields@.len() as int) =~= vals@.skip(vals@.len() as int));
        assert(spec_structure_slots(popped.cells, fields@, vals@).1 =~= slots@.map_values(
            |s: Slot| s@,
        ) + Seq::<SlotV>::empty());
        assert(spec_structure_slots(popped.cells, fields@, vals@).1 =~= slots@.map_values(
            |s: Slot| s@,
        ));
    }
    let fresh = ctx.alloc_cell(td.type_hash, Some(Body::Fields(slots)), false, 0);
    ctx.push_entry(StackEntry::Value(AnkhaValue::Owned { cell: fresh }));
    proof {
        assert(final(ctx)@.stack =~= popped.stack.push(
            EntryV::Value(AnkhaValue::Owned { cell: fresh }),
        ));
    }
    Ok(())
}

} // verus!
