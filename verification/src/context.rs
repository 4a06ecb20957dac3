//! The evaluation context: the cell arena, the data stack, the register file
//! and the scope frames, together with the well-formedness invariant that
//! every operation preserves.

use vstd::prelude::*;
use crate::abort::Abort;
use crate::kind::TypeHash;
use crate::value::{
    AnkhaValue, Body, BodyV, Cell, CellV, EntryV, Frame, Place, Register, Slot, SlotV, StackEntry,
};

verus! {

/// A container handle may only name cells inside the arena.
pub open spec fn value_in_bounds(v: AnkhaValue, n: nat) -> bool {
    v.spec_cell() < n
}

pub open spec fn slot_ok(s: SlotV, n: nat) -> bool {
    match s {
        SlotV::Managed(v) => value_in_bounds(v, n),
        SlotV::Raw { .. } => true,
    }
}

pub open spec fn body_ok(b: BodyV, n: nat) -> bool {
    match b {
        BodyV::Fields(slots) => forall|i: int| 0 <= i < slots.len() ==> slot_ok(#[trigger] slots[i], n),
        _ => true,
    }
}

/// Per-cell invariant: the borrow counters are exclusive-or-shared (never
/// both), a finalized payload belongs to a dead cell, and managed field slots
/// stay inside the arena.
pub open spec fn cell_ok(c: CellV, n: nat) -> bool {
    &&& (c.exclusive ==> c.shared == 0)
    &&& (c.finalized ==> !c.alive)
    &&& match c.body {
        Some(b) => body_ok(b, n),
        None => true,
    }
}

pub open spec fn entry_ok(e: EntryV, n: nat) -> bool {
    match e {
        EntryV::Value(v) => value_in_bounds(v, n),
        EntryV::Raw { .. } => true,
    }
}

pub open spec fn register_ok(r: Register, n: nat) -> bool {
    match r.value {
        Some(v) => value_in_bounds(v, n),
        None => true,
    }
}

/// Specification view of a [`Context`].
#[verifier::ext_equal]
pub struct CtxV {
    pub cells: Seq<CellV>,
    pub stack: Seq<EntryV>,
    pub registers: Seq<Register>,
    pub frames: Seq<Frame>,
    pub finalized: Seq<TypeHash>,
}

/// Well-formedness of a whole context. Every operation of the virtual
/// machine requires and preserves this predicate; it carries the universal
/// borrow-discipline invariant: for every cell, the exclusive-borrow count is
/// zero or one, and it is never positive together with the shared count.
pub open spec fn ctx_wf(c: CtxV) -> bool {
    &&& forall|i: int| 0 <= i < c.cells.len() ==> cell_ok(#[trigger] c.cells[i], c.cells.len())
    &&& forall|i: int| 0 <= i < c.stack.len() ==> entry_ok(#[trigger] c.stack[i], c.cells.len())
    &&& forall|i: int|
        0 <= i < c.registers.len() ==> register_ok(#[trigger] c.registers[i], c.cells.len())
}

/// The evaluation context. It owns the payload arena (`cells`), the data
/// stack, the register file and the scope frames, and records every
/// finalizer run in `finalized` (one type hash per run, in order).
#[derive(Debug)]
pub struct Context {
    pub cells: Vec<Cell>,
    pub stack: Vec<StackEntry>,
    pub registers: Vec<Register>,
    pub frames: Vec<Frame>,
    pub finalized: Vec<TypeHash>,
}

impl View for Context {
    type V = CtxV;

    open spec fn view(&self) -> CtxV {
        CtxV {
            cells: self.cells@.map_values(|c: Cell| c@),
            stack: self.stack@.map_values(|e: StackEntry| e@),
            registers: self.registers@,
            frames: self.frames@,
            finalized: self.finalized@,
        }
    }
}

impl Context {
    pub open spec fn wf(&self) -> bool {
        ctx_wf(self@)
    }

    /// A fresh, empty context.
    pub fn new() -> (r: Context)
        ensures
            r.wf(),
            r@.cells.len() == 0,
            r@.stack.len() == 0,
            r@.registers.len() == 0,
            r@.frames.len() == 0,
            r@.finalized.len() == 0,
    {
        Context {
            cells: Vec::new(),
            stack: Vec::new(),
            registers: Vec::new(),
            frames: Vec::new(),
            finalized: Vec::new(),
        }
    }

    /// Allocate a fresh live cell holding `body`, with clear borrow counters.
    pub fn alloc_cell(&mut self, type_hash: TypeHash, body: Option<Body>, boxed: bool, box_refs: u64) -> (idx: usize)
        requires
            old(self).wf(),
            match body {
                Some(b) => body_ok(b@, old(self)@.cells.len()),
                None => true,
            },
        ensures
            final(self).wf(),
            idx == old(self)@.cells.len(),
            final(self)@.cells.len() == old(self)@.cells.len() + 1,
            final(self)@.cells == old(self)@.cells.push(
                CellV {
                    type_hash,
                    body: match body {
                        Some(b) => Some(b@),
                        None => None::<BodyV>,
                    },
                    alive: true,
                    shared: 0,
                    exclusive: false,
                    finalized: false,
                    boxed,
                    box_refs,
                },
            ),
            final(self)@.stack == old(self)@.stack,
            final(self)@.registers == old(self)@.registers,
            final(self)@.frames == old(self)@.frames,
            final(self)@.finalized == old(self)@.finalized,
    {
        let idx = self.cells.len();
        self.cells.push(Cell {
            type_hash,
            body,
            alive: true,
            shared: 0,
            exclusive: false,
            finalized: false,
            boxed,
            box_refs,
        });
        proof {
            assert(self@.cells =~= old(self)@.cells.push(self@.cells[idx as int]));
            assert forall|i: int| 0 <= i < self@.cells.len() implies cell_ok(
                #[trigger] self@.cells[i],
                self@.cells.len(),
            ) by {
                if i < old(self)@.cells.len() {
                    assert(cell_ok(old(self)@.cells[i], old(self)@.cells.len()));
                    lemma_cell_ok_grow(old(self)@.cells[i], old(self)@.cells.len(), self@.cells.len());
                } else {
                    match self@.cells[i].body {
                        Some(b) => {
                            lemma_body_ok_grow(b, old(self)@.cells.len(), self@.cells.len());
                        },
                        None => {},
                    }
                }
            }
            assert forall|i: int| 0 <= i < self@.stack.len() implies entry_ok(
                #[trigger] self@.stack[i],
                self@.cells.len(),
            ) by {
                assert(entry_ok(old(self)@.stack[i], old(self)@.cells.len()));
            }
            assert forall|i: int| 0 <= i < self@.registers.len() implies register_ok(
                #[trigger] self@.registers[i],
                self@.cells.len(),
            ) by {
                assert(register_ok(old(self)@.registers[i], old(self)@.cells.len()));
            }
        }
        idx
    }
}

/// What releasing one managed container does to the cell arena: the new
/// arena, and the finalizer runs it causes (as the sequence of finalized type
/// hashes appended to the context's log).
///
/// Releasing the strong side (an owned or the last box handle) fails fast
/// with a borrow violation while any borrow is outstanding; otherwise it
/// kills the token and runs the finalizer on the payload, exactly once.
/// Releasing a shared or exclusive reference gives its borrow back; releasing
/// a lazy handle does nothing, since lazy access never holds a borrow.
pub open spec fn spec_release(cells: Seq<CellV>, v: AnkhaValue) -> Result<
    (Seq<CellV>, Seq<TypeHash>),
    Abort,
> {
    match v {
        AnkhaValue::Owned { cell } => {
            let c = cells[cell as int];
            if !c.alive {
                Err(Abort::DeadToken)
            } else if c.shared > 0 || c.exclusive {
                Err(Abort::BorrowViolation)
            } else if c.body is Some {
                Ok(
                    (
                        cells.update(
                            cell as int,
                            CellV { alive: false, body: None, finalized: true, ..c },
                        ),
                        seq![c.type_hash],
                    ),
                )
            } else {
                Ok((cells.update(cell as int, CellV { alive: false, ..c }), Seq::empty()))
            }
        },
        AnkhaValue::Ref { place, .. } => {
            let c = cells[place.cell as int];
            if c.alive && c.shared > 0 {
                Ok(
                    (
                        cells.update(place.cell as int, CellV { shared: (c.shared - 1) as u64, ..c }),
                        Seq::empty(),
                    ),
                )
            } else {
                Ok((cells, Seq::empty()))
            }
        },
        AnkhaValue::RefMut { place, .. } => {
            let c = cells[place.cell as int];
            if c.alive && c.exclusive {
                Ok(
                    (
                        cells.update(place.cell as int, CellV { exclusive: false, ..c }),
                        Seq::empty(),
                    ),
                )
            } else {
                Ok((cells, Seq::empty()))
            }
        },
        AnkhaValue::Lazy { .. } => Ok((cells, Seq::empty())),
        AnkhaValue::Box { cell } => {
            let c = cells[cell as int];
            if c.box_refs == 0 {
                Err(Abort::DeadToken)
            } else if c.box_refs > 1 {
                Ok(
                    (
                        cells.update(cell as int, CellV { box_refs: (c.box_refs - 1) as u64, ..c }),
                        Seq::empty(),
                    ),
                )
            } else if c.shared > 0 || c.exclusive {
                Err(Abort::BorrowViolation)
            } else if c.body is Some {
                Ok(
                    (
                        cells.update(
                            cell as int,
                            CellV {
                                box_refs: 0,
                                alive: false,
                                body: None,
                                finalized: true,
                                ..c
                            },
                        ),
                        seq![c.type_hash],
                    ),
                )
            } else {
                Ok(
                    (
                        cells.update(cell as int, CellV { box_refs: 0, alive: false, ..c }),
                        Seq::empty(),
                    ),
                )
            }
        },
    }
}

impl Context {
    /// Release one managed container, exactly as [`spec_release`] describes.
    /// On an abort the context is left unchanged.
    pub fn release_value(&mut self, v: AnkhaValue) -> (r: Result<(), Abort>)
        requires
            old(self).wf(),
            value_in_bounds(v, old(self)@.cells.len()),
        ensures
            final(self).wf(),
            final(self)@.cells.len() == old(self)@.cells.len(),
            final(self)@.stack == old(self)@.stack,
            final(self)@.registers == old(self)@.registers,
            final(self)@.frames == old(self)@.frames,
            match r {
                Ok(u) => {
                    &&& spec_release(old(self)@.cells, v) is Ok
                    &&& final(self)@.cells == spec_release(old(self)@.cells, v)->Ok_0.0
                    &&& final(self)@.finalized == old(self)@.finalized + spec_release(
                        old(self)@.cells,
                        v,
                    )->Ok_0.1
                },
                Err(a) => {
                    &&& spec_release(old(self)@.cells, v) == Err::<
                        (Seq<CellV>, Seq<TypeHash>),
                        Abort,
                    >(a)
                    &&& final(self)@ == old(self)@
                },
            },
    {
        let ghost pre = self@;
        match v {
            AnkhaValue::Owned { cell } => {
                if !self.cells[cell].alive {
                    proof {
                        assert(final(self)@ =~= pre);
                    }
                    Err(Abort::DeadToken)
                } else if self.cells[cell].shared > 0 || self.cells[cell].exclusive {
                    proof {
                        assert(final(self)@ =~= pre);
                    }
                    Err(Abort::BorrowViolation)
                } else {
                    let had_body = self.cells[cell].body.is_some();
                    let th = self.cells[cell].type_hash;
                    self.cells[cell].alive = false;
                    if had_body {
                        self.cells[cell].body = None;
                        self.cells[cell].finalized = true;
                        self.finalized.push(th);
                        proof {
                            lemma_release_wf(pre, self@, cell as int);
                            assert(self@.finalized =~= pre.finalized + seq![th]);
                        }
                    } else {
                        proof {
                            lemma_release_wf(pre, self@, cell as int);
                            assert(self@.finalized =~= pre.finalized + Seq::<TypeHash>::empty());
                        }
                    }
                    Ok(())
                }
            },
            AnkhaValue::Ref { place, .. } => {
                if self.cells[place.cell].alive && self.cells[place.cell].shared > 0 {
                    let s = self.cells[place.cell].shared;
                    self.cells[place.cell].shared = s - 1;
                    proof {
                        lemma_release_wf(pre, self@, place.cell as int);
                        assert(self@.finalized =~= pre.finalized + Seq::<TypeHash>::empty());
                    }
                } else {
                    proof {
                        assert(self@.cells =~= pre.cells);
                        assert(self@.finalized =~= pre.finalized + Seq::<TypeHash>::empty());
                    }
                }
                Ok(())
            },
            AnkhaValue::RefMut { place, .. } => {
                if self.cells[place.cell].alive && self.cells[place.cell].exclusive {
                    self.cells[place.cell].exclusive = false;
                    proof {
                        lemma_release_wf(pre, self@, place.cell as int);
                        assert(self@.finalized =~= pre.finalized + Seq::<TypeHash>::empty());
                    }
                } else {
                    proof {
                        assert(self@.cells =~= pre.cells);
                        assert(self@.finalized =~= pre.finalized + Seq::<TypeHash>::empty());
                    }
                }
                Ok(())
            },
            AnkhaValue::Lazy { .. } => {
                proof {
                    assert(self@.cells =~= pre.cells);
                    assert(self@.finalized =~= pre.finalized + Seq::<TypeHash>::empty());
                }
                Ok(())
            },
            AnkhaValue::Box { cell } => {
                if self.cells[cell].box_refs == 0 {
                    proof {
                        assert(final(self)@ =~= pre);
                    }
                    Err(Abort::DeadToken)
                } else if self.cells[cell].box_refs > 1 {
                    let n = self.cells[cell].box_refs;
                    self.cells[cell].box_refs = n - 1;
                    proof {
                        lemma_release_wf(pre, self@, cell as int);
                        assert(self@.finalized =~= pre.finalized + Seq::<TypeHash>::empty());
                    }
                    Ok(())
                } else if self.cells[cell].shared > 0 || self.cells[cell].exclusive {
                    proof {
                        assert(final(self)@ =~= pre);
                    }
                    Err(Abort::BorrowViolation)
                } else {
                    let had_body = self.cells[cell].body.is_some();
                    let th = self.cells[cell].type_hash;
                    self.cells[cell].box_refs = 0;
                    self.cells[cell].alive = false;
                    if had_body {
                        self.cells[cell].body = None;
                        self.cells[cell].finalized = true;
                        self.finalized.push(th);
                        proof {
                            lemma_release_wf(pre, self@, cell as int);
                            assert(self@.finalized =~= pre.finalized + seq![th]);
                        }
                    } else {
                        proof {
                            lemma_release_wf(pre, self@, cell as int);
                            assert(self@.finalized =~= pre.finalized + Seq::<TypeHash>::empty());
                        }
                    }
                    Ok(())
                }
            },
        }
    }
}

/// The stack base of the innermost function frame in a frame stack.
pub open spec fn spec_hard_base(frames: Seq<Frame>) -> nat
    decreases frames.len(),
{
    if frames.len() == 0 {
        0
    } else if frames.last().hard {
        frames.last().stack_base as nat
    } else {
        spec_hard_base(frames.drop_last())
    }
}

/// Why a shared borrow on the cell a place points into fails, or `None` when
/// it is owed: a dead token, an outstanding exclusive borrow, or an exhausted
/// counter, in that order.
pub open spec fn spec_borrow_at_abort(cells: Seq<CellV>, place: Place) -> Option<Abort> {
    let c = cells[place.cell as int];
    if !c.alive {
        Some(Abort::DeadToken)
    } else if c.exclusive {
        Some(Abort::BorrowViolation)
    } else if c.shared == u64::MAX {
        Some(Abort::Exhausted)
    } else {
        None
    }
}

/// Why an exclusive borrow on the cell a place points into fails, or `None`
/// when it is owed: a dead token, or any outstanding borrow.
pub open spec fn spec_borrow_mut_at_abort(cells: Seq<CellV>, place: Place) -> Option<Abort> {
    let c = cells[place.cell as int];
    if !c.alive {
        Some(Abort::DeadToken)
    } else if c.exclusive || c.shared > 0 {
        Some(Abort::BorrowViolation)
    } else {
        None
    }
}

/// The base of the stack suffix the current function owns: entries below it
/// belong to callers and cannot be popped.
pub open spec fn spec_stack_base(c: CtxV) -> nat {
    spec_hard_base(c.frames)
}

/// The register base of the innermost function frame in a frame stack.
pub open spec fn spec_hard_register_base(frames: Seq<Frame>) -> nat
    decreases frames.len(),
{
    if frames.len() == 0 {
        0
    } else if frames.last().hard {
        frames.last().register_base as nat
    } else {
        spec_hard_register_base(frames.drop_last())
    }
}

/// The base of the register suffix the current function owns; register
/// indices in operations are relative to it, also from inside branch, loop
/// and scope bodies.
pub open spec fn spec_register_base(c: CtxV) -> nat {
    spec_hard_register_base(c.frames)
}

impl Context {
    /// The stack base of the current function frame.
    pub fn stack_base(&self) -> (r: usize)
        ensures
            r == spec_stack_base(self@),
    {
        let mut i: usize = self.frames.len();
        proof {
            assert(self@.frames.take(self@.frames.len() as int) =~= self@.frames);
        }
        while i > 0
            invariant
                0 <= i <= self@.frames.len(),
                spec_hard_base(self@.frames.take(i as int)) == spec_hard_base(self@.frames),
            decreases i,
        {
            if self.frames[i - 1].hard {
                proof {
                    assert(self@.frames.take(i as int).last() == self@.frames[i - 1]);
                }
                return self.frames[i - 1].stack_base;
            }
            proof {
                assert(self@.frames.take(i as int).last() == self@.frames[i - 1]);
                assert(self@.frames.take(i as int).drop_last() =~= self@.frames.take(i - 1));
            }
            i = i - 1;
        }
        proof {
            assert(self@.frames.take(0).len() == 0);
        }
        0
    }

    /// The register base of the current function frame.
    pub fn register_base(&self) -> (r: usize)
        ensures
            r == spec_register_base(self@),
    {
        let mut i: usize = self.frames.len();
        proof {
            assert(self@.frames.take(self@.frames.len() as int) =~= self@.frames);
        }
        while i > 0
            invariant
                0 <= i <= self@.frames.len(),
                spec_hard_register_base(self@.frames.take(i as int)) == spec_hard_register_base(
                    self@.frames,
                ),
            decreases i,
        {
            if self.frames[i - 1].hard {
                proof {
                    assert(self@.frames.take(i as int).last() == self@.frames[i - 1]);
                }
                return self.frames[i - 1].register_base;
            }
            proof {
                assert(self@.frames.take(i as int).last() == self@.frames[i - 1]);
                assert(self@.frames.take(i as int).drop_last() =~= self@.frames.take(i - 1));
            }
            i = i - 1;
        }
        proof {
            assert(self@.frames.take(0).len() == 0);
        }
        0
    }

    /// Push one record onto the data stack.
    pub fn push_entry(&mut self, e: StackEntry)
        requires
            old(self).wf(),
            entry_ok(e@, old(self)@.cells.len()),
        ensures
            final(self).wf(),
            final(self)@ == (CtxV { stack: old(self)@.stack.push(e@), ..old(self)@ }),
    {
        self.stack.push(e);
        proof {
            assert(self@.stack =~= old(self)@.stack.push(e@));
            assert(self@ =~= CtxV { stack: old(self)@.stack.push(e@), ..old(self)@ });
        }
    }

    /// Pop the top record of the stack suffix the current scope owns; popping
    /// past the scope's base is a stack underflow.
    pub fn pop_entry(&mut self) -> (r: Result<StackEntry, Abort>)
        requires
            old(self).wf(),
        ensures
            final(self).wf(),
            match r {
                Ok(e) => {
                    &&& old(self)@.stack.len() > spec_stack_base(old(self)@)
                    &&& e@ == old(self)@.stack.last()
                    &&& entry_ok(e@, old(self)@.cells.len())
                    &&& final(self)@ == (CtxV {
                        stack: old(self)@.stack.drop_last(),
                        ..old(self)@
                    })
                },
                Err(a) => {
                    &&& a == Abort::StackUnderflow
                    &&& old(self)@.stack.len() <= spec_stack_base(old(self)@)
                    &&& final(self)@ == old(self)@
                },
            },
    {
        let base = self.stack_base();
        if self.stack.len() > base {
            let e = self.stack.pop().unwrap();
            proof {
                assert(e@ == old(self).stack@[old(self).stack@.len() - 1]@);
                assert(old(self)@.stack.last() == old(self).stack@[old(self).stack@.len() - 1]@);
                assert(self@.stack =~= old(self)@.stack.drop_last());
                assert(self@ =~= CtxV { stack: old(self)@.stack.drop_last(), ..old(self)@ });
            }
            Ok(e)
        } else {
            proof {
                assert(final(self)@ =~= old(self)@);
            }
            Err(Abort::StackUnderflow)
        }
    }

    /// The payload type of a managed container: what a handle advertises to
    /// type checks. Strong handles read their cell's type; weak handles carry
    /// the type they were created with.
    pub open spec fn spec_value_type_hash(cells: Seq<CellV>, v: AnkhaValue) -> TypeHash {
        match v {
            AnkhaValue::Owned { cell } => cells[cell as int].type_hash,
            AnkhaValue::Ref { type_hash, .. } => type_hash,
            AnkhaValue::RefMut { type_hash, .. } => type_hash,
            AnkhaValue::Lazy { type_hash, .. } => type_hash,
            AnkhaValue::Box { cell } => cells[cell as int].type_hash,
        }
    }

    pub fn value_type_hash(&self, v: &AnkhaValue) -> (r: TypeHash)
        requires
            value_in_bounds(*v, self@.cells.len()),
        ensures
            r == Self::spec_value_type_hash(self@.cells, *v),
    {
        match v {
            AnkhaValue::Owned { cell } => self.cells[*cell].type_hash,
            AnkhaValue::Ref { type_hash, .. } => *type_hash,
            AnkhaValue::RefMut { type_hash, .. } => *type_hash,
            AnkhaValue::Lazy { type_hash, .. } => *type_hash,
            AnkhaValue::Box { cell } => self.cells[*cell].type_hash,
        }
    }

    /// Take a shared borrow on the cell a place points into. Fails on a dead
    /// token and while an exclusive borrow is outstanding.
    pub fn borrow_at(&mut self, place: Place, type_hash: TypeHash) -> (r: Result<AnkhaValue, Abort>)
        requires
            old(self).wf(),
            place.cell < old(self)@.cells.len(),
        ensures
            final(self).wf(),
            match r {
                Ok(v) => {
                    &&& old(self)@.cells[place.cell as int].alive
                    &&& !old(self)@.cells[place.cell as int].exclusive
                    &&& old(self)@.cells[place.cell as int].shared < u64::MAX
                    &&& v == (AnkhaValue::Ref { place, type_hash })
                    &&& final(self)@ == (CtxV {
                        cells: old(self)@.cells.update(
                            place.cell as int,
                            CellV {
                                shared: (old(self)@.cells[place.cell as int].shared + 1) as u64,
                                ..old(self)@.cells[place.cell as int]
                            },
                        ),
                        ..old(self)@
                    })
                },
                Err(a) => {
                    &&& final(self)@ == old(self)@
                    &&& spec_borrow_at_abort(old(self)@.cells, place) == Some(a)
                },
            },
            r is Ok <==> spec_borrow_at_abort(old(self)@.cells, place) is None,
    {
        let c = place.cell;
        if !self.cells[c].alive {
            proof {
                assert(final(self)@ =~= old(self)@);
            }
            Err(Abort::DeadToken)
        } else if self.cells[c].exclusive {
            proof {
                assert(final(self)@ =~= old(self)@);
            }
            Err(Abort::BorrowViolation)
        } else if self.cells[c].shared == u64::MAX {
            proof {
                assert(final(self)@ =~= old(self)@);
            }
            Err(Abort::Exhausted)
        } else {
            let s = self.cells[c].shared;
            self.cells[c].shared = s + 1;
            proof {
                lemma_release_wf(old(self)@, self@, c as int);
                assert(self@.cells =~= old(self)@.cells.update(
                    c as int,
                    CellV {
                        shared: (old(self)@.cells[c as int].shared + 1) as u64,
                        ..old(self)@.cells[c as int]
                    },
                ));
                assert(self@ =~= (CtxV {
                    cells: old(self)@.cells.update(
                        c as int,
                        CellV {
                            shared: (old(self)@.cells[c as int].shared + 1) as u64,
                            ..old(self)@.cells[c as int]
                        },
                    ),
                    ..old(self)@
                }));
            }
            Ok(AnkhaValue::Ref { place, type_hash })
        }
    }

    /// Take the exclusive borrow on the cell a place points into. Fails on a
    /// dead token and while any borrow is outstanding.
    pub fn borrow_mut_at(&mut self, place: Place, type_hash: TypeHash) -> (r: Result<
        AnkhaValue,
        Abort,
    >)
        requires
            old(self).wf(),
            place.cell < old(self)@.cells.len(),
        ensures
            final(self).wf(),
            match r {
                Ok(v) => {
                    &&& old(self)@.cells[place.cell as int].alive
                    &&& !old(self)@.cells[place.cell as int].exclusive
                    &&& old(self)@.cells[place.cell as int].shared == 0
                    &&& v == (AnkhaValue::RefMut { place, type_hash })
                    &&& final(self)@ == (CtxV {
                        cells: old(self)@.cells.update(
                            place.cell as int,
                            CellV { exclusive: true, ..old(self)@.cells[place.cell as int] },
                        ),
                        ..old(self)@
                    })
                },
                Err(a) => {
                    &&& final(self)@ == old(self)@
                    &&& spec_borrow_mut_at_abort(old(self)@.cells, place) == Some(a)
                },
            },
            r is Ok <==> spec_borrow_mut_at_abort(old(self)@.cells, place) is None,
    {
        let c = place.cell;
        if !self.cells[c].alive {
            proof {
                assert(final(self)@ =~= old(self)@);
            }
            Err(Abort::DeadToken)
        } else if self.cells[c].exclusive || self.cells[c].shared > 0 {
            proof {
                assert(final(self)@ =~= old(self)@);
            }
            Err(Abort::BorrowViolation)
        } else {
            self.cells[c].exclusive = true;
            proof {
                lemma_release_wf(old(self)@, self@, c as int);
                assert(self@.cells =~= old(self)@.cells.update(
                    c as int,
                    CellV { exclusive: true, ..old(self)@.cells[c as int] },
                ));
                assert(self@ =~= (CtxV {
                    cells: old(self)@.cells.update(
                        c as int,
                        CellV { exclusive: true, ..old(self)@.cells[c as int] },
                    ),
                    ..old(self)@
                }));
            }
            Ok(AnkhaValue::RefMut { place, type_hash })
        }
    }
}

/// Updating one cell's token and counters (never its managed slots, except to
/// clear the whole body) keeps a well-formed context well-formed.
pub proof fn lemma_release_wf(pre: CtxV, post: CtxV, i: int)
    requires
        ctx_wf(pre),
        0 <= i < pre.cells.len(),
        post.cells.len() == pre.cells.len(),
        forall|j: int| 0 <= j < pre.cells.len() && j != i ==> post.cells[j] == pre.cells[j],
        cell_ok(post.cells[i], post.cells.len()),
        post.stack == pre.stack,
        post.registers == pre.registers,
    ensures
        ctx_wf(post),
{
    assert forall|j: int| 0 <= j < post.cells.len() implies cell_ok(
        #[trigger] post.cells[j],
        post.cells.len(),
    ) by {
        if j != i {
            assert(cell_ok(pre.cells[j], pre.cells.len()));
        }
    }
    assert forall|j: int| 0 <= j < post.stack.len() implies entry_ok(
        #[trigger] post.stack[j],
        post.cells.len(),
    ) by {
        assert(entry_ok(pre.stack[j], pre.cells.len()));
    }
    assert forall|j: int| 0 <= j < post.registers.len() implies register_ok(
        #[trigger] post.registers[j],
        post.cells.len(),
    ) by {
        assert(register_ok(pre.registers[j], pre.cells.len()));
    }
}

/// Releasing a container never changes the arena's size: cells die in place.
pub broadcast proof fn lemma_release_len(cells: Seq<CellV>, v: AnkhaValue)
    requires
        value_in_bounds(v, cells.len()),
    ensures
        (#[trigger] spec_release(cells, v)) is Ok ==> spec_release(cells, v)->Ok_0.0.len()
            == cells.len(),
{
    match v {
        AnkhaValue::Owned { .. } => {},
        AnkhaValue::Ref { .. } => {},
        AnkhaValue::RefMut { .. } => {},
        AnkhaValue::Lazy { .. } => {},
        AnkhaValue::Box { .. } => {},
    }
}

/// Replacing one register slot with a well-formed one keeps the context
/// well-formed.
pub proof fn lemma_register_update_wf(pre: CtxV, post: CtxV, i: int)
    requires
        ctx_wf(pre),
        0 <= i < pre.registers.len(),
        post.cells == pre.cells,
        post.stack == pre.stack,
        post.registers.len() == pre.registers.len(),
        forall|j: int| 0 <= j < pre.registers.len() && j != i ==> post.registers[j] == pre.registers[j],
        register_ok(post.registers[i], post.cells.len()),
    ensures
        ctx_wf(post),
{
    assert forall|j: int| 0 <= j < post.registers.len() implies register_ok(
        #[trigger] post.registers[j],
        post.cells.len(),
    ) by {
        if j != i {
            assert(register_ok(pre.registers[j], pre.cells.len()));
        }
    }
}

/// Everything that stays inside a smaller arena stays inside a bigger one.
pub proof fn lemma_body_ok_grow(b: BodyV, n: nat, m: nat)
    requires
        body_ok(b, n),
        n <= m,
    ensures
        body_ok(b, m),
{
    match b {
        BodyV::Fields(slots) => {
            assert forall|i: int| 0 <= i < slots.len() implies slot_ok(#[trigger] slots[i], m) by {
                assert(slot_ok(slots[i], n));
            }
        },
        _ => {},
    }
}

pub proof fn lemma_cell_ok_grow(c: CellV, n: nat, m: nat)
    requires
        cell_ok(c, n),
        n <= m,
    ensures
        cell_ok(c, m),
{
    match c.body {
        Some(b) => lemma_body_ok_grow(b, n, m),
        None => {},
    }
}

} // verus!
