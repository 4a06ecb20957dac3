//! The five-kind managed value model: containers, payload cells and the
//! places that references address.
//!
//! Payloads live in an arena of cells owned by the evaluation context. A cell
//! carries the payload, the strong side of its lifetime token (the `alive`
//! flag), the borrow counters, and — for boxes — the reference count. A
//! managed container is a small handle into that arena; derived references
//! are validated dynamically against the cell they were borrowed from.

use vstd::prelude::*;
use crate::kind::{AnkhaValueKind, TypeHash};

verus! {

/// The storage location a reference addresses: a whole cell payload, or one
/// field slot of a struct payload.
#[derive(Debug, Clone, Copy, PartialEq, Eq, Structural)]
pub struct Place {
    pub cell: usize,
    pub field: Option<usize>,
}

/// A managed container: one value of one of the five kinds.
///
/// `Owned` and `Box` are the strong side of a lifetime token (the cell they
/// name); `Ref`, `RefMut` and `Lazy` are weak handles bound to the cell they
/// were derived from, remembering the type hash of the data they address.
#[derive(Debug, Clone, Copy, PartialEq, Eq, Structural)]
pub enum AnkhaValue {
    Owned { cell: usize },
    Ref { place: Place, type_hash: TypeHash },
    RefMut { place: Place, type_hash: TypeHash },
    Lazy { place: Place, type_hash: TypeHash },
    Box { cell: usize },
}

impl AnkhaValue {
    /// The ownership role of this container.
    pub open spec fn spec_kind(&self) -> AnkhaValueKind {
        match self {
            AnkhaValue::Owned { .. } => AnkhaValueKind::Owned,
            AnkhaValue::Ref { .. } => AnkhaValueKind::Ref,
            AnkhaValue::RefMut { .. } => AnkhaValueKind::RefMut,
            AnkhaValue::Lazy { .. } => AnkhaValueKind::Lazy,
            AnkhaValue::Box { .. } => AnkhaValueKind::Box,
        }
    }

    pub fn kind(&self) -> (r: AnkhaValueKind)
        ensures
            r == self.spec_kind(),
    {
        match self {
            AnkhaValue::Owned { .. } => AnkhaValueKind::Owned,
            AnkhaValue::Ref { .. } => AnkhaValueKind::Ref,
            AnkhaValue::RefMut { .. } => AnkhaValueKind::RefMut,
            AnkhaValue::Lazy { .. } => AnkhaValueKind::Lazy,
            AnkhaValue::Box { .. } => AnkhaValueKind::Box,
        }
    }

    /// The arena cell this container is tied to: its own cell for the strong
    /// kinds, the borrowed-from cell for the weak kinds.
    pub open spec fn spec_cell(&self) -> usize {
        match self {
            AnkhaValue::Owned { cell } => *cell,
            AnkhaValue::Ref { place, .. } => place.cell,
            AnkhaValue::RefMut { place, .. } => place.cell,
            AnkhaValue::Lazy { place, .. } => place.cell,
            AnkhaValue::Box { cell } => *cell,
        }
    }

    pub fn cell(&self) -> (r: usize)
        ensures
            r == self.spec_cell(),
    {
        match self {
            AnkhaValue::Owned { cell } => *cell,
            AnkhaValue::Ref { place, .. } => place.cell,
            AnkhaValue::RefMut { place, .. } => place.cell,
            AnkhaValue::Lazy { place, .. } => place.cell,
            AnkhaValue::Box { cell } => *cell,
        }
    }
}

/// One field slot of a struct payload: either raw (unmanaged) bytes of a
/// declared type, or a whole managed container.
#[derive(Debug, Clone, PartialEq, Eq)]
pub enum Slot {
    Raw { type_hash: TypeHash, bytes: Vec<u8> },
    Managed(AnkhaValue),
}

/// Specification view of a [`Slot`].
#[verifier::ext_equal]
pub enum SlotV {
    Raw { type_hash: TypeHash, bytes: Seq<u8> },
    Managed(AnkhaValue),
}

impl View for Slot {
    type V = SlotV;

    open spec fn view(&self) -> SlotV {
        match self {
            Slot::Raw { type_hash, bytes } => SlotV::Raw { type_hash: *type_hash, bytes: bytes@ },
            Slot::Managed(v) => SlotV::Managed(*v),
        }
    }
}

/// The payload of a cell: raw bytes for the numeric primitives and for
/// host-registered plain types, text for strings, or one slot per field for
/// struct types.
#[derive(Debug, Clone, PartialEq, Eq)]
pub enum Body {
    Raw(Vec<u8>),
    Text(String),
    Fields(Vec<Slot>),
}

/// Specification view of a [`Body`].
#[verifier::ext_equal]
pub enum BodyV {
    Raw(Seq<u8>),
    Text(Seq<char>),
    Fields(Seq<SlotV>),
}

impl View for Body {
    type V = BodyV;

    open spec fn view(&self) -> BodyV {
        match self {
            Body::Raw(bytes) => BodyV::Raw(bytes@),
            Body::Text(text) => BodyV::Text(text@),
            Body::Fields(slots) => BodyV::Fields(slots@.map_values(|s: Slot| s@)),
        }
    }
}

/// One arena cell: a payload of a given type together with the strong side of
/// its lifetime token and its borrow counters.
///
/// `alive` is the token: dropping the strong side clears it and every derived
/// handle becomes invalid. `shared` counts outstanding shared borrows;
/// `exclusive` records the outstanding exclusive borrow. `finalized` records
/// that the payload's finalizer has run; it is set at most once, when the
/// cell dies with a payload still in place. `box_refs` is the reference count
/// for box cells and zero for all others.
#[derive(Debug, Clone, PartialEq, Eq)]
pub struct Cell {
    pub type_hash: TypeHash,
    pub body: Option<Body>,
    pub alive: bool,
    pub shared: u64,
    pub exclusive: bool,
    pub finalized: bool,
    pub boxed: bool,
    pub box_refs: u64,
}

/// Specification view of a [`Cell`].
#[verifier::ext_equal]
pub struct CellV {
    pub type_hash: TypeHash,
    pub body: Option<BodyV>,
    pub alive: bool,
    pub shared: u64,
    pub exclusive: bool,
    pub finalized: bool,
    pub boxed: bool,
    pub box_refs: u64,
}

impl View for Cell {
    type V = CellV;

    open spec fn view(&self) -> CellV {
        CellV {
            type_hash: self.type_hash,
            body: match &self.body {
                Some(b) => Some(b@),
                None => None,
            },
            alive: self.alive,
            shared: self.shared,
            exclusive: self.exclusive,
            finalized: self.finalized,
            boxed: self.boxed,
            box_refs: self.box_refs,
        }
    }
}

/// Copy a byte vector with an exact contract.
pub fn clone_bytes(bytes: &Vec<u8>) -> (r: Vec<u8>)
    ensures
        r@ == bytes@,
{
    let mut out: Vec<u8> = Vec::new();
    let mut i: usize = 0;
    while i < bytes.len()
        invariant
            0 <= i <= bytes@.len(),
            out@ == bytes@.subrange(0, i as int),
        decreases bytes@.len() - i,
    {
        out.push(bytes[i]);
        proof {
            assert(out@ =~= bytes@.subrange(0, i + 1));
        }
        i = i + 1;
    }
    proof {
        assert(out@ =~= bytes@);
    }
    out
}

impl Slot {
    /// Copy one slot, payload included.
    pub fn duplicate(&self) -> (r: Slot)
        ensures
            r@ == self@,
    {
        match self {
            Slot::Raw { type_hash, bytes } => Slot::Raw {
                type_hash: *type_hash,
                bytes: clone_bytes(bytes),
            },
            Slot::Managed(v) => Slot::Managed(*v),
        }
    }
}

impl Body {
    /// Copy a whole payload, slot by slot.
    pub fn duplicate(&self) -> (r: Body)
        ensures
            r@ == self@,
    {
        match self {
            Body::Raw(bytes) => Body::Raw(clone_bytes(bytes)),
            Body::Text(s) => Body::Text(s.clone()),
            Body::Fields(slots) => {
                let mut out: Vec<Slot> = Vec::new();
                let mut i: usize = 0;
                while i < slots.len()
                    invariant
                        0 <= i <= slots@.len(),
                        out@.len() == i,
                        forall|j: int| 0 <= j < i ==> (#[trigger] out@[j])@ == slots@[j]@,
                    decreases slots@.len() - i,
                {
                    out.push(slots[i].duplicate());
                    i = i + 1;
                }
                proof {
                    assert(out@.map_values(|s: Slot| s@) =~= slots@.map_values(|s: Slot| s@));
                }
                Body::Fields(out)
            },
        }
    }
}

/// One record on the data stack: a managed container, or a raw (unmanaged)
/// record of a declared type, as produced by `Unmanage` and by
/// `StackUnwrapBoolean`.
#[derive(Debug, Clone, PartialEq, Eq)]
pub enum StackEntry {
    Value(AnkhaValue),
    Raw { type_hash: TypeHash, bytes: Vec<u8> },
}

/// Specification view of a [`StackEntry`].
#[verifier::ext_equal]
pub enum EntryV {
    Value(AnkhaValue),
    Raw { type_hash: TypeHash, bytes: Seq<u8> },
}

impl View for StackEntry {
    type V = EntryV;

    open spec fn view(&self) -> EntryV {
        match self {
            StackEntry::Value(v) => EntryV::Value(*v),
            StackEntry::Raw { type_hash, bytes } => EntryV::Raw {
                type_hash: *type_hash,
                bytes: bytes@,
            },
        }
    }
}

/// A register slot: declared for one kind (or `Any` for function inputs) and
/// holding at most one managed container.
#[derive(Debug, Clone, Copy, PartialEq, Eq, Structural)]
pub struct Register {
    pub kind: AnkhaValueKind,
    pub value: Option<AnkhaValue>,
}

/// A scope frame: the stack and register lengths recorded on entry, restored
/// (with finalizers run on everything above them) on exit. A `hard` frame is
/// a function boundary: the stack below it cannot be popped from inside.
/// Branch, loop and scope bodies push soft frames: they unwind on exit but
/// may consume values their enclosing function put on the stack.
#[derive(Debug, Clone, Copy, PartialEq, Eq, Structural)]
pub struct Frame {
    pub stack_base: usize,
    pub register_base: usize,
    pub hard: bool,
}

} // verus!
