//! The general laws of the managed-value model, stated and proved over the
//! same views and transitions the operations' contracts use.

use vstd::prelude::*;
use crate::abort::Abort;
use crate::context::{ctx_wf, spec_release, value_in_bounds, CtxV};
use crate::kind::TypeHash;
use crate::value::{AnkhaValue, BodyV, CellV, EntryV};

verus! {

/// For every strong token, at any moment: the shared-borrow count is
/// non-negative, the exclusive-borrow count is zero or one, and the two are
/// never both positive. This holds of every well-formed context, and every
/// operation of the virtual machine preserves well-formedness.
pub proof fn lemma_borrow_discipline(c: CtxV, i: int)
    requires
        ctx_wf(c),
        0 <= i < c.cells.len(),
    ensures
        c.cells[i].shared >= 0,
        c.cells[i].exclusive ==> c.cells[i].shared == 0,
{
    assert(crate::context::cell_ok(c.cells[i], c.cells.len()));
}

/// Dropping an owned value runs its finalizer exactly once: the drop itself
/// contributes one finalizer event for the payload, the cell dies finalized,
/// and any further release of a handle to the same cell is a dead-token
/// fault that contributes no event.
pub proof fn lemma_finalizer_exactly_once(cells: Seq<CellV>, cell: usize)
    requires
        cell < cells.len(),
        cells[cell as int].alive,
        cells[cell as int].shared == 0,
        !cells[cell as int].exclusive,
        cells[cell as int].body is Some,
    ensures
        ({
            let r = spec_release(cells, AnkhaValue::Owned { cell });
            &&& r is Ok
            &&& r->Ok_0.1 == seq![cells[cell as int].type_hash]
            &&& !r->Ok_0.0[cell as int].alive
            &&& r->Ok_0.0[cell as int].finalized
            &&& spec_release(r->Ok_0.0, AnkhaValue::Owned { cell }) == Err::<
                (Seq<CellV>, Seq<TypeHash>),
                Abort,
            >(Abort::DeadToken)
        }),
{
}

/// Wrapping a raw record into a managed value and unwrapping it again gives
/// back the same type hash and bit-identical bytes, with the stack otherwise
/// as it was. `mid` is the context the `Manage` operation's contract
/// describes, `post` the one `Unmanage`'s contract then describes.
pub proof fn lemma_manage_unmanage_round_trip(
    pre: CtxV,
    mid: CtxV,
    post: CtxV,
    type_hash: TypeHash,
    bytes: Seq<u8>,
)
    requires
        pre.stack.len() > 0,
        pre.stack.last() == (EntryV::Raw { type_hash, bytes }),
        // what `Manage` guarantees
        mid.cells == pre.cells.push(
            CellV {
                type_hash,
                body: Some(BodyV::Raw(bytes)),
                alive: true,
                shared: 0,
                exclusive: false,
                finalized: false,
                boxed: false,
                box_refs: 0,
            },
        ),
        mid.stack == pre.stack.drop_last().push(
            EntryV::Value(AnkhaValue::Owned { cell: pre.cells.len() as usize }),
        ),
        // what `Unmanage` then guarantees
        mid.stack.last() matches EntryV::Value(AnkhaValue::Owned { cell }) && {
            let c = mid.cells[cell as int];
            &&& post.cells == mid.cells.update(
                cell as int,
                CellV { alive: false, body: None, ..c },
            )
            &&& post.stack == mid.stack.drop_last().push(
                EntryV::Raw { type_hash: c.type_hash, bytes: c.body->Some_0->Raw_0 },
            )
        },
        pre.cells.len() < usize::MAX,
    ensures
        // the record that comes back is bit-identical to the one put in
        post.stack == pre.stack,
        // and no finalizer ran on the payload: the cell was vacated by moving
        post.cells[pre.cells.len() as int].finalized == false,
{
    assert(mid.stack.last() == EntryV::Value(AnkhaValue::Owned { cell: pre.cells.len() as usize }));
    assert(post.stack =~= pre.stack);
}

/// Duplicating an owned value of a copy-capable type yields two values whose
/// payloads are bit-identical: comparing the copy's bytes with the
/// original's, byte for byte, finds them equal. `post` is the context the
/// `Copy` operation's contract describes.
pub proof fn lemma_copy_bitwise_equal(pre: CtxV, post: CtxV, cell: usize)
    requires
        cell < pre.cells.len(),
        // what `Copy` guarantees
        post.cells == pre.cells.push(
            CellV {
                type_hash: pre.cells[cell as int].type_hash,
                body: pre.cells[cell as int].body,
                alive: true,
                shared: 0,
                exclusive: false,
                finalized: false,
                boxed: false,
                box_refs: 0,
            },
        ),
    ensures
        post.cells.last().body == post.cells[cell as int].body,
        post.cells.last().type_hash == post.cells[cell as int].type_hash,
{
}

/// A reference into an unmanaged field pins the enclosing value's lifetime
/// token: while the field reference is outstanding (the token's shared count
/// is positive), the enclosing owned value cannot be dropped — its release is
/// a borrow violation and runs no finalizer. Releasing the field reference
/// first makes the drop possible again.
pub proof fn lemma_unmanaged_field_borrow_pins_token(cells: Seq<CellV>, cell: usize, fi: usize, th: TypeHash)
    requires
        cell < cells.len(),
        cells[cell as int].alive,
        cells[cell as int].shared > 0,
        !cells[cell as int].boxed,
    ensures
        // dropping the enclosing owned value now fails fast, with no event
        spec_release(cells, AnkhaValue::Owned { cell }) == Err::<
            (Seq<CellV>, Seq<TypeHash>),
            Abort,
        >(Abort::BorrowViolation),
        // giving the field reference back makes the counter drop by one
        ({
            let r = spec_release(
                cells,
                AnkhaValue::Ref {
                    place: crate::value::Place { cell, field: Some(fi) },
                    type_hash: th,
                },
            );
            &&& r is Ok
            &&& r->Ok_0.0[cell as int].shared == cells[cell as int].shared - 1
            &&& r->Ok_0.1 == Seq::<TypeHash>::empty()
        }),
{
}

/// Repeated releases of box handles to one cell, as the reference count runs
/// down.
pub open spec fn spec_release_box_n(cells: Seq<CellV>, cell: usize, n: nat) -> Result<
    (Seq<CellV>, Seq<TypeHash>),
    Abort,
>
    decreases n,
{
    if n == 0 {
        Ok((cells, Seq::empty()))
    } else {
        match spec_release(cells, AnkhaValue::Box { cell }) {
            Err(a) => Err(a),
            Ok((cells1, ev1)) => match spec_release_box_n(cells1, cell, (n - 1) as nat) {
                Err(a) => Err(a),
                Ok((cells2, ev2)) => Ok((cells2, ev1 + ev2)),
            },
        }
    }
}

/// A box whose cell counts `refs` references needs exactly `refs` releases to
/// finalize: any fewer leave the payload alive and run no finalizer; the last
/// one runs the finalizer exactly once. Since cloning a box raises the count
/// by one, a box with count `R` that is cloned `K` times needs `R + K` drops.
pub proof fn lemma_box_refcount_drops(cells: Seq<CellV>, cell: usize, m: nat)
    requires
        cell < cells.len(),
        cells[cell as int].alive,
        cells[cell as int].shared == 0,
        !cells[cell as int].exclusive,
        cells[cell as int].body is Some,
        !cells[cell as int].finalized,
        cells[cell as int].box_refs >= 1,
        m <= cells[cell as int].box_refs,
    ensures
        ({
            let r = spec_release_box_n(cells, cell, m);
            &&& r is Ok
            &&& if m < cells[cell as int].box_refs {
                // not the last reference: nothing is finalized
                &&& r->Ok_0.1 == Seq::<TypeHash>::empty()
                &&& r->Ok_0.0[cell as int].alive
                &&& !r->Ok_0.0[cell as int].finalized
                &&& r->Ok_0.0[cell as int].box_refs == cells[cell as int].box_refs - m
            } else {
                // the last reference finalizes the payload, exactly once
                &&& r->Ok_0.1 == seq![cells[cell as int].type_hash]
                &&& !r->Ok_0.0[cell as int].alive
                &&& r->Ok_0.0[cell as int].finalized
                &&& r->Ok_0.0[cell as int].box_refs == 0
            }
        }),
    decreases m,
{
    if m == 0 {
    } else {
        let r1 = spec_release(cells, AnkhaValue::Box { cell });
        assert(r1 is Ok);
        let cells1 = r1->Ok_0.0;
        if cells[cell as int].box_refs == 1 {
            assert(m == 1);
            assert(spec_release_box_n(cells1, cell, 0) == Ok::<
                (Seq<CellV>, Seq<TypeHash>),
                Abort,
            >((cells1, Seq::empty())));
            assert(r1->Ok_0.1 + Seq::<TypeHash>::empty() =~= seq![cells[cell as int].type_hash]);
        } else {
            assert(cells1 == cells.update(
                cell as int,
                CellV {
                    box_refs: (cells[cell as int].box_refs - 1) as u64,
                    ..cells[cell as int]
                },
            ));
            assert(r1->Ok_0.1 == Seq::<TypeHash>::empty());
            lemma_box_refcount_drops(cells1, cell, (m - 1) as nat);
            let rr = spec_release_box_n(cells1, cell, (m - 1) as nat);
            let r = spec_release_box_n(cells, cell, m);
            assert(r is Ok);
            assert(r->Ok_0.0 == rr->Ok_0.0);
            assert(r->Ok_0.1 == Seq::<TypeHash>::empty() + rr->Ok_0.1);
            assert(cells1[cell as int].box_refs == cells[cell as int].box_refs - 1);
            if m < cells[cell as int].box_refs {
                assert(rr->Ok_0.1 == Seq::<TypeHash>::empty());
                assert(r->Ok_0.1 =~= Seq::<TypeHash>::empty());
                assert(r->Ok_0.0[cell as int].box_refs == cells1[cell as int].box_refs - (m - 1));
            } else {
                assert(m == cells[cell as int].box_refs);
                assert(m - 1 == cells1[cell as int].box_refs);
                assert(rr->Ok_0.1 == seq![cells1[cell as int].type_hash]);
                assert(r->Ok_0.1 =~= seq![cells[cell as int].type_hash]);
            }
        }
    }
}

} // verus!
