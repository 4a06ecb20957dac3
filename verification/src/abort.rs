//! The failure taxonomy. Every runtime failure is a fatal abort: evaluation
//! stops and the abort is surfaced to the host, which decides what to do.

use vstd::prelude::*;

verus! {

/// The reason an evaluation aborted.
#[derive(Debug, Clone, Copy, PartialEq, Eq, Structural)]
pub enum Abort {
    /// An operation received a value of the wrong ownership kind.
    KindMismatch,
    /// An ensure-assertion failed, or data did not have the expected type.
    TypeMismatch,
    /// A field was missing, or a struct was expected and something else found.
    ShapeMismatch,
    /// A shared borrow while an exclusive one is outstanding, or vice versa,
    /// or a strong token dropped while borrows are outstanding.
    BorrowViolation,
    /// A reference was used whose strong token has been dropped.
    DeadToken,
    /// No registered type or function matched a query.
    RegistryMiss,
    /// A pop from an empty stack.
    StackUnderflow,
    /// A register address outside the allocated register file.
    RegisterOutOfRange,
    /// A box without payload was used, or a non-default-initializable struct
    /// was constructed without all of its fields.
    InitializationError,
    /// The step budget handed to the evaluator ran out.
    Exhausted,
    /// A host function reported failure.
    HostFailure,
}

} // verus!
