//! Scripts: the flat operation lists the virtual machine evaluates.
//!
//! An expression is a leaf operation transforming the data stack; an
//! operation adds control flow (groups, scopes, loops, branches), register
//! handling and function calls. Nested sub-scripts are part of the operation
//! tree.

use vstd::prelude::*;
use crate::kind::{AnkhaValueKind, Visibility};
use crate::literal::AnkhaLiteral;
use crate::registry::{AnkhaFieldQuery, AnkhaFunctionQuery, AnkhaTypeQuery};

verus! {

/// A leaf operation on the evaluation context.
#[derive(Debug, Clone, PartialEq, Eq)]
pub enum AnkhaExpression {
    /// Push a freshly allocated owned value holding the literal.
    Literal(AnkhaLiteral),
    /// Pop and drop the top value, running its finalizer.
    StackDrop,
    /// Pop a managed boolean of any kind and push the raw boolean record that
    /// branches and loops consume.
    StackUnwrapBoolean,
    /// Borrow the top value; push the shared borrow, then the original back
    /// on top of it.
    Borrow,
    /// Borrow the top value exclusively; push the borrow, then the original.
    BorrowMut,
    /// Take a lazy handle of the top value; push it, then the original.
    Lazy,
    /// Pop a referable (not owned) struct value and push a shared borrow of
    /// the managed container held by the named field.
    BorrowField { name: String, kind: AnkhaValueKind, visibility: Option<Visibility> },
    /// Pop a referable (not owned, not shared) struct value and push an
    /// exclusive borrow of the managed container held by the named field.
    BorrowMutField { name: String, kind: AnkhaValueKind, visibility: Option<Visibility> },
    /// Pop a referable struct value and push a shared borrow of the raw
    /// bytes of the matched unmanaged field, bound to the enclosing value's
    /// lifetime token.
    BorrowUnmanagedField { query: AnkhaFieldQuery },
    /// The exclusive form of `BorrowUnmanagedField`.
    BorrowMutUnmanagedField { query: AnkhaFieldQuery },
    /// Pop a reference-like value and push a fresh owned bitwise copy of its
    /// payload; the type must be copy-capable.
    CopyFrom,
    /// Pop an owned value, then a mutable target (exclusive reference or
    /// lazy); drop the target's payload and move the popped bytes in.
    MoveInto,
    /// Pop an owned value, then a mutable target (exclusive reference, lazy
    /// or box) of the same type; swap their payloads, dropping neither.
    SwapIn,
    /// Consume an owned struct and push the managed containers of the named
    /// fields, in reverse declaration order, leaving safe defaults behind.
    Destructure { fields: Vec<String> },
    /// Allocate an owned struct of the queried type, popping one managed
    /// value per listed field (in reverse listed order) into the fields.
    Structure { type_query: AnkhaTypeQuery, fields: Vec<String> },
    /// Promote the top owned value to a box.
    Box,
    /// Wrap the top raw record into an owned managed value.
    Manage,
    /// Unwrap the top owned managed value into a raw record.
    Unmanage,
    /// Duplicate the top owned value (the type must be copy-capable); push
    /// the original, then the copy.
    Copy,
    /// Exchange the top two stack records.
    Swap,
    /// Clone the top box (reference count increases by one); push the clone,
    /// then the original.
    DuplicateBox,
    /// Abort unless the top managed value has the queried type.
    EnsureStackType { type_query: AnkhaTypeQuery },
    /// Abort unless the indexed register holds a value of the queried type.
    EnsureRegisterType { type_query: AnkhaTypeQuery, index: usize },
    /// Abort unless the top managed value has the given kind.
    EnsureStackKind { kind: AnkhaValueKind },
    /// Abort unless the indexed register holds a value of the given kind.
    EnsureRegisterKind { kind: AnkhaValueKind, index: usize },
    /// Dispatch on the top value's payload type: find the first function
    /// owned by that type which the query matches, and call it.
    CallMethod { function_query: AnkhaFunctionQuery },
    /// Pop a function handle from the stack and call the function it names.
    CallIndirect,
    /// Find a type and push a reflection handle to it.
    GetType { query: AnkhaTypeQuery },
    /// Find a function and push a reflection handle to it.
    GetFunction { query: AnkhaFunctionQuery },
}

/// Copy a list of names exactly.
pub fn duplicate_names(names: &Vec<String>) -> (r: Vec<String>)
    ensures
        r@ == names@,
{
    let mut out: Vec<String> = Vec::new();
    let mut i: usize = 0;
    while i < names.len()
        invariant
            0 <= i <= names@.len(),
            out@ == names@.take(i as int),
        decreases names@.len() - i,
    {
        out.push(names[i].clone());
        proof {
            assert(out@ =~= names@.take(i + 1));
        }
        i = i + 1;
    }
    proof {
        assert(out@ =~= names@);
    }
    out
}

/// Whether two expressions are the same operation: equal, with name lists and
/// function-query parameter lists compared element for element.
pub open spec fn expr_equiv(a: AnkhaExpression, b: AnkhaExpression) -> bool {
    match (a, b) {
        (
            AnkhaExpression::Destructure { fields: f1 },
            AnkhaExpression::Destructure { fields: f2 },
        ) => f1@ == f2@,
        (
            AnkhaExpression::Structure { type_query: q1, fields: f1 },
            AnkhaExpression::Structure { type_query: q2, fields: f2 },
        ) => q1 == q2 && f1@ == f2@,
        (
            AnkhaExpression::CallMethod { function_query: q1 },
            AnkhaExpression::CallMethod { function_query: q2 },
        ) => crate::registry::fq_equiv(q1, q2),
        (
            AnkhaExpression::GetFunction { query: q1 },
            AnkhaExpression::GetFunction { query: q2 },
        ) => crate::registry::fq_equiv(q1, q2),
        _ => a == b,
    }
}

impl AnkhaExpression {
    /// Copy an expression, field for field.
    pub fn duplicate(&self) -> (r: AnkhaExpression)
        ensures
            expr_equiv(r, *self),
    {
        match self {
            AnkhaExpression::Literal(l) => AnkhaExpression::Literal(l.duplicate()),
            AnkhaExpression::StackDrop => AnkhaExpression::StackDrop,
            AnkhaExpression::StackUnwrapBoolean => AnkhaExpression::StackUnwrapBoolean,
            AnkhaExpression::Borrow => AnkhaExpression::Borrow,
            AnkhaExpression::BorrowMut => AnkhaExpression::BorrowMut,
            AnkhaExpression::Lazy => AnkhaExpression::Lazy,
            AnkhaExpression::BorrowField { name, kind, visibility } => AnkhaExpression::BorrowField {
                name: name.clone(),
                kind: *kind,
                visibility: *visibility,
            },
            AnkhaExpression::BorrowMutField { name, kind, visibility } => {
                AnkhaExpression::BorrowMutField {
                    name: name.clone(),
                    kind: *kind,
                    visibility: *visibility,
                }
            },
            AnkhaExpression::BorrowUnmanagedField { query } => {
                AnkhaExpression::BorrowUnmanagedField { query: query.duplicate() }
            },
            AnkhaExpression::BorrowMutUnmanagedField { query } => {
                AnkhaExpression::BorrowMutUnmanagedField { query: query.duplicate() }
            },
            AnkhaExpression::CopyFrom => AnkhaExpression::CopyFrom,
            AnkhaExpression::MoveInto => AnkhaExpression::MoveInto,
            AnkhaExpression::SwapIn => AnkhaExpression::SwapIn,
            AnkhaExpression::Destructure { fields } => AnkhaExpression::Destructure {
                fields: duplicate_names(fields),
            },
            AnkhaExpression::Structure { type_query, fields } => AnkhaExpression::Structure {
                type_query: type_query.duplicate(),
                fields: duplicate_names(fields),
            },
            AnkhaExpression::Box => AnkhaExpression::Box,
            AnkhaExpression::Manage => AnkhaExpression::Manage,
            AnkhaExpression::Unmanage => AnkhaExpression::Unmanage,
            AnkhaExpression::Copy => AnkhaExpression::Copy,
            AnkhaExpression::Swap => AnkhaExpression::Swap,
            AnkhaExpression::DuplicateBox => AnkhaExpression::DuplicateBox,
            AnkhaExpression::EnsureStackType { type_query } => AnkhaExpression::EnsureStackType {
                type_query: type_query.duplicate(),
            },
            AnkhaExpression::EnsureRegisterType { type_query, index } => {
                AnkhaExpression::EnsureRegisterType {
                    type_query: type_query.duplicate(),
                    index: *index,
                }
            },
            AnkhaExpression::EnsureStackKind { kind } => AnkhaExpression::EnsureStackKind {
                kind: *kind,
            },
            AnkhaExpression::EnsureRegisterKind { kind, index } => {
                AnkhaExpression::EnsureRegisterKind { kind: *kind, index: *index }
            },
            AnkhaExpression::CallMethod { function_query } => AnkhaExpression::CallMethod {
                function_query: function_query.duplicate(),
            },
            AnkhaExpression::CallIndirect => AnkhaExpression::CallIndirect,
            AnkhaExpression::GetType { query } => AnkhaExpression::GetType {
                query: query.duplicate(),
            },
            AnkhaExpression::GetFunction { query } => AnkhaExpression::GetFunction {
                query: query.duplicate(),
            },
        }
    }
}

/// How an operation addresses a register: by index within the current scope,
/// or by the name given to `MakeRegister` (resolved to an index when the
/// script is lowered).
#[derive(Debug, Clone, PartialEq, Eq)]
pub enum AnkhaRegisterAddress {
    Index(usize),
    Name(String),
}

/// One operation of a script.
#[derive(Debug)]
pub enum AnkhaOperation {
    /// Evaluate one leaf expression.
    Expression(AnkhaExpression),
    /// Evaluate the operations in order.
    Group(Vec<AnkhaOperation>),
    /// Evaluate the operations in reverse order (how call-with-arguments
    /// compositions are arranged).
    GroupReversed(Vec<AnkhaOperation>),
    /// Allocate a register of the given kind at the top of the current
    /// scope, optionally naming it.
    MakeRegister { kind: AnkhaValueKind, name: Option<String> },
    /// Drop the addressed register's value, running its finalizer.
    DropRegister(AnkhaRegisterAddress),
    /// Move the addressed register's value onto the stack, emptying it.
    PushFromRegister(AnkhaRegisterAddress),
    /// Pop the top stack value into the addressed register, dropping what the
    /// register held.
    PopToRegister(AnkhaRegisterAddress),
    /// Resolve a function by query and call it.
    CallFunction(AnkhaFunctionQuery),
    /// Pop a raw boolean; run `script_success` when it is true, otherwise
    /// `script_failure` when present (a false discriminant with no failure
    /// body is a no-op).
    BranchScope { script_success: Vec<AnkhaOperation>, script_failure: Option<Vec<AnkhaOperation>> },
    /// Repeatedly run the body in a fresh sub-scope; at the end of each pass
    /// pop a raw boolean: true continues, false exits the loop.
    LoopScope { script: Vec<AnkhaOperation> },
    /// Run the body in a fresh scope, unwinding it afterwards.
    PushScope { script: Vec<AnkhaOperation> },
    /// End the current scope before its body ends (an early return).
    PopScope,
    /// `EnsureRegisterType` with a possibly named register address.
    EnsureRegisterTypeAddressed { type_query: AnkhaTypeQuery, address: AnkhaRegisterAddress },
    /// `EnsureRegisterKind` with a possibly named register address.
    EnsureRegisterKindAddressed { kind: AnkhaValueKind, address: AnkhaRegisterAddress },
}

/// A script: a flat, ordered list of operations.
pub type AnkhaScript = Vec<AnkhaOperation>;

} // verus!
