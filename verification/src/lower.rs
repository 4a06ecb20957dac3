//! Lowering scripts for evaluation: register names are resolved to
//! function-relative indices.
//!
//! Names are declared by `MakeRegister` and resolved to the index of the
//! first register declared with that name, in execution order. Groups share
//! their enclosing script's names; a reversed group is lowered in execution
//! order (its textual tail first) and comes out as a plain group, so that the
//! name table follows the order the operations actually run. Branch, loop
//! and scope bodies start a fresh table (each runs in its own scope). The
//! evaluator takes only resolved scripts: a name left behind is a register
//! error at run time.

use vstd::prelude::*;
use crate::abort::Abort;
use crate::script::{AnkhaOperation, AnkhaRegisterAddress};

verus! {

/// Whether one operation carries no unresolved register name.
pub open spec fn op_resolved(op: AnkhaOperation) -> bool
    decreases op, 0nat,
{
    match op {
        AnkhaOperation::Expression(_) => true,
        AnkhaOperation::Group(ops) => script_resolved(ops@),
        AnkhaOperation::GroupReversed(ops) => script_resolved(ops@),
        AnkhaOperation::MakeRegister { .. } => true,
        AnkhaOperation::DropRegister(a) => a is Index,
        AnkhaOperation::PushFromRegister(a) => a is Index,
        AnkhaOperation::PopToRegister(a) => a is Index,
        AnkhaOperation::CallFunction(_) => true,
        AnkhaOperation::BranchScope { script_success, script_failure } => {
            &&& script_resolved(script_success@)
            &&& match script_failure {
                Some(ops) => script_resolved(ops@),
                None => true,
            }
        },
        AnkhaOperation::LoopScope { script } => script_resolved(script@),
        AnkhaOperation::PushScope { script } => script_resolved(script@),
        AnkhaOperation::PopScope => true,
        AnkhaOperation::EnsureRegisterTypeAddressed { address, .. } => address is Index,
        AnkhaOperation::EnsureRegisterKindAddressed { address, .. } => address is Index,
    }
}

/// Whether a whole script carries no unresolved register name.
pub open spec fn script_resolved(ops: Seq<AnkhaOperation>) -> bool
    decreases ops, ops.len(),
{
    if ops.len() == 0 {
        true
    } else {
        op_resolved(ops[0]) && script_resolved(ops.drop_first())
    }
}

/// The index of the first declared register carrying `name`.
pub open spec fn spec_find_name(names: Seq<Option<String>>, name: String) -> Option<int>
    decreases names.len(),
{
    if names.len() == 0 {
        None
    } else if names[0] matches Some(n) && n@ == name@ {
        Some(0)
    } else {
        match spec_find_name(names.drop_first(), name) {
            Some(i) => Some(i + 1),
            None => None,
        }
    }
}

/// What a register address resolves to: an index passes through, a name
/// becomes the index of the first register declared with it, and an
/// undeclared name is a register fault.
pub open spec fn spec_resolve_name(
    names: Seq<Option<String>>,
    address: AnkhaRegisterAddress,
) -> Result<usize, Abort> {
    match address {
        AnkhaRegisterAddress::Index(i) => Ok(i),
        AnkhaRegisterAddress::Name(n) => match spec_find_name(names, n) {
            Some(i) => Ok(i as usize),
            None => Err(Abort::RegisterOutOfRange),
        },
    }
}

/// Name lookup depends only on the characters of the name.
proof fn lemma_find_name_congruent(names: Seq<Option<String>>, a: String, b: String)
    requires
        a@ == b@,
    ensures
        spec_find_name(names, a) == spec_find_name(names, b),
    decreases names.len(),
{
    if names.len() > 0 {
        lemma_find_name_congruent(names.drop_first(), a, b);
    }
}

proof fn lemma_find_name_prefix(names: Seq<Option<String>>, name: String, i: int)
    requires
        0 <= i <= names.len(),
        forall|j: int|
            0 <= j < i ==> !(#[trigger] names[j] matches Some(n) && n@ == name@),
    ensures
        spec_find_name(names, name) == match spec_find_name(names.skip(i), name) {
            Some(k) => Some(k + i),
            None => None::<int>,
        },
    decreases i,
{
    if i == 0 {
        assert(names.skip(0) =~= names);
    } else {
        lemma_find_name_prefix(names.drop_first(), name, i - 1);
        assert(names.drop_first().skip(i - 1) =~= names.skip(i));
    }
}

/// Resolve a register address against the names declared so far, exactly as
/// [`spec_resolve_name`] describes.
#[verifier::loop_isolation(false)]
fn resolve_name(names: &Vec<Option<String>>, address: &AnkhaRegisterAddress) -> (r: Result<
    usize,
    Abort,
>)
    ensures
        r == spec_resolve_name(names@, *address),
{
    match address {
        AnkhaRegisterAddress::Index(i) => Ok(*i),
        AnkhaRegisterAddress::Name(name) => {
            let mut i: usize = 0;
            while i < names.len()
                invariant
                    0 <= i <= names@.len(),
                    forall|j: int|
                        0 <= j < i ==> !(#[trigger] names@[j] matches Some(n) && n@ == name@),
                decreases names@.len() - i,
            {
                let hit = match &names[i] {
                    Some(n) => *n == *name,
                    None => false,
                };
                if hit {
                    proof {
                        lemma_find_name_prefix(names@, *name, i as int);
                        assert(names@.skip(i as int)[0] == names@[i as int]);
                        assert(names@.skip(i as int).len() > 0);
                        assert(spec_find_name(names@.skip(i as int), *name) == Some(0int));
                        assert(spec_find_name(names@, *name) == Some(i as int));
                        assert(address matches AnkhaRegisterAddress::Name(nn) && nn == *name);
                        assert(spec_resolve_name(names@, *address) == Ok::<usize, Abort>(i));
                    }
                    return Ok(i);
                }
                i = i + 1;
            }
            proof {
                lemma_find_name_prefix(names@, *name, names@.len() as int);
                assert(address matches AnkhaRegisterAddress::Name(nn) && nn == *name);
            }
            Err(Abort::RegisterOutOfRange)
        },
    }
}

/// Lower one operation; `names` is the enclosing script's register name
/// table, extended by every `MakeRegister` seen. Addresses are replaced by
/// the index of the first register declared with the name; a reversed group
/// is lowered in execution order and comes out as a plain group, so that
/// names accumulate in the order the operations run.
pub fn lower_operation(op: &AnkhaOperation, names: &mut Vec<Option<String>>) -> (r: Result<
    AnkhaOperation,
    Abort,
>)
    ensures
        old(names)@.is_prefix_of(final(names)@),
        r matches Ok(out) ==> {
            &&& op_resolved(out)
            &&& (*op matches AnkhaOperation::Expression(e) ==> out matches AnkhaOperation::Expression(
                e2,
            ) && crate::script::expr_equiv(e2, e))
            &&& (*op matches AnkhaOperation::Group(v) ==> out matches AnkhaOperation::Group(w)
                && w@.len() == v@.len())
            &&& (*op matches AnkhaOperation::GroupReversed(v) ==> out matches AnkhaOperation::Group(
                w,
            ) && w@.len() == v@.len())
            &&& (*op matches AnkhaOperation::MakeRegister { kind, name } ==> out == (
            AnkhaOperation::MakeRegister { kind, name }) && final(names)@ == old(names)@.push(
                name,
            ))
            &&& (*op matches AnkhaOperation::DropRegister(a) ==> spec_resolve_name(
                old(names)@,
                a,
            ) matches Ok(i) && out == AnkhaOperation::DropRegister(AnkhaRegisterAddress::Index(i)))
            &&& (*op matches AnkhaOperation::PushFromRegister(a) ==> spec_resolve_name(
                old(names)@,
                a,
            ) matches Ok(i) && out == AnkhaOperation::PushFromRegister(
                AnkhaRegisterAddress::Index(i),
            ))
            &&& (*op matches AnkhaOperation::PopToRegister(a) ==> spec_resolve_name(
                old(names)@,
                a,
            ) matches Ok(i) && out == AnkhaOperation::PopToRegister(
                AnkhaRegisterAddress::Index(i),
            ))
            &&& (*op matches AnkhaOperation::CallFunction(q) ==> out
                matches AnkhaOperation::CallFunction(q2) && crate::registry::fq_equiv(q2, q))
            &&& (*op is PopScope ==> out == (AnkhaOperation::PopScope))
            &&& (*op matches AnkhaOperation::BranchScope { script_success, script_failure } ==> out
                matches AnkhaOperation::BranchScope { script_success: s2, script_failure: f2 } && {
                &&& s2@.len() == script_success@.len()
                &&& (script_failure is Some <==> f2 is Some)
                &&& (script_failure matches Some(fv) ==> f2 matches Some(fv2) && fv2@.len()
                    == fv@.len())
            })
            &&& (*op matches AnkhaOperation::LoopScope { script } ==> out
                matches AnkhaOperation::LoopScope { script: w } && w@.len() == script@.len())
            &&& (*op matches AnkhaOperation::PushScope { script } ==> out
                matches AnkhaOperation::PushScope { script: w } && w@.len() == script@.len())
            &&& (*op matches AnkhaOperation::EnsureRegisterTypeAddressed { type_query, address }
                ==> spec_resolve_name(old(names)@, address) matches Ok(i) && out
                matches AnkhaOperation::EnsureRegisterTypeAddressed { type_query: q2, address: a2 }
                && q2 == type_query && a2 == (AnkhaRegisterAddress::Index(i)))
            &&& (*op matches AnkhaOperation::EnsureRegisterKindAddressed { kind, address }
                ==> spec_resolve_name(old(names)@, address) matches Ok(i) && out == (
            AnkhaOperation::EnsureRegisterKindAddressed {
                kind,
                address: AnkhaRegisterAddress::Index(i),
            }))
        },
    decreases *op, 0nat,
{
    proof {
        assert(old(names)@.take(old(names)@.len() as int) =~= old(names)@);
    }
    match op {
        AnkhaOperation::Expression(e) => Ok(AnkhaOperation::Expression(e.duplicate())),
        AnkhaOperation::Group(ops) => {
            match lower_operations(ops, 0, names) {
                Ok(out) => {
                    proof {
                        assert(op_resolved(AnkhaOperation::Group(out)));
                    }
                    Ok(AnkhaOperation::Group(out))
                },
                Err(a) => Err(a),
            }
        },
        AnkhaOperation::GroupReversed(ops) => {
            // execution order is the reverse of the textual order: lower that
            // way, so the name table follows the order the operations run
            match lower_operations_rev(ops, ops.len(), names) {
                Ok(out) => {
                    proof {
                        assert(op_resolved(AnkhaOperation::Group(out)));
                    }
                    Ok(AnkhaOperation::Group(out))
                },
                Err(a) => Err(a),
            }
        },
        AnkhaOperation::MakeRegister { kind, name } => {
            names.push(
                match name {
                    Some(n) => Some(n.clone()),
                    None => None,
                },
            );
            proof {
                assert(final(names)@.take(old(names)@.len() as int) =~= old(names)@);
            }
            Ok(
                AnkhaOperation::MakeRegister {
                    kind: *kind,
                    name: match name {
                        Some(n) => Some(n.clone()),
                        None => None,
                    },
                },
            )
        },
        AnkhaOperation::DropRegister(address) => {
            match resolve_name(names, address) {
                Ok(i) => Ok(AnkhaOperation::DropRegister(AnkhaRegisterAddress::Index(i))),
                Err(a) => Err(a),
            }
        },
        AnkhaOperation::PushFromRegister(address) => {
            match resolve_name(names, address) {
                Ok(i) => Ok(AnkhaOperation::PushFromRegister(AnkhaRegisterAddress::Index(i))),
                Err(a) => Err(a),
            }
        },
        AnkhaOperation::PopToRegister(address) => {
            match resolve_name(names, address) {
                Ok(i) => Ok(AnkhaOperation::PopToRegister(AnkhaRegisterAddress::Index(i))),
                Err(a) => Err(a),
            }
        },
        AnkhaOperation::CallFunction(q) => Ok(AnkhaOperation::CallFunction(q.duplicate())),
        AnkhaOperation::BranchScope { script_success, script_failure } => {
            let mut inner_names: Vec<Option<String>> = Vec::new();
            let success = match lower_operations(script_success, 0, &mut inner_names) {
                Ok(out) => out,
                Err(a) => {
                    return Err(a);
                },
            };
            let failure = match script_failure {
                Some(ops) => {
                    let mut inner_names2: Vec<Option<String>> = Vec::new();
                    match lower_operations(ops, 0, &mut inner_names2) {
                        Ok(out) => Some(out),
                        Err(a) => {
                            return Err(a);
                        },
                    }
                },
                None => None,
            };
            Ok(AnkhaOperation::BranchScope { script_success: success, script_failure: failure })
        },
        AnkhaOperation::LoopScope { script } => {
            let mut inner_names: Vec<Option<String>> = Vec::new();
            match lower_operations(script, 0, &mut inner_names) {
                Ok(out) => Ok(AnkhaOperation::LoopScope { script: out }),
                Err(a) => Err(a),
            }
        },
        AnkhaOperation::PushScope { script } => {
            let mut inner_names: Vec<Option<String>> = Vec::new();
            match lower_operations(script, 0, &mut inner_names) {
                Ok(out) => Ok(AnkhaOperation::PushScope { script: out }),
                Err(a) => Err(a),
            }
        },
        AnkhaOperation::PopScope => Ok(AnkhaOperation::PopScope),
        AnkhaOperation::EnsureRegisterTypeAddressed { type_query, address } => {
            match resolve_name(names, address) {
                Ok(i) => Ok(
                    AnkhaOperation::EnsureRegisterTypeAddressed {
                        type_query: type_query.duplicate(),
                        address: AnkhaRegisterAddress::Index(i),
                    },
                ),
                Err(a) => Err(a),
            }
        },
        AnkhaOperation::EnsureRegisterKindAddressed { kind, address } => {
            match resolve_name(names, address) {
                Ok(i) => Ok(
                    AnkhaOperation::EnsureRegisterKindAddressed {
                        kind: *kind,
                        address: AnkhaRegisterAddress::Index(i),
                    },
                ),
                Err(a) => Err(a),
            }
        },
    }
}

/// Lower the operations of `ops` from `idx` on, in order.
pub fn lower_operations(
    ops: &Vec<AnkhaOperation>,
    idx: usize,
    names: &mut Vec<Option<String>>,
) -> (r: Result<Vec<AnkhaOperation>, Abort>)
    requires
        idx <= ops@.len(),
    ensures
        old(names)@.is_prefix_of(final(names)@),
        r matches Ok(out) ==> script_resolved(out@) && out@.len() == ops@.len() - idx,
    decreases *ops, ops@.len() - idx,
{
    proof {
        assert(old(names)@.take(old(names)@.len() as int) =~= old(names)@);
    }
    if idx == ops.len() {
        let out: Vec<AnkhaOperation> = Vec::new();
        proof {
            assert(script_resolved(out@));
        }
        return Ok(out);
    }
    let head = match lower_operation(&ops[idx], names) {
        Ok(o) => o,
        Err(a) => {
            return Err(a);
        },
    };
    let ghost names_mid = names@;
    let rest = match lower_operations(ops, idx + 1, names) {
        Ok(o) => o,
        Err(a) => {
            proof {
                lemma_prefix_trans(old(names)@, names_mid, names@);
            }
            return Err(a);
        },
    };
    let ghost rest0 = rest@;
    let mut out: Vec<AnkhaOperation> = Vec::new();
    out.push(head);
    let mut rest_taken = rest;
    out.append(&mut rest_taken);
    proof {
        lemma_prefix_trans(old(names)@, names_mid, names@);
        assert(out@.drop_first() =~= rest0);
        lemma_script_resolved_parts(out@, rest0);
    }
    Ok(out)
}

/// Lower the operations of `ops` in execution order for a reversed group:
/// the textual tail first. The result is in execution order, ready to run as
/// a plain group.
pub fn lower_operations_rev(
    ops: &Vec<AnkhaOperation>,
    remaining: usize,
    names: &mut Vec<Option<String>>,
) -> (r: Result<Vec<AnkhaOperation>, Abort>)
    requires
        remaining <= ops@.len(),
    ensures
        old(names)@.is_prefix_of(final(names)@),
        r matches Ok(out) ==> script_resolved(out@) && out@.len() == remaining,
    decreases *ops, remaining,
{
    proof {
        assert(old(names)@.take(old(names)@.len() as int) =~= old(names)@);
    }
    if remaining == 0 {
        let out: Vec<AnkhaOperation> = Vec::new();
        proof {
            assert(script_resolved(out@));
        }
        return Ok(out);
    }
    let head = match lower_operation(&ops[remaining - 1], names) {
        Ok(o) => o,
        Err(a) => {
            return Err(a);
        },
    };
    let ghost names_mid = names@;
    let rest = match lower_operations_rev(ops, remaining - 1, names) {
        Ok(o) => o,
        Err(a) => {
            proof {
                lemma_prefix_trans(old(names)@, names_mid, names@);
            }
            return Err(a);
        },
    };
    let ghost rest0 = rest@;
    let mut out: Vec<AnkhaOperation> = Vec::new();
    out.push(head);
    let mut rest_taken = rest;
    out.append(&mut rest_taken);
    proof {
        lemma_prefix_trans(old(names)@, names_mid, names@);
        assert(out@.drop_first() =~= rest0);
        lemma_script_resolved_parts(out@, rest0);
    }
    Ok(out)
}

/// Prefixes compose.
proof fn lemma_prefix_trans(a: Seq<Option<String>>, b: Seq<Option<String>>, c: Seq<Option<String>>)
    requires
        a.is_prefix_of(b),
        b.is_prefix_of(c),
    ensures
        a.is_prefix_of(c),
{
    assert(b.take(a.len() as int) =~= a);
    assert(c.take(b.len() as int) =~= b);
    assert(c.take(a.len() as int) =~= a);
}

/// A script whose head is resolved and whose tail mirrors a resolved script is
/// resolved.
proof fn lemma_script_resolved_parts(out: Seq<AnkhaOperation>, rest: Seq<AnkhaOperation>)
    requires
        out.len() == rest.len() + 1,
        op_resolved(out[0]),
        out.drop_first() == rest,
        script_resolved(rest),
    ensures
        script_resolved(out),
{
    assert(out.drop_first() =~= rest);
}

} // verus!
