//! End-to-end scripts through the virtual machine, with a small host that
//! supplies integer and float arithmetic as native functions.

use ankha::abort::Abort;
use ankha::context::Context;
use ankha::eval::{call_function, eval_script, invoke, literal_from_body, AnkhaHost, Flow};
use ankha::install::{install_core_types, register_struct, FieldDecl};
use ankha::kind::{AnkhaValueKind, Visibility, TH_BOOL, TH_I32};
use ankha::literal::AnkhaLiteral;
use ankha::lower::lower_operations;
use ankha::registry::{
    AnkhaFieldQuery, AnkhaFunctionParameter, AnkhaFunctionQuery, AnkhaTypeQuery, FieldInit, FnBody,
    FunctionDef, HostPassing, Registry,
};
use ankha::script::{AnkhaExpression, AnkhaOperation, AnkhaRegisterAddress};
use ankha::value::{AnkhaValue, Body, StackEntry};

const TH_FOO: u64 = 100;
const TH_PAIR: u64 = 101;

const HOST_ADD: u64 = 1;
const HOST_SUB: u64 = 2;
const HOST_MUL: u64 = 3;
const HOST_EQ: u64 = 4;
const HOST_UNMANAGED_ADD: u64 = 5;
const HOST_FADD: u64 = 10;
const HOST_FSUB: u64 = 11;
const HOST_FMUL: u64 = 12;
const HOST_FDIV: u64 = 13;

struct TestHost;

impl AnkhaHost for TestHost {
    fn call(&mut self, id: u64, args: Vec<AnkhaLiteral>) -> Result<Vec<AnkhaLiteral>, Abort> {
        let i32_arg = |k: usize| -> Result<i32, Abort> {
            match args.get(k) {
                Some(AnkhaLiteral::I32(v)) => Ok(*v),
                _ => Err(Abort::HostFailure),
            }
        };
        let f64_arg = |k: usize| -> Result<f64, Abort> {
            match args.get(k) {
                Some(AnkhaLiteral::F64Bits(v)) => Ok(f64::from_bits(*v)),
                _ => Err(Abort::HostFailure),
            }
        };
        match id {
            HOST_ADD | HOST_UNMANAGED_ADD => {
                Ok(vec![AnkhaLiteral::I32(i32_arg(0)? + i32_arg(1)?)])
            }
            HOST_SUB => Ok(vec![AnkhaLiteral::I32(i32_arg(0)? - i32_arg(1)?)]),
            HOST_MUL => Ok(vec![AnkhaLiteral::I32(i32_arg(0)? * i32_arg(1)?)]),
            HOST_EQ => Ok(vec![AnkhaLiteral::Bool(i32_arg(0)? == i32_arg(1)?)]),
            HOST_FADD => Ok(vec![AnkhaLiteral::F64Bits(
                (f64_arg(0)? + f64_arg(1)?).to_bits(),
            )]),
            HOST_FSUB => Ok(vec![AnkhaLiteral::F64Bits(
                (f64_arg(0)? - f64_arg(1)?).to_bits(),
            )]),
            HOST_FMUL => Ok(vec![AnkhaLiteral::F64Bits(
                (f64_arg(0)? * f64_arg(1)?).to_bits(),
            )]),
            HOST_FDIV => Ok(vec![AnkhaLiteral::F64Bits(
                (f64_arg(0)? / f64_arg(1)?).to_bits(),
            )]),
            _ => Err(Abort::HostFailure),
        }
    }
}

fn owned_param(name: &str) -> AnkhaFunctionParameter {
    AnkhaFunctionParameter {
        name: name.to_string(),
        kind: AnkhaValueKind::Owned,
    }
}

fn host_fn(
    name: &str,
    module: &str,
    id: u64,
    passing: HostPassing,
    inputs: Vec<AnkhaFunctionParameter>,
    outputs: Vec<AnkhaFunctionParameter>,
) -> FunctionDef {
    FunctionDef {
        name: name.to_string(),
        module_name: Some(module.to_string()),
        owner: None,
        visibility: Visibility::Public,
        inputs,
        outputs,
        body: FnBody::Host { id, passing },
    }
}

fn test_registry() -> Registry {
    let mut reg = Registry::new();
    install_core_types(&mut reg).unwrap();
    for (name, id) in [("add", HOST_ADD), ("sub", HOST_SUB), ("mul", HOST_MUL)] {
        reg.add_function(host_fn(
            name,
            "intrinsics",
            id,
            HostPassing::Owned,
            vec![owned_param("a"), owned_param("b")],
            vec![owned_param("result")],
        ));
    }
    reg.add_function(host_fn(
        "eq",
        "intrinsics",
        HOST_EQ,
        HostPassing::Owned,
        vec![owned_param("a"), owned_param("b")],
        vec![owned_param("result")],
    ));
    reg.add_function(host_fn(
        "unmanaged_add",
        "intrinsics",
        HOST_UNMANAGED_ADD,
        HostPassing::Raw,
        vec![owned_param("a"), owned_param("b")],
        vec![owned_param("result")],
    ));
    for (name, id) in [
        ("fadd", HOST_FADD),
        ("fsub", HOST_FSUB),
        ("fmul", HOST_FMUL),
        ("fdiv", HOST_FDIV),
    ] {
        reg.add_function(host_fn(
            name,
            "floats",
            id,
            HostPassing::Owned,
            vec![owned_param("a"), owned_param("b")],
            vec![owned_param("result")],
        ));
    }
    // Foo { a: Owned = 40, b: Box = 2 }
    register_struct(
        &mut reg,
        "Foo",
        Some("test"),
        Visibility::Public,
        TH_FOO,
        false,
        vec![
            FieldDecl {
                name: "a".to_string(),
                visibility: Visibility::Public,
                kind: AnkhaValueKind::Owned,
                type_hash: 0,
                init: FieldInit::Owned(AnkhaLiteral::I32(40)),
            },
            FieldDecl {
                name: "b".to_string(),
                visibility: Visibility::Public,
                kind: AnkhaValueKind::Box,
                type_hash: 0,
                init: FieldInit::Boxed(AnkhaLiteral::I32(2)),
            },
        ],
    )
    .unwrap();
    // Pair { x: Owned, y: Owned }, both must be supplied
    register_struct(
        &mut reg,
        "Pair",
        Some("test"),
        Visibility::Public,
        TH_PAIR,
        false,
        vec![
            FieldDecl {
                name: "x".to_string(),
                visibility: Visibility::Public,
                kind: AnkhaValueKind::Owned,
                type_hash: 0,
                init: FieldInit::Required,
            },
            FieldDecl {
                name: "y".to_string(),
                visibility: Visibility::Public,
                kind: AnkhaValueKind::Owned,
                type_hash: 0,
                init: FieldInit::Required,
            },
        ],
    )
    .unwrap();
    reg
}

fn expr(e: AnkhaExpression) -> AnkhaOperation {
    AnkhaOperation::Expression(e)
}

fn lit(l: AnkhaLiteral) -> AnkhaOperation {
    expr(AnkhaExpression::Literal(l))
}

fn call(name: &str, module: &str) -> AnkhaOperation {
    AnkhaOperation::CallFunction(AnkhaFunctionQuery {
        name: Some(name.to_string()),
        module_name: Some(module.to_string()),
        owner: None,
        visibility: None,
        inputs: vec![],
        outputs: vec![],
    })
}

fn run(ctx: &mut Context, reg: &Registry, script: Vec<AnkhaOperation>) -> Result<Flow, Abort> {
    let mut names = Vec::new();
    let lowered = lower_operations(&script, 0, &mut names)?;
    let mut host = TestHost;
    eval_script(ctx, reg, &mut host, &lowered, 0, 1_000_000)
}

fn pop_owned_literal(ctx: &mut Context) -> AnkhaLiteral {
    match ctx.stack.pop().expect("stack should not be empty") {
        StackEntry::Value(AnkhaValue::Owned { cell }) => {
            let th = ctx.cells[cell].type_hash;
            let body = ctx.cells[cell].body.as_ref().expect("payload should be present");
            literal_from_body(th, body).expect("payload should decode")
        }
        other => panic!("expected an owned value, got {:?}", other),
    }
}

fn type_query(type_hash: u64) -> AnkhaTypeQuery {
    AnkhaTypeQuery {
        name: None,
        module_name: None,
        type_hash: Some(type_hash),
        visibility: None,
    }
}

#[test]
fn test_script() {
    let reg = test_registry();
    let mut ctx = Context::new();

    // push 40 and 2, call add, expect one owned 42
    let script = vec![
        lit(AnkhaLiteral::I32(40)),
        expr(AnkhaExpression::EnsureStackType { type_query: type_query(TH_I32) }),
        lit(AnkhaLiteral::I32(2)),
        expr(AnkhaExpression::EnsureStackType { type_query: type_query(TH_I32) }),
        call("add", "intrinsics"),
        expr(AnkhaExpression::EnsureStackType { type_query: type_query(TH_I32) }),
    ];
    run(&mut ctx, &reg, script).unwrap();
    assert_eq!(pop_owned_literal(&mut ctx), AnkhaLiteral::I32(42));
    assert_eq!(ctx.stack.len(), 0);

    // the same sum through raw records and a raw-passing native
    let script = vec![
        lit(AnkhaLiteral::I32(40)),
        expr(AnkhaExpression::Unmanage),
        lit(AnkhaLiteral::I32(2)),
        expr(AnkhaExpression::Unmanage),
        call("unmanaged_add", "intrinsics"),
        expr(AnkhaExpression::Manage),
        expr(AnkhaExpression::EnsureStackType { type_query: type_query(TH_I32) }),
    ];
    run(&mut ctx, &reg, script).unwrap();
    assert_eq!(pop_owned_literal(&mut ctx), AnkhaLiteral::I32(42));

    // borrow a struct, read its field, add, and move the sum back in
    let script = vec![
        expr(AnkhaExpression::Structure {
            type_query: type_query(TH_FOO),
            fields: vec![],
        }),
        expr(AnkhaExpression::Borrow),
        expr(AnkhaExpression::Swap),
        expr(AnkhaExpression::BorrowField {
            name: "a".to_string(),
            kind: AnkhaValueKind::Owned,
            visibility: None,
        }),
        expr(AnkhaExpression::CopyFrom),
        expr(AnkhaExpression::EnsureStackType { type_query: type_query(TH_I32) }),
        lit(AnkhaLiteral::I32(2)),
        call("add", "intrinsics"),
        expr(AnkhaExpression::EnsureStackType { type_query: type_query(TH_I32) }),
    ];
    run(&mut ctx, &reg, script).unwrap();
    assert_eq!(pop_owned_literal(&mut ctx), AnkhaLiteral::I32(42));
    ctx = Context::new();

    // the same through registers: stash the struct, compute, move into field
    let script = vec![
        AnkhaOperation::MakeRegister {
            kind: AnkhaValueKind::Owned,
            name: Some("r".to_string()),
        },
        expr(AnkhaExpression::Structure {
            type_query: type_query(TH_FOO),
            fields: vec![],
        }),
        expr(AnkhaExpression::Borrow),
        AnkhaOperation::PopToRegister(AnkhaRegisterAddress::Name("r".to_string())),
        expr(AnkhaExpression::BorrowField {
            name: "a".to_string(),
            kind: AnkhaValueKind::Owned,
            visibility: None,
        }),
        expr(AnkhaExpression::CopyFrom),
        lit(AnkhaLiteral::I32(2)),
        call("add", "intrinsics"),
        AnkhaOperation::PushFromRegister(AnkhaRegisterAddress::Name("r".to_string())),
        expr(AnkhaExpression::BorrowMut),
        AnkhaOperation::PopToRegister(AnkhaRegisterAddress::Index(0)),
        expr(AnkhaExpression::BorrowMutField {
            name: "a".to_string(),
            kind: AnkhaValueKind::Owned,
            visibility: None,
        }),
        expr(AnkhaExpression::Swap),
        expr(AnkhaExpression::MoveInto),
        AnkhaOperation::PushFromRegister(AnkhaRegisterAddress::Index(0)),
    ];
    run(&mut ctx, &reg, script).unwrap();
    // the register-stashed struct is back: borrow its field and read 42
    let script = vec![
        expr(AnkhaExpression::Borrow),
        expr(AnkhaExpression::Swap),
        expr(AnkhaExpression::BorrowField {
            name: "a".to_string(),
            kind: AnkhaValueKind::Owned,
            visibility: None,
        }),
        expr(AnkhaExpression::CopyFrom),
    ];
    run(&mut ctx, &reg, script).unwrap();
    assert_eq!(pop_owned_literal(&mut ctx), AnkhaLiteral::I32(42));
}

#[test]
fn arithmetic_leaves_one_owned_result() {
    let reg = test_registry();
    let mut ctx = Context::new();
    let script = vec![
        lit(AnkhaLiteral::I32(40)),
        lit(AnkhaLiteral::I32(2)),
        call("add", "intrinsics"),
    ];
    run(&mut ctx, &reg, script).unwrap();
    assert_eq!(ctx.stack.len(), 1);
    assert_eq!(pop_owned_literal(&mut ctx), AnkhaLiteral::I32(42));
}

fn factorial_def() -> FunctionDef {
    let body = vec![
        AnkhaOperation::PushFromRegister(AnkhaRegisterAddress::Index(0)),
        expr(AnkhaExpression::Copy),
        AnkhaOperation::PopToRegister(AnkhaRegisterAddress::Index(0)),
        expr(AnkhaExpression::Copy),
        lit(AnkhaLiteral::I32(1)),
        call("eq", "intrinsics"),
        expr(AnkhaExpression::StackUnwrapBoolean),
        AnkhaOperation::BranchScope {
            script_success: vec![
                expr(AnkhaExpression::StackDrop),
                lit(AnkhaLiteral::I32(1)),
            ],
            script_failure: Some(vec![
                lit(AnkhaLiteral::I32(1)),
                expr(AnkhaExpression::Swap),
                call("sub", "intrinsics"),
                call("factorial", "test"),
                AnkhaOperation::PushFromRegister(AnkhaRegisterAddress::Index(0)),
                call("mul", "intrinsics"),
            ]),
        },
    ];
    let mut names = Vec::new();
    let lowered = lower_operations(&body, 0, &mut names).unwrap();
    FunctionDef {
        name: "factorial".to_string(),
        module_name: Some("test".to_string()),
        owner: None,
        visibility: Visibility::Public,
        inputs: vec![owned_param("n")],
        outputs: vec![owned_param("result")],
        body: FnBody::Script(lowered),
    }
}

#[test]
fn factorial_of_five_is_one_hundred_twenty() {
    let mut reg = test_registry();
    reg.add_function(factorial_def());
    let mut ctx = Context::new();
    let mut host = TestHost;
    run(&mut ctx, &reg, vec![lit(AnkhaLiteral::I32(5))]).unwrap();
    let q = AnkhaFunctionQuery {
        name: Some("factorial".to_string()),
        module_name: Some("test".to_string()),
        owner: None,
        visibility: None,
        inputs: vec![],
        outputs: vec![],
    };
    invoke(&mut ctx, &reg, &mut host, &q, 1_000_000).unwrap();
    assert_eq!(ctx.stack.len(), 1);
    assert_eq!(pop_owned_literal(&mut ctx), AnkhaLiteral::I32(120));
}

#[test]
fn borrow_then_exclusive_borrow_is_a_borrow_violation() {
    let reg = test_registry();
    let mut ctx = Context::new();
    // the shared borrow sits below the original; borrowing the original
    // exclusively now conflicts with it
    let r = run(
        &mut ctx,
        &reg,
        vec![
            lit(AnkhaLiteral::I32(7)),
            expr(AnkhaExpression::Borrow),
            expr(AnkhaExpression::BorrowMut),
        ],
    );
    assert_eq!(r, Err(Abort::BorrowViolation));
    // asking a shared reference itself for an exclusive borrow is a kind fault
    let mut ctx = Context::new();
    let r = run(
        &mut ctx,
        &reg,
        vec![
            lit(AnkhaLiteral::I32(7)),
            expr(AnkhaExpression::Borrow),
            expr(AnkhaExpression::Swap),
            expr(AnkhaExpression::BorrowMut),
        ],
    );
    assert_eq!(r, Err(Abort::KindMismatch));
}

#[test]
fn empty_function_with_declared_output_underflows() {
    let mut reg = test_registry();
    reg.add_function(FunctionDef {
        name: "nothing".to_string(),
        module_name: Some("test".to_string()),
        owner: None,
        visibility: Visibility::Public,
        inputs: vec![],
        outputs: vec![owned_param("result")],
        body: FnBody::Script(vec![]),
    });
    reg.add_function(FunctionDef {
        name: "really_nothing".to_string(),
        module_name: Some("test".to_string()),
        owner: None,
        visibility: Visibility::Public,
        inputs: vec![],
        outputs: vec![],
        body: FnBody::Script(vec![]),
    });
    let mut ctx = Context::new();
    let mut host = TestHost;
    let q = AnkhaFunctionQuery {
        name: Some("nothing".to_string()),
        module_name: Some("test".to_string()),
        owner: None,
        visibility: None,
        inputs: vec![],
        outputs: vec![],
    };
    assert_eq!(
        invoke(&mut ctx, &reg, &mut host, &q, 1000),
        Err(Abort::StackUnderflow)
    );
    // with no declared outputs the empty script returns nothing, cleanly
    let q2 = AnkhaFunctionQuery {
        name: Some("really_nothing".to_string()),
        module_name: Some("test".to_string()),
        owner: None,
        visibility: None,
        inputs: vec![],
        outputs: vec![],
    };
    let mut ctx = Context::new();
    invoke(&mut ctx, &reg, &mut host, &q2, 1000).unwrap();
    assert_eq!(ctx.stack.len(), 0);
}

#[test]
fn loop_with_false_condition_runs_one_pass() {
    let reg = test_registry();
    let mut ctx = Context::new();
    let script = vec![AnkhaOperation::LoopScope {
        script: vec![
            // one pass's side effect: an owned value created and unwound
            lit(AnkhaLiteral::I32(9)),
            lit(AnkhaLiteral::Bool(false)),
            expr(AnkhaExpression::StackUnwrapBoolean),
        ],
    }];
    run(&mut ctx, &reg, script).unwrap();
    assert_eq!(ctx.stack.len(), 0);
    // the pass ran: the boolean was consumed and the stray value finalized
    assert_eq!(ctx.finalized.len(), 2);
}

#[test]
fn branch_without_failure_body_is_a_no_op_on_false() {
    let reg = test_registry();
    let mut ctx = Context::new();
    let script = vec![
        lit(AnkhaLiteral::Bool(false)),
        expr(AnkhaExpression::StackUnwrapBoolean),
        AnkhaOperation::BranchScope {
            script_success: vec![lit(AnkhaLiteral::I32(1))],
            script_failure: None,
        },
    ];
    run(&mut ctx, &reg, script).unwrap();
    assert_eq!(ctx.stack.len(), 0);
}

#[test]
fn calculator_expression_evaluates_to_13_point_8() {
    let reg = test_registry();
    let mut ctx = Context::new();
    let f = |v: f64| AnkhaLiteral::F64Bits(v.to_bits());
    // (3 + 4) * 2 - 1 / 5, arranged as reversed groups calling the operators
    let script = vec![AnkhaOperation::GroupReversed(vec![
        call("fsub", "floats"),
        AnkhaOperation::GroupReversed(vec![
            call("fmul", "floats"),
            AnkhaOperation::GroupReversed(vec![
                call("fadd", "floats"),
                lit(f(3.0)),
                lit(f(4.0)),
            ]),
            lit(f(2.0)),
        ]),
        AnkhaOperation::GroupReversed(vec![
            call("fdiv", "floats"),
            lit(f(1.0)),
            lit(f(5.0)),
        ]),
    ])];
    run(&mut ctx, &reg, script).unwrap();
    assert_eq!(ctx.stack.len(), 1);
    let expected = (3.0_f64 + 4.0) * 2.0 - 1.0 / 5.0;
    assert_eq!(pop_owned_literal(&mut ctx), f(expected));
    assert!((expected - 13.8).abs() < 1e-12);
}

#[test]
fn manage_unmanage_round_trip_is_bit_identical() {
    let reg = test_registry();
    let mut ctx = Context::new();
    run(&mut ctx, &reg, vec![lit(AnkhaLiteral::I32(42))]).unwrap();
    let bytes_before = match &ctx.stack[0] {
        StackEntry::Value(AnkhaValue::Owned { cell }) => match &ctx.cells[*cell].body {
            Some(Body::Raw(b)) => b.clone(),
            _ => panic!("expected raw payload"),
        },
        _ => panic!("expected owned value"),
    };
    run(
        &mut ctx,
        &reg,
        vec![expr(AnkhaExpression::Unmanage), expr(AnkhaExpression::Manage)],
    )
    .unwrap();
    assert_eq!(pop_owned_literal(&mut ctx), AnkhaLiteral::I32(42));
    match &ctx.cells[ctx.cells.len() - 1].body {
        Some(Body::Raw(b)) => assert_eq!(*b, bytes_before),
        _ => panic!("expected raw payload"),
    }
}

#[test]
fn box_cloned_once_needs_two_drops_to_finalize() {
    let reg = test_registry();
    let mut ctx = Context::new();
    run(
        &mut ctx,
        &reg,
        vec![
            lit(AnkhaLiteral::I32(5)),
            expr(AnkhaExpression::Box),
            expr(AnkhaExpression::DuplicateBox),
        ],
    )
    .unwrap();
    let cell = match &ctx.stack[0] {
        StackEntry::Value(AnkhaValue::Box { cell }) => *cell,
        _ => panic!("expected box"),
    };
    assert_eq!(ctx.cells[cell].box_refs, 2);
    let log_before = ctx.finalized.len();
    run(&mut ctx, &reg, vec![expr(AnkhaExpression::StackDrop)]).unwrap();
    assert!(ctx.cells[cell].alive);
    assert!(!ctx.cells[cell].finalized);
    assert_eq!(ctx.finalized.len(), log_before);
    run(&mut ctx, &reg, vec![expr(AnkhaExpression::StackDrop)]).unwrap();
    assert!(!ctx.cells[cell].alive);
    assert!(ctx.cells[cell].finalized);
    assert_eq!(ctx.finalized.len(), log_before + 1);
}

#[test]
fn structure_then_destructure_returns_fields_in_order() {
    let reg = test_registry();
    let mut ctx = Context::new();
    let script = vec![
        lit(AnkhaLiteral::I32(1)),
        lit(AnkhaLiteral::I32(2)),
        expr(AnkhaExpression::Structure {
            type_query: type_query(TH_PAIR),
            fields: vec!["y".to_string(), "x".to_string()],
        }),
        expr(AnkhaExpression::Destructure {
            fields: vec!["x".to_string(), "y".to_string()],
        }),
    ];
    run(&mut ctx, &reg, script).unwrap();
    assert_eq!(ctx.stack.len(), 2);
    // popping yields the fields in listed (declaration) order
    assert_eq!(pop_owned_literal(&mut ctx), AnkhaLiteral::I32(1));
    assert_eq!(pop_owned_literal(&mut ctx), AnkhaLiteral::I32(2));
}

#[test]
fn copy_produces_byte_equal_values() {
    let reg = test_registry();
    let mut ctx = Context::new();
    run(
        &mut ctx,
        &reg,
        vec![lit(AnkhaLiteral::I32(37)), expr(AnkhaExpression::Copy)],
    )
    .unwrap();
    assert_eq!(ctx.stack.len(), 2);
    let a = pop_owned_literal(&mut ctx);
    let b = pop_owned_literal(&mut ctx);
    assert_eq!(a, b);
    assert_eq!(a, AnkhaLiteral::I32(37));
}

#[test]
fn unmanaged_field_borrow_keeps_the_enclosing_token_alive() {
    let mut reg = test_registry();
    // a plain-data struct with one raw i32 field
    register_struct(
        &mut reg,
        "Cellule",
        Some("test"),
        Visibility::Public,
        102,
        false,
        vec![FieldDecl {
            name: "n".to_string(),
            visibility: Visibility::Public,
            kind: AnkhaValueKind::Any,
            type_hash: TH_I32,
            init: FieldInit::Raw(vec![7, 0, 0, 0]),
        }],
    )
    .unwrap();
    let mut ctx = Context::new();
    let script = vec![
        expr(AnkhaExpression::Structure {
            type_query: type_query(102),
            fields: vec![],
        }),
        expr(AnkhaExpression::Borrow),
        expr(AnkhaExpression::Swap),
        expr(AnkhaExpression::BorrowUnmanagedField {
            query: AnkhaFieldQuery {
                name: "n".to_string(),
                kind: AnkhaValueKind::Any,
                type_hash: None,
                visibility: None,
            },
        }),
    ];
    run(&mut ctx, &reg, script).unwrap();
    // stack: the owned struct below, the field reference on top; while the
    // reference lives, dropping the struct is a borrow violation
    let r = run(
        &mut ctx,
        &reg,
        vec![expr(AnkhaExpression::Swap), expr(AnkhaExpression::StackDrop)],
    );
    assert_eq!(r, Err(Abort::BorrowViolation));
    // reading through the reference sees the field's bytes
    let r = run(
        &mut ctx,
        &reg,
        vec![expr(AnkhaExpression::Swap), expr(AnkhaExpression::CopyFrom)],
    );
    r.unwrap();
    assert_eq!(pop_owned_literal(&mut ctx), AnkhaLiteral::I32(7));
    // the reference was consumed by the copy: the drop now succeeds
    run(&mut ctx, &reg, vec![expr(AnkhaExpression::StackDrop)]).unwrap();
}

#[test]
fn ensure_operations_check_types_and_kinds() {
    let reg = test_registry();
    let mut ctx = Context::new();
    let r = run(
        &mut ctx,
        &reg,
        vec![
            lit(AnkhaLiteral::I32(1)),
            expr(AnkhaExpression::EnsureStackType { type_query: type_query(TH_BOOL) }),
        ],
    );
    assert_eq!(r, Err(Abort::TypeMismatch));
    let mut ctx = Context::new();
    let r = run(
        &mut ctx,
        &reg,
        vec![
            lit(AnkhaLiteral::I32(1)),
            expr(AnkhaExpression::EnsureStackKind { kind: AnkhaValueKind::Ref }),
        ],
    );
    assert_eq!(r, Err(Abort::KindMismatch));
    let mut ctx = Context::new();
    run(
        &mut ctx,
        &reg,
        vec![
            lit(AnkhaLiteral::I32(1)),
            expr(AnkhaExpression::EnsureStackKind { kind: AnkhaValueKind::Owned }),
        ],
    )
    .unwrap();
}

#[test]
fn get_function_and_call_indirect_dispatch() {
    let reg = test_registry();
    let mut ctx = Context::new();
    let script = vec![
        lit(AnkhaLiteral::I32(40)),
        lit(AnkhaLiteral::I32(2)),
        expr(AnkhaExpression::GetFunction {
            query: AnkhaFunctionQuery {
                name: Some("add".to_string()),
                module_name: Some("intrinsics".to_string()),
                owner: None,
                visibility: None,
                inputs: vec![],
                outputs: vec![],
            },
        }),
        expr(AnkhaExpression::CallIndirect),
    ];
    run(&mut ctx, &reg, script).unwrap();
    assert_eq!(pop_owned_literal(&mut ctx), AnkhaLiteral::I32(42));
}

#[test]
fn call_function_by_index_leaves_declared_outputs() {
    let reg = test_registry();
    let mut ctx = Context::new();
    let mut host = TestHost;
    run(
        &mut ctx,
        &reg,
        vec![lit(AnkhaLiteral::I32(20)), lit(AnkhaLiteral::I32(22))],
    )
    .unwrap();
    let (fidx, _) = reg
        .find_function(&AnkhaFunctionQuery {
            name: Some("add".to_string()),
            module_name: None,
            owner: None,
            visibility: None,
            inputs: vec![],
            outputs: vec![],
        })
        .unwrap();
    call_function(&mut ctx, &reg, &mut host, fidx, 1000).unwrap();
    assert_eq!(ctx.stack.len(), 1);
    assert_eq!(pop_owned_literal(&mut ctx), AnkhaLiteral::I32(42));
}
