use websnark_rs::ast::{BinOpKind, Expr, Function, Stmt};
use websnark_rs::circuit::{Circuit, CircuitError};
use websnark_rs::field::{FieldElement, Fr};
use websnark_rs::interpreter::execute_function;
use websnark_rs::rt_ctx::{RTCtx, DEFAULT_FUEL};
use websnark_rs::strmap::StrMap;
use websnark_rs::value::Value;

fn empty_circuit() -> Circuit {
    Circuit {
        n_pub_inputs: 0,
        n_prv_inputs: 0,
        n_inputs: 0,
        n_outputs: 0,
        n_vars: 0,
        n_signals: 1,
        n_constants: 0,
        signal_name2_idx: StrMap::new(),
        component_name2_idx: StrMap::new(),
        signals: vec![],
        components: vec![],
        templates: StrMap::new(),
        functions: StrMap::new(),
    }
}

fn n(v: u64) -> Expr {
    Expr::NumberLit(Fr::from_u64(v))
}

fn var(name: &str) -> Expr {
    Expr::GetVar(name.to_string(), vec![])
}

fn set(name: &str, e: Expr) -> Expr {
    Expr::SetVar(name.to_string(), vec![], Box::new(e))
}

fn bin(op: BinOpKind, a: Expr, b: Expr) -> Expr {
    Expr::BinOp { op, lhs: Box::new(a), rhs: Box::new(b) }
}

fn run(body: Vec<Stmt>, fuel: u64) -> Result<Value, CircuitError> {
    let c = empty_circuit();
    let t = StrMap::new();
    let mut ctx = RTCtx::new(&c, &t);
    execute_function(&mut ctx, &Function { body }, fuel)
}

fn num(v: u64) -> Value {
    Value::from_u64(v)
}

#[test]
fn function_without_return_gives_zero() {
    assert_eq!(run(vec![Stmt::Expr(set("x", n(3)))], DEFAULT_FUEL).unwrap(), num(0));
}

#[test]
fn while_loop_sums() {
    // s = 0; i = 0; while (i < 5) { s = s + i; i = i + 1 }; return s
    let body = vec![
        Stmt::Expr(set("s", n(0))),
        Stmt::Expr(set("i", n(0))),
        Stmt::While {
            cond: bin(BinOpKind::Lt, var("i"), n(5)),
            body: Box::new(Stmt::Block(vec![
                Stmt::Expr(set("s", bin(BinOpKind::Add, var("s"), var("i")))),
                Stmt::Expr(set("i", bin(BinOpKind::Add, var("i"), n(1)))),
            ])),
        },
        Stmt::Return(var("s")),
    ];
    assert_eq!(run(body, DEFAULT_FUEL).unwrap(), num(10));
}

#[test]
fn for_loop_fills_array() {
    // for (i = 0; i < 3; i = i + 1) a[i] = i * i; return a
    let body = vec![
        Stmt::For {
            init: set("i", n(0)),
            cond: bin(BinOpKind::Lt, var("i"), n(3)),
            update: set("i", bin(BinOpKind::Add, var("i"), n(1))),
            body: Box::new(Stmt::Expr(Expr::SetVar(
                "a".to_string(),
                vec![var("i")],
                Box::new(bin(BinOpKind::Mul, var("i"), var("i"))),
            ))),
        },
        Stmt::Return(var("a")),
    ];
    assert_eq!(run(body, DEFAULT_FUEL).unwrap(), Value::Array(vec![num(0), num(1), num(4)]));
}

#[test]
fn loop_beyond_step_budget_stops() {
    let body = vec![Stmt::While { cond: n(1), body: Box::new(Stmt::Block(vec![])) }];
    assert!(matches!(run(body, 10), Err(CircuitError::StepLimitExceeded)));
}

#[test]
fn if_else_and_ternary() {
    let body = vec![
        Stmt::If {
            cond: bin(BinOpKind::Gt, n(2), n(3)),
            then: Box::new(Stmt::Return(n(1))),
            else_: Some(Box::new(Stmt::Return(Expr::Ternary {
                cond: Box::new(bin(BinOpKind::Eq, n(4), n(4))),
                then: Box::new(n(7)),
                else_: Box::new(n(8)),
            }))),
        },
    ];
    assert_eq!(run(body, DEFAULT_FUEL).unwrap(), num(7));
}

#[test]
fn field_arithmetic_wraps() {
    // 0 - 1 is p - 1.
    let body = vec![Stmt::Return(bin(BinOpKind::Sub, n(0), n(1)))];
    let p_minus_one =
        FieldElement::fr_from_text("21888242871839275222246405745257275088548364400416034343698204186575808495616").unwrap();
    assert_eq!(run(body, DEFAULT_FUEL).unwrap(), Value::Fr(p_minus_one));
}

#[test]
fn integer_division_and_bit_operations() {
    assert_eq!(run(vec![Stmt::Return(bin(BinOpKind::Div, n(17), n(5)))], DEFAULT_FUEL).unwrap(), num(3));
    assert_eq!(run(vec![Stmt::Return(bin(BinOpKind::Shl, n(3), n(4)))], DEFAULT_FUEL).unwrap(), num(48));
    assert_eq!(run(vec![Stmt::Return(bin(BinOpKind::Shr, n(50), n(2)))], DEFAULT_FUEL).unwrap(), num(12));
    assert_eq!(run(vec![Stmt::Return(bin(BinOpKind::And, n(12), n(10)))], DEFAULT_FUEL).unwrap(), num(8));
    assert_eq!(run(vec![Stmt::Return(bin(BinOpKind::Neq, n(1), n(2)))], DEFAULT_FUEL).unwrap(), num(1));
    // `x % p` and `x & mask` leave x as it is.
    assert_eq!(run(vec![Stmt::Return(bin(BinOpKind::Mod, n(9), Expr::PrimeConst))], DEFAULT_FUEL).unwrap(), num(9));
    assert_eq!(run(vec![Stmt::Return(bin(BinOpKind::And, n(9), Expr::MaskConst))], DEFAULT_FUEL).unwrap(), num(9));
}

#[test]
fn division_by_zero_is_an_error() {
    let body = vec![Stmt::Return(bin(BinOpKind::Div, n(1), n(0)))];
    assert!(matches!(run(body, DEFAULT_FUEL), Err(CircuitError::RuntimeError(_))));
}

#[test]
fn inverse_and_power() {
    let inv = Expr::Inverse(Box::new(n(2)), Box::new(Expr::PrimeConst));
    let two_inv = run(vec![Stmt::Return(inv)], DEFAULT_FUEL).unwrap().into_fr().unwrap();
    let prod = bin(BinOpKind::Mul, Expr::NumberLit(two_inv), n(2));
    assert_eq!(run(vec![Stmt::Return(prod)], DEFAULT_FUEL).unwrap(), num(1));
    let zero_inv = Expr::Inverse(Box::new(n(0)), Box::new(Expr::PrimeConst));
    assert!(matches!(run(vec![Stmt::Return(zero_inv)], DEFAULT_FUEL), Err(CircuitError::InvalidInverse)));
    let pw = Expr::ModPow(Box::new(n(3)), Box::new(n(4)), Box::new(Expr::PrimeConst));
    assert_eq!(run(vec![Stmt::Return(pw)], DEFAULT_FUEL).unwrap(), num(81));
}

#[test]
fn logical_or_short_circuits() {
    // The right side would fail, but is not evaluated.
    let e = Expr::LogicalOr(Box::new(n(5)), Box::new(bin(BinOpKind::Div, n(1), n(0))));
    assert_eq!(run(vec![Stmt::Return(e)], DEFAULT_FUEL).unwrap(), num(5));
}

#[test]
fn array_literals_and_selection() {
    let body = vec![
        Stmt::Expr(set("a", Expr::ArrayLit(vec![n(1), Expr::ArrayLit(vec![n(2), n(3)])]))),
        Stmt::Return(Expr::GetVar("a".to_string(), vec![n(1), n(0)])),
    ];
    assert_eq!(run(body, DEFAULT_FUEL).unwrap(), num(2));
}

#[test]
fn assertion_failure_reports_location() {
    let body = vec![Stmt::Assert { lhs: n(1), rhs: n(2), loc: "here".to_string() }];
    assert!(matches!(run(body, DEFAULT_FUEL), Err(CircuitError::AssertionFailed(_, _, l)) if l == "here"));
}

#[test]
fn array_where_number_expected_is_an_error() {
    let body = vec![Stmt::Return(bin(BinOpKind::Add, Expr::ArrayLit(vec![]), n(1)))];
    assert!(matches!(
        run(body, DEFAULT_FUEL),
        Err(CircuitError::ValueError(websnark_rs::value::ValueError::ExpectedNumber))
    ));
}

#[test]
fn calling_functions_is_an_error() {
    let body = vec![Stmt::Return(Expr::CallFunction("f".to_string(), vec![n(1)]))];
    assert!(matches!(run(body, DEFAULT_FUEL), Err(CircuitError::RuntimeError(_))));
}

#[test]
fn for_loop_runs_as_init_then_while() {
    let for_body = || Stmt::Expr(Expr::SetVar(
        "a".to_string(),
        vec![var("i")],
        Box::new(bin(BinOpKind::Mul, var("i"), var("i"))),
    ));
    let as_for = vec![
        Stmt::For {
            init: set("i", n(0)),
            cond: bin(BinOpKind::Lt, var("i"), n(4)),
            update: set("i", bin(BinOpKind::Add, var("i"), n(1))),
            body: Box::new(for_body()),
        },
        Stmt::Return(var("a")),
    ];
    let as_while = vec![
        Stmt::Expr(set("i", n(0))),
        Stmt::While {
            cond: bin(BinOpKind::Lt, var("i"), n(4)),
            body: Box::new(Stmt::Block(vec![
                for_body(),
                Stmt::Expr(set("i", bin(BinOpKind::Add, var("i"), n(1)))),
            ])),
        },
        Stmt::Return(var("a")),
    ];
    let a = run(as_for, DEFAULT_FUEL).unwrap();
    assert_eq!(a, run(as_while, DEFAULT_FUEL).unwrap());
    assert_eq!(a, Value::Array(vec![num(0), num(1), num(4), num(9)]));
}

#[test]
fn mod_prime_and_and_mask_leave_the_value() {
    let x = || bin(BinOpKind::Sub, n(3), n(5));
    let expect = run(vec![Stmt::Return(x())], DEFAULT_FUEL).unwrap();
    let m = run(vec![Stmt::Return(bin(BinOpKind::Mod, x(), Expr::PrimeConst))], DEFAULT_FUEL).unwrap();
    let a = run(vec![Stmt::Return(bin(BinOpKind::And, x(), Expr::MaskConst))], DEFAULT_FUEL).unwrap();
    assert_eq!(m, expect);
    assert_eq!(a, expect);
    assert_eq!(run(vec![Stmt::Return(Expr::PrimeConst)], DEFAULT_FUEL).unwrap(), num(0));
}

#[test]
fn runtime_error_texts_of_the_interpreter() {
    let msg = |body: Vec<Stmt>| match run(body, DEFAULT_FUEL) {
        Err(CircuitError::RuntimeError(m)) => m,
        other => panic!("expected a runtime error, got {other:?}"),
    };
    assert_eq!(msg(vec![Stmt::Return(Expr::MaskConst)]), "MaskConst used outside of And");
    assert_eq!(
        msg(vec![Stmt::Return(Expr::CallFunction("f".to_string(), vec![]))]),
        "call_function is not supported yet"
    );
    assert_eq!(msg(vec![Stmt::Return(var("q"))]), "Variable not defined: q");
}
