use websnark_rs::ast::Function;
use websnark_rs::circuit::{Circuit, CircuitError, Component, Signal};
use websnark_rs::field::Fr;
use websnark_rs::rt_ctx::{RTCtx, DEFAULT_FUEL};
use websnark_rs::strmap::StrMap;
use websnark_rs::value::Value;

/// A circuit with the signal `one`, the signals `main.out` and `main.in`,
/// and one component `main` waiting for one input.
fn circuit() -> Circuit {
    let mut signal_name2_idx = StrMap::new();
    signal_name2_idx.insert("one".to_string(), 0usize);
    signal_name2_idx.insert("main.out".to_string(), 1usize);
    signal_name2_idx.insert("main.in".to_string(), 2usize);
    let mut component_name2_idx = StrMap::new();
    component_name2_idx.insert("main".to_string(), 0usize);
    let mut templates = StrMap::new();
    templates.insert("main".to_string(), "function(ctx) {}".to_string());
    Circuit {
        n_pub_inputs: 1,
        n_prv_inputs: 0,
        n_inputs: 1,
        n_outputs: 1,
        n_vars: 3,
        n_signals: 3,
        n_constants: 0,
        signal_name2_idx,
        component_name2_idx,
        signals: vec![
            Signal { names: vec!["one".to_string()], trigger_components: vec![] },
            Signal { names: vec!["main.out".to_string()], trigger_components: vec![] },
            Signal { names: vec!["main.in".to_string()], trigger_components: vec![0] },
        ],
        components: vec![Component {
            name: "main".to_string(),
            template: "main".to_string(),
            params: StrMap::new(),
            input_signals: 1,
        }],
        templates,
        functions: StrMap::new(),
    }
}

fn templates() -> StrMap<Function> {
    let mut t = StrMap::new();
    t.insert("main".to_string(), Function { body: vec![] });
    t
}

fn num(n: u64) -> Value {
    Value::from_u64(n)
}

#[test]
fn full_name_signal() {
    let c = circuit();
    let t = templates();
    let mut ctx = RTCtx::new(&c, &t);

    ctx.current_component = Some("main".to_string());
    assert_eq!(ctx.build_signal_name("root", &vec![]), "main.root");
    assert_eq!(ctx.build_signal_name("out", &vec![3]), "main.out[3]");
    assert_eq!(ctx.build_signal_name("x", &vec![1, 2]), "main.x[1][2]");
}

#[test]
fn full_name_pin() {
    let c = circuit();
    let t = templates();
    let mut ctx = RTCtx::new(&c, &t);

    ctx.current_component = Some("main".to_string());
    assert_eq!(ctx.build_pin_name("one", &vec![], "x", &vec![]), "one.x");
    assert_eq!(ctx.build_pin_name("hasher", &vec![], "in", &vec![5]), "main.hasher.in[5]");
}

#[test]
fn set_one_signal_and_get_back() {
    let c = circuit();
    let t = templates();
    let mut ctx = RTCtx::new(&c, &t);

    ctx.set_signal("one", vec![], 1u64.into()).unwrap();
    assert_eq!(ctx.get_signal("one", vec![]).unwrap().into_u32().unwrap(), 1);
}

#[test]
fn not_init_signals_starts_at_input_count() {
    let c = circuit();
    let t = templates();
    let ctx = RTCtx::new(&c, &t);

    assert_eq!(ctx.not_init_signals[0], ctx.circuit.components[0].input_signals as i64);
}

#[test]
fn set_get_var_scalar() {
    let c = circuit();
    let t = templates();
    let mut ctx = RTCtx::new(&c, &t);

    ctx.set_var("x", vec![], num(42)).unwrap();
    assert_eq!(ctx.get_var("x", vec![]).unwrap(), num(42));
}

#[test]
fn set_get_var_indexed() {
    let c = circuit();
    let t = templates();
    let mut ctx = RTCtx::new(&c, &t);

    ctx.set_var("x", vec![num(2)], num(7)).unwrap();
    assert_eq!(ctx.get_var("x", vec![num(2)]).unwrap(), num(7));
    assert_eq!(ctx.get_var("x", vec![num(0)]).unwrap(), num(0));
    assert_eq!(ctx.get_var("x", vec![num(1)]).unwrap(), num(0));
}

#[test]
fn set_get_var_nested() {
    let c = circuit();
    let t = templates();
    let mut ctx = RTCtx::new(&c, &t);

    ctx.set_var("x", vec![num(1), num(2)], num(9)).unwrap();
    assert_eq!(ctx.get_var("x", vec![num(1), num(2)]).unwrap(), num(9));
    assert_eq!(
        ctx.get_var("x", vec![]).unwrap(),
        Value::Array(vec![num(0), Value::Array(vec![num(0), num(0), num(9)])])
    );
}

#[test]
fn get_var_falls_back_to_outer_scope() {
    let c = circuit();
    let t = templates();
    let mut ctx = RTCtx::new(&c, &t);

    ctx.set_var("x", vec![], num(5)).unwrap();
    ctx.push_scope();
    assert_eq!(ctx.get_var("x", vec![]).unwrap(), num(5));
}

#[test]
fn set_var_shadows_outer_scope() {
    let c = circuit();
    let t = templates();
    let mut ctx = RTCtx::new(&c, &t);

    ctx.set_var("x", vec![], num(5)).unwrap();
    ctx.push_scope();
    ctx.set_var("x", vec![], num(10)).unwrap();
    assert_eq!(ctx.get_var("x", vec![]).unwrap(), num(10));
    ctx.pop_scope();
    assert_eq!(ctx.get_var("x", vec![]).unwrap(), num(5));
}

#[test]
fn get_var_undefined_errors() {
    let c = circuit();
    let t = templates();
    let ctx = RTCtx::new(&c, &t);

    assert!(ctx.get_var("nope", vec![]).is_err());
}

#[test]
fn set_var_returns_value_written() {
    let c = circuit();
    let t = templates();
    let mut ctx = RTCtx::new(&c, &t);

    assert_eq!(ctx.set_var("y", vec![num(1)], num(4)).unwrap(), num(4));
    assert_eq!(ctx.get_var("y", vec![]).unwrap(), Value::Array(vec![num(0), num(4)]));
}

#[test]
fn set_var_selector_on_number_errors() {
    let c = circuit();
    let t = templates();
    let mut ctx = RTCtx::new(&c, &t);

    ctx.set_var("z", vec![], num(3)).unwrap();
    assert!(matches!(ctx.set_var("z", vec![num(0)], num(1)), Err(CircuitError::RuntimeError(_))));
    assert_eq!(ctx.get_var("z", vec![]).unwrap(), num(3));
}

#[test]
fn get_var_selector_out_of_range_errors() {
    let c = circuit();
    let t = templates();
    let mut ctx = RTCtx::new(&c, &t);

    ctx.set_var("a", vec![num(1)], num(3)).unwrap();
    assert!(matches!(
        ctx.get_var("a", vec![num(5)]),
        Err(CircuitError::ValueError(websnark_rs::value::ValueError::ValueOutOfRange))
    ));
    assert!(matches!(
        ctx.get_var("a", vec![num(1), num(0)]),
        Err(CircuitError::ValueError(websnark_rs::value::ValueError::ExpectedArray))
    ));
}

#[test]
fn setting_last_input_triggers_component() {
    let c = circuit();
    let mut t = StrMap::new();
    // main: out <== in * in
    t.insert(
        "main".to_string(),
        Function {
            body: vec![websnark_rs::ast::Stmt::Expr(websnark_rs::ast::Expr::SetSignal(
                "out".to_string(),
                vec![],
                Box::new(websnark_rs::ast::Expr::BinOp {
                    op: websnark_rs::ast::BinOpKind::Mul,
                    lhs: Box::new(websnark_rs::ast::Expr::GetSignal("in".to_string(), vec![])),
                    rhs: Box::new(websnark_rs::ast::Expr::GetSignal("in".to_string(), vec![])),
                }),
            ))],
        },
    );
    let mut ctx = RTCtx::new(&c, &t);
    ctx.set_current_component("main");
    ctx.set_signal("in", vec![], num(7)).unwrap();
    assert_eq!(ctx.not_init_signals[0], -1);
    assert_eq!(ctx.get_signal_full("main.out").unwrap(), Fr::from_u64(49));
    assert_eq!(ctx.current_component, Some("main".to_string()));
}

#[test]
fn set_pin_and_get_pin() {
    let c = circuit();
    let t = templates();
    let mut ctx = RTCtx::new(&c, &t);
    ctx.set_pin("one", vec![], "x", vec![], num(5)).unwrap_err();
    ctx.set_current_component("");
    // "main.out" is reached as the pin `out` of component `main` from no component.
    ctx.current_component = None;
    ctx.set_pin("main", vec![], "out", vec![], num(11)).unwrap();
    assert_eq!(ctx.get_pin("main", vec![], "out", vec![]).unwrap(), num(11));
}

#[test]
fn signal_index_may_be_written_as_number() {
    let c = circuit();
    let t = templates();
    let mut ctx = RTCtx::new(&c, &t);
    ctx.set_signal("1", vec![], num(8)).unwrap();
    assert_eq!(ctx.get_signal("main.out", vec![]).unwrap(), num(8));
    assert!(matches!(ctx.get_signal("7", vec![]), Err(CircuitError::RuntimeError(_))));
    assert!(matches!(ctx.get_signal("main.in", vec![]), Err(CircuitError::SignalNotAssigned(s)) if s == "main.in"));
}

#[test]
fn assert_eq_reports_both_values() {
    let c = circuit();
    let t = templates();
    let ctx = RTCtx::new(&c, &t);
    assert!(ctx.assert_eq(&Fr::from_u64(3), &Fr::from_u64(3), "ok").is_ok());
    match ctx.assert_eq(&Fr::from_u64(3), &Fr::from_u64(4), "line 1") {
        Err(CircuitError::AssertionFailed(a, b, msg)) => {
            assert_eq!(a, Fr::from_u64(3));
            assert_eq!(b, Fr::from_u64(4));
            assert_eq!(msg, "line 1");
        }
        other => panic!("unexpected {other:?}"),
    }
}

#[test]
fn call_function_is_unsupported() {
    let c = circuit();
    let t = templates();
    let ctx = RTCtx::new(&c, &t);
    assert!(matches!(ctx.call_function("f", &vec![]), Err(CircuitError::RuntimeError(_))));
}

#[test]
fn failed_template_run_clears_no_signal() {
    let c = circuit();
    let mut t = StrMap::new();
    // main: out <== in; then an assertion that fails
    t.insert(
        "main".to_string(),
        Function {
            body: vec![
                websnark_rs::ast::Stmt::Expr(websnark_rs::ast::Expr::SetSignal(
                    "out".to_string(),
                    vec![],
                    Box::new(websnark_rs::ast::Expr::GetSignal("in".to_string(), vec![])),
                )),
                websnark_rs::ast::Stmt::Assert {
                    lhs: websnark_rs::ast::Expr::NumberLit(Fr::from_u64(1)),
                    rhs: websnark_rs::ast::Expr::NumberLit(Fr::from_u64(2)),
                    loc: "check".to_string(),
                },
            ],
        },
    );
    let mut ctx = RTCtx::new(&c, &t);
    ctx.set_signal("one", vec![], num(1)).unwrap();
    ctx.set_current_component("main");
    assert!(matches!(
        ctx.set_signal("in", vec![], num(4)),
        Err(CircuitError::AssertionFailed(..))
    ));
    assert_eq!(ctx.n_slots(), 3);
    assert_eq!(ctx.slot(0), Some(Fr::from_u64(1)));
    assert_eq!(ctx.slot(1), Some(Fr::from_u64(4)));
    assert_eq!(ctx.slot(2), Some(Fr::from_u64(4)));
}

fn runtime_message(r: Result<impl std::fmt::Debug, CircuitError>) -> String {
    match r {
        Err(CircuitError::RuntimeError(m)) => m,
        other => panic!("expected a runtime error, got {other:?}"),
    }
}

#[test]
fn runtime_errors_name_what_failed() {
    let c = circuit();
    let t = templates();
    let mut ctx = RTCtx::new(&c, &t);
    assert_eq!(runtime_message(ctx.get_var("nope", vec![])), "Variable not defined: nope");
    ctx.set_var("z", vec![], num(3)).unwrap();
    assert_eq!(runtime_message(ctx.set_var("z", vec![num(0)], num(1))), "Variable is not an array: z");
    assert_eq!(
        runtime_message(ctx.get_signal_full("abc")),
        "Invalid signal index: invalid digit found in string"
    );
    assert_eq!(runtime_message(ctx.get_signal_full("7")), "Signal index out of range");
}

#[test]
fn missing_template_is_named_with_its_component() {
    let c = circuit();
    let t = StrMap::new();
    let mut ctx = RTCtx::new(&c, &t);
    assert_eq!(
        runtime_message(ctx.trigger_component(0, 5)),
        "Template not defined: main for component main"
    );
}

#[test]
fn step_budget_is_spent_only_by_template_runs() {
    let c = circuit();
    let t = templates();
    let mut ctx = RTCtx::new(&c, &t);
    // `one` triggers no component: storing it costs nothing.
    ctx.set_signal_full("one", Fr::from_u64(1), 0).unwrap();
    assert_eq!(ctx.slot(0), Some(Fr::from_u64(1)));
    // `main.in` completes `main`, whose template needs one unit.
    assert!(matches!(
        ctx.set_signal_full("main.in", Fr::from_u64(2), 0),
        Err(CircuitError::StepLimitExceeded)
    ));
    let mut ctx = RTCtx::new(&c, &t);
    ctx.set_signal_full("main.in", Fr::from_u64(2), 1).unwrap();
    assert_eq!(ctx.counters()[0], -1);
}

#[test]
fn counters_drop_once_per_listing_and_only_on_first_store() {
    let mut c = circuit();
    // `main.out` now feeds `main` twice; `main` waits for three inputs.
    c.signals[1].trigger_components = vec![0, 0];
    c.components[0].input_signals = 3;
    let t = templates();
    let mut ctx = RTCtx::new(&c, &t);
    ctx.set_signal_full("main.out", Fr::from_u64(1), DEFAULT_FUEL).unwrap();
    assert_eq!(ctx.counters(), vec![1]);
    ctx.set_signal_full("main.out", Fr::from_u64(2), DEFAULT_FUEL).unwrap();
    assert_eq!(ctx.counters(), vec![1]);
    assert_eq!(ctx.slot(1), Some(Fr::from_u64(2)));
}

#[test]
fn call_function_error_text() {
    let c = circuit();
    let t = templates();
    let ctx = RTCtx::new(&c, &t);
    assert_eq!(runtime_message(ctx.call_function("f", &vec![])), "call_function is not supported yet");
}
