use websnark_rs::ast::{BinOpKind, Expr, Function, Stmt};
use websnark_rs::circuit::{Circuit, CircuitError, Component, Signal};
use websnark_rs::field::Fr;
use websnark_rs::strmap::StrMap;
use websnark_rs::value::Value;
use websnark_rs::witness::{generate_witness, Witness};

/// Signals: `one`, `main.out`, `main.in[0]`, `main.in[1]`; `main` multiplies
/// its two inputs.
fn circuit() -> Circuit {
    let mut signal_name2_idx = StrMap::new();
    signal_name2_idx.insert("one".to_string(), 0usize);
    signal_name2_idx.insert("main.out".to_string(), 1usize);
    signal_name2_idx.insert("main.in[0]".to_string(), 2usize);
    signal_name2_idx.insert("main.in[1]".to_string(), 3usize);
    Circuit {
        n_pub_inputs: 0,
        n_prv_inputs: 2,
        n_inputs: 2,
        n_outputs: 1,
        n_vars: 4,
        n_signals: 4,
        n_constants: 0,
        signal_name2_idx,
        component_name2_idx: StrMap::new(),
        signals: vec![
            Signal { names: vec!["one".to_string()], trigger_components: vec![] },
            Signal { names: vec!["main.out".to_string()], trigger_components: vec![] },
            Signal { names: vec!["main.in[0]".to_string()], trigger_components: vec![0] },
            Signal { names: vec!["main.in[1]".to_string(), "alias".to_string()], trigger_components: vec![0] },
        ],
        components: vec![Component {
            name: "main".to_string(),
            template: "Mul".to_string(),
            params: StrMap::new(),
            input_signals: 2,
        }],
        templates: StrMap::new(),
        functions: StrMap::new(),
    }
}

fn sig(name: &str, sel: u64) -> Expr {
    Expr::GetSignal(name.to_string(), vec![Expr::NumberLit(Fr::from_u64(sel))])
}

fn templates() -> StrMap<Function> {
    let mut t = StrMap::new();
    t.insert(
        "Mul".to_string(),
        Function {
            body: vec![Stmt::Expr(Expr::SetSignal(
                "out".to_string(),
                vec![],
                Box::new(Expr::BinOp { op: BinOpKind::Mul, lhs: Box::new(sig("in", 0)), rhs: Box::new(sig("in", 1)) }),
            ))],
        },
    );
    t
}

fn fr(n: u64) -> Fr {
    Fr::from_u64(n)
}

#[test]
fn generates_witness_of_small_circuit() {
    let c = circuit();
    assert!(c.check());
    let t = templates();
    let mut inputs = StrMap::new();
    inputs.insert("in".to_string(), Value::Array(vec![Value::from(3u64), Value::from(5u64)]));
    let w = generate_witness(&c, &t, &inputs).unwrap();
    assert_eq!(w, Witness::new(vec![fr(1), fr(15), fr(3), fr(5)]));
    assert_eq!(w.values().len(), 4);
}

#[test]
fn circuit_witness_method_agrees() {
    let c = circuit();
    let t = templates();
    let mut inputs = StrMap::new();
    inputs.insert("in".to_string(), Value::Array(vec![Value::from(2u64), Value::from(4u64)]));
    assert_eq!(c.witness(&t, &inputs).unwrap(), Witness::new(vec![fr(1), fr(8), fr(2), fr(4)]));
}

#[test]
fn missing_input_is_reported() {
    let c = circuit();
    let t = templates();
    let mut inputs = StrMap::new();
    inputs.insert("in".to_string(), Value::Array(vec![Value::from(3u64)]));
    match generate_witness(&c, &t, &inputs) {
        Err(CircuitError::SignalNotAssigned(name)) => assert_eq!(name, "main.in[1],alias"),
        other => panic!("unexpected {other:?}"),
    }
}

#[test]
fn unset_non_input_slot_is_reported_by_index() {
    // The template sets nothing, so slot 1 stays unset; it is reported
    // through the name of input 1.
    let c = circuit();
    let mut t = StrMap::new();
    t.insert("Mul".to_string(), Function { body: vec![] });
    let mut inputs = StrMap::new();
    inputs.insert("in".to_string(), Value::Array(vec![Value::from(3u64), Value::from(5u64)]));
    match generate_witness(&c, &t, &inputs) {
        Err(CircuitError::SignalNotAssigned(name)) => assert_eq!(name, "main.in[1],alias"),
        other => panic!("unexpected {other:?}"),
    }
}

#[test]
fn unknown_input_name_is_an_error() {
    let c = circuit();
    let t = templates();
    let mut inputs = StrMap::new();
    inputs.insert("nope".to_string(), Value::from(1u64));
    assert!(matches!(generate_witness(&c, &t, &inputs), Err(CircuitError::RuntimeError(_))));
}

#[test]
fn missing_template_is_an_error() {
    let c = circuit();
    let t = StrMap::new();
    let mut inputs = StrMap::new();
    inputs.insert("in".to_string(), Value::Array(vec![Value::from(3u64), Value::from(5u64)]));
    assert!(matches!(generate_witness(&c, &t, &inputs), Err(CircuitError::RuntimeError(_))));
}

#[test]
fn failing_assertion_is_reported() {
    let c = circuit();
    let mut t = StrMap::new();
    t.insert(
        "Mul".to_string(),
        Function {
            body: vec![Stmt::Assert { lhs: sig("in", 0), rhs: sig("in", 1), loc: "a == b".to_string() }],
        },
    );
    let mut inputs = StrMap::new();
    inputs.insert("in".to_string(), Value::Array(vec![Value::from(3u64), Value::from(5u64)]));
    match generate_witness(&c, &t, &inputs) {
        Err(CircuitError::AssertionFailed(a, b, loc)) => {
            assert_eq!(a, fr(3));
            assert_eq!(b, fr(5));
            assert_eq!(loc, "a == b");
        }
        other => panic!("unexpected {other:?}"),
    }
}

#[test]
fn input_index_and_names() {
    let c = circuit();
    assert_eq!(c.input_idx(0).unwrap(), 2);
    assert_eq!(c.input_idx(1).unwrap(), 3);
    assert!(matches!(c.input_idx(2), Err(CircuitError::InputIndexOutOfBounds(2, 2))));
    assert_eq!(c.signal_names(1).unwrap(), "main.in[1],alias");
    assert!(matches!(c.signal_names(5), Err(CircuitError::InputIndexOutOfBounds(5, 2))));
}

#[test]
fn bad_trigger_index_is_reported_when_its_signal_is_set() {
    let mut c = circuit();
    c.signals[0].trigger_components.push(3);
    assert!(c.check());
    let t = templates();
    let mut inputs = StrMap::new();
    inputs.insert("in".to_string(), Value::Array(vec![Value::from(3u64), Value::from(5u64)]));
    match generate_witness(&c, &t, &inputs) {
        Err(CircuitError::RuntimeError(m)) => assert_eq!(m, "Component index out of range"),
        other => panic!("unexpected {other:?}"),
    }
}

#[test]
fn check_rejects_variables_beyond_the_signals() {
    let mut c = circuit();
    c.n_vars = c.n_signals + 1;
    assert!(!c.check());
}

#[test]
fn circuit_without_inputs_may_have_outputs_beyond_the_signals() {
    let mut c = circuit();
    c.n_inputs = 0;
    c.n_outputs = 10;
    assert!(c.check());
}

#[test]
fn witness_decimal_texts_roundtrip() {
    let w = Witness::new(vec![fr(1), fr(15), fr(3)]);
    let texts = w.to_texts();
    assert_eq!(texts, vec!["1".to_string(), "15".to_string(), "3".to_string()]);
    assert_eq!(Witness::from_texts(&texts).unwrap(), w);
    assert!(Witness::from_texts(&vec!["x".to_string()]).is_none());
}

#[test]
fn witness_postcard_roundtrip() {
    let witness = Witness::new(vec![Fr::from_u64(0), Fr::from_u64(1), Fr::from_u64(u64::MAX)]);

    let bytes: Vec<[u8; 32]> = witness.values().iter().map(|f| websnark_rs::field::field_to_bytes(*f)).collect();
    let roundtripped = Witness::new(bytes.into_iter().map(websnark_rs::field::field_from_bytes).collect());

    assert_eq!(witness, roundtripped);
}
