//! Meaning of witness-generation programs: the state of a run and how each
//! statement and expression changes it.
//!
//! Every function takes a step budget `fuel`. A loop may run at most `fuel`
//! iterations at each level, and each run of a component's template costs one
//! unit (storing a signal that triggers nothing costs none); when the budget is
//! spent the run stops with `StepLimit`.

use vstd::prelude::*;
use vstd::arithmetic::power::pow;
use vstd::arithmetic::power2::pow2;
use crate::ast::{BinOpKind, Expr, Function, Stmt, expr_size, exprs_size, stmt_size, stmts_size};
use crate::circuit::{Circuit, ErrM};
use crate::field::{Fr, decimal, fr_inverse_spec, fr_modulus, fr_sub_spec, bit_and, digits_value, is_digit};
use crate::strmap::StrMap;
use crate::text::selectors_text;
use crate::value::{Val, Value, fr_u32_spec};

verus! {

/// State of a witness-generation run.
pub struct CtxM {
    pub witness: Seq<Option<nat>>,
    pub not_init: Seq<i64>,
    pub current: Option<Seq<char>>,
    pub scopes: Seq<Map<Seq<char>, Val>>,
}

/// What a run reads but never changes: the circuit and its parsed templates.
pub struct Env {
    pub circuit: Circuit,
    pub templates: Map<Seq<char>, Function>,
}

/// The state of a run that has not started: no signal set, each component
/// waiting for all its inputs, one empty scope.
pub open spec fn initial_state(c: Circuit) -> CtxM {
    CtxM {
        witness: Seq::new(c.n_signals as nat, |i: int| None::<nat>),
        not_init: c.components@.map_values(|comp: crate::circuit::Component| comp.input_signals as i64),
        current: None,
        scopes: seq![Map::<Seq<char>, Val>::empty()],
    }
}

/// Model of a scope of variables.
pub open spec fn scope_model(m: StrMap<Value>) -> Map<Seq<char>, Val> {
    m.map().map_values(|v: Value| v.model())
}

/// Rust's `usize::from_str`: an optional `+` and then at least one digit,
/// with a value that fits in `usize`.
pub open spec fn parse_usize_spec(s: Seq<char>) -> Option<nat> {
    let t = if s.len() > 0 && s[0] == '+' { s.drop_first() } else { s };
    if t.len() > 0 && (forall|i: int| 0 <= i < t.len() ==> #[trigger] is_digit(t[i]))
        && digits_value(t) <= usize::MAX {
        Some(digits_value(t))
    } else {
        None
    }
}

/// The text of the error that Rust's `usize::from_str` gives for `s` (its
/// `Display` form).
pub uninterp spec fn usize_parse_error_text(s: Seq<char>) -> Seq<char>;

/// Full name of a signal of the current component.
pub open spec fn signal_name(cur: Option<Seq<char>>, name: Seq<char>, sels: Seq<u32>) -> Seq<char> {
    (match cur {
        Some(c) => c + seq!['.'] + name,
        None => name,
    }) + selectors_text(sels)
}

/// Full name of a signal of a subcomponent (a pin).
pub open spec fn pin_name(
    cur: Option<Seq<char>>,
    comp: Seq<char>,
    csels: Seq<u32>,
    sig: Seq<char>,
    ssels: Seq<u32>,
) -> Seq<char> {
    (if comp == seq!['o', 'n', 'e'] {
        seq!['o', 'n', 'e']
    } else {
        match cur {
            Some(c) => c + seq!['.'] + comp,
            None => comp,
        }
    }) + selectors_text(csels) + seq!['.'] + sig + selectors_text(ssels)
}

/// Index of a signal: its entry in the circuit's name table, or the name read
/// as an index.
pub open spec fn signal_idx_spec(c: Circuit, full: Seq<char>) -> Result<nat, ErrM> {
    if c.signal_name2_idx.map().contains_key(full) {
        Ok(c.signal_name2_idx.map()[full] as nat)
    } else {
        match parse_usize_spec(full) {
            Some(n) => Ok(n),
            None => Err(ErrM::Runtime("Invalid signal index: "@ + usize_parse_error_text(full))),
        }
    }
}

/// Value of the signal named `full`.
pub open spec fn get_signal_full_spec(e: Env, s: CtxM, full: Seq<char>) -> Result<nat, ErrM> {
    match signal_idx_spec(e.circuit, full) {
        Err(er) => Err(er),
        Ok(i) => if i >= s.witness.len() {
            Err(ErrM::Runtime("Signal index out of range"@))
        } else {
            match s.witness[i as int] {
                Some(v) => Ok(v),
                None => Err(ErrM::NotAssigned(full)),
            }
        },
    }
}

/// The counters after one decrement per listed component.
pub open spec fn decrement_all(n: Seq<i64>, cs: Seq<usize>) -> Seq<i64>
    decreases cs.len(),
{
    if cs.len() == 0 {
        n
    } else {
        let c = cs[0] as int;
        decrement_all(n.update(c, n[c].wrapping_sub(1)), cs.drop_first())
    }
}

/// Value held under `sels` inside `v`.
pub open spec fn select_spec(v: Val, sels: Seq<u32>) -> Result<Val, ErrM>
    decreases sels.len(),
{
    if sels.len() == 0 {
        Ok(v)
    } else {
        match v {
            Val::Arr(a) => if (sels[0] as int) < a.len() {
                select_spec(a[sels[0] as int], sels.drop_first())
            } else {
                Err(ErrM::ValueOutOfRange)
            },
            Val::Num(_) => Err(ErrM::ExpectedArray),
        }
    }
}

/// `a` extended with zeros to at least `n` entries.
pub open spec fn pad_zeros(a: Seq<Val>, n: nat) -> Seq<Val> {
    if a.len() >= n {
        a
    } else {
        a + Seq::new((n - a.len()) as nat, |i: int| Val::Num(0))
    }
}

/// `a` with `v` stored under `sels`, growing arrays as needed.
pub open spec fn set_in(a: Seq<Val>, sels: Seq<u32>, v: Val) -> Seq<Val>
    decreases sels.len(),
{
    if sels.len() == 0 {
        a
    } else {
        let idx = sels[0] as int;
        let b = pad_zeros(a, (idx + 1) as nat);
        if sels.len() == 1 {
            b.update(idx, v)
        } else {
            let inner = match b[idx] {
                Val::Arr(n) => n,
                Val::Num(_) => seq![],
            };
            b.update(idx, Val::Arr(set_in(inner, sels.drop_first(), v)))
        }
    }
}

/// The innermost binding of `name`.
pub open spec fn lookup_var(scopes: Seq<Map<Seq<char>, Val>>, name: Seq<char>) -> Option<Val>
    decreases scopes.len(),
{
    if scopes.len() == 0 {
        None
    } else if scopes.last().contains_key(name) {
        Some(scopes.last()[name])
    } else {
        lookup_var(scopes.drop_last(), name)
    }
}

/// Reading a variable.
pub open spec fn get_var_spec(s: CtxM, name: Seq<char>, sels: Seq<u32>) -> Result<Val, ErrM> {
    match lookup_var(s.scopes, name) {
        Some(v) => select_spec(v, sels),
        None => Err(ErrM::Runtime("Variable not defined: "@ + name)),
    }
}

/// Writing a variable of the innermost scope.
pub open spec fn set_var_spec(s: CtxM, name: Seq<char>, sels: Seq<u32>, v: Val) -> (CtxM, Result<Val, ErrM>) {
    if s.scopes.len() == 0 {
        (s, Err(ErrM::Runtime("No active scope"@)))
    } else {
        let last = s.scopes.last();
        let k = (s.scopes.len() - 1) as int;
        if sels.len() == 0 {
            (CtxM { scopes: s.scopes.update(k, last.insert(name, v)), ..s }, Ok(v))
        } else {
            let cur = if last.contains_key(name) { last[name] } else { Val::Arr(seq![]) };
            match cur {
                Val::Num(_) => (s, Err(ErrM::Runtime("Variable is not an array: "@ + name))),
                Val::Arr(a) => (
                    CtxM { scopes: s.scopes.update(k, last.insert(name, Val::Arr(set_in(a, sels, v)))), ..s },
                    Ok(v),
                ),
            }
        }
    }
}

/// Whether an expression is evaluated as a general value rather than as a
/// field element.
pub open spec fn is_value_expr(x: Expr) -> bool {
    match x {
        Expr::ArrayLit(_) | Expr::GetVar(..) | Expr::SetVar(..) | Expr::CallFunction(..) | Expr::Ternary { .. } => true,
        _ => false,
    }
}

/// Tie-breaker for termination: a value expression is evaluated as a value first.
pub open spec fn value_rank(x: Expr) -> nat {
    if is_value_expr(x) { 0 } else { 1 }
}

/// Tie-breaker for termination: a field expression is evaluated as a field element first.
pub open spec fn scalar_rank(x: Expr) -> nat {
    if is_value_expr(x) { 1 } else { 0 }
}

/// One for `true`, zero for `false`.
pub open spec fn bool_num(b: bool) -> nat {
    if b { 1 } else { 0 }
}

/// A binary operation on field elements (other than `Mod`).
#[verifier::opaque]
pub open spec fn binop_spec(op: BinOpKind, a: nat, b: nat) -> Result<nat, ErrM> {
    match op {
        BinOpKind::Add => Ok((a + b) % fr_modulus()),
        BinOpKind::Sub => Ok(fr_sub_spec(a, b)),
        BinOpKind::Mul => Ok((a * b) % fr_modulus()),
        BinOpKind::Mod => Ok(a),
        BinOpKind::Div => if b == 0 { Err(ErrM::Runtime("division by zero"@)) } else { Ok((a / b) % fr_modulus()) },
        BinOpKind::Eq => Ok(bool_num(a == b)),
        BinOpKind::Neq => Ok(bool_num(a != b)),
        BinOpKind::Lt => Ok(bool_num(a < b)),
        BinOpKind::Gt => Ok(bool_num(a > b)),
        BinOpKind::And => Ok(bit_and(a, b) % fr_modulus()),
        BinOpKind::Shl => match fr_u32_spec(b) {
            Some(n) => Ok((a * pow2(n as nat)) % fr_modulus()),
            None => Err(ErrM::InvalidNumber(decimal(b))),
        },
        BinOpKind::Shr => match fr_u32_spec(b) {
            Some(n) => Ok((a / pow2(n as nat)) % fr_modulus()),
            None => Err(ErrM::InvalidNumber(decimal(b))),
        },
    }
}

/// Evaluates selectors left to right.
pub open spec fn sem_selectors(e: Env, s: CtxM, xs: Seq<Expr>, fuel: nat) -> (CtxM, Result<Seq<u32>, ErrM>)
    decreases fuel, exprs_size(xs), 0nat,
{
    if xs.len() == 0 {
        (s, Ok(seq![]))
    } else {
        let (s1, r) = sem_scalar(e, s, xs[0], fuel);
        match r {
            Err(er) => (s1, Err(er)),
            Ok(v) => match fr_u32_spec(v) {
                None => (s1, Err(ErrM::InvalidNumber(decimal(v)))),
                Some(u) => {
                    let (s2, r2) = sem_selectors(e, s1, xs.drop_first(), fuel);
                    match r2 {
                        Err(er) => (s2, Err(er)),
                        Ok(us) => (s2, Ok(seq![u] + us)),
                    }
                },
            },
        }
    }
}

/// Evaluates expressions left to right.
pub open spec fn sem_exprs(e: Env, s: CtxM, xs: Seq<Expr>, fuel: nat) -> (CtxM, Result<Seq<Val>, ErrM>)
    decreases fuel, exprs_size(xs), 0nat,
{
    if xs.len() == 0 {
        (s, Ok(seq![]))
    } else {
        let (s1, r) = sem_expr(e, s, xs[0], fuel);
        match r {
            Err(er) => (s1, Err(er)),
            Ok(v) => {
                let (s2, r2) = sem_exprs(e, s1, xs.drop_first(), fuel);
                match r2 {
                    Err(er) => (s2, Err(er)),
                    Ok(vs) => (s2, Ok(seq![v] + vs)),
                }
            },
        }
    }
}

/// Evaluates an expression to a value.
pub open spec fn sem_expr(e: Env, s: CtxM, x: Expr, fuel: nat) -> (CtxM, Result<Val, ErrM>)
    decreases fuel, expr_size(x), value_rank(x),
{
    match x {
        Expr::ArrayLit(xs) => {
            let (s1, r) = sem_exprs(e, s, xs@, fuel);
            match r {
                Err(er) => (s1, Err(er)),
                Ok(vs) => (s1, Ok(Val::Arr(vs))),
            }
        },
        Expr::GetVar(name, sels) => {
            let (s1, r) = sem_selectors(e, s, sels@, fuel);
            match r {
                Err(er) => (s1, Err(er)),
                Ok(us) => (s1, get_var_spec(s1, name@, us)),
            }
        },
        Expr::SetVar(name, sels, value) => {
            let (s1, r) = sem_selectors(e, s, sels@, fuel);
            match r {
                Err(er) => (s1, Err(er)),
                Ok(us) => {
                    let (s2, r2) = sem_expr(e, s1, *value, fuel);
                    match r2 {
                        Err(er) => (s2, Err(er)),
                        Ok(v) => set_var_spec(s2, name@, us, v),
                    }
                },
            }
        },
        Expr::CallFunction(_, args) => {
            let (s1, r) = sem_exprs(e, s, args@, fuel);
            match r {
                Err(er) => (s1, Err(er)),
                Ok(_) => (s1, Err(ErrM::Runtime("call_function is not supported yet"@))),
            }
        },
        Expr::Ternary { cond, then, else_ } => {
            let (s1, r) = sem_scalar(e, s, *cond, fuel);
            match r {
                Err(er) => (s1, Err(er)),
                Ok(c) => if c != 0 {
                    sem_expr(e, s1, *then, fuel)
                } else {
                    sem_expr(e, s1, *else_, fuel)
                },
            }
        },
        _ => {
            let (s1, r) = sem_scalar(e, s, x, fuel);
            match r {
                Err(er) => (s1, Err(er)),
                Ok(v) => (s1, Ok(Val::Num(v))),
            }
        },
    }
}

/// Evaluates an expression to a field element.
pub open spec fn sem_scalar(e: Env, s: CtxM, x: Expr, fuel: nat) -> (CtxM, Result<nat, ErrM>)
    decreases fuel, expr_size(x), scalar_rank(x),
{
    match x {
        Expr::NumberLit(f) => (s, Ok(f.val())),
        Expr::PrimeConst => (s, Ok(0)),
        Expr::MaskConst => (s, Err(ErrM::Runtime("MaskConst used outside of And"@))),
        Expr::GetSignal(name, sels) => {
            let (s1, r) = sem_selectors(e, s, sels@, fuel);
            match r {
                Err(er) => (s1, Err(er)),
                Ok(us) => (s1, get_signal_full_spec(e, s1, signal_name(s1.current, name@, us))),
            }
        },
        Expr::GetPin(cn, cs, sn, ss) => {
            let (s1, r) = sem_selectors(e, s, cs@, fuel);
            match r {
                Err(er) => (s1, Err(er)),
                Ok(cu) => {
                    let (s2, r2) = sem_selectors(e, s1, ss@, fuel);
                    match r2 {
                        Err(er) => (s2, Err(er)),
                        Ok(su) => (s2, get_signal_full_spec(e, s2, pin_name(s2.current, cn@, cu, sn@, su))),
                    }
                },
            }
        },
        Expr::SetSignal(name, sels, value) => {
            let (s1, r) = sem_selectors(e, s, sels@, fuel);
            match r {
                Err(er) => (s1, Err(er)),
                Ok(us) => {
                    let (s2, r2) = sem_scalar(e, s1, *value, fuel);
                    match r2 {
                        Err(er) => (s2, Err(er)),
                        Ok(v) => {
                            let (s3, r3) = sem_set_signal_full(e, s2, signal_name(s2.current, name@, us), v, fuel);
                            match r3 {
                                Err(er) => (s3, Err(er)),
                                Ok(_) => (s3, Ok(v)),
                            }
                        },
                    }
                },
            }
        },
        Expr::SetPin(cn, cs, sn, ss, value) => {
            let (s1, r) = sem_selectors(e, s, cs@, fuel);
            match r {
                Err(er) => (s1, Err(er)),
                Ok(cu) => {
                    let (s2, r2) = sem_selectors(e, s1, ss@, fuel);
                    match r2 {
                        Err(er) => (s2, Err(er)),
                        Ok(su) => {
                            let (s3, r3) = sem_scalar(e, s2, *value, fuel);
                            match r3 {
                                Err(er) => (s3, Err(er)),
                                Ok(v) => {
                                    let (s4, r4) = sem_set_signal_full(e, s3, pin_name(s3.current, cn@, cu, sn@, su), v, fuel);
                                    match r4 {
                                        Err(er) => (s4, Err(er)),
                                        Ok(_) => (s4, Ok(v)),
                                    }
                                },
                            }
                        },
                    }
                },
            }
        },
        Expr::BinOp { op, lhs, rhs } => {
            if op == BinOpKind::Mod || (op == BinOpKind::And && (*rhs is MaskConst)) {
                sem_scalar(e, s, *lhs, fuel)
            } else {
                let (s1, r) = sem_scalar(e, s, *lhs, fuel);
                match r {
                    Err(er) => (s1, Err(er)),
                    Ok(a) => {
                        let (s2, r2) = sem_scalar(e, s1, *rhs, fuel);
                        match r2 {
                            Err(er) => (s2, Err(er)),
                            Ok(b) => (s2, binop_spec(op, a, b)),
                        }
                    },
                }
            }
        },
        Expr::Inverse(base, _) => {
            let (s1, r) = sem_scalar(e, s, *base, fuel);
            match r {
                Err(er) => (s1, Err(er)),
                Ok(b) => if b == 0 {
                    (s1, Err(ErrM::InvalidInverse))
                } else {
                    (s1, Ok(fr_inverse_spec(b)))
                },
            }
        },
        Expr::ModPow(base, exp, _) => {
            let (s1, r) = sem_scalar(e, s, *base, fuel);
            match r {
                Err(er) => (s1, Err(er)),
                Ok(b) => {
                    let (s2, r2) = sem_scalar(e, s1, *exp, fuel);
                    match r2 {
                        Err(er) => (s2, Err(er)),
                        Ok(x) => match fr_u32_spec(x) {
                            None => (s2, Err(ErrM::InvalidNumber(decimal(x)))),
                            Some(n) => (s2, Ok((pow(b as int, n as nat) % (fr_modulus() as int)) as nat)),
                        },
                    }
                },
            }
        },
        Expr::LogicalOr(lhs, rhs) => {
            let (s1, r) = sem_scalar(e, s, *lhs, fuel);
            match r {
                Err(er) => (s1, Err(er)),
                Ok(a) => if a != 0 {
                    (s1, Ok(a))
                } else {
                    sem_scalar(e, s1, *rhs, fuel)
                },
            }
        },
        _ => {
            let (s1, r) = sem_expr(e, s, x, fuel);
            match r {
                Err(er) => (s1, Err(er)),
                Ok(Val::Num(n)) => (s1, Ok(n)),
                Ok(Val::Arr(_)) => (s1, Err(ErrM::ExpectedNumber)),
            }
        },
    }
}

/// Whether every listed component is a component of the circuit.
pub open spec fn triggers_in_range(c: Circuit, cs: Seq<usize>) -> bool {
    forall|k: int| 0 <= k < cs.len() ==> #[trigger] cs[k] < c.components@.len()
}

/// Stores a value in the named signal and triggers every component that has
/// then received all its inputs.
pub open spec fn sem_set_signal_full(e: Env, s: CtxM, full: Seq<char>, v: nat, fuel: nat) -> (CtxM, Result<(), ErrM>)
    decreases fuel, 1nat, 0nat,
{
    match signal_idx_spec(e.circuit, full) {
        Err(er) => (s, Err(er)),
        Ok(i) => if i >= s.witness.len() || i >= e.circuit.signals@.len() {
            (s, Err(ErrM::Runtime("Signal index out of range"@)))
        } else if !triggers_in_range(e.circuit, e.circuit.signals@[i as int].trigger_components@) {
            (s, Err(ErrM::Runtime("Component index out of range"@)))
        } else {
            let first = s.witness[i as int] is None;
            let trigs = e.circuit.signals@[i as int].trigger_components@;
            let s1 = CtxM {
                witness: s.witness.update(i as int, Some(v)),
                not_init: if first { decrement_all(s.not_init, trigs) } else { s.not_init },
                ..s
            };
            sem_triggers(e, s1, trigs, fuel)
        },
    }
}

/// Triggers, in order, each listed component whose counter has reached zero.
pub open spec fn sem_triggers(e: Env, s: CtxM, cs: Seq<usize>, fuel: nat) -> (CtxM, Result<(), ErrM>)
    decreases fuel, 0nat, cs.len() + 1,
{
    if cs.len() == 0 {
        (s, Ok(()))
    } else {
        let c = cs[0];
        if s.not_init[c as int] == 0 {
            let (s1, r) = sem_trigger(e, s, c as nat, fuel);
            match r {
                Err(er) => (s1, Err(er)),
                Ok(_) => sem_triggers(e, s1, cs.drop_first(), fuel),
            }
        } else {
            sem_triggers(e, s, cs.drop_first(), fuel)
        }
    }
}

/// The state in which the template of component `c` starts: its counter
/// decremented, the component current, and two scopes, the outermost scope of
/// the caller and the component's parameters.
pub open spec fn trigger_entry(e: Env, s: CtxM, c: nat) -> CtxM {
    let comp = e.circuit.components@[c as int];
    let first_scope = if s.scopes.len() > 0 { s.scopes[0] } else { Map::empty() };
    CtxM {
        not_init: s.not_init.update(c as int, s.not_init[c as int].wrapping_sub(1)),
        current: Some(comp.name@),
        scopes: seq![first_scope, scope_model(comp.params)],
        ..s
    }
}

/// Runs the template of component `c` in a fresh scope.
pub open spec fn sem_trigger(e: Env, s: CtxM, c: nat, fuel: nat) -> (CtxM, Result<(), ErrM>)
    decreases fuel, 0nat, 0nat,
{
    if fuel == 0 {
        (s, Err(ErrM::StepLimit))
    } else {
        let comp = e.circuit.components@[c as int];
        let s1 = trigger_entry(e, s, c);
        if !e.templates.contains_key(comp.template@) {
            (s1, Err(ErrM::Runtime("Template not defined: "@ + comp.template@ + " for component "@ + comp.name@)))
        } else {
            let (s2, r) = sem_function(e, s1, e.templates[comp.template@], (fuel - 1) as nat);
            match r {
                Err(er) => (s2, Err(er)),
                Ok(_) => (CtxM { scopes: s.scopes, current: s.current, ..s2 }, Ok(())),
            }
        }
    }
}

/// Runs a function body; its value is the value returned, or zero.
pub open spec fn sem_function(e: Env, s: CtxM, f: Function, fuel: nat) -> (CtxM, Result<Val, ErrM>)
    decreases fuel, stmts_size(f.body@) + 1, 0nat,
{
    let (s1, r) = sem_block(e, s, f.body@, fuel);
    match r {
        Err(er) => (s1, Err(er)),
        Ok(Some(v)) => (s1, Ok(v)),
        Ok(None) => (s1, Ok(Val::Num(0))),
    }
}

/// Runs statements in order until one returns.
pub open spec fn sem_block(e: Env, s: CtxM, ss: Seq<Stmt>, fuel: nat) -> (CtxM, Result<Option<Val>, ErrM>)
    decreases fuel, stmts_size(ss), 0nat,
{
    if ss.len() == 0 {
        (s, Ok(None))
    } else {
        let (s1, r) = sem_stmt(e, s, ss[0], fuel);
        match r {
            Err(er) => (s1, Err(er)),
            Ok(Some(v)) => (s1, Ok(Some(v))),
            Ok(None) => sem_block(e, s1, ss.drop_first(), fuel),
        }
    }
}

/// Size of the optional update expression of a loop.
pub open spec fn update_size(u: Option<Expr>) -> nat {
    match u {
        Some(x) => expr_size(x),
        None => 0,
    }
}

/// Runs a loop: while the condition holds, the body and then the update.
pub open spec fn sem_loop(e: Env, s: CtxM, cond: Expr, body: Stmt, update: Option<Expr>, fuel: nat) -> (CtxM, Result<Option<Val>, ErrM>)
    decreases fuel, expr_size(cond) + stmt_size(body) + update_size(update), 0nat,
{
    let (s1, r) = sem_scalar(e, s, cond, fuel);
    match r {
        Err(er) => (s1, Err(er)),
        Ok(c) => if c == 0 {
            (s1, Ok(None))
        } else {
            let (s2, r2) = sem_stmt(e, s1, body, fuel);
            match r2 {
                Err(er) => (s2, Err(er)),
                Ok(Some(v)) => (s2, Ok(Some(v))),
                Ok(None) => {
                    let (s3, r3) = match update {
                        Some(u) => {
                            let (s3, r3) = sem_expr(e, s2, u, fuel);
                            match r3 {
                                Err(er) => (s3, Err(er)),
                                Ok(_) => (s3, Ok(())),
                            }
                        },
                        None => (s2, Ok(())),
                    };
                    match r3 {
                        Err(er) => (s3, Err(er)),
                        Ok(_) => if fuel == 0 {
                            (s3, Err(ErrM::StepLimit))
                        } else {
                            sem_loop(e, s3, cond, body, update, (fuel - 1) as nat)
                        },
                    }
                },
            }
        },
    }
}

/// Runs a statement; its value is what it returns, if it returns.
pub open spec fn sem_stmt(e: Env, s: CtxM, st: Stmt, fuel: nat) -> (CtxM, Result<Option<Val>, ErrM>)
    decreases fuel, stmt_size(st), 0nat,
{
    match st {
        Stmt::Block(ss) => sem_block(e, s, ss@, fuel),
        Stmt::Expr(x) => {
            let (s1, r) = sem_expr(e, s, x, fuel);
            match r {
                Err(er) => (s1, Err(er)),
                Ok(_) => (s1, Ok(None)),
            }
        },
        Stmt::Assert { lhs, rhs, loc } => {
            let (s1, r) = sem_scalar(e, s, lhs, fuel);
            match r {
                Err(er) => (s1, Err(er)),
                Ok(a) => {
                    let (s2, r2) = sem_scalar(e, s1, rhs, fuel);
                    match r2 {
                        Err(er) => (s2, Err(er)),
                        Ok(b) => if a != b {
                            (s2, Err(ErrM::Assertion(a, b, loc@)))
                        } else {
                            (s2, Ok(None))
                        },
                    }
                },
            }
        },
        Stmt::If { cond, then, else_ } => {
            let (s1, r) = sem_scalar(e, s, cond, fuel);
            match r {
                Err(er) => (s1, Err(er)),
                Ok(c) => if c != 0 {
                    sem_stmt(e, s1, *then, fuel)
                } else {
                    match else_ {
                        Some(b) => sem_stmt(e, s1, *b, fuel),
                        None => (s1, Ok(None)),
                    }
                },
            }
        },
        Stmt::While { cond, body } => sem_loop(e, s, cond, *body, None, fuel),
        Stmt::For { init, cond, update, body } => {
            let (s1, r) = sem_expr(e, s, init, fuel);
            match r {
                Err(er) => (s1, Err(er)),
                Ok(_) => sem_loop(e, s1, cond, *body, Some(update), fuel),
            }
        },
        Stmt::Return(x) => {
            let (s1, r) = sem_expr(e, s, x, fuel);
            match r {
                Err(er) => (s1, Err(er)),
                Ok(v) => (s1, Ok(Some(v))),
            }
        },
    }
}

/// Reading under `sels` what was just stored under `sels` gives it back.
proof fn lemma_select_set_in(a: Seq<Val>, sels: Seq<u32>, v: Val)
    requires
        sels.len() > 0,
    ensures
        select_spec(Val::Arr(set_in(a, sels, v)), sels) == Ok::<Val, ErrM>(v),
    decreases sels.len(),
{
    let idx = sels[0] as int;
    let b = pad_zeros(a, (idx + 1) as nat);
    assert(b.len() >= idx + 1);
    let c = set_in(a, sels, v);
    assert(c.len() == b.len());
    if sels.len() > 1 {
        let inner = match b[idx] {
            Val::Arr(n) => n,
            Val::Num(_) => seq![],
        };
        lemma_select_set_in(inner, sels.drop_first(), v);
        assert(c[idx] == Val::Arr(set_in(inner, sels.drop_first(), v)));
    } else {
        assert(c[idx] == v);
        assert(sels.drop_first().len() == 0);
        assert(select_spec(c[idx], sels.drop_first()) == Ok::<Val, ErrM>(v));
    }
    assert(select_spec(Val::Arr(c), sels) == select_spec(c[idx], sels.drop_first()));
}

/// A variable read right after a successful write of it, under the same
/// selectors, gives the value written.
pub proof fn lemma_get_var_after_set_var(s: CtxM, name: Seq<char>, sels: Seq<u32>, v: Val)
    requires
        set_var_spec(s, name, sels, v).1 is Ok,
    ensures
        set_var_spec(s, name, sels, v).1 == Ok::<Val, ErrM>(v),
        get_var_spec(set_var_spec(s, name, sels, v).0, name, sels) == Ok::<Val, ErrM>(v),
{
    let s1 = set_var_spec(s, name, sels, v).0;
    let k = (s.scopes.len() - 1) as int;
    assert(s1.scopes.last() == s1.scopes[k]);
    if sels.len() > 0 {
        let last = s.scopes.last();
        let cur = if last.contains_key(name) { last[name] } else { Val::Arr(seq![]) };
        match cur {
            Val::Arr(a) => {
                lemma_select_set_in(a, sels, v);
            },
            Val::Num(_) => {},
        }
    }
}

/// A new innermost scope with no variables changes no read: every variable
/// is found in the outer scopes as before.
pub proof fn lemma_get_var_through_new_scope(s: CtxM, name: Seq<char>, sels: Seq<u32>)
    ensures
        get_var_spec(CtxM { scopes: s.scopes.push(Map::empty()), ..s }, name, sels) == get_var_spec(s, name, sels),
{
    let t = s.scopes.push(Map::<Seq<char>, Val>::empty());
    assert(t.drop_last() =~= s.scopes);
    assert(!t.last().contains_key(name));
}

/// A variable written in an inner scope shadows the outer ones only until
/// that scope is closed: after the scope is closed, reads are as before.
pub proof fn lemma_inner_scope_write_is_dropped(s: CtxM, name: Seq<char>, sels: Seq<u32>, v: Val, rsels: Seq<u32>)
    ensures
        ({
            let s1 = CtxM { scopes: s.scopes.push(Map::empty()), ..s };
            let s2 = set_var_spec(s1, name, sels, v).0;
            let s3 = CtxM { scopes: s2.scopes.drop_last(), ..s2 };
            get_var_spec(s3, name, rsels) == get_var_spec(s, name, rsels)
        }),
{
    let s1 = CtxM { scopes: s.scopes.push(Map::empty()), ..s };
    let s2 = set_var_spec(s1, name, sels, v).0;
    assert(s2.scopes.drop_last() =~= s.scopes);
}

/// Triggering components none of whose counters is zero changes nothing.
proof fn lemma_triggers_none(e: Env, s: CtxM, cs: Seq<usize>, fuel: nat)
    requires
        forall|k: int| 0 <= k < cs.len() ==> s.not_init[#[trigger] cs[k] as int] != 0,
    ensures
        sem_triggers(e, s, cs, fuel) == (s, Ok::<(), ErrM>(())),
    decreases cs.len(),
{
    if cs.len() > 0 {
        assert(s.not_init[cs[0] as int] != 0);
        assert forall|k: int| 0 <= k < cs.drop_first().len() implies s.not_init[#[trigger] cs.drop_first()[k] as int] != 0 by {
            assert(cs.drop_first()[k] == cs[k + 1]);
        }
        lemma_triggers_none(e, s, cs.drop_first(), fuel);
    }
}

/// Whether storing a value in the signal named `full` leaves every component
/// that the signal feeds still waiting for an input, so that none runs.
pub open spec fn set_triggers_none(e: Env, s: CtxM, full: Seq<char>) -> bool {
    match signal_idx_spec(e.circuit, full) {
        Ok(i) => i < e.circuit.signals@.len() ==> {
            let trigs = e.circuit.signals@[i as int].trigger_components@;
            let counters = if i < s.witness.len() && s.witness[i as int] is None {
                decrement_all(s.not_init, trigs)
            } else {
                s.not_init
            };
            forall|k: int| 0 <= k < trigs.len() ==> counters[#[trigger] trigs[k] as int] != 0
        },
        Err(_) => true,
    }
}

/// A signal read right after it was stored, when storing it ran no
/// component, gives the value stored.
pub proof fn lemma_get_signal_after_set(e: Env, s: CtxM, full: Seq<char>, v: nat, fuel: nat)
    requires
        sem_set_signal_full(e, s, full, v, fuel).1 is Ok,
        set_triggers_none(e, s, full),
    ensures
        get_signal_full_spec(e, sem_set_signal_full(e, s, full, v, fuel).0, full) == Ok::<nat, ErrM>(v),
{
    let i = signal_idx_spec(e.circuit, full)->Ok_0;
    let first = s.witness[i as int] is None;
    let trigs = e.circuit.signals@[i as int].trigger_components@;
    let s1 = CtxM {
        witness: s.witness.update(i as int, Some(v)),
        not_init: if first { decrement_all(s.not_init, trigs) } else { s.not_init },
        ..s
    };
    lemma_triggers_none(e, s1, trigs, fuel);
}

/// `x % p` and `x & MASK` evaluate as `x` itself (every field element is
/// below the prime and below the mask), and the prime constant evaluates as
/// zero.
pub proof fn lemma_mod_and_mask_are_identities(e: Env, s: CtxM, x: Expr, modulus: Expr, fuel: nat)
    ensures
        sem_scalar(e, s, Expr::BinOp { op: BinOpKind::Mod, lhs: Box::new(x), rhs: Box::new(modulus) }, fuel)
            == sem_scalar(e, s, x, fuel),
        sem_scalar(e, s, Expr::BinOp { op: BinOpKind::And, lhs: Box::new(x), rhs: Box::new(Expr::MaskConst) }, fuel)
            == sem_scalar(e, s, x, fuel),
        sem_scalar(e, s, Expr::PrimeConst, fuel) == (s, Ok::<nat, ErrM>(0)),
{
}

/// Writing a variable leaves every other variable, and every scope but the
/// innermost, as it was.
pub proof fn lemma_set_var_touches_only_its_name(s: CtxM, name: Seq<char>, sels: Seq<u32>, v: Val, other: Seq<char>, osels: Seq<u32>)
    requires
        other != name,
    ensures
        get_var_spec(set_var_spec(s, name, sels, v).0, other, osels) == get_var_spec(s, other, osels),
        set_var_spec(s, name, sels, v).0.scopes.len() == s.scopes.len(),
        s.scopes.len() > 0 ==> set_var_spec(s, name, sels, v).0.scopes.drop_last() == s.scopes.drop_last(),
        set_var_spec(s, name, sels, v).0.witness == s.witness,
        set_var_spec(s, name, sels, v).0.not_init == s.not_init,
{
    let s1 = set_var_spec(s, name, sels, v).0;
    if s.scopes.len() > 0 {
        assert(s1.scopes.drop_last() =~= s.scopes.drop_last());
        assert(s1.scopes.last().contains_key(other) == s.scopes.last().contains_key(other));
        if s.scopes.last().contains_key(other) {
            assert(s1.scopes.last()[other] == s.scopes.last()[other]);
        }
    }
}

/// One pass of a `for` loop's body followed by its update is the body of the
/// equivalent `while` loop: the block of the body and the update as an
/// expression statement.
#[verifier::spinoff_prover]
#[verifier::rlimit(80)]
proof fn lemma_for_loop_is_while_loop(e: Env, s: CtxM, cond: Expr, body: Stmt, update: Expr, blk: Stmt, fuel: nat)
    requires
        blk matches Stmt::Block(v) && v@ == seq![body, Stmt::Expr(update)],
    ensures
        sem_loop(e, s, cond, body, Some(update), fuel) == sem_loop(e, s, cond, blk, None, fuel),
    decreases fuel,
{
    let v = match blk { Stmt::Block(v) => v, _ => arbitrary() };
    let (s1, r) = sem_scalar(e, s, cond, fuel);
    if r matches Ok(c) && c != 0 {
        let ss = v@;
        let t = seq![Stmt::Expr(update)];
        assert(ss[0] == body);
        assert(ss.drop_first() =~= t);
        assert(t[0] == Stmt::Expr(update));
        assert(t.drop_first() =~= Seq::<Stmt>::empty());
        let (s2, r2) = sem_stmt(e, s1, body, fuel);
        assert(sem_stmt(e, s1, blk, fuel) == sem_block(e, s1, ss, fuel));
        match r2 {
            Err(er) => {
                assert(sem_block(e, s1, ss, fuel) == (s2, Err::<Option<Val>, ErrM>(er)));
            },
            Ok(Some(x)) => {
                assert(sem_block(e, s1, ss, fuel) == (s2, Ok::<Option<Val>, ErrM>(Some(x))));
            },
            Ok(None) => {
                let (s3, r3) = sem_expr(e, s2, update, fuel);
                assert(sem_block(e, s1, ss, fuel) == sem_block(e, s2, t, fuel));
                assert(sem_block(e, s3, t.drop_first(), fuel) == (s3, Ok::<Option<Val>, ErrM>(None)));
                match r3 {
                    Err(er) => {
                        assert(sem_stmt(e, s2, t[0], fuel) == (s3, Err::<Option<Val>, ErrM>(er)));
                        assert(sem_block(e, s2, t, fuel) == (s3, Err::<Option<Val>, ErrM>(er)));
                    },
                    Ok(_) => {
                        assert(sem_stmt(e, s2, t[0], fuel) == (s3, Ok::<Option<Val>, ErrM>(None)));
                        assert(sem_block(e, s2, t, fuel) == (s3, Ok::<Option<Val>, ErrM>(None)));
                        if fuel > 0 {
                            lemma_for_loop_is_while_loop(e, s3, cond, body, update, blk, (fuel - 1) as nat);
                        }
                    },
                }
            },
        }
    }
}

/// A `for` loop runs as its initialiser followed by the `while` loop whose
/// body is the block of the loop's body and its update.
pub proof fn lemma_for_is_init_then_while(e: Env, s: CtxM, init: Expr, cond: Expr, update: Expr, body: Stmt, blk: Stmt, fuel: nat)
    requires
        blk matches Stmt::Block(v) && v@ == seq![body, Stmt::Expr(update)],
    ensures
        sem_stmt(e, s, Stmt::For { init, cond, update, body: Box::new(body) }, fuel) == ({
            let (s1, r) = sem_expr(e, s, init, fuel);
            match r {
                Err(er) => (s1, Err(er)),
                Ok(_) => sem_stmt(e, s1, Stmt::While { cond, body: Box::new(blk) }, fuel),
            }
        }),
{
    let s1 = sem_expr(e, s, init, fuel).0;
    lemma_for_loop_is_while_loop(e, s1, cond, body, update, blk, fuel);
}

/// How many times `c` is listed in `cs`.
pub open spec fn times_listed(cs: Seq<usize>, c: int) -> nat
    decreases cs.len(),
{
    if cs.len() == 0 {
        0
    } else {
        (if cs[0] as int == c { 1nat } else { 0nat }) + times_listed(cs.drop_first(), c)
    }
}

/// Decrementing the counters of a list of components lowers each counter by
/// the number of times its component is listed (while no counter wraps).
pub proof fn lemma_decrement_all_counts(n: Seq<i64>, cs: Seq<usize>, c: int)
    requires
        0 <= c < n.len(),
        forall|k: int| 0 <= k < cs.len() ==> (#[trigger] cs[k] as int) < n.len(),
        forall|j: int| 0 <= j < n.len() ==> #[trigger] n[j] >= i64::MIN + cs.len(),
    ensures
        decrement_all(n, cs).len() == n.len(),
        decrement_all(n, cs)[c] == n[c] - times_listed(cs, c),
    decreases cs.len(),
{
    if cs.len() > 0 {
        let d = cs[0] as int;
        assert(cs[0] as int == d);
        let m = n.update(d, n[d].wrapping_sub(1));
        assert(n[d] >= i64::MIN + 1);
        assert(m[d] == n[d] - 1);
        assert forall|k: int| 0 <= k < cs.drop_first().len() implies (#[trigger] cs.drop_first()[k] as int) < m.len() by {
            assert(cs.drop_first()[k] == cs[k + 1]);
        }
        assert forall|j: int| 0 <= j < m.len() implies #[trigger] m[j] >= i64::MIN + cs.drop_first().len() by {
            assert(n[j] >= i64::MIN + cs.len());
        }
        lemma_decrement_all_counts(m, cs.drop_first(), c);
    }
}

/// Storing a value in a signal decrements the counters of the components it
/// feeds only on its first assignment: storing it again changes only its
/// value before the components it feeds are triggered.
pub proof fn lemma_store_decrements_only_first_time(e: Env, s: CtxM, full: Seq<char>, v: nat, fuel: nat)
    requires
        signal_idx_spec(e.circuit, full) matches Ok(i) && i < s.witness.len() && i < e.circuit.signals@.len()
            && triggers_in_range(e.circuit, e.circuit.signals@[i as int].trigger_components@),
    ensures
        ({
            let i = signal_idx_spec(e.circuit, full)->Ok_0 as int;
            let trigs = e.circuit.signals@[i].trigger_components@;
            let w = s.witness.update(i, Some(v));
            sem_set_signal_full(e, s, full, v, fuel) == if s.witness[i] is Some {
                sem_triggers(e, CtxM { witness: w, ..s }, trigs, fuel)
            } else {
                sem_triggers(e, CtxM { witness: w, not_init: decrement_all(s.not_init, trigs), ..s }, trigs, fuel)
            }
        }),
{
}

/// The comparisons of field elements compare canonical values: each gives
/// one exactly when its relation holds and zero otherwise. In particular no
/// element is greater or less than itself, and `a > b` is `b < a`.
pub proof fn lemma_comparisons_compare_values(a: nat, b: nat)
    ensures
        binop_spec(BinOpKind::Gt, a, b) == Ok::<nat, ErrM>(if a > b { 1 } else { 0 }),
        binop_spec(BinOpKind::Lt, a, b) == Ok::<nat, ErrM>(if a < b { 1 } else { 0 }),
        binop_spec(BinOpKind::Eq, a, b) == Ok::<nat, ErrM>(if a == b { 1 } else { 0 }),
        binop_spec(BinOpKind::Neq, a, b) == Ok::<nat, ErrM>(if a != b { 1 } else { 0 }),
        binop_spec(BinOpKind::Gt, a, a) == Ok::<nat, ErrM>(0),
        binop_spec(BinOpKind::Lt, a, a) == Ok::<nat, ErrM>(0),
        binop_spec(BinOpKind::Gt, a, b) == binop_spec(BinOpKind::Lt, b, a),
{
    reveal(binop_spec);
}

/// Addition and multiplication of field elements are the sums and products
/// of their values reduced modulo the field order, and subtraction undoes
/// addition.
pub proof fn lemma_arithmetic_is_modular(a: nat, b: nat)
    requires
        a < fr_modulus(),
        b < fr_modulus(),
    ensures
        binop_spec(BinOpKind::Add, a, b) == Ok::<nat, ErrM>((a + b) % fr_modulus()),
        binop_spec(BinOpKind::Mul, a, b) == Ok::<nat, ErrM>((a * b) % fr_modulus()),
        binop_spec(BinOpKind::Add, a, b) == binop_spec(BinOpKind::Add, b, a),
        binop_spec(BinOpKind::Sub, (a + b) % fr_modulus(), b) == Ok::<nat, ErrM>(a),
{
    reveal(binop_spec);
    let m = fr_modulus() as int;
    assert(m > 0);
    let q = ((a + b) % fr_modulus()) as int;
    assert(q == (a + b) as int % m);
    if a + b < m {
        assert((a + b) as int % m == a + b) by (nonlinear_arith)
            requires 0 <= a + b < m;
        assert((q - b) % m == a as int) by (nonlinear_arith)
            requires q == a + b, 0 <= a < m;
    } else {
        assert((a + b) as int % m == a + b - m) by (nonlinear_arith)
            requires m <= a + b < 2 * m;
        assert((q - b) % m == a as int) by (nonlinear_arith)
            requires q == a + b - m, 0 <= a < m;
    }
    assert(fr_sub_spec(q as nat, b) == a);
}

/// A comparison of two literals evaluates to one exactly when the relation
/// holds between their canonical values, and changes nothing.
pub proof fn lemma_literal_comparison(e: Env, s: CtxM, op: BinOpKind, x: Fr, y: Fr, fuel: nat)
    requires
        op == BinOpKind::Gt || op == BinOpKind::Lt || op == BinOpKind::Eq || op == BinOpKind::Neq,
    ensures
        sem_scalar(e, s, Expr::BinOp { op, lhs: Box::new(Expr::NumberLit(x)), rhs: Box::new(Expr::NumberLit(y)) }, fuel)
            == (s, Ok::<nat, ErrM>(if (op == BinOpKind::Gt && x.val() > y.val())
                || (op == BinOpKind::Lt && x.val() < y.val())
                || (op == BinOpKind::Eq && x.val() == y.val())
                || (op == BinOpKind::Neq && x.val() != y.val()) { 1 } else { 0 })),
{
    lemma_comparisons_compare_values(x.val(), y.val());
    let lx = Expr::NumberLit(x);
    let ly = Expr::NumberLit(y);
    assert(sem_scalar(e, s, lx, fuel) == (s, Ok::<nat, ErrM>(x.val())));
    assert(sem_scalar(e, s, ly, fuel) == (s, Ok::<nat, ErrM>(y.val())));
    assert(!(ly is MaskConst));
    assert(op != BinOpKind::Mod && op != BinOpKind::And);
}

/// Running a component's template successfully leaves the current component
/// and the scopes as they were before; only the witness and the counters may
/// change.
pub proof fn lemma_trigger_restores_caller(e: Env, s: CtxM, c: nat, fuel: nat)
    requires
        sem_trigger(e, s, c, fuel).1 is Ok,
    ensures
        sem_trigger(e, s, c, fuel).0.current == s.current,
        sem_trigger(e, s, c, fuel).0.scopes == s.scopes,
{
}

/// Triggering a list of components successfully leaves the current component
/// and the scopes as they were.
pub proof fn lemma_triggers_restore_caller(e: Env, s: CtxM, cs: Seq<usize>, fuel: nat)
    requires
        sem_triggers(e, s, cs, fuel).1 is Ok,
    ensures
        sem_triggers(e, s, cs, fuel).0.current == s.current,
        sem_triggers(e, s, cs, fuel).0.scopes == s.scopes,
    decreases cs.len(),
{
    if cs.len() > 0 {
        let c = cs[0];
        if s.not_init[c as int] == 0 {
            let s1 = sem_trigger(e, s, c as nat, fuel).0;
            lemma_trigger_restores_caller(e, s, c as nat, fuel);
            lemma_triggers_restore_caller(e, s1, cs.drop_first(), fuel);
        } else {
            lemma_triggers_restore_caller(e, s, cs.drop_first(), fuel);
        }
    }
}

/// Storing a value in a signal successfully, with whatever it triggers,
/// leaves the current component and the scopes as they were.
pub proof fn lemma_store_restores_caller(e: Env, s: CtxM, full: Seq<char>, v: nat, fuel: nat)
    requires
        sem_set_signal_full(e, s, full, v, fuel).1 is Ok,
    ensures
        sem_set_signal_full(e, s, full, v, fuel).0.current == s.current,
        sem_set_signal_full(e, s, full, v, fuel).0.scopes == s.scopes,
{
    let i = signal_idx_spec(e.circuit, full)->Ok_0;
    let first = s.witness[i as int] is None;
    let trigs = e.circuit.signals@[i as int].trigger_components@;
    let s1 = CtxM {
        witness: s.witness.update(i as int, Some(v)),
        not_init: if first { decrement_all(s.not_init, trigs) } else { s.not_init },
        ..s
    };
    lemma_triggers_restore_caller(e, s1, trigs, fuel);
}

/// Reading a variable at a path that parts from the written path (neither is
/// a prefix of the other) gives, after the write, what it gave before: a
/// write changes only the element it names, and keeps the arrays around it.
pub proof fn lemma_write_keeps_other_paths(a: Seq<Val>, sels: Seq<u32>, v: Val, t: Seq<u32>, j: int)
    requires
        0 <= j < sels.len(),
        j < t.len(),
        t[j] != sels[j],
        forall|k: int| 0 <= k < j ==> t[k] == sels[k],
        select_spec(Val::Arr(a), t) is Ok,
    ensures
        select_spec(Val::Arr(set_in(a, sels, v)), t) == select_spec(Val::Arr(a), t),
    decreases sels.len(),
{
    let idx = sels[0] as int;
    let b = pad_zeros(a, (idx + 1) as nat);
    let c = set_in(a, sels, v);
    let t0 = t[0] as int;
    assert(t0 < a.len());
    assert(b.len() >= a.len());
    assert(forall|k: int| 0 <= k < a.len() ==> b[k] == a[k]);
    if j == 0 {
        assert(c[t0] == a[t0]);
    } else {
        assert(t0 == idx);
        assert(sels.len() > 1);
        let inner = match b[idx] {
            Val::Arr(n) => n,
            Val::Num(_) => seq![],
        };
        assert(select_spec(Val::Arr(a), t) == select_spec(a[t0], t.drop_first()));
        assert(t.drop_first().len() > 0);
        assert(a[idx] is Arr);
        assert(b[idx] == a[idx]);
        assert(inner == a[idx]->Arr_0);
        assert(select_spec(Val::Arr(inner), t.drop_first()) == select_spec(Val::Arr(a), t));
        assert(c[idx] == Val::Arr(set_in(inner, sels.drop_first(), v)));
        assert forall|k: int| 0 <= k < j - 1 implies t.drop_first()[k] == sels.drop_first()[k] by {
            assert(t[k + 1] == sels[k + 1]);
        }
        lemma_write_keeps_other_paths(inner, sels.drop_first(), v, t.drop_first(), j - 1);
    }
}

/// A write of a variable bound in the innermost scope, under selectors
/// `sels`, leaves every element of that variable at a path that parts from
/// `sels` as it was.
pub proof fn lemma_set_var_keeps_other_paths(s: CtxM, name: Seq<char>, sels: Seq<u32>, v: Val, t: Seq<u32>, j: int)
    requires
        s.scopes.len() > 0,
        s.scopes.last().contains_key(name),
        0 <= j < sels.len(),
        j < t.len(),
        t[j] != sels[j],
        forall|k: int| 0 <= k < j ==> t[k] == sels[k],
        get_var_spec(s, name, t) is Ok,
    ensures
        get_var_spec(set_var_spec(s, name, sels, v).0, name, t) == get_var_spec(s, name, t),
{
    let s1 = set_var_spec(s, name, sels, v).0;
    let last = s.scopes.last();
    assert(lookup_var(s.scopes, name) == Some(last[name]));
    match last[name] {
        Val::Arr(a) => {
            lemma_write_keeps_other_paths(a, sels, v, t, j);
            assert(s1.scopes.last() == last.insert(name, Val::Arr(set_in(a, sels, v))));
        },
        Val::Num(_) => {},
    }
}

/// Division of field elements is the integer quotient of their canonical
/// values, and division by zero is an error; shifts multiply or divide the
/// value by a power of two, reduced modulo the field order.
pub proof fn lemma_division_and_shifts(a: nat, b: nat)
    requires
        a < fr_modulus(),
    ensures
        b == 0 ==> binop_spec(BinOpKind::Div, a, b) == Err::<nat, ErrM>(ErrM::Runtime("division by zero"@)),
        b != 0 ==> (binop_spec(BinOpKind::Div, a, b) matches Ok(q) && q * b <= a < q * b + b),
        fr_u32_spec(b) matches Some(n) ==> binop_spec(BinOpKind::Shl, a, b) == Ok::<nat, ErrM>((a * pow2(n as nat)) % fr_modulus()),
        fr_u32_spec(b) matches Some(n) ==> binop_spec(BinOpKind::Shr, a, b) == Ok::<nat, ErrM>(a / pow2(n as nat)),
{
    reveal(binop_spec);
    if b != 0 {
        let q = a / b;
        assert(q * b <= a < q * b + b) by (nonlinear_arith)
            requires q == a / b, b > 0;
        assert(q <= a) by (nonlinear_arith)
            requires q == a / b, b > 0;
        assert(q % fr_modulus() == q);
    }
    if fr_u32_spec(b) is Some {
        let n = fr_u32_spec(b)->Some_0;
        vstd::arithmetic::power2::lemma_pow2_pos(n as nat);
        let d = a / pow2(n as nat);
        assert(d <= a) by (nonlinear_arith)
            requires d == a / pow2(n as nat), pow2(n as nat) > 0;
        assert(d % fr_modulus() == d);
    }
}

/// `x || y` gives `x` without evaluating `y` when `x` is not zero, and
/// otherwise gives `y`.
pub proof fn lemma_logical_or_short_circuits(e: Env, s: CtxM, x: Fr, rhs: Expr, fuel: nat)
    ensures
        x.val() != 0 ==> sem_scalar(e, s, Expr::LogicalOr(Box::new(Expr::NumberLit(x)), Box::new(rhs)), fuel)
            == (s, Ok::<nat, ErrM>(x.val())),
        x.val() == 0 ==> sem_scalar(e, s, Expr::LogicalOr(Box::new(Expr::NumberLit(x)), Box::new(rhs)), fuel)
            == sem_scalar(e, s, rhs, fuel),
{
    assert(sem_scalar(e, s, Expr::NumberLit(x), fuel) == (s, Ok::<nat, ErrM>(x.val())));
}

/// `c ? a : b` evaluates `a` when the condition is not zero and `b` when it
/// is zero, and only that branch.
pub proof fn lemma_ternary_takes_one_branch(e: Env, s: CtxM, x: Fr, a: Expr, b: Expr, fuel: nat)
    ensures
        x.val() != 0 ==> sem_expr(e, s, Expr::Ternary { cond: Box::new(Expr::NumberLit(x)), then: Box::new(a), else_: Box::new(b) }, fuel)
            == sem_expr(e, s, a, fuel),
        x.val() == 0 ==> sem_expr(e, s, Expr::Ternary { cond: Box::new(Expr::NumberLit(x)), then: Box::new(a), else_: Box::new(b) }, fuel)
            == sem_expr(e, s, b, fuel),
{
    assert(sem_scalar(e, s, Expr::NumberLit(x), fuel) == (s, Ok::<nat, ErrM>(x.val())));
}

/// `if (c) a else b` runs `a` when the condition is not zero and `b` when it
/// is zero; without an else branch a zero condition does nothing.
pub proof fn lemma_if_takes_one_branch(e: Env, s: CtxM, x: Fr, a: Stmt, b: Option<Box<Stmt>>, fuel: nat)
    ensures
        x.val() != 0 ==> sem_stmt(e, s, Stmt::If { cond: Expr::NumberLit(x), then: Box::new(a), else_: b }, fuel)
            == sem_stmt(e, s, a, fuel),
        x.val() == 0 ==> sem_stmt(e, s, Stmt::If { cond: Expr::NumberLit(x), then: Box::new(a), else_: b }, fuel)
            == match b {
                Some(bb) => sem_stmt(e, s, *bb, fuel),
                None => (s, Ok::<Option<Val>, ErrM>(None)),
            },
{
    assert(sem_scalar(e, s, Expr::NumberLit(x), fuel) == (s, Ok::<nat, ErrM>(x.val())));
}

/// A loop whose condition is zero runs its body not at all.
pub proof fn lemma_while_false_does_nothing(e: Env, s: CtxM, x: Fr, body: Stmt, fuel: nat)
    requires
        x.val() == 0,
    ensures
        sem_stmt(e, s, Stmt::While { cond: Expr::NumberLit(x), body: Box::new(body) }, fuel)
            == (s, Ok::<Option<Val>, ErrM>(None)),
{
    assert(sem_scalar(e, s, Expr::NumberLit(x), fuel) == (s, Ok::<nat, ErrM>(x.val())));
    assert(sem_loop(e, s, Expr::NumberLit(x), body, None, fuel) == (s, Ok::<Option<Val>, ErrM>(None)));
}

/// A block stops at a `return`: the statements after it never run, and the
/// block's value is the returned value.
pub proof fn lemma_return_ends_block(e: Env, s: CtxM, x: Expr, rest: Seq<Stmt>, fuel: nat)
    ensures
        sem_block(e, s, seq![Stmt::Return(x)] + rest, fuel) == ({
            let (s1, r) = sem_expr(e, s, x, fuel);
            match r {
                Err(er) => (s1, Err(er)),
                Ok(v) => (s1, Ok::<Option<Val>, ErrM>(Some(v))),
            }
        }),
{
    let ss = seq![Stmt::Return(x)] + rest;
    assert(ss.len() > 0);
    assert(ss[0] == Stmt::Return(x));
    let (s1, r) = sem_expr(e, s, x, fuel);
    assert(sem_stmt(e, s, Stmt::Return(x), fuel) == match r {
        Err(er) => (s1, Err::<Option<Val>, ErrM>(er)),
        Ok(v) => (s1, Ok::<Option<Val>, ErrM>(Some(v))),
    });
}

/// A function whose statements all run without returning gives zero.
pub proof fn lemma_no_return_gives_zero(e: Env, s: CtxM, f: Function, fuel: nat)
    requires
        sem_block(e, s, f.body@, fuel).1 == Ok::<Option<Val>, ErrM>(None),
    ensures
        sem_function(e, s, f, fuel).1 == Ok::<Val, ErrM>(Val::Num(0)),
{
}

/// The full name of a signal of component `c` is `c`, a dot, the signal's
/// name and its selectors outermost first; outside any component it is the
/// name and the selectors.
pub proof fn lemma_signal_name_form(c: Seq<char>, name: Seq<char>, s0: u32, rest: Seq<u32>)
    ensures
        signal_name(Some(c), name, seq![s0] + rest)
            == c + seq!['.'] + name + seq!['['] + decimal(s0 as nat) + seq![']'] + selectors_text(rest),
        signal_name(None, name, seq![s0] + rest)
            == name + seq!['['] + decimal(s0 as nat) + seq![']'] + selectors_text(rest),
{
    crate::text::lemma_selectors_text_outer_first(s0, rest);
    assert(c + seq!['.'] + name + (seq!['['] + decimal(s0 as nat) + seq![']'] + selectors_text(rest))
        =~= c + seq!['.'] + name + seq!['['] + decimal(s0 as nat) + seq![']'] + selectors_text(rest));
    assert(name + (seq!['['] + decimal(s0 as nat) + seq![']'] + selectors_text(rest))
        =~= name + seq!['['] + decimal(s0 as nat) + seq![']'] + selectors_text(rest));
}

/// The pins of the component `one` are named from `one` itself, whatever the
/// current component; other pins are named inside the current component.
pub proof fn lemma_pin_name_form(cur: Option<Seq<char>>, comp: Seq<char>, sig: Seq<char>)
    ensures
        pin_name(cur, seq!['o', 'n', 'e'], seq![], sig, seq![]) == seq!['o', 'n', 'e', '.'] + sig,
        comp != seq!['o', 'n', 'e'] ==> (cur matches Some(c) ==>
            pin_name(cur, comp, seq![], sig, seq![]) == c + seq!['.'] + comp + seq!['.'] + sig),
{
    let e = Seq::<u32>::empty();
    assert(selectors_text(e) == Seq::<char>::empty());
    assert(seq!['o', 'n', 'e'] + selectors_text(e) + seq!['.'] + sig + selectors_text(e) =~= seq!['o', 'n', 'e', '.'] + sig);
    if comp != seq!['o', 'n', 'e'] {
        if let Some(c) = cur {
            assert(c + seq!['.'] + comp + selectors_text(e) + seq!['.'] + sig + selectors_text(e)
                =~= c + seq!['.'] + comp + seq!['.'] + sig);
        }
    }
}

/// A variable is read from the innermost scope that binds it: a binding in
/// the innermost scope hides those of outer scopes.
pub proof fn lemma_innermost_binding_is_read(s: CtxM, name: Seq<char>)
    requires
        s.scopes.len() > 0,
        s.scopes.last().contains_key(name),
    ensures
        get_var_spec(s, name, seq![]) == Ok::<Val, ErrM>(s.scopes.last()[name]),
{
}

/// Reading index `k` of an array gives its `k`-th element, and an index past
/// its end is an error; a number has no elements.
pub proof fn lemma_select_index(a: Seq<Val>, k: u32, n: nat)
    ensures
        (k as int) < a.len() ==> select_spec(Val::Arr(a), seq![k]) == Ok::<Val, ErrM>(a[k as int]),
        (k as int) >= a.len() ==> select_spec(Val::Arr(a), seq![k]) == Err::<Val, ErrM>(ErrM::ValueOutOfRange),
        select_spec(Val::Num(n), seq![k]) == Err::<Val, ErrM>(ErrM::ExpectedArray),
{
    let one = seq![k];
    assert(one.drop_first() =~= Seq::<u32>::empty());
    if (k as int) < a.len() {
        assert(select_spec(a[k as int], one.drop_first()) == Ok::<Val, ErrM>(a[k as int]));
    }
}

/// Writing element `k` of an array grows it to `k + 1` elements if needed:
/// the new elements before `k` are zero, the others keep their values, and
/// element `k` is the value written.
pub proof fn lemma_write_index(a: Seq<Val>, k: u32, v: Val, j: int)
    requires
        0 <= j,
    ensures
        set_in(a, seq![k], v).len() == if (k as int) < a.len() { a.len() as int } else { k as int + 1 },
        set_in(a, seq![k], v)[k as int] == v,
        j < a.len() && j != k ==> set_in(a, seq![k], v)[j] == a[j],
        a.len() <= j < k ==> set_in(a, seq![k], v)[j] == Val::Num(0),
{
}

} // verus!
