//! A signal, once set, stays set: no step of a run clears a witness slot or
//! changes how many slots there are.

use vstd::prelude::*;
use crate::ast::{Expr, Function, Stmt, expr_size, exprs_size, stmt_size, stmts_size};
use crate::semantics::{
    CtxM, Env, scalar_rank, sem_block, sem_expr, sem_exprs, sem_function, sem_loop, sem_scalar,
    sem_selectors, sem_set_signal_full, sem_stmt, sem_trigger, sem_triggers, set_var_spec,
    update_size, value_rank,
};

verus! {

/// `t` has as many witness slots as `s`, and every slot set in `s` is set in `t`.
pub open spec fn keeps_set(s: CtxM, t: CtxM) -> bool {
    &&& t.witness.len() == s.witness.len()
    &&& forall|i: int| 0 <= i < s.witness.len() && (#[trigger] s.witness[i]) is Some ==> t.witness[i] is Some
}

proof fn lemma_keeps_trans(a: CtxM, b: CtxM, c: CtxM)
    requires
        keeps_set(a, b),
        keeps_set(b, c),
    ensures
        keeps_set(a, c),
{
    assert forall|i: int| 0 <= i < a.witness.len() && (#[trigger] a.witness[i]) is Some implies c.witness[i] is Some by {
        assert(b.witness[i] is Some);
    }
}

proof fn lemma_selectors_keeps(e: Env, s: CtxM, xs: Seq<Expr>, fuel: nat)
    ensures
        keeps_set(s, sem_selectors(e, s, xs, fuel).0),
    decreases fuel, exprs_size(xs), 0nat,
{
    if xs.len() > 0 {
        let (s1, r) = sem_scalar(e, s, xs[0], fuel);
        lemma_scalar_keeps(e, s, xs[0], fuel);
        let s2 = sem_selectors(e, s1, xs.drop_first(), fuel).0;
        lemma_selectors_keeps(e, s1, xs.drop_first(), fuel);
        lemma_keeps_trans(s, s1, s2);
    }
}

proof fn lemma_exprs_keeps(e: Env, s: CtxM, xs: Seq<Expr>, fuel: nat)
    ensures
        keeps_set(s, sem_exprs(e, s, xs, fuel).0),
    decreases fuel, exprs_size(xs), 0nat,
{
    if xs.len() > 0 {
        let (s1, r) = sem_expr(e, s, xs[0], fuel);
        lemma_expr_keeps(e, s, xs[0], fuel);
        let s2 = sem_exprs(e, s1, xs.drop_first(), fuel).0;
        lemma_exprs_keeps(e, s1, xs.drop_first(), fuel);
        lemma_keeps_trans(s, s1, s2);
    }
}

proof fn lemma_expr_keeps(e: Env, s: CtxM, x: Expr, fuel: nat)
    ensures
        keeps_set(s, sem_expr(e, s, x, fuel).0),
    decreases fuel, expr_size(x), 2 * value_rank(x),
{
    match x {
        Expr::ArrayLit(xs) => {
            lemma_exprs_keeps(e, s, xs@, fuel);
        },
        Expr::GetVar(name, sels) => {
            lemma_selectors_keeps(e, s, sels@, fuel);
        },
        Expr::SetVar(name, sels, value) => {
            let s1 = sem_selectors(e, s, sels@, fuel).0;
            lemma_selectors_keeps(e, s, sels@, fuel);
            let s2 = sem_expr(e, s1, *value, fuel).0;
            lemma_expr_keeps(e, s1, *value, fuel);
            lemma_keeps_trans(s, s1, s2);
        },
        Expr::CallFunction(_, args) => {
            lemma_exprs_keeps(e, s, args@, fuel);
        },
        Expr::Ternary { cond, then, else_ } => {
            let (s1, r) = sem_scalar(e, s, *cond, fuel);
            lemma_scalar_keeps(e, s, *cond, fuel);
            lemma_expr_keeps(e, s1, *then, fuel);
            lemma_expr_keeps(e, s1, *else_, fuel);
            lemma_keeps_trans(s, s1, sem_expr(e, s1, *then, fuel).0);
            lemma_keeps_trans(s, s1, sem_expr(e, s1, *else_, fuel).0);
        },
        _ => {
            lemma_scalar_keeps(e, s, x, fuel);
        },
    }
}

#[verifier::spinoff_prover]
proof fn lemma_scalar_keeps(e: Env, s: CtxM, x: Expr, fuel: nat)
    ensures
        keeps_set(s, sem_scalar(e, s, x, fuel).0),
    decreases fuel, expr_size(x), 2 * scalar_rank(x) + 1,
{
    match x {
        Expr::NumberLit(_) => {},
        Expr::PrimeConst => {},
        Expr::MaskConst => {},
        Expr::GetSignal(name, sels) => {
            lemma_selectors_keeps(e, s, sels@, fuel);
        },
        Expr::GetPin(cn, cs, sn, ss) => {
            let s1 = sem_selectors(e, s, cs@, fuel).0;
            lemma_selectors_keeps(e, s, cs@, fuel);
            lemma_selectors_keeps(e, s1, ss@, fuel);
            lemma_keeps_trans(s, s1, sem_selectors(e, s1, ss@, fuel).0);
        },
        Expr::SetSignal(name, sels, value) => {
            let (s1, r) = sem_selectors(e, s, sels@, fuel);
            lemma_selectors_keeps(e, s, sels@, fuel);
            let s2 = sem_scalar(e, s1, *value, fuel).0;
            lemma_scalar_keeps(e, s1, *value, fuel);
            lemma_keeps_trans(s, s1, s2);
            if r is Ok {
                let full = crate::semantics::signal_name(s2.current, name@, r->Ok_0);
                let v = sem_scalar(e, s1, *value, fuel).1;
                if v is Ok {
                    lemma_set_signal_full_keeps(e, s2, full, v->Ok_0, fuel);
                    lemma_keeps_trans(s, s2, sem_set_signal_full(e, s2, full, v->Ok_0, fuel).0);
                }
            }
        },
        Expr::SetPin(cn, cs, sn, ss, value) => {
            let (s1, r) = sem_selectors(e, s, cs@, fuel);
            lemma_selectors_keeps(e, s, cs@, fuel);
            let (s2, r2) = sem_selectors(e, s1, ss@, fuel);
            lemma_selectors_keeps(e, s1, ss@, fuel);
            lemma_keeps_trans(s, s1, s2);
            let (s3, r3) = sem_scalar(e, s2, *value, fuel);
            lemma_scalar_keeps(e, s2, *value, fuel);
            lemma_keeps_trans(s, s2, s3);
            if r is Ok && r2 is Ok && r3 is Ok {
                let full = crate::semantics::pin_name(s3.current, cn@, r->Ok_0, sn@, r2->Ok_0);
                lemma_set_signal_full_keeps(e, s3, full, r3->Ok_0, fuel);
                lemma_keeps_trans(s, s3, sem_set_signal_full(e, s3, full, r3->Ok_0, fuel).0);
            }
        },
        Expr::BinOp { .. } | Expr::Inverse(..) | Expr::ModPow(..) | Expr::LogicalOr(..) => {
            lemma_scalar_ops_keeps(e, s, x, fuel);
        },
        _ => {
            lemma_expr_keeps(e, s, x, fuel);
        },
    }
}

#[verifier::spinoff_prover]
proof fn lemma_scalar_ops_keeps(e: Env, s: CtxM, x: Expr, fuel: nat)
    requires
        x is BinOp || x is Inverse || x is ModPow || x is LogicalOr,
    ensures
        keeps_set(s, sem_scalar(e, s, x, fuel).0),
    decreases fuel, expr_size(x), 2 * scalar_rank(x),
{
    match x {
        Expr::BinOp { op, lhs, rhs } => {
            let s1 = sem_scalar(e, s, *lhs, fuel).0;
            lemma_scalar_keeps(e, s, *lhs, fuel);
            lemma_scalar_keeps(e, s1, *rhs, fuel);
            lemma_keeps_trans(s, s1, sem_scalar(e, s1, *rhs, fuel).0);
        },
        Expr::Inverse(base, _) => {
            lemma_scalar_keeps(e, s, *base, fuel);
        },
        Expr::ModPow(base, exp, _) => {
            let s1 = sem_scalar(e, s, *base, fuel).0;
            lemma_scalar_keeps(e, s, *base, fuel);
            lemma_scalar_keeps(e, s1, *exp, fuel);
            lemma_keeps_trans(s, s1, sem_scalar(e, s1, *exp, fuel).0);
        },
        Expr::LogicalOr(lhs, rhs) => {
            let s1 = sem_scalar(e, s, *lhs, fuel).0;
            lemma_scalar_keeps(e, s, *lhs, fuel);
            lemma_scalar_keeps(e, s1, *rhs, fuel);
            lemma_keeps_trans(s, s1, sem_scalar(e, s1, *rhs, fuel).0);
        },
        _ => {},
    }
}

proof fn lemma_set_signal_full_keeps(e: Env, s: CtxM, full: Seq<char>, v: nat, fuel: nat)
    ensures
        keeps_set(s, sem_set_signal_full(e, s, full, v, fuel).0),
    decreases fuel, 1nat, 0nat,
{
    match crate::semantics::signal_idx_spec(e.circuit, full) {
        Err(_) => {},
        Ok(i) => {
            if !(i >= s.witness.len() || i >= e.circuit.signals@.len()) {
                let first = s.witness[i as int] is None;
                let trigs = e.circuit.signals@[i as int].trigger_components@;
                let s1 = CtxM {
                    witness: s.witness.update(i as int, Some(v)),
                    not_init: if first { crate::semantics::decrement_all(s.not_init, trigs) } else { s.not_init },
                    ..s
                };
                assert(keeps_set(s, s1));
                lemma_triggers_keeps(e, s1, trigs, fuel);
                lemma_keeps_trans(s, s1, sem_triggers(e, s1, trigs, fuel).0);
            }
        },
    }
}

proof fn lemma_triggers_keeps(e: Env, s: CtxM, cs: Seq<usize>, fuel: nat)
    ensures
        keeps_set(s, sem_triggers(e, s, cs, fuel).0),
    decreases fuel, 0nat, cs.len() + 1,
{
    if cs.len() > 0 {
        let c = cs[0];
        if s.not_init[c as int] == 0 {
            let s1 = sem_trigger(e, s, c as nat, fuel).0;
            lemma_trigger_keeps(e, s, c as nat, fuel);
            lemma_triggers_keeps(e, s1, cs.drop_first(), fuel);
            lemma_keeps_trans(s, s1, sem_triggers(e, s1, cs.drop_first(), fuel).0);
        } else {
            lemma_triggers_keeps(e, s, cs.drop_first(), fuel);
        }
    }
}

proof fn lemma_trigger_keeps(e: Env, s: CtxM, c: nat, fuel: nat)
    ensures
        keeps_set(s, sem_trigger(e, s, c, fuel).0),
    decreases fuel, 0nat, 0nat,
{
    if fuel > 0 {
        let comp = e.circuit.components@[c as int];
        let s1 = crate::semantics::trigger_entry(e, s, c);
        if e.templates.contains_key(comp.template@) {
            lemma_function_keeps(e, s1, e.templates[comp.template@], (fuel - 1) as nat);
        }
    }
}

proof fn lemma_function_keeps(e: Env, s: CtxM, f: Function, fuel: nat)
    ensures
        keeps_set(s, sem_function(e, s, f, fuel).0),
    decreases fuel, stmts_size(f.body@) + 1, 0nat,
{
    lemma_block_keeps(e, s, f.body@, fuel);
}

proof fn lemma_block_keeps(e: Env, s: CtxM, ss: Seq<Stmt>, fuel: nat)
    ensures
        keeps_set(s, sem_block(e, s, ss, fuel).0),
    decreases fuel, stmts_size(ss), 0nat,
{
    if ss.len() > 0 {
        let s1 = sem_stmt(e, s, ss[0], fuel).0;
        lemma_stmt_keeps(e, s, ss[0], fuel);
        lemma_block_keeps(e, s1, ss.drop_first(), fuel);
        lemma_keeps_trans(s, s1, sem_block(e, s1, ss.drop_first(), fuel).0);
    }
}

proof fn lemma_loop_keeps(e: Env, s: CtxM, cond: Expr, body: Stmt, update: Option<Expr>, fuel: nat)
    ensures
        keeps_set(s, sem_loop(e, s, cond, body, update, fuel).0),
    decreases fuel, expr_size(cond) + stmt_size(body) + update_size(update), 0nat,
{
    let s1 = sem_scalar(e, s, cond, fuel).0;
    lemma_scalar_keeps(e, s, cond, fuel);
    let s2 = sem_stmt(e, s1, body, fuel).0;
    lemma_stmt_keeps(e, s1, body, fuel);
    lemma_keeps_trans(s, s1, s2);
    let s3 = match update {
        Some(u) => sem_expr(e, s2, u, fuel).0,
        None => s2,
    };
    match update {
        Some(u) => {
            lemma_expr_keeps(e, s2, u, fuel);
        },
        None => {},
    }
    lemma_keeps_trans(s, s2, s3);
    if fuel > 0 {
        lemma_loop_keeps(e, s3, cond, body, update, (fuel - 1) as nat);
        lemma_keeps_trans(s, s3, sem_loop(e, s3, cond, body, update, (fuel - 1) as nat).0);
    }
}

proof fn lemma_stmt_keeps(e: Env, s: CtxM, st: Stmt, fuel: nat)
    ensures
        keeps_set(s, sem_stmt(e, s, st, fuel).0),
    decreases fuel, stmt_size(st), 0nat,
{
    match st {
        Stmt::Block(ss) => {
            lemma_block_keeps(e, s, ss@, fuel);
        },
        Stmt::Expr(x) => {
            lemma_expr_keeps(e, s, x, fuel);
        },
        Stmt::Assert { lhs, rhs, loc } => {
            let s1 = sem_scalar(e, s, lhs, fuel).0;
            lemma_scalar_keeps(e, s, lhs, fuel);
            lemma_scalar_keeps(e, s1, rhs, fuel);
            lemma_keeps_trans(s, s1, sem_scalar(e, s1, rhs, fuel).0);
        },
        Stmt::If { cond, then, else_ } => {
            let s1 = sem_scalar(e, s, cond, fuel).0;
            lemma_scalar_keeps(e, s, cond, fuel);
            lemma_stmt_keeps(e, s1, *then, fuel);
            lemma_keeps_trans(s, s1, sem_stmt(e, s1, *then, fuel).0);
            match else_ {
                Some(b) => {
                    lemma_stmt_keeps(e, s1, *b, fuel);
                    lemma_keeps_trans(s, s1, sem_stmt(e, s1, *b, fuel).0);
                },
                None => {},
            }
        },
        Stmt::While { cond, body } => {
            lemma_loop_keeps(e, s, cond, *body, None, fuel);
        },
        Stmt::For { init, cond, update, body } => {
            let s1 = sem_expr(e, s, init, fuel).0;
            lemma_expr_keeps(e, s, init, fuel);
            lemma_loop_keeps(e, s1, cond, *body, Some(update), fuel);
            lemma_keeps_trans(s, s1, sem_loop(e, s1, cond, *body, Some(update), fuel).0);
        },
        Stmt::Return(x) => {
            lemma_expr_keeps(e, s, x, fuel);
        },
    }
}

/// Running a statement, whatever its outcome, leaves the number of witness
/// slots as it was and clears no slot that was set.
pub proof fn lemma_stmt_keeps_set_signals(e: Env, s: CtxM, st: Stmt, fuel: nat)
    ensures
        keeps_set(s, sem_stmt(e, s, st, fuel).0),
{
    lemma_stmt_keeps(e, s, st, fuel);
}

/// Running a component's template, whatever its outcome, leaves the number of
/// witness slots as it was and clears no slot that was set.
pub proof fn lemma_trigger_keeps_set_signals(e: Env, s: CtxM, c: nat, fuel: nat)
    ensures
        keeps_set(s, sem_trigger(e, s, c, fuel).0),
{
    lemma_trigger_keeps(e, s, c, fuel);
}

/// Storing a value in a signal, whatever it triggers and whatever the
/// outcome, clears no slot that was set.
pub proof fn lemma_set_signal_keeps_set_signals(e: Env, s: CtxM, full: Seq<char>, v: nat, fuel: nat)
    ensures
        keeps_set(s, sem_set_signal_full(e, s, full, v, fuel).0),
{
    lemma_set_signal_full_keeps(e, s, full, v, fuel);
}

} // verus!
