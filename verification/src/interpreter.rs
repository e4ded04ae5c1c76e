//! Executes parsed witness-generation functions against a runtime context.
//!
//! Each function here computes exactly what its counterpart in
//! `crate::semantics` describes.

use vstd::prelude::*;
use crate::ast::{BinOpKind, Expr, Function, Stmt, expr_size, exprs_size, stmt_size, stmts_size};
use crate::circuit::{CircuitError, ErrM, res_model};
use crate::field::{Fr, fr_add, fr_sub, fr_mul, fr_inverse, fr_pow, fr_int_div, fr_int_and, fr_int_shl, fr_int_shr};
use crate::rt_ctx::{RTCtx, prepend_sels};
use crate::semantics::{sem_selectors, sem_exprs, sem_expr, sem_scalar, sem_function, sem_block, sem_loop, sem_stmt,
    value_rank, scalar_rank, update_size, binop_spec, bool_num};
use crate::value::{Val, Value, models, lemma_models, fr_to_u32};

verus! {

/// `vs` in front of the values of a successful result.
pub open spec fn prepend_vals(vs: Seq<Val>, r: Result<Seq<Val>, ErrM>) -> Result<Seq<Val>, ErrM> {
    match r {
        Err(er) => Err(er),
        Ok(ws) => Ok(vs + ws),
    }
}

/// Executes a function and returns its return value, or zero if it doesn't
/// return anything.
pub fn execute_function(ctx: &mut RTCtx, func: &Function, fuel: u64) -> (r: Result<Value, CircuitError>)
    requires
        old(ctx).inv(),
    ensures
        final(ctx).inv(),
        final(ctx).env() == old(ctx).env(),
        (final(ctx).model(), res_model(r, |v: Value| v.model())) == sem_function(old(ctx).env(), old(ctx).model(), *func, fuel as nat),
    decreases fuel, stmts_size(func.body@) + 1, 0nat,
{
    match execute_block(ctx, &func.body, fuel)? {
        Some(v) => Ok(v),
        None => Ok(Value::Fr(Fr::zero())),
    }
}

/// Executes a block of statements and returns the value of the first return
/// statement, if any.
fn execute_block(ctx: &mut RTCtx, stmts: &Vec<Stmt>, fuel: u64) -> (r: Result<Option<Value>, CircuitError>)
    requires
        old(ctx).inv(),
    ensures
        final(ctx).inv(),
        final(ctx).env() == old(ctx).env(),
        (final(ctx).model(), res_model(r, |o: Option<Value>| match o { Some(v) => Some(v.model()), None => None }))
            == sem_block(old(ctx).env(), old(ctx).model(), stmts@, fuel as nat),
    decreases fuel, stmts_size(stmts@), 0nat,
{
    let mut i: usize = 0;
    assert(stmts@.subrange(0, stmts@.len() as int) =~= stmts@);
    while i < stmts.len()
        invariant
            ctx.inv(),
            ctx.env() == old(ctx).env(),
            i <= stmts@.len(),
            sem_block(old(ctx).env(), old(ctx).model(), stmts@, fuel as nat)
                == sem_block(ctx.env(), ctx.model(), stmts@.subrange(i as int, stmts@.len() as int), fuel as nat),
        decreases stmts@.len() - i,
    {
        let ghost rest = stmts@.subrange(i as int, stmts@.len() as int);
        proof {
            assert(rest[0] == stmts@[i as int]);
            assert(rest.drop_first() =~= stmts@.subrange(i + 1, stmts@.len() as int));
            lemma_stmts_size_suffix(stmts@, i as int);
        }
        match execute_stmt(ctx, &stmts[i], fuel)? {
            Some(v) => {
                return Ok(Some(v));
            },
            None => {},
        }
        i = i + 1;
    }
    Ok(None)
}

proof fn lemma_stmts_size_suffix(ss: Seq<Stmt>, i: int)
    requires
        0 <= i < ss.len(),
    ensures
        stmt_size(ss[i]) < stmts_size(ss),
    decreases i,
{
    if i > 0 {
        lemma_stmts_size_suffix(ss.drop_first(), i - 1);
    }
}

proof fn lemma_exprs_size_suffix(xs: Seq<Expr>, i: int)
    requires
        0 <= i < xs.len(),
    ensures
        expr_size(xs[i]) < exprs_size(xs),
    decreases i,
{
    if i > 0 {
        lemma_exprs_size_suffix(xs.drop_first(), i - 1);
    }
}

/// Executes a loop: while the condition holds, the body and then the update.
fn execute_loop(ctx: &mut RTCtx, cond: &Expr, body: &Stmt, update: Option<&Expr>, fuel: u64)
    -> (r: Result<Option<Value>, CircuitError>)
    requires
        old(ctx).inv(),
    ensures
        final(ctx).inv(),
        final(ctx).env() == old(ctx).env(),
        (final(ctx).model(), res_model(r, |o: Option<Value>| match o { Some(v) => Some(v.model()), None => None }))
            == sem_loop(old(ctx).env(), old(ctx).model(), *cond, *body,
                match update { Some(u) => Some(*u), None => None }, fuel as nat),
    decreases fuel, expr_size(*cond) + stmt_size(*body) + update_size(match update { Some(u) => Some(*u), None => None }), 0nat,
{
    let ghost upd = match update { Some(u) => Some(*u), None => None::<Expr> };
    let mut f = fuel;
    loop
        invariant
            ctx.inv(),
            ctx.env() == old(ctx).env(),
            f <= fuel,
            upd == match update { Some(u) => Some(*u), None => None::<Expr> },
            sem_loop(old(ctx).env(), old(ctx).model(), *cond, *body, upd, fuel as nat)
                == sem_loop(ctx.env(), ctx.model(), *cond, *body, upd, f as nat),
        decreases f,
    {
        let c = execute_scalar_expr(ctx, cond, f)?;
        if c.is_zero() {
            return Ok(None);
        }
        match execute_stmt(ctx, body, f)? {
            Some(v) => {
                return Ok(Some(v));
            },
            None => {},
        }
        match update {
            Some(u) => {
                execute_expr(ctx, u, f)?;
            },
            None => {},
        }
        if f == 0 {
            return Err(CircuitError::StepLimitExceeded);
        }
        f = f - 1;
    }
}

/// Executes a statement, returning its return value if it has one.
fn execute_stmt(ctx: &mut RTCtx, stmt: &Stmt, fuel: u64) -> (r: Result<Option<Value>, CircuitError>)
    requires
        old(ctx).inv(),
    ensures
        final(ctx).inv(),
        final(ctx).env() == old(ctx).env(),
        (final(ctx).model(), res_model(r, |o: Option<Value>| match o { Some(v) => Some(v.model()), None => None }))
            == sem_stmt(old(ctx).env(), old(ctx).model(), *stmt, fuel as nat),
    decreases fuel, stmt_size(*stmt), 0nat,
{
    match stmt {
        Stmt::Block(statements) => execute_block(ctx, statements, fuel),
        Stmt::Expr(expr) => {
            execute_expr(ctx, expr, fuel)?;
            Ok(None)
        },
        Stmt::Assert { lhs, rhs, loc } => {
            let a = execute_scalar_expr(ctx, lhs, fuel)?;
            let b = execute_scalar_expr(ctx, rhs, fuel)?;
            proof {
                a.lemma_val_injective(b);
            }
            if a != b {
                return Err(CircuitError::AssertionFailed(a, b, loc.clone()));
            }
            Ok(None)
        },
        Stmt::If { cond, then, else_ } => {
            let c = execute_scalar_expr(ctx, cond, fuel)?;
            if !c.is_zero() {
                execute_stmt(ctx, then, fuel)
            } else {
                match else_ {
                    Some(e) => execute_stmt(ctx, e, fuel),
                    None => Ok(None),
                }
            }
        },
        Stmt::While { cond, body } => execute_loop(ctx, cond, body, None, fuel),
        Stmt::For { init, cond, update, body } => {
            execute_expr(ctx, init, fuel)?;
            execute_loop(ctx, cond, body, Some(update), fuel)
        },
        Stmt::Return(expr) => {
            let value = execute_expr(ctx, expr, fuel)?;
            Ok(Some(value))
        },
    }
}

/// Executes a list of expressions and returns their results.
fn execute_exprs(ctx: &mut RTCtx, exprs: &Vec<Expr>, fuel: u64) -> (r: Result<Vec<Value>, CircuitError>)
    requires
        old(ctx).inv(),
    ensures
        final(ctx).inv(),
        final(ctx).env() == old(ctx).env(),
        (final(ctx).model(), res_model(r, |v: Vec<Value>| models(v@)))
            == sem_exprs(old(ctx).env(), old(ctx).model(), exprs@, fuel as nat),
    decreases fuel, exprs_size(exprs@), 0nat,
{
    let mut res: Vec<Value> = Vec::new();
    let mut i: usize = 0;
    assert(exprs@.subrange(0, exprs@.len() as int) =~= exprs@);
    assert(models(res@) + Seq::<Val>::empty() =~= Seq::<Val>::empty());
    proof {
        match sem_exprs(ctx.env(), ctx.model(), exprs@, fuel as nat).1 {
            Ok(ws) => {
                assert(Seq::<Val>::empty() + ws =~= ws);
            },
            Err(_) => {},
        }
    }
    while i < exprs.len()
        invariant
            ctx.inv(),
            ctx.env() == old(ctx).env(),
            i <= exprs@.len(),
            sem_exprs(old(ctx).env(), old(ctx).model(), exprs@, fuel as nat).0
                == sem_exprs(ctx.env(), ctx.model(), exprs@.subrange(i as int, exprs@.len() as int), fuel as nat).0,
            sem_exprs(old(ctx).env(), old(ctx).model(), exprs@, fuel as nat).1
                == prepend_vals(models(res@), sem_exprs(ctx.env(), ctx.model(), exprs@.subrange(i as int, exprs@.len() as int), fuel as nat).1),
        decreases exprs@.len() - i,
    {
        let ghost rest = exprs@.subrange(i as int, exprs@.len() as int);
        let ghost before = res@;
        proof {
            assert(rest[0] == exprs@[i as int]);
            assert(rest.drop_first() =~= exprs@.subrange(i + 1, exprs@.len() as int));
            lemma_exprs_size_suffix(exprs@, i as int);
        }
        let v = execute_expr(ctx, &exprs[i], fuel)?;
        let ghost vm = v.model();
        res.push(v);
        proof {
            assert(res@.drop_last() =~= before);
            assert(models(res@) == models(before).push(vm));
            match sem_exprs(ctx.env(), ctx.model(), exprs@.subrange(i + 1, exprs@.len() as int), fuel as nat).1 {
                Ok(ws) => {
                    assert(models(before) + (seq![vm] + ws) =~= models(res@) + ws);
                },
                Err(_) => {},
            }
        }
        i = i + 1;
    }
    proof {
        assert(exprs@.subrange(i as int, exprs@.len() as int) =~= Seq::<Expr>::empty());
        assert(models(res@) + Seq::<Val>::empty() =~= models(res@));
    }
    Ok(res)
}

/// Executes a list of selector expressions (always scalar in circom).
fn execute_selectors(ctx: &mut RTCtx, exprs: &Vec<Expr>, fuel: u64) -> (r: Result<Vec<u32>, CircuitError>)
    requires
        old(ctx).inv(),
    ensures
        final(ctx).inv(),
        final(ctx).env() == old(ctx).env(),
        (final(ctx).model(), res_model(r, |v: Vec<u32>| v@))
            == sem_selectors(old(ctx).env(), old(ctx).model(), exprs@, fuel as nat),
    decreases fuel, exprs_size(exprs@), 0nat,
{
    let mut res: Vec<u32> = Vec::new();
    let mut i: usize = 0;
    assert(exprs@.subrange(0, exprs@.len() as int) =~= exprs@);
    proof {
        match sem_selectors(ctx.env(), ctx.model(), exprs@, fuel as nat).1 {
            Ok(ws) => {
                assert(Seq::<u32>::empty() + ws =~= ws);
            },
            Err(_) => {},
        }
    }
    while i < exprs.len()
        invariant
            ctx.inv(),
            ctx.env() == old(ctx).env(),
            i <= exprs@.len(),
            sem_selectors(old(ctx).env(), old(ctx).model(), exprs@, fuel as nat).0
                == sem_selectors(ctx.env(), ctx.model(), exprs@.subrange(i as int, exprs@.len() as int), fuel as nat).0,
            sem_selectors(old(ctx).env(), old(ctx).model(), exprs@, fuel as nat).1
                == prepend_sels(res@, sem_selectors(ctx.env(), ctx.model(), exprs@.subrange(i as int, exprs@.len() as int), fuel as nat).1),
        decreases exprs@.len() - i,
    {
        let ghost rest = exprs@.subrange(i as int, exprs@.len() as int);
        let ghost before = res@;
        proof {
            assert(rest[0] == exprs@[i as int]);
            assert(rest.drop_first() =~= exprs@.subrange(i + 1, exprs@.len() as int));
            lemma_exprs_size_suffix(exprs@, i as int);
        }
        let f = execute_scalar_expr(ctx, &exprs[i], fuel)?;
        let u = match fr_to_u32(f) {
            Ok(u) => u,
            Err(e) => {
                return Err(CircuitError::ValueError(e));
            },
        };
        res.push(u);
        proof {
            match sem_selectors(ctx.env(), ctx.model(), exprs@.subrange(i + 1, exprs@.len() as int), fuel as nat).1 {
                Ok(ws) => {
                    assert(before + (seq![u] + ws) =~= res@ + ws);
                },
                Err(_) => {},
            }
        }
        i = i + 1;
    }
    proof {
        assert(exprs@.subrange(i as int, exprs@.len() as int) =~= Seq::<Expr>::empty());
        assert(res@ + Seq::<u32>::empty() =~= res@);
    }
    Ok(res)
}

/// Evaluates an expression to a value.
fn execute_expr(ctx: &mut RTCtx, expr: &Expr, fuel: u64) -> (r: Result<Value, CircuitError>)
    requires
        old(ctx).inv(),
    ensures
        final(ctx).inv(),
        final(ctx).env() == old(ctx).env(),
        (final(ctx).model(), res_model(r, |v: Value| v.model()))
            == sem_expr(old(ctx).env(), old(ctx).model(), *expr, fuel as nat),
    decreases fuel, expr_size(*expr), value_rank(*expr),
{
    match expr {
        Expr::ArrayLit(arr) => {
            let vs = execute_exprs(ctx, arr, fuel)?;
            Ok(Value::Array(vs))
        },
        Expr::GetVar(name, sels) => {
            let sels = execute_selectors(ctx, sels, fuel)?;
            ctx.get_var_sels(name.as_str(), &sels)
        },
        Expr::SetVar(name, sels, value) => {
            let sels = execute_selectors(ctx, sels, fuel)?;
            let value = execute_expr(ctx, value, fuel)?;
            ctx.set_var_sels(name.as_str(), &sels, value)
        },
        Expr::CallFunction(_name, args) => {
            let _args = execute_exprs(ctx, args, fuel)?;
            Err(CircuitError::RuntimeError(String::from_str("call_function is not supported yet")))
        },
        Expr::Ternary { cond, then, else_ } => {
            let c = execute_scalar_expr(ctx, cond, fuel)?;
            if !c.is_zero() {
                execute_expr(ctx, then, fuel)
            } else {
                execute_expr(ctx, else_, fuel)
            }
        },
        _ => {
            let f = execute_scalar_expr(ctx, expr, fuel)?;
            Ok(Value::Fr(f))
        },
    }
}

/// Evaluates a binary operation (other than `Mod`) on two field elements.
fn execute_binop(op: BinOpKind, lhs: Fr, rhs: Fr) -> (r: Result<Fr, CircuitError>)
    ensures
        res_model(r, |f: Fr| f.val()) == binop_spec(op, lhs.val(), rhs.val()),
{
    proof {
        lhs.lemma_val_injective(rhs);
        reveal(binop_spec);
    }
    match op {
        BinOpKind::Add => Ok(fr_add(&lhs, &rhs)),
        BinOpKind::Sub => Ok(fr_sub(&lhs, &rhs)),
        BinOpKind::Mul => Ok(fr_mul(&lhs, &rhs)),
        BinOpKind::Mod => Ok(lhs),
        BinOpKind::Div => {
            if rhs.is_zero() {
                Err(CircuitError::RuntimeError(String::from_str("division by zero")))
            } else {
                Ok(fr_int_div(&lhs, &rhs))
            }
        },
        BinOpKind::Eq => Ok(Fr::from_u64(if lhs == rhs { 1 } else { 0 })),
        BinOpKind::Neq => Ok(Fr::from_u64(if lhs != rhs { 1 } else { 0 })),
        BinOpKind::Lt => Ok(Fr::from_u64(if lhs.lt(&rhs) { 1 } else { 0 })),
        BinOpKind::Gt => Ok(Fr::from_u64(if rhs.lt(&lhs) { 1 } else { 0 })),
        BinOpKind::And => Ok(fr_int_and(&lhs, &rhs)),
        BinOpKind::Shl => match fr_to_u32(rhs) {
            Ok(n) => Ok(fr_int_shl(&lhs, n)),
            Err(e) => Err(CircuitError::ValueError(e)),
        },
        BinOpKind::Shr => match fr_to_u32(rhs) {
            Ok(n) => Ok(fr_int_shr(&lhs, n)),
            Err(e) => Err(CircuitError::ValueError(e)),
        },
    }
}

/// Evaluates an expression to a field element. Value expressions are
/// evaluated by [`execute_expr`] and must give a field element.
fn execute_scalar_expr(ctx: &mut RTCtx, expr: &Expr, fuel: u64) -> (r: Result<Fr, CircuitError>)
    requires
        old(ctx).inv(),
    ensures
        final(ctx).inv(),
        final(ctx).env() == old(ctx).env(),
        (final(ctx).model(), res_model(r, |f: Fr| f.val()))
            == sem_scalar(old(ctx).env(), old(ctx).model(), *expr, fuel as nat),
    decreases fuel, expr_size(*expr), scalar_rank(*expr),
{
    match expr {
        Expr::NumberLit(fr) => Ok(*fr),
        Expr::PrimeConst => Ok(Fr::zero()),
        Expr::MaskConst => Err(CircuitError::RuntimeError(String::from_str("MaskConst used outside of And"))),
        Expr::GetSignal(name, sels) => {
            let sels = execute_selectors(ctx, sels, fuel)?;
            let full = ctx.build_signal_name(name.as_str(), &sels);
            ctx.get_signal_full(full.as_str())
        },
        Expr::GetPin(component_name, component_sels, signal_name, signal_sels) => {
            let component_sels = execute_selectors(ctx, component_sels, fuel)?;
            let signal_sels = execute_selectors(ctx, signal_sels, fuel)?;
            let full = ctx.build_pin_name(component_name.as_str(), &component_sels, signal_name.as_str(), &signal_sels);
            ctx.get_signal_full(full.as_str())
        },
        Expr::SetSignal(name, sels, value) => {
            let sels = execute_selectors(ctx, sels, fuel)?;
            let value = execute_scalar_expr(ctx, value, fuel)?;
            let full = ctx.build_signal_name(name.as_str(), &sels);
            ctx.set_signal_full(full.as_str(), value, fuel)?;
            Ok(value)
        },
        Expr::SetPin(component_name, component_sels, signal_name, signal_sels, value) => {
            let component_sels = execute_selectors(ctx, component_sels, fuel)?;
            let signal_sels = execute_selectors(ctx, signal_sels, fuel)?;
            let value = execute_scalar_expr(ctx, value, fuel)?;
            let full = ctx.build_pin_name(component_name.as_str(), &component_sels, signal_name.as_str(), &signal_sels);
            ctx.set_signal_full(full.as_str(), value, fuel)?;
            Ok(value)
        },
        Expr::BinOp { op, lhs, rhs } => {
            if *op == BinOpKind::Mod || (*op == BinOpKind::And && matches!(**rhs, Expr::MaskConst)) {
                execute_scalar_expr(ctx, lhs, fuel)
            } else {
                let a = execute_scalar_expr(ctx, lhs, fuel)?;
                let b = execute_scalar_expr(ctx, rhs, fuel)?;
                execute_binop(*op, a, b)
            }
        },
        Expr::Inverse(base, _modulus) => {
            let b = execute_scalar_expr(ctx, base, fuel)?;
            match fr_inverse(&b) {
                Some(i) => Ok(i),
                None => Err(CircuitError::InvalidInverse),
            }
        },
        Expr::ModPow(base, exp, _modulus) => {
            let b = execute_scalar_expr(ctx, base, fuel)?;
            let e = execute_scalar_expr(ctx, exp, fuel)?;
            match fr_to_u32(e) {
                Ok(n) => Ok(fr_pow(&b, n as u64)),
                Err(err) => Err(CircuitError::ValueError(err)),
            }
        },
        Expr::LogicalOr(lhs, rhs) => {
            let a = execute_scalar_expr(ctx, lhs, fuel)?;
            if !a.is_zero() {
                return Ok(a);
            }
            execute_scalar_expr(ctx, rhs, fuel)
        },
        _ => {
            match execute_expr(ctx, expr, fuel)? {
                Value::Fr(f) => Ok(f),
                Value::Array(_) => Err(CircuitError::ValueError(crate::value::ValueError::ExpectedNumber)),
            }
        },
    }
}

} // verus!
