//! Runtime context of witness generation: the witness under construction,
//! the counters of missing component inputs, and the variable scopes.

use vstd::prelude::*;
use crate::ast::Function;
use crate::circuit::{Circuit, CircuitError, ErrM, res_model, runtime_error_named};
use crate::field::{Fr, is_digit, digits_value, decimal};
use crate::semantics::{CtxM, Env, scope_model, parse_usize_spec, usize_parse_error_text, signal_name, pin_name, signal_idx_spec, get_signal_full_spec, decrement_all, select_spec, pad_zeros, set_in, lookup_var, get_var_spec, set_var_spec, sem_set_signal_full, sem_triggers, sem_trigger, sem_function, trigger_entry, initial_state};
use crate::strmap::StrMap;
use crate::text::{append_selectors, selectors_text};
use crate::value::{Val, Value, ValueError, fr_u32_spec, models, lemma_models};

verus! {

/// The step budget used when a caller gives none.
pub const DEFAULT_FUEL: u64 = 0xffff_ffff_ffff_ffff;

/// Runtime context for witness generation.
pub struct RTCtx<'a> {
    pub circuit: &'a Circuit,
    templates: &'a StrMap<Function>,
    pub witness: Vec<Option<Fr>>,
    pub not_init_signals: Vec<i64>,
    pub current_component: Option<String>,
    scopes: Vec<StrMap<Value>>,
}

/// Model of a witness slot.
pub open spec fn slot_model(o: Option<Fr>) -> Option<nat> {
    match o {
        Some(f) => Some(f.val()),
        None => None,
    }
}

/// Model of an optional string.
pub open spec fn opt_string_model(o: Option<String>) -> Option<Seq<char>> {
    match o {
        Some(s) => Some(s@),
        None => None,
    }
}

/// The selectors that a list of values stands for, or the first error.
pub open spec fn into_numbers_spec(vs: Seq<Val>) -> Result<Seq<u32>, ErrM>
    decreases vs.len(),
{
    if vs.len() == 0 {
        Ok(seq![])
    } else {
        match vs[0] {
            Val::Arr(_) => Err(ErrM::ExpectedNumber),
            Val::Num(n) => match fr_u32_spec(n) {
                None => Err(ErrM::InvalidNumber(decimal(n))),
                Some(u) => match into_numbers_spec(vs.drop_first()) {
                    Err(er) => Err(er),
                    Ok(us) => Ok(seq![u] + us),
                },
            },
        }
    }
}

/// `us` in front of the selectors of a successful result.
pub open spec fn prepend_sels(us: Seq<u32>, r: Result<Seq<u32>, ErrM>) -> Result<Seq<u32>, ErrM> {
    match r {
        Err(er) => Err(er),
        Ok(vs) => Ok(us + vs),
    }
}

/// Converts values to selectors.
pub fn into_numbers(vals: Vec<Value>) -> (r: Result<Vec<u32>, CircuitError>)
    ensures
        res_model(r, |v: Vec<u32>| v@) == into_numbers_spec(models(vals@)),
{
    let ghost ms = models(vals@);
    proof {
        lemma_models(vals@);
    }
    let mut out: Vec<u32> = Vec::new();
    let mut i: usize = 0;
    let n = vals.len();
    assert(ms.subrange(0, n as int) =~= ms);
    assert(Seq::<u32>::empty() + Seq::<u32>::empty() =~= Seq::<u32>::empty());
    while i < n
        invariant
            n == ms.len(),
            n == vals@.len(),
            ms == models(vals@),
            forall|j: int| 0 <= j < n ==> #[trigger] ms[j] == vals@[j].model(),
            i <= n,
            into_numbers_spec(ms) == prepend_sels(out@, into_numbers_spec(ms.subrange(i as int, n as int))),
        decreases n - i,
    {
        let ghost rest = ms.subrange(i as int, n as int);
        assert(rest[0] == ms[i as int]);
        assert(rest.drop_first() =~= ms.subrange(i + 1, n as int));
        match &vals[i] {
            Value::Array(_) => {
                return Err(CircuitError::ValueError(ValueError::ExpectedNumber));
            },
            Value::Fr(f) => {
                match crate::value::fr_to_u32(*f) {
                    Err(e) => {
                        return Err(CircuitError::ValueError(e));
                    },
                    Ok(u) => {
                        proof {
                            let r2 = into_numbers_spec(ms.subrange(i + 1, n as int));
                            match r2 {
                                Ok(vs) => {
                                    assert(out@ + (seq![u] + vs) =~= out@.push(u) + vs);
                                },
                                Err(_) => {},
                            }
                        }
                        out.push(u);
                    },
                }
            },
        }
        i = i + 1;
    }
    assert(ms.subrange(n as int, n as int) =~= Seq::<Val>::empty());
    assert(out@ + Seq::<u32>::empty() =~= out@);
    Ok(out)
}

/// Calls Rust's `usize::from_str` (through `str::parse`): an optional `+`
/// followed by decimal digits whose value fits in `usize`. On failure gives
/// the text of the error, which is named and not written out.
#[verifier::external_body]
fn parse_usize(s: &str) -> (r: Result<usize, String>)
    ensures
        match parse_usize_spec(s@) {
            Some(n) => r == Ok::<usize, String>(n as usize),
            None => r matches Err(m) && m@ == usize_parse_error_text(s@),
        },
{
    match s.parse::<usize>() {
        Ok(n) => Ok(n),
        Err(e) => Err(e.to_string()),
    }
}

/// Whether every entry of `cs` is below `n`.
fn all_below(cs: &Vec<usize>, n: usize) -> (r: bool)
    ensures
        r == forall|k: int| 0 <= k < cs@.len() ==> #[trigger] cs@[k] < n,
{
    let mut q: usize = 0;
    while q < cs.len()
        invariant
            q <= cs@.len(),
            forall|k: int| 0 <= k < q ==> #[trigger] cs@[k] < n,
        decreases cs@.len() - q,
    {
        if cs[q] >= n {
            return false;
        }
        q = q + 1;
    }
    true
}

/// The value held under `sels[j..]` inside `v`.
fn select<'b>(v: &'b Value, sels: &Vec<u32>, j: usize) -> (r: Result<&'b Value, CircuitError>)
    requires
        j <= sels@.len(),
    ensures
        res_model(r, |x: &Value| x.model()) == select_spec(v.model(), sels@.subrange(j as int, sels@.len() as int)),
    decreases sels@.len() - j,
{
    let ghost rest = sels@.subrange(j as int, sels@.len() as int);
    if j == sels.len() {
        return Ok(v);
    }
    assert(rest[0] == sels@[j as int]);
    assert(rest.drop_first() =~= sels@.subrange(j + 1, sels@.len() as int));
    match v {
        Value::Fr(_) => Err(CircuitError::ValueError(ValueError::ExpectedArray)),
        Value::Array(arr) => {
            proof {
                lemma_models(arr@);
            }
            let idx = sels[j] as usize;
            if idx < arr.len() {
                select(&arr[idx], sels, j + 1)
            } else {
                Err(CircuitError::ValueError(ValueError::ValueOutOfRange))
            }
        },
    }
}

/// Stores `value` under `sels[j..]` inside the array `a`, growing arrays as
/// needed.
fn set_var_array(a: &mut Vec<Value>, sels: &Vec<u32>, j: usize, value: Value)
    requires
        j < sels@.len(),
    ensures
        models(final(a)@) == set_in(models(old(a)@), sels@.subrange(j as int, sels@.len() as int), value.model()),
    decreases sels@.len() - j,
{
    let ghost rest = sels@.subrange(j as int, sels@.len() as int);
    let ghost old_m = models(a@);
    assert(rest[0] == sels@[j as int]);
    assert(rest.drop_first() =~= sels@.subrange(j + 1, sels@.len() as int));
    let idx = sels[j] as usize;
    proof {
        lemma_models(a@);
    }
    while a.len() <= idx
        invariant
            models(a@) == pad_zeros(old_m, a@.len()),
            old_m.len() <= a@.len(),
            a@.len() == old_m.len() || a@.len() <= idx + 1,
            old_m == models(old(a)@),
            j < sels@.len(),
            idx == sels@[j as int],
            rest == sels@.subrange(j as int, sels@.len() as int),
        decreases idx + 1 - a@.len(),
    {
        let ghost before = a@;
        let z = Fr::zero();
        a.push(Value::Fr(z));
        proof {
            lemma_models(before);
            lemma_models(a@);
            let p = pad_zeros(old_m, a@.len());
            assert(p.len() == a@.len());
            assert forall|i: int| 0 <= i < a@.len() implies #[trigger] models(a@)[i] == p[i] by {
                if i < before.len() {
                    assert(a@[i] == before[i]);
                    assert(models(before)[i] == pad_zeros(old_m, before.len())[i]);
                } else {
                    assert(a@[i] == Value::Fr(z));
                }
            }
            assert(models(a@) =~= p);
        }
    }
    let ghost padded = models(a@);
    proof {
        lemma_models(a@);
        if old_m.len() >= idx + 1 {
            assert(padded =~= pad_zeros(old_m, (idx + 1) as nat));
        } else {
            assert(a@.len() == idx + 1);
        }
        assert(padded == pad_zeros(old_m, (idx + 1) as nat));
    }
    if j == sels.len() - 1 {
        let ghost before = a@;
        a.set(idx, value);
        proof {
            lemma_models(a@);
            assert(models(a@) =~= padded.update(idx as int, value.model()));
        }
    } else {
        let old_elem = a.remove(idx);
        let ghost removed = a@;
        let mut inner: Vec<Value> = match old_elem {
            Value::Array(v) => v,
            Value::Fr(_) => Vec::new(),
        };
        proof {
            assert(models(inner@) == match padded[idx as int] {
                Val::Arr(n) => n,
                Val::Num(_) => Seq::<Val>::empty(),
            });
        }
        set_var_array(&mut inner, sels, j + 1, value);
        a.insert(idx, Value::Array(inner));
        proof {
            lemma_models(a@);
            lemma_models(removed);
            assert(models(a@) =~= padded.update(idx as int, Val::Arr(
                set_in(match padded[idx as int] { Val::Arr(n) => n, Val::Num(_) => seq![] }, rest.drop_first(), value.model()))));
        }
    }
}

impl<'a> RTCtx<'a> {
    /// The state of the run.
    pub closed spec fn model(self) -> CtxM {
        CtxM {
            witness: self.witness@.map_values(|o: Option<Fr>| slot_model(o)),
            not_init: self.not_init_signals@,
            current: opt_string_model(self.current_component),
            scopes: self.scopes@.map_values(|m: StrMap<Value>| scope_model(m)),
        }
    }

    /// What the run reads but never changes.
    pub closed spec fn env(self) -> Env {
        Env { circuit: *self.circuit, templates: self.templates.map() }
    }

    /// The circuit is well formed and there is a counter for each component.
    pub closed spec fn inv(self) -> bool {
        &&& self.circuit.well_formed()
        &&& self.not_init_signals@.len() == self.circuit.components@.len()
        &&& self.witness@.len() == self.circuit.n_signals
    }

    /// What the invariant says of the state.
    pub proof fn lemma_inv(self)
        requires
            self.inv(),
        ensures
            self.env().circuit.well_formed(),
            self.model().witness.len() == self.env().circuit.n_signals,
            self.model().not_init.len() == self.env().circuit.components@.len(),
    {
    }

    /// Number of witness slots.
    pub fn n_slots(&self) -> (r: usize)
        ensures
            r == self.model().witness.len(),
    {
        self.witness.len()
    }

    /// The value of witness slot `i`, if it was set.
    pub fn slot(&self, i: usize) -> (r: Option<Fr>)
        requires
            i < self.model().witness.len(),
        ensures
            slot_model(r) == self.model().witness[i as int],
    {
        self.witness[i]
    }

    /// The counter of missing inputs of each component.
    pub fn counters(&self) -> (r: Vec<i64>)
        ensures
            r@ == self.model().not_init,
    {
        self.not_init_signals.clone()
    }

    /// Creates the context for a circuit whose templates are parsed into
    /// `templates`: no signal set, each component waiting for all its inputs,
    /// one empty scope.
    pub fn new(circuit: &'a Circuit, templates: &'a StrMap<Function>) -> (r: RTCtx<'a>)
        requires
            circuit.well_formed(),
        ensures
            r.inv(),
            r.env() == (Env { circuit: *circuit, templates: templates.map() }),
            r.model() == initial_state(*circuit),
    {
        let mut witness: Vec<Option<Fr>> = Vec::new();
        let mut i: usize = 0;
        while i < circuit.n_signals
            invariant
                i <= circuit.n_signals,
                witness@.len() == i,
                forall|j: int| 0 <= j < i ==> witness@[j] is None,
            decreases circuit.n_signals - i,
        {
            witness.push(None);
            i = i + 1;
        }
        let mut not_init: Vec<i64> = Vec::new();
        let mut k: usize = 0;
        while k < circuit.components.len()
            invariant
                k <= circuit.components@.len(),
                not_init@.len() == k,
                forall|j: int| 0 <= j < k ==> not_init@[j] == circuit.components@[j].input_signals as i64,
            decreases circuit.components@.len() - k,
        {
            not_init.push(circuit.components[k].input_signals as i64);
            k = k + 1;
        }
        let mut scopes: Vec<StrMap<Value>> = Vec::new();
        let empty = StrMap::new();
        scopes.push(empty);
        let r = RTCtx { circuit, templates, witness, not_init_signals: not_init, current_component: None, scopes };
        proof {
            assert(r.model().witness =~= Seq::new(circuit.n_signals as nat, |i: int| None::<nat>));
            assert(r.model().not_init =~= circuit.components@.map_values(|c: crate::circuit::Component| c.input_signals as i64));
            assert(scope_model(empty) =~= Map::<Seq<char>, Val>::empty());
            assert(r.model().scopes =~= seq![Map::<Seq<char>, Val>::empty()]);
        }
        r
    }

    /// Full name of a signal of the current component.
    pub fn build_signal_name(&self, name: &str, selectors: &Vec<u32>) -> (r: String)
        ensures
            r@ == signal_name(self.model().current, name@, selectors@),
    {
        proof {
            reveal_strlit(".");
        }
        let mut s = match &self.current_component {
            Some(current) => {
                let mut s = current.clone();
                s.append(".");
                s.append(name);
                s
            },
            None => name.to_owned(),
        };
        append_selectors(&mut s, selectors);
        s
    }

    /// Full name of a signal of a subcomponent.
    pub fn build_pin_name(
        &self,
        component_name: &str,
        component_sels: &Vec<u32>,
        signal_name: &str,
        signal_sels: &Vec<u32>,
    ) -> (r: String)
        ensures
            r@ == pin_name(self.model().current, component_name@, component_sels@, signal_name@, signal_sels@),
    {
        proof {
            reveal_strlit(".");
            reveal_strlit("one");
        }
        assert("one"@ =~= seq!['o', 'n', 'e']);
        assert("."@ =~= seq!['.']);
        let one = String::from_str("one");
        let comp = component_name.to_owned();
        let mut s = if comp == one {
            String::from_str("one")
        } else {
            match &self.current_component {
                Some(current) => {
                    let mut s = current.clone();
                    s.append(".");
                    s.append(component_name);
                    s
                },
                None => comp,
            }
        };
        append_selectors(&mut s, component_sels);
        s.append(".");
        s.append(signal_name);
        append_selectors(&mut s, signal_sels);
        s
    }

    /// Index of the signal named `full`.
    fn signal_idx(&self, full: &str) -> (r: Result<usize, CircuitError>)
        ensures
            res_model(r, |x: usize| x as nat) == signal_idx_spec(*self.circuit, full@),
    {
        match self.circuit.signal_name2_idx.get(full) {
            Some(idx) => Ok(*idx),
            None => match parse_usize(full) {
                Ok(n) => Ok(n),
                Err(m) => Err(runtime_error_named("Invalid signal index: ", m.as_str())),
            },
        }
    }

    /// Value of the signal named `full`.
    pub fn get_signal_full(&self, full: &str) -> (r: Result<Fr, CircuitError>)
        ensures
            res_model(r, |f: Fr| f.val()) == get_signal_full_spec(self.env(), self.model(), full@),
    {
        let s_id = self.signal_idx(full)?;
        if s_id >= self.witness.len() {
            return Err(CircuitError::RuntimeError(String::from_str("Signal index out of range")));
        }
        match self.witness[s_id] {
            Some(v) => Ok(v),
            None => Err(CircuitError::SignalNotAssigned(full.to_owned())),
        }
    }

    /// Reads a variable: the innermost binding of `name`, indexed by `sels`.
    pub fn get_var_sels(&self, name: &str, sels: &Vec<u32>) -> (r: Result<Value, CircuitError>)
        ensures
            res_model(r, |v: Value| v.model()) == get_var_spec(self.model(), name@, sels@),
    {
        let ghost sm = self.model().scopes;
        let mut k = self.scopes.len();
        assert(sm.subrange(0, k as int) =~= sm);
        while k > 0
            invariant
                k <= self.scopes@.len(),
                sm == self.model().scopes,
                sm.len() == self.scopes@.len(),
                lookup_var(sm, name@) == lookup_var(sm.subrange(0, k as int), name@),
            decreases k,
        {
            let ghost pre = sm.subrange(0, k as int);
            assert(pre.drop_last() =~= sm.subrange(0, k - 1));
            assert(pre.last() == scope_model(self.scopes@[k - 1]));
            match self.scopes[k - 1].get(name) {
                Some(v) => {
                    let sel = select(v, sels, 0);
                    assert(sels@.subrange(0, sels@.len() as int) =~= sels@);
                    match sel {
                        Ok(x) => {
                            return Ok(x.clone_value());
                        },
                        Err(e) => {
                            return Err(e);
                        },
                    }
                },
                None => {},
            }
            k = k - 1;
        }
        Err(runtime_error_named("Variable not defined: ", name))
    }

    /// Writes a variable of the innermost scope, growing arrays as needed;
    /// gives back the value written.
    pub fn set_var_sels(&mut self, name: &str, sels: &Vec<u32>, value: Value) -> (r: Result<Value, CircuitError>)
        ensures
            final(self).env() == old(self).env(),
            final(self).inv() == old(self).inv(),
            (final(self).model(), res_model(r, |v: Value| v.model())) == set_var_spec(old(self).model(), name@, sels@, value.model()),
    {
        let n = self.scopes.len();
        if n == 0 {
            return Err(CircuitError::RuntimeError(String::from_str("No active scope")));
        }
        let ghost old_scopes = self.scopes@;
        let ghost last = scope_model(self.scopes@[n - 1]);
        let ret = value.clone_value();
        if sels.len() == 0 {
            let ghost vm = value.model();
            self.scopes[n - 1].insert(name.to_owned(), value);
            proof {
                assert(scope_model(self.scopes@[n - 1]) =~= last.insert(name@, vm));
                assert(self.model().scopes =~= old(self).model().scopes.update(n - 1, last.insert(name@, vm)));
            }
            return Ok(ret);
        }
        let cur = self.scopes[n - 1].remove(name);
        let ghost after_remove = self.scopes@;
        let mut arr: Vec<Value> = match cur {
            None => Vec::new(),
            Some(Value::Array(a)) => a,
            Some(Value::Fr(f)) => {
                self.scopes[n - 1].insert(name.to_owned(), Value::Fr(f));
                proof {
                    assert(self.scopes@[n - 1].map() =~= old_scopes[n - 1].map());
                    assert(scope_model(self.scopes@[n - 1]) =~= last);
                    assert(self.model().scopes =~= old(self).model().scopes);
                }
                return Err(runtime_error_named("Variable is not an array: ", name));
            },
        };
        let ghost a0 = models(arr@);
        let ghost vm = value.model();
        set_var_array(&mut arr, sels, 0, value);
        assert(sels@.subrange(0, sels@.len() as int) =~= sels@);
        let ghost newv = Val::Arr(models(arr@));
        self.scopes[n - 1].insert(name.to_owned(), Value::Array(arr));
        proof {
            assert(scope_model(self.scopes@[n - 1]) =~= last.insert(name@, newv));
            assert(self.model().scopes =~= old(self).model().scopes.update(n - 1, last.insert(name@, newv)));
        }
        Ok(ret)
    }

    /// Stores `value` in the signal named `full`; on its first assignment each
    /// component it feeds waits for one input less. Then triggers, in order,
    /// each component it feeds whose inputs are complete.
    pub fn set_signal_full(&mut self, full: &str, value: Fr, fuel: u64) -> (r: Result<(), CircuitError>)
        requires
            old(self).inv(),
        ensures
            final(self).inv(),
            final(self).env() == old(self).env(),
            (final(self).model(), res_model(r, |u: ()| u)) == sem_set_signal_full(old(self).env(), old(self).model(), full@, value.val(), fuel as nat),
        decreases fuel, 1nat, 0nat,
    {
        let s_id = self.signal_idx(full)?;
        let circuit = self.circuit;
        if s_id >= self.witness.len() || s_id >= circuit.signals.len() {
            return Err(CircuitError::RuntimeError(String::from_str("Signal index out of range")));
        }
        let trigs = &circuit.signals[s_id].trigger_components;
        if !all_below(trigs, circuit.components.len()) {
            return Err(CircuitError::RuntimeError(String::from_str("Component index out of range")));
        }
        let ghost s0 = self.model();
        let first_init = self.witness[s_id].is_none();
        self.witness.set(s_id, Some(value));
        proof {
            assert(self.model().witness =~= s0.witness.update(s_id as int, Some(value.val())));
        }
        let ghost w1 = self.witness@;
        if first_init {
            let mut k: usize = 0;
            assert(trigs@.subrange(0, trigs@.len() as int) =~= trigs@);
            while k < trigs.len()
                invariant
                    self.inv(),
                    self.circuit == circuit,
                    self.env() == old(self).env(),
                    self.witness@ == w1,
                    self.scopes@ == old(self).scopes@,
                    self.current_component == old(self).current_component,
                    *trigs == circuit.signals@[s_id as int].trigger_components,
                    s_id < circuit.signals@.len(),
                    forall|j: int| 0 <= j < trigs@.len() ==> #[trigger] trigs@[j] < circuit.components@.len(),
                    k <= trigs@.len(),
                    decrement_all(s0.not_init, trigs@) == decrement_all(self.not_init_signals@, trigs@.subrange(k as int, trigs@.len() as int)),
                decreases trigs@.len() - k,
            {
                let c = trigs[k];
                proof {
                    let rest = trigs@.subrange(k as int, trigs@.len() as int);
                    assert(rest[0] == c);
                    assert(rest.drop_first() =~= trigs@.subrange(k + 1, trigs@.len() as int));
                    assert(c < circuit.components@.len());
                }
                let v = self.not_init_signals[c];
                self.not_init_signals.set(c, v.wrapping_sub(1));
                k = k + 1;
            }
            assert(trigs@.subrange(k as int, trigs@.len() as int) =~= Seq::<usize>::empty());
        }
        proof {
            assert(self.model().witness == s0.witness.update(s_id as int, Some(value.val())));
        }
        self.trigger_components(trigs, fuel)
    }

    /// Triggers, in order, each listed component whose inputs are complete.
    fn trigger_components(&mut self, cs: &Vec<usize>, fuel: u64) -> (r: Result<(), CircuitError>)
        requires
            old(self).inv(),
            forall|k: int| 0 <= k < cs@.len() ==> #[trigger] cs@[k] < old(self).circuit.components@.len(),
        ensures
            final(self).inv(),
            final(self).env() == old(self).env(),
            (final(self).model(), res_model(r, |u: ()| u)) == sem_triggers(old(self).env(), old(self).model(), cs@, fuel as nat),
        decreases fuel, 0nat, 1nat,
    {
        let mut k: usize = 0;
        assert(cs@.subrange(0, cs@.len() as int) =~= cs@);
        while k < cs.len()
            invariant
                self.inv(),
                self.env() == old(self).env(),
                self.circuit == old(self).circuit,
                forall|j: int| 0 <= j < cs@.len() ==> #[trigger] cs@[j] < self.circuit.components@.len(),
                k <= cs@.len(),
                sem_triggers(old(self).env(), old(self).model(), cs@, fuel as nat)
                    == sem_triggers(self.env(), self.model(), cs@.subrange(k as int, cs@.len() as int), fuel as nat),
            decreases cs@.len() - k,
        {
            let c = cs[k];
            proof {
                let rest = cs@.subrange(k as int, cs@.len() as int);
                assert(rest[0] == c);
                assert(rest.drop_first() =~= cs@.subrange(k + 1, cs@.len() as int));
            }
            if self.not_init_signals[c] == 0 {
                self.trigger_component(c, fuel)?;
            }
            k = k + 1;
        }
        Ok(())
    }

    /// Enters component `c`: decrements its counter, makes it current and
    /// gives it two scopes, the caller's outermost scope and its parameters.
    /// Gives back the caller's scopes and current component.
    fn enter_component(&mut self, c: usize) -> (saved: (Vec<StrMap<Value>>, Option<String>))
        requires
            old(self).inv(),
            c < old(self).env().circuit.components@.len(),
        ensures
            final(self).inv(),
            final(self).env() == old(self).env(),
            final(self).model() == trigger_entry(old(self).env(), old(self).model(), c as nat),
            saved.0@.map_values(|m: StrMap<Value>| scope_model(m)) == old(self).model().scopes,
            opt_string_model(saved.1) == old(self).model().current,
    {
        let ghost s0 = self.model();
        let v = self.not_init_signals[c];
        self.not_init_signals.set(c, v.wrapping_sub(1));
        let circuit = self.circuit;
        let component = &circuit.components[c];
        let mut old_component = Some(component.name.clone());
        std::mem::swap(&mut self.current_component, &mut old_component);
        let first_scope = if self.scopes.len() > 0 { self.scopes[0].clone_values() } else { StrMap::new() };
        let params = component.params.clone_values();
        let mut new_scopes: Vec<StrMap<Value>> = Vec::new();
        new_scopes.push(first_scope);
        new_scopes.push(params);
        let mut old_scope = new_scopes;
        std::mem::swap(&mut self.scopes, &mut old_scope);
        let ghost fs = if s0.scopes.len() > 0 { s0.scopes[0] } else { Map::<Seq<char>, Val>::empty() };
        proof {
            assert(scope_model(first_scope) =~= fs);
            assert(scope_model(params) =~= scope_model(component.params));
            assert(self.model().scopes =~= seq![fs, scope_model(component.params)]);
            assert(self.model().not_init =~= s0.not_init.update(c as int, s0.not_init[c as int].wrapping_sub(1)));
            assert(old_scope@.map_values(|m: StrMap<Value>| scope_model(m)) =~= s0.scopes);
        }
        (old_scope, old_component)
    }

    /// Restores the scopes and current component saved by
    /// [`RTCtx::enter_component`].
    fn leave_component(&mut self, saved: (Vec<StrMap<Value>>, Option<String>))
        ensures
            final(self).inv() == old(self).inv(),
            final(self).env() == old(self).env(),
            final(self).model() == (CtxM {
                scopes: saved.0@.map_values(|m: StrMap<Value>| scope_model(m)),
                current: opt_string_model(saved.1),
                ..old(self).model()
            }),
    {
        let (scopes, current) = saved;
        self.scopes = scopes;
        self.current_component = current;
    }

    /// Runs the template of component `c` in a fresh scope holding the
    /// component's parameters, then restores the caller's scope.
    pub fn trigger_component(&mut self, c: usize, fuel: u64) -> (r: Result<(), CircuitError>)
        requires
            old(self).inv(),
            c < old(self).env().circuit.components@.len(),
        ensures
            final(self).inv(),
            final(self).env() == old(self).env(),
            (final(self).model(), res_model(r, |u: ()| u)) == sem_trigger(old(self).env(), old(self).model(), c as nat, fuel as nat),
        decreases fuel, 0nat, 0nat,
    {
        if fuel == 0 {
            return Err(CircuitError::StepLimitExceeded);
        }
        let saved = self.enter_component(c);
        let templates = self.templates;
        let component = &self.circuit.components[c];
        match templates.get(component.template.as_str()) {
            None => {
                let mut m = String::from_str("Template not defined: ");
                m.append(component.template.as_str());
                m.append(" for component ");
                m.append(component.name.as_str());
                return Err(CircuitError::RuntimeError(m));
            },
            Some(func) => {
                crate::interpreter::execute_function(self, func, fuel - 1)?;
            },
        }
        self.leave_component(saved);
        Ok(())
    }

    /// Sets a signal of the current component (see [`RTCtx::set_signal_full`]).
    pub fn set_signal(&mut self, name: &str, selectors: Vec<Value>, value: Value) -> (r: Result<(), CircuitError>)
        requires
            old(self).inv(),
        ensures
            final(self).inv(),
            final(self).env() == old(self).env(),
            (final(self).model(), res_model(r, |u: ()| u)) == match into_numbers_spec(models(selectors@)) {
                Err(er) => (old(self).model(), Err(er)),
                Ok(us) => match value.model() {
                    Val::Arr(_) => (old(self).model(), Err(ErrM::ExpectedNumber)),
                    Val::Num(v) => sem_set_signal_full(old(self).env(), old(self).model(),
                        signal_name(old(self).model().current, name@, us), v, DEFAULT_FUEL as nat),
                },
            },
    {
        let selectors = into_numbers(selectors)?;
        let value = match value.into_fr() {
            Ok(f) => f,
            Err(e) => {
                return Err(CircuitError::ValueError(e));
            },
        };
        let full = self.build_signal_name(name, &selectors);
        self.set_signal_full(full.as_str(), value, DEFAULT_FUEL)
    }

    /// Reads a signal of the current component.
    pub fn get_signal(&self, name: &str, selectors: Vec<Value>) -> (r: Result<Value, CircuitError>)
        ensures
            res_model(r, |v: Value| v.model()) == match into_numbers_spec(models(selectors@)) {
                Err(er) => Err(er),
                Ok(us) => match get_signal_full_spec(self.env(), self.model(), signal_name(self.model().current, name@, us)) {
                    Err(er) => Err(er),
                    Ok(v) => Ok(Val::Num(v)),
                },
            },
    {
        let selectors = into_numbers(selectors)?;
        let full = self.build_signal_name(name, &selectors);
        let v = self.get_signal_full(full.as_str())?;
        Ok(Value::Fr(v))
    }

    /// Sets a signal of a subcomponent.
    pub fn set_pin(
        &mut self,
        component_name: &str,
        component_sels: Vec<Value>,
        signal_name: &str,
        signal_sels: Vec<Value>,
        value: Value,
    ) -> (r: Result<(), CircuitError>)
        requires
            old(self).inv(),
        ensures
            final(self).inv(),
            final(self).env() == old(self).env(),
            (final(self).model(), res_model(r, |u: ()| u)) == match into_numbers_spec(models(component_sels@)) {
                Err(er) => (old(self).model(), Err(er)),
                Ok(cu) => match into_numbers_spec(models(signal_sels@)) {
                    Err(er) => (old(self).model(), Err(er)),
                    Ok(su) => match value.model() {
                        Val::Arr(_) => (old(self).model(), Err(ErrM::ExpectedNumber)),
                        Val::Num(v) => sem_set_signal_full(old(self).env(), old(self).model(),
                            pin_name(old(self).model().current, component_name@, cu, signal_name@, su), v, DEFAULT_FUEL as nat),
                    },
                },
            },
    {
        let component_sels = into_numbers(component_sels)?;
        let signal_sels = into_numbers(signal_sels)?;
        let value = match value.into_fr() {
            Ok(f) => f,
            Err(e) => {
                return Err(CircuitError::ValueError(e));
            },
        };
        let full = self.build_pin_name(component_name, &component_sels, signal_name, &signal_sels);
        self.set_signal_full(full.as_str(), value, DEFAULT_FUEL)
    }

    /// Reads a signal of a subcomponent.
    pub fn get_pin(
        &self,
        component_name: &str,
        component_sels: Vec<Value>,
        signal_name: &str,
        signal_sels: Vec<Value>,
    ) -> (r: Result<Value, CircuitError>)
        ensures
            res_model(r, |v: Value| v.model()) == match into_numbers_spec(models(component_sels@)) {
                Err(er) => Err(er),
                Ok(cu) => match into_numbers_spec(models(signal_sels@)) {
                    Err(er) => Err(er),
                    Ok(su) => match get_signal_full_spec(self.env(), self.model(),
                        pin_name(self.model().current, component_name@, cu, signal_name@, su)) {
                        Err(er) => Err(er),
                        Ok(v) => Ok(Val::Num(v)),
                    },
                },
            },
    {
        let component_sels = into_numbers(component_sels)?;
        let signal_sels = into_numbers(signal_sels)?;
        let full = self.build_pin_name(component_name, &component_sels, signal_name, &signal_sels);
        let v = self.get_signal_full(full.as_str())?;
        Ok(Value::Fr(v))
    }

    /// Writes a variable of the innermost scope; gives back the value written.
    pub fn set_var(&mut self, name: &str, selectors: Vec<Value>, value: Value) -> (r: Result<Value, CircuitError>)
        ensures
            final(self).env() == old(self).env(),
            final(self).inv() == old(self).inv(),
            (final(self).model(), res_model(r, |v: Value| v.model())) == match into_numbers_spec(models(selectors@)) {
                Err(er) => (old(self).model(), Err(er)),
                Ok(us) => set_var_spec(old(self).model(), name@, us, value.model()),
            },
    {
        let selectors = into_numbers(selectors)?;
        self.set_var_sels(name, &selectors, value)
    }

    /// Reads a variable: the innermost binding of `name`, indexed by the
    /// selectors.
    pub fn get_var(&self, name: &str, selectors: Vec<Value>) -> (r: Result<Value, CircuitError>)
        ensures
            res_model(r, |v: Value| v.model()) == match into_numbers_spec(models(selectors@)) {
                Err(er) => Err(er),
                Ok(us) => get_var_spec(self.model(), name@, us),
            },
    {
        let selectors = into_numbers(selectors)?;
        self.get_var_sels(name, &selectors)
    }

    /// Calling circuit functions is not supported: always an error.
    pub fn call_function(&self, _name: &str, _args: &Vec<Value>) -> (r: Result<Value, CircuitError>)
        ensures
            r matches Err(CircuitError::RuntimeError(m)) && m@ == "call_function is not supported yet"@,
    {
        Err(CircuitError::RuntimeError(String::from_str("call_function is not supported yet")))
    }

    /// Fails with `AssertionFailed` when `a` and `b` differ.
    pub fn assert_eq(&self, a: &Fr, b: &Fr, err: &str) -> (r: Result<(), CircuitError>)
        ensures
            a.val() == b.val() ==> r is Ok,
            a.val() != b.val() ==> res_model(r, |u: ()| u) == Err::<(), ErrM>(ErrM::Assertion(a.val(), b.val(), err@)),
    {
        proof {
            a.lemma_val_injective(*b);
        }
        if a != b {
            return Err(CircuitError::AssertionFailed(*a, *b, err.to_owned()));
        }
        Ok(())
    }

    /// Makes `name` the current component.
    pub fn set_current_component(&mut self, name: &str)
        ensures
            final(self).inv() == old(self).inv(),
            final(self).env() == old(self).env(),
            final(self).model() == (CtxM { current: Some(name@), ..old(self).model() }),
    {
        self.current_component = Some(name.to_owned());
    }

    /// Opens a new innermost scope with no variables.
    pub fn push_scope(&mut self)
        ensures
            final(self).inv() == old(self).inv(),
            final(self).env() == old(self).env(),
            final(self).model() == (CtxM { scopes: old(self).model().scopes.push(Map::empty()), ..old(self).model() }),
    {
        let m = StrMap::new();
        self.scopes.push(m);
        proof {
            assert(scope_model(m) =~= Map::<Seq<char>, Val>::empty());
            assert(self.model().scopes =~= old(self).model().scopes.push(Map::empty()));
        }
    }

    /// Closes the innermost scope.
    pub fn pop_scope(&mut self)
        ensures
            final(self).inv() == old(self).inv(),
            final(self).env() == old(self).env(),
            final(self).model() == (CtxM {
                scopes: if old(self).model().scopes.len() > 0 { old(self).model().scopes.drop_last() } else { old(self).model().scopes },
                ..old(self).model()
            }),
    {
        if self.scopes.len() > 0 {
            self.scopes.pop();
            assert(self.model().scopes =~= old(self).model().scopes.drop_last());
        }
    }
}

} // verus!
