//! Witness generation: running a circuit on its inputs.

use vstd::prelude::*;
use crate::ast::Function;
use crate::circuit::{Circuit, CircuitError, ErrM, res_model, signal_names_spec};
use crate::field::{Fr, fr_to_string, fr_from_str, fr_modulus, parse_field_decimal, decimal, lemma_parse_field_decimal};
use crate::rt_ctx::{RTCtx, DEFAULT_FUEL, slot_model};
use crate::semantics::{CtxM, Env, initial_state, signal_name, sem_set_signal_full, sem_trigger, select_spec, signal_idx_spec, get_signal_full_spec, decrement_all, sem_triggers};
use crate::strmap::StrMap;
use crate::value::{Val, Value, ValueError, models, lemma_models};

verus! {

/// A witness: the values of the circuit's variables, in signal order.
#[derive(Debug, PartialEq, Eq)]
pub struct Witness(Vec<Fr>);

impl Witness {
    /// The elements of the witness.
    pub closed spec fn elems(self) -> Seq<Fr> {
        self.0@
    }

    /// The values of the witness.
    pub open spec fn model(self) -> Seq<nat> {
        self.elems().map_values(|f: Fr| f.val())
    }

    /// A witness holding `witness`.
    pub fn new(witness: Vec<Fr>) -> (r: Witness)
        ensures
            r.elems() == witness@,
    {
        Witness(witness)
    }

    /// Reads a witness written as decimal texts, one per element; `None` if
    /// one of them is not a decimal integer.
    pub fn from_texts(texts: &Vec<String>) -> (r: Option<Witness>)
        ensures
            (forall|i: int| 0 <= i < texts@.len() ==> (#[trigger] parse_field_decimal(texts@[i]@, fr_modulus())) is Some)
                <==> r is Some,
            r matches Some(w) ==> w.elems().len() == texts@.len() && forall|i: int| 0 <= i < texts@.len()
                ==> (#[trigger] w.elems()[i]).val() == parse_field_decimal(texts@[i]@, fr_modulus())->0,
    {
        let mut out: Vec<Fr> = Vec::new();
        let mut i: usize = 0;
        while i < texts.len()
            invariant
                i <= texts@.len(),
                out@.len() == i,
                forall|j: int| 0 <= j < i ==> (#[trigger] parse_field_decimal(texts@[j]@, fr_modulus())) is Some,
                forall|j: int| 0 <= j < i ==> (#[trigger] out@[j]).val() == parse_field_decimal(texts@[j]@, fr_modulus())->0,
            decreases texts@.len() - i,
        {
            match fr_from_str(texts[i].as_str()) {
                Some(f) => {
                    out.push(f);
                },
                None => {
                    return None;
                },
            }
            i = i + 1;
        }
        Some(Witness(out))
    }

    /// The decimal texts of the elements.
    pub fn to_texts(&self) -> (r: Vec<String>)
        ensures
            r@.len() == self.elems().len(),
            forall|i: int| 0 <= i < r@.len() ==> (#[trigger] r@[i])@ == decimal(self.elems()[i].val()),
    {
        let mut out: Vec<String> = Vec::new();
        let mut i: usize = 0;
        while i < self.0.len()
            invariant
                i <= self.0@.len(),
                out@.len() == i,
                forall|j: int| 0 <= j < i ==> (#[trigger] out@[j])@ == decimal(self.0@[j].val()),
            decreases self.0@.len() - i,
        {
            out.push(fr_to_string(&self.0[i]));
            i = i + 1;
        }
        out
    }

    /// The elements of the witness.
    pub fn values(&self) -> (r: &Vec<Fr>)
        ensures
            r@ == self.elems(),
    {
        &self.0
    }
}

/// Sets the signal `name` (with selectors `sels`) from `v`: a number sets
/// that signal, an array sets its elements in order, each under one more
/// selector, its position.
pub open spec fn sem_iterate(e: Env, s: CtxM, name: Seq<char>, v: Val, sels: Seq<u32>) -> (CtxM, Result<(), ErrM>)
    decreases v, 0int,
{
    match v {
        Val::Num(n) => sem_set_signal_full(e, s, signal_name(s.current, name, sels), n, DEFAULT_FUEL as nat),
        Val::Arr(items) => sem_iterate_items(e, s, name, items, sels, 0),
    }
}

/// Sets the signals of the elements of an array from position `i` on.
pub open spec fn sem_iterate_items(
    e: Env,
    s: CtxM,
    name: Seq<char>,
    items: Seq<Val>,
    sels: Seq<u32>,
    i: nat,
) -> (CtxM, Result<(), ErrM>)
    decreases items, items.len() - i,
{
    if i >= items.len() {
        (s, Ok(()))
    } else if i > u32::MAX {
        (s, Err(ErrM::InvalidNumber(decimal(i))))
    } else {
        let (s1, r) = sem_iterate(e, s, name, items[i as int], sels.push(i as u32));
        match r {
            Err(er) => (s1, Err(er)),
            Ok(_) => sem_iterate_items(e, s1, name, items, sels, i + 1),
        }
    }
}

/// Triggers, in order from `c` on, each component whose counter was zero in
/// the snapshot `snap`.
pub open spec fn sem_initial_triggers(e: Env, s: CtxM, snap: Seq<i64>, c: nat) -> (CtxM, Result<(), ErrM>)
    decreases snap.len() - c,
{
    if c >= snap.len() {
        (s, Ok(()))
    } else if snap[c as int] == 0 {
        let (s1, r) = sem_trigger(e, s, c, DEFAULT_FUEL as nat);
        match r {
            Err(er) => (s1, Err(er)),
            Ok(_) => sem_initial_triggers(e, s1, snap, c + 1),
        }
    } else {
        sem_initial_triggers(e, s, snap, c + 1)
    }
}

/// Sets the input signals of the main component from entry `i` of `inputs` on.
pub open spec fn sem_inputs(e: Env, s: CtxM, inputs: StrMap<Value>, i: nat) -> (CtxM, Result<(), ErrM>)
    decreases inputs.len() - i,
{
    if i >= inputs.len() {
        (s, Ok(()))
    } else {
        let s1 = CtxM { current: Some(seq!['m', 'a', 'i', 'n']), ..s };
        let (s2, r) = sem_iterate(e, s1, inputs.key_at(i as int), inputs.val_at(i as int).model(), seq![]);
        match r {
            Err(er) => (s2, Err(er)),
            Ok(_) => sem_inputs(e, s2, inputs, i + 1),
        }
    }
}

/// The first input, from the `i`-th on, whose signal is unset.
pub open spec fn first_unset_input(c: Circuit, w: Seq<Option<nat>>, i: nat) -> Option<nat>
    decreases c.n_inputs - i,
{
    if i >= c.n_inputs {
        None
    } else if w[(c.n_outputs + 1 + i) as int] is None {
        Some(i)
    } else {
        first_unset_input(c, w, i + 1)
    }
}

/// The first unset slot of the witness from `i` on.
pub open spec fn first_unset(w: Seq<Option<nat>>, i: nat) -> Option<nat>
    decreases w.len() - i,
{
    if i >= w.len() {
        None
    } else if w[i as int] is None {
        Some(i)
    } else {
        first_unset(w, i + 1)
    }
}

/// The witness read from the slots `w` once the run is over: every input
/// and then every slot must be set; the witness is the first `n_vars` slots.
pub open spec fn finish_spec(c: Circuit, w: Seq<Option<nat>>) -> Result<Seq<nat>, ErrM> {
    match first_unset_input(c, w, 0) {
        Some(i) => match signal_names_spec(c, i) {
            Err(er) => Err(er),
            Ok(n) => Err(ErrM::NotAssigned(n)),
        },
        None => match first_unset(w, 0) {
            Some(i) => match signal_names_spec(c, i) {
                Err(er) => Err(er),
                Ok(n) => Err(ErrM::NotAssigned(n)),
            },
            None => Ok(Seq::new(c.n_vars as nat, |j: int| match w[j] {
                Some(v) => v,
                None => 0,
            })),
        },
    }
}

/// The witness of a circuit for the given inputs: signal `one` set to one,
/// the components that wait for no input triggered, the inputs set as
/// signals of `main` in the order of `inputs`, and the slots read out.
pub open spec fn witness_spec(e: Env, inputs: StrMap<Value>) -> Result<Seq<nat>, ErrM> {
    let s0 = initial_state(e.circuit);
    let (s1, r1) = sem_set_signal_full(e, s0, seq!['o', 'n', 'e'], 1, DEFAULT_FUEL as nat);
    match r1 {
        Err(er) => Err(er),
        Ok(_) => {
            let (s2, r2) = sem_initial_triggers(e, s1, s1.not_init, 0);
            match r2 {
                Err(er) => Err(er),
                Ok(_) => {
                    let (s3, r3) = sem_inputs(e, s2, inputs, 0);
                    match r3 {
                        Err(er) => Err(er),
                        Ok(_) => finish_spec(e.circuit, s3.witness),
                    }
                },
            }
        },
    }
}

/// A slot from `i` on is unset exactly when [`first_unset`] finds one.
proof fn lemma_first_unset(w: Seq<Option<nat>>, i: nat)
    ensures
        first_unset(w, i) is None <==> forall|k: int| i <= k < w.len() ==> #[trigger] w[k] is Some,
    decreases w.len() - i,
{
    if i < w.len() {
        lemma_first_unset(w, i + 1);
    }
}

/// Sets the signal `name` (with selectors `sels`) from `values`.
fn iterate_selector(ctx: &mut RTCtx, name: &str, values: &Value, sels: &mut Vec<u32>) -> (r: Result<(), CircuitError>)
    requires
        old(ctx).inv(),
    ensures
        final(ctx).inv(),
        final(ctx).env() == old(ctx).env(),
        (final(ctx).model(), res_model(r, |u: ()| u)) == sem_iterate(old(ctx).env(), old(ctx).model(), name@, values.model(), old(sels)@),
        final(sels)@ == old(sels)@,
    decreases values,
{
    match values {
        Value::Fr(f) => {
            let full = ctx.build_signal_name(name, sels);
            ctx.set_signal_full(full.as_str(), *f, DEFAULT_FUEL)
        },
        Value::Array(arr) => {
            proof {
                lemma_models(arr@);
            }
            let ghost e = ctx.env();
            let ghost s0 = ctx.model();
            let ghost items = models(arr@);
            let ghost sels0 = sels@;
            let mut i: usize = 0;
            while i < arr.len()
                invariant
                    ctx.inv(),
                    ctx.env() == e,
                    sels@ == sels0,
                    i <= arr@.len(),
                    items == models(arr@),
                    items.len() == arr@.len(),
                    forall|j: int| 0 <= j < arr@.len() ==> #[trigger] items[j] == arr@[j].model(),
                    *values == Value::Array(*arr),
                    e == old(ctx).env(),
                    s0 == old(ctx).model(),
                    sels0 == old(sels)@,
                    values.model() == Val::Arr(items),
                    sem_iterate_items(e, s0, name@, items, sels0, 0)
                        == sem_iterate_items(e, ctx.model(), name@, items, sels0, i as nat),
                decreases arr@.len() - i,
            {
                if i as u64 > 0xffff_ffffu64 {
                    return Err(CircuitError::ValueError(ValueError::InvalidNumber(fr_to_string(&Fr::from_u64(i as u64)))));
                }
                sels.push(i as u32);
                proof {
                    assert(decreases_to!(*values => (*values)->Array_0));
                    assert(decreases_to!(*arr => arr@));
                    assert(decreases_to!(arr@ => arr@[i as int]));
                }
                let r = iterate_selector(ctx, name, &arr[i], sels);
                sels.pop();
                proof {
                    assert(sels@ =~= sels0);
                }
                match r {
                    Err(err) => {
                        return Err(err);
                    },
                    Ok(_) => {},
                }
                i = i + 1;
            }
            Ok(())
        },
    }
}

/// Triggers each component whose counter is zero when this begins.
fn trigger_waiting_none(ctx: &mut RTCtx) -> (r: Result<(), CircuitError>)
    requires
        old(ctx).inv(),
    ensures
        final(ctx).inv(),
        final(ctx).env() == old(ctx).env(),
        (final(ctx).model(), res_model(r, |u: ()| u))
            == sem_initial_triggers(old(ctx).env(), old(ctx).model(), old(ctx).model().not_init, 0),
{
    let ghost e = ctx.env();
    let ghost s1 = ctx.model();
    proof {
        ctx.lemma_inv();
    }
    let snap = ctx.counters();
    let mut c: usize = 0;
    while c < snap.len()
        invariant
            ctx.inv(),
            ctx.env() == e,
            e == old(ctx).env(),
            s1 == old(ctx).model(),
            snap@ == s1.not_init,
            snap@.len() == e.circuit.components@.len(),
            c <= snap@.len(),
            sem_initial_triggers(e, s1, snap@, 0) == sem_initial_triggers(e, ctx.model(), snap@, c as nat),
        decreases snap@.len() - c,
    {
        if snap[c] == 0 {
            let r = ctx.trigger_component(c, DEFAULT_FUEL);
            match r {
                Err(err) => {
                    return Err(err);
                },
                Ok(_) => {},
            }
        }
        c = c + 1;
    }
    Ok(())
}

/// Sets the input signals of the main component, in the order of `inputs`.
fn set_inputs(ctx: &mut RTCtx, inputs: &StrMap<Value>) -> (r: Result<(), CircuitError>)
    requires
        old(ctx).inv(),
    ensures
        final(ctx).inv(),
        final(ctx).env() == old(ctx).env(),
        (final(ctx).model(), res_model(r, |u: ()| u)) == sem_inputs(old(ctx).env(), old(ctx).model(), *inputs, 0),
{
    let ghost e = ctx.env();
    let ghost s2 = ctx.model();
    proof {
        reveal_strlit("main");
    }
    assert("main"@ =~= seq!['m', 'a', 'i', 'n']);
    let n = inputs.size();
    let mut i: usize = 0;
    while i < n
        invariant
            ctx.inv(),
            ctx.env() == e,
            e == old(ctx).env(),
            s2 == old(ctx).model(),
            "main"@ == seq!['m', 'a', 'i', 'n'],
            n == inputs.len(),
            i <= n,
            sem_inputs(e, s2, *inputs, 0) == sem_inputs(e, ctx.model(), *inputs, i as nat),
        decreases n - i,
    {
        let (name, values) = inputs.entry(i);
        ctx.set_current_component("main");
        let mut sels: Vec<u32> = Vec::new();
        let r = iterate_selector(ctx, name.as_str(), values, &mut sels);
        match r {
            Err(err) => {
                return Err(err);
            },
            Ok(_) => {},
        }
        i = i + 1;
    }
    Ok(())
}

/// Reads the witness out of the slots once the run is over.
fn read_witness(ctx: &RTCtx, circuit: &Circuit) -> (r: Result<Witness, CircuitError>)
    requires
        ctx.inv(),
        ctx.env().circuit == *circuit,
    ensures
        res_model(r, |w: Witness| w.model()) == finish_spec(*circuit, ctx.model().witness),
{
    let ghost w = ctx.model().witness;
    proof {
        ctx.lemma_inv();
    }
    let n_inputs = circuit.n_inputs;
    let mut i: usize = 0;
    while i < n_inputs
        invariant
            ctx.model().witness == w,
            w.len() == circuit.n_signals,
            circuit.well_formed(),
            i <= n_inputs,
            n_inputs == circuit.n_inputs,
            first_unset_input(*circuit, w, 0) == first_unset_input(*circuit, w, i as nat),
        decreases n_inputs - i,
    {
        let idx = circuit.input_idx(i)?;
        if ctx.slot(idx).is_none() {
            let names = circuit.signal_names(i)?;
            return Err(CircuitError::SignalNotAssigned(names));
        }
        i = i + 1;
    }

    let n_slots = ctx.n_slots();
    let mut i: usize = 0;
    while i < n_slots
        invariant
            ctx.model().witness == w,
            n_slots == w.len(),
            w.len() == circuit.n_signals,
            circuit.well_formed(),
            first_unset_input(*circuit, w, 0) is None,
            i <= n_slots,
            first_unset(w, 0) == first_unset(w, i as nat),
        decreases n_slots - i,
    {
        if ctx.slot(i).is_none() {
            let names = circuit.signal_names(i)?;
            return Err(CircuitError::SignalNotAssigned(names));
        }
        i = i + 1;
    }

    proof {
        lemma_first_unset(w, 0);
    }
    let mut out: Vec<Fr> = Vec::new();
    let mut j: usize = 0;
    while j < circuit.n_vars
        invariant
            ctx.model().witness == w,
            w.len() == circuit.n_signals,
            circuit.n_vars <= circuit.n_signals,
            forall|k: int| 0 <= k < w.len() ==> #[trigger] w[k] is Some,
            j <= circuit.n_vars,
            out@.len() == j,
            forall|k: int| 0 <= k < j ==> Some(#[trigger] out@[k].val()) == w[k],
        decreases circuit.n_vars - j,
    {
        match ctx.slot(j) {
            Some(f) => {
                out.push(f);
            },
            None => {
                return Err(CircuitError::SignalNotAssigned(String::from_str("unreachable")));
            },
        }
        j = j + 1;
    }
    let r = Witness::new(out);
    proof {
        assert(r.model() =~= Seq::new(circuit.n_vars as nat, |k: int| match w[k] {
            Some(v) => v,
            None => 0,
        }));
    }
    Ok(r)
}

/// Generates the witness of `circuit`, whose templates are parsed into
/// `templates`, for the named input values `input_signals`.
#[verifier::spinoff_prover]
pub fn generate_witness(
    circuit: &Circuit,
    templates: &StrMap<Function>,
    input_signals: &StrMap<Value>,
) -> (r: Result<Witness, CircuitError>)
    requires
        circuit.well_formed(),
    ensures
        res_model(r, |w: Witness| w.model()) == witness_spec(Env { circuit: *circuit, templates: templates.map() }, *input_signals),
{
    let mut ctx = RTCtx::new(circuit, templates);
    proof {
        reveal_strlit("one");
    }
    assert("one"@ =~= seq!['o', 'n', 'e']);
    let no_sels: Vec<Value> = Vec::new();
    assert(models(no_sels@) =~= Seq::<Val>::empty());
    assert(signal_name(None, "one"@, Seq::<u32>::empty()) =~= "one"@);
    ctx.set_signal("one", no_sels, Value::from_u64(1))?;
    trigger_waiting_none(&mut ctx)?;
    set_inputs(&mut ctx, input_signals)?;
    read_witness(&ctx, circuit)
}

impl Circuit {
    /// Generates the witness of this circuit (see [`generate_witness`]).
    pub fn witness(&self, templates: &StrMap<Function>, input_signals: &StrMap<Value>) -> (r: Result<Witness, CircuitError>)
        requires
            self.well_formed(),
        ensures
            res_model(r, |w: Witness| w.model()) == witness_spec(Env { circuit: *self, templates: templates.map() }, *input_signals),
    {
        generate_witness(self, templates, input_signals)
    }
}

/// A witness read back from its decimal texts is the witness itself.
pub proof fn lemma_witness_texts_roundtrip(w: Witness, texts: Seq<Seq<char>>, r: Witness)
    requires
        forall|i: int| 0 <= i < w.elems().len() ==> (#[trigger] w.elems()[i]).val() < fr_modulus(),
        texts.len() == w.elems().len(),
        forall|i: int| 0 <= i < texts.len() ==> #[trigger] texts[i] == decimal(w.elems()[i].val()),
        r.elems().len() == texts.len(),
        forall|i: int| 0 <= i < texts.len() ==> (#[trigger] r.elems()[i]).val() == parse_field_decimal(texts[i], fr_modulus())->0,
    ensures
        r.elems() == w.elems(),
{
    assert forall|i: int| 0 <= i < texts.len() implies #[trigger] r.elems()[i] == w.elems()[i] by {
        lemma_parse_field_decimal(w.elems()[i].val(), fr_modulus());
        r.elems()[i].lemma_val_injective(w.elems()[i]);
    }
    assert(r.elems() =~= w.elems());
}

/// A generated witness has one value for each variable of the circuit.
pub proof fn lemma_witness_len(e: Env, inputs: StrMap<Value>)
    requires
        witness_spec(e, inputs) is Ok,
    ensures
        witness_spec(e, inputs)->Ok_0.len() == e.circuit.n_vars,
{
}

/// Whether no signal of the circuit feeds a component, so that storing a
/// signal runs no template.
pub open spec fn no_triggers(c: Circuit) -> bool {
    forall|i: int| 0 <= i < c.signals@.len() ==> (#[trigger] c.signals@[i]).trigger_components@.len() == 0
}

/// Whether `x` is the number found at path `p` inside `v`.
pub open spec fn leaf(v: Val, p: Seq<u32>, x: nat) -> bool {
    select_spec(v, p) == Ok::<Val, ErrM>(Val::Num(x))
}

/// The witness slot of the signal `name` under the selectors `sels`, as the
/// component `cur` names it.
pub open spec fn slot_of(e: Env, cur: Option<Seq<char>>, name: Seq<char>, sels: Seq<u32>) -> Result<nat, ErrM> {
    signal_idx_spec(e.circuit, signal_name(cur, name, sels))
}

/// Whether two different numbers inside `v` always go to different slots.
pub open spec fn leaves_apart(e: Env, cur: Option<Seq<char>>, name: Seq<char>, sels: Seq<u32>, v: Val) -> bool {
    forall|p: Seq<u32>, q: Seq<u32>, x: nat, y: nat|
        #[trigger] leaf(v, p, x) && #[trigger] leaf(v, q, y) && p != q && slot_of(e, cur, name, sels + p) is Ok
            ==> slot_of(e, cur, name, sels + p) != slot_of(e, cur, name, sels + q)
}

/// Whether a number inside `v`, at a path whose first index is at least `lo`,
/// goes to slot `j`.
pub open spec fn written(e: Env, cur: Option<Seq<char>>, name: Seq<char>, sels: Seq<u32>, v: Val, lo: nat, j: nat) -> bool {
    exists|p: Seq<u32>, x: nat| #[trigger] leaf(v, p, x) && (p.len() > 0 ==> p[0] >= lo)
        && slot_of(e, cur, name, sels + p) == Ok::<nat, ErrM>(j)
}

/// Whether every number inside `v`, at a path whose first index is at least
/// `lo`, is held in its slot in `t`.
pub open spec fn stored(e: Env, cur: Option<Seq<char>>, name: Seq<char>, sels: Seq<u32>, v: Val, lo: nat, t: CtxM) -> bool {
    forall|p: Seq<u32>, x: nat| #[trigger] leaf(v, p, x) && (p.len() > 0 ==> p[0] >= lo) ==>
        (slot_of(e, cur, name, sels + p) matches Ok(j) && j < t.witness.len() && t.witness[j as int] == Some(x))
}

/// Storing a signal when no signal feeds a component sets its slot and
/// changes nothing else.
proof fn lemma_store_without_triggers(e: Env, s: CtxM, full: Seq<char>, v: nat, fuel: nat)
    requires
        no_triggers(e.circuit),
        sem_set_signal_full(e, s, full, v, fuel).1 is Ok,
    ensures
        signal_idx_spec(e.circuit, full) matches Ok(i) && i < s.witness.len()
            && sem_set_signal_full(e, s, full, v, fuel).0 == (CtxM { witness: s.witness.update(i as int, Some(v)), ..s }),
{
    let i = signal_idx_spec(e.circuit, full)->Ok_0;
    let trigs = e.circuit.signals@[i as int].trigger_components@;
    assert(trigs.len() == 0);
    assert(decrement_all(s.not_init, trigs) == s.not_init);
    let s1 = CtxM { witness: s.witness.update(i as int, Some(v)), ..s };
    assert(sem_triggers(e, s1, trigs, fuel) == (s1, Ok::<(), ErrM>(())));
}

/// A number has one path inside itself, the empty one.
proof fn lemma_num_leaf(n: nat, p: Seq<u32>, x: nat)
    ensures
        leaf(Val::Num(n), p, x) <==> p.len() == 0 && x == n,
{
}

/// The numbers inside the `k`-th item of an array are those inside the array
/// at paths starting with `k`.
proof fn lemma_item_leaf(items: Seq<Val>, k: int, q: Seq<u32>, x: nat)
    requires
        0 <= k < items.len(),
        k <= u32::MAX,
    ensures
        leaf(items[k], q, x) <==> leaf(Val::Arr(items), seq![k as u32] + q, x),
{
    let p = seq![k as u32] + q;
    assert(p.drop_first() =~= q);
    assert(p[0] == k as u32);
}

proof fn lemma_iterate_stores(e: Env, s: CtxM, name: Seq<char>, v: Val, sels: Seq<u32>)
    requires
        no_triggers(e.circuit),
        leaves_apart(e, s.current, name, sels, v),
        sem_iterate(e, s, name, v, sels).1 is Ok,
    ensures
        sem_iterate(e, s, name, v, sels).0.current == s.current,
        sem_iterate(e, s, name, v, sels).0.witness.len() == s.witness.len(),
        stored(e, s.current, name, sels, v, 0, sem_iterate(e, s, name, v, sels).0),
        forall|j: nat| j < s.witness.len() && #[trigger] sem_iterate(e, s, name, v, sels).0.witness[j as int] != s.witness[j as int]
            ==> written(e, s.current, name, sels, v, 0, j),
    decreases v, 0int,
{
    match v {
        Val::Num(n) => {
            let full = signal_name(s.current, name, sels);
            lemma_store_without_triggers(e, s, full, n, DEFAULT_FUEL as nat);
            let t = sem_iterate(e, s, name, v, sels).0;
            let i = signal_idx_spec(e.circuit, full)->Ok_0;
            assert(sels + Seq::<u32>::empty() =~= sels);
            assert(leaf(v, Seq::<u32>::empty(), n));
            assert forall|p: Seq<u32>, x: nat| #[trigger] leaf(v, p, x) && (p.len() > 0 ==> p[0] >= 0) implies
                (slot_of(e, s.current, name, sels + p) matches Ok(j) && j < t.witness.len() && t.witness[j as int] == Some(x)) by {
                lemma_num_leaf(n, p, x);
            }
            assert forall|j: nat| j < s.witness.len() && #[trigger] t.witness[j as int] != s.witness[j as int]
                implies written(e, s.current, name, sels, v, 0, j) by {
                assert(j == i);
                assert(slot_of(e, s.current, name, sels + Seq::<u32>::empty()) == Ok::<nat, ErrM>(j));
            }
        },
        Val::Arr(items) => {
            lemma_items_store(e, s, name, items, sels, 0);
        },
    }
}

proof fn lemma_items_store(e: Env, s: CtxM, name: Seq<char>, items: Seq<Val>, sels: Seq<u32>, i: nat)
    requires
        no_triggers(e.circuit),
        leaves_apart(e, s.current, name, sels, Val::Arr(items)),
        sem_iterate_items(e, s, name, items, sels, i).1 is Ok,
    ensures
        sem_iterate_items(e, s, name, items, sels, i).0.current == s.current,
        sem_iterate_items(e, s, name, items, sels, i).0.witness.len() == s.witness.len(),
        stored(e, s.current, name, sels, Val::Arr(items), i, sem_iterate_items(e, s, name, items, sels, i).0),
        forall|j: nat| j < s.witness.len() && #[trigger] sem_iterate_items(e, s, name, items, sels, i).0.witness[j as int] != s.witness[j as int]
            ==> written(e, s.current, name, sels, Val::Arr(items), i, j),
    decreases items, items.len() - i,
{
    let v = Val::Arr(items);
    let cur = s.current;
    if i >= items.len() {
        assert forall|p: Seq<u32>, x: nat| #[trigger] leaf(v, p, x) && (p.len() > 0 ==> p[0] >= i) implies
            (slot_of(e, cur, name, sels + p) matches Ok(j) && j < s.witness.len() && s.witness[j as int] == Some(x)) by {
            assert(p.len() > 0);
        }
    } else {
        let item = items[i as int];
        let sels1 = sels.push(i as u32);
        let s1 = sem_iterate(e, s, name, item, sels1).0;
        let t = sem_iterate_items(e, s, name, items, sels, i).0;
        assert(decreases_to!(items => item));
        // Numbers of the item are numbers of the array under a path starting with `i`.
        assert forall|q: Seq<u32>| sels1 + q == sels + (seq![i as u32] + q) by {
            assert(sels1 + q =~= sels + (seq![i as u32] + q));
        }
        assert forall|p: Seq<u32>, q: Seq<u32>, x: nat, y: nat|
            #[trigger] leaf(item, p, x) && #[trigger] leaf(item, q, y) && p != q && slot_of(e, cur, name, sels1 + p) is Ok
            implies slot_of(e, cur, name, sels1 + p) != slot_of(e, cur, name, sels1 + q) by {
            lemma_item_leaf(items, i as int, p, x);
            lemma_item_leaf(items, i as int, q, y);
            let pp = seq![i as u32] + p;
            let qq = seq![i as u32] + q;
            assert(pp != qq) by {
                if pp == qq {
                    assert(p =~= pp.drop_first());
                    assert(q =~= qq.drop_first());
                }
            }
            assert(leaf(v, pp, x) && leaf(v, qq, y));
        }
        lemma_iterate_stores(e, s, name, item, sels1);
        lemma_items_store(e, s1, name, items, sels, i + 1);
        assert(t == sem_iterate_items(e, s1, name, items, sels, i + 1).0);
        assert forall|p: Seq<u32>, x: nat| #[trigger] leaf(v, p, x) && (p.len() > 0 ==> p[0] >= i) implies
            (slot_of(e, cur, name, sels + p) matches Ok(j) && j < t.witness.len() && t.witness[j as int] == Some(x)) by {
            assert(p.len() > 0);
            if p[0] == i {
                let q = p.drop_first();
                assert(p =~= seq![i as u32] + q);
                lemma_item_leaf(items, i as int, q, x);
                assert(leaf(item, q, x));
                let j = slot_of(e, cur, name, sels1 + q)->Ok_0;
                assert(s1.witness[j as int] == Some(x));
                if t.witness[j as int] != s1.witness[j as int] {
                    let (p2, x2) = choose|p2: Seq<u32>, x2: nat| #[trigger] leaf(v, p2, x2) && (p2.len() > 0 ==> p2[0] >= i + 1)
                        && slot_of(e, cur, name, sels + p2) == Ok::<nat, ErrM>(j);
                    assert(p2 != p);
                    assert(false);
                }
            }
        }
        assert forall|j: nat| j < s.witness.len() && #[trigger] t.witness[j as int] != s.witness[j as int]
            implies written(e, cur, name, sels, v, i, j) by {
            if t.witness[j as int] != s1.witness[j as int] {
                let (p2, x2) = choose|p2: Seq<u32>, x2: nat| #[trigger] leaf(v, p2, x2) && (p2.len() > 0 ==> p2[0] >= i + 1)
                    && slot_of(e, cur, name, sels + p2) == Ok::<nat, ErrM>(j);
                assert(leaf(v, p2, x2));
            } else {
                assert(s1.witness[j as int] != s.witness[j as int]);
                let (q, x) = choose|q: Seq<u32>, x: nat| #[trigger] leaf(item, q, x) && (q.len() > 0 ==> q[0] >= 0)
                    && slot_of(e, cur, name, sels1 + q) == Ok::<nat, ErrM>(j);
                lemma_item_leaf(items, i as int, q, x);
                let p = seq![i as u32] + q;
                assert(leaf(v, p, x));
                assert(p[0] == i as u32);
            }
        }
    }
}

/// Setting an input from a value that is a nested array stores each number
/// inside it, at path `[i0][i1]...[ik]`, in the signal
/// `name[sels][i0][i1]...[ik]`: the selectors run from the outermost array to
/// the innermost. This is stated for circuits in which no signal feeds a
/// component (so no template runs in between) and whose numbers go to
/// different slots.
pub proof fn lemma_nested_input_stored_in_order(e: Env, s: CtxM, name: Seq<char>, v: Val, sels: Seq<u32>)
    requires
        no_triggers(e.circuit),
        leaves_apart(e, s.current, name, sels, v),
        sem_iterate(e, s, name, v, sels).1 is Ok,
    ensures
        forall|p: Seq<u32>, x: nat| #[trigger] leaf(v, p, x) ==>
            get_signal_full_spec(e, sem_iterate(e, s, name, v, sels).0, signal_name(s.current, name, sels + p))
                == Ok::<nat, ErrM>(x),
{
    lemma_iterate_stores(e, s, name, v, sels);
    let t = sem_iterate(e, s, name, v, sels).0;
    assert forall|p: Seq<u32>, x: nat| #[trigger] leaf(v, p, x) implies
        get_signal_full_spec(e, t, signal_name(s.current, name, sels + p)) == Ok::<nat, ErrM>(x) by {
        assert(p.len() > 0 ==> p[0] >= 0);
    }
}

/// The witness read out of the slots is, in order, the values of the first
/// `n_vars` slots, and it is read out only when every slot is set.
pub proof fn lemma_finish_reads_slots(c: Circuit, w: Seq<Option<nat>>)
    requires
        c.n_vars <= w.len(),
        finish_spec(c, w) is Ok,
    ensures
        finish_spec(c, w)->Ok_0.len() == c.n_vars,
        forall|k: int| 0 <= k < w.len() ==> #[trigger] w[k] is Some,
        forall|k: int| 0 <= k < c.n_vars ==> w[k] == Some(#[trigger] finish_spec(c, w)->Ok_0[k]),
{
    lemma_first_unset(w, 0);
}

} // verus!
