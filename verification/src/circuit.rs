//! CircomV1 circuit definitions and the errors of witness generation.

use vstd::prelude::*;
use crate::field::Fr;
use crate::strmap::StrMap;
use crate::value::{Value, ValueError};

verus! {

/// CircomV1-compatible circuit definition.
pub struct Circuit {
    pub n_pub_inputs: usize,
    pub n_prv_inputs: usize,
    pub n_inputs: usize,
    pub n_outputs: usize,
    pub n_vars: usize,
    pub n_signals: usize,
    pub n_constants: usize,
    pub signal_name2_idx: StrMap<usize>,
    pub component_name2_idx: StrMap<usize>,
    pub signals: Vec<Signal>,
    pub components: Vec<Component>,
    pub templates: StrMap<String>,
    pub functions: StrMap<Function>,
}

pub struct Signal {
    pub names: Vec<String>,
    pub trigger_components: Vec<usize>,
}

pub struct Component {
    pub name: String,
    pub template: String,
    pub params: StrMap<Value>,
    pub input_signals: usize,
}

/// Source of a helper function of the circuit.
pub struct Function {
    pub params: Vec<String>,
    pub func: String,
}

/// Errors of witness generation.
#[derive(Debug)]
pub enum CircuitError {
    ValueError(ValueError),
    AssertionFailed(Fr, Fr, String),
    SignalNotAssigned(String),
    InputIndexOutOfBounds(usize, usize),
    InvalidInverse,
    RuntimeError(String),
    /// A loop ran more iterations, or component triggering nested deeper, than
    /// the step budget allows.
    StepLimitExceeded,
}

/// Model of a [`CircuitError`].
pub enum ErrM {
    ExpectedNumber,
    ExpectedArray,
    InvalidNumber(Seq<char>),
    ValueOutOfRange,
    Assertion(nat, nat, Seq<char>),
    NotAssigned(Seq<char>),
    InputOutOfBounds(nat, nat),
    InvalidInverse,
    Runtime(Seq<char>),
    StepLimit,
}

/// Model of a [`ValueError`] inside a [`CircuitError`].
pub open spec fn value_err_model(e: ValueError) -> ErrM {
    match e {
        ValueError::ExpectedNumber => ErrM::ExpectedNumber,
        ValueError::ExpectedArray => ErrM::ExpectedArray,
        ValueError::InvalidNumber(t) => ErrM::InvalidNumber(t@),
        ValueError::ValueOutOfRange => ErrM::ValueOutOfRange,
    }
}

impl CircuitError {
    /// The error as a value of the model.
    pub open spec fn model(self) -> ErrM {
        match self {
            CircuitError::ValueError(e) => value_err_model(e),
            CircuitError::AssertionFailed(a, b, loc) => ErrM::Assertion(a.val(), b.val(), loc@),
            CircuitError::SignalNotAssigned(s) => ErrM::NotAssigned(s@),
            CircuitError::InputIndexOutOfBounds(i, n) => ErrM::InputOutOfBounds(i as nat, n as nat),
            CircuitError::InvalidInverse => ErrM::InvalidInverse,
            CircuitError::RuntimeError(m) => ErrM::Runtime(m@),
            CircuitError::StepLimitExceeded => ErrM::StepLimit,
        }
    }
}

/// A runtime error whose message is `prefix` followed by `name`.
pub fn runtime_error_named(prefix: &str, name: &str) -> (r: CircuitError)
    ensures
        r.model() == ErrM::Runtime(prefix@ + name@),
{
    let mut m = String::from_str(prefix);
    m.append(name);
    CircuitError::RuntimeError(m)
}

/// Model of a result whose success value has a model.
pub open spec fn res_model<T, U>(r: Result<T, CircuitError>, f: spec_fn(T) -> U) -> Result<U, ErrM> {
    match r {
        Ok(t) => Ok(f(t)),
        Err(e) => Err(e.model()),
    }
}

/// The texts of `names` joined by `sep`.
pub open spec fn join(names: Seq<Seq<char>>, sep: Seq<char>) -> Seq<char>
    decreases names.len(),
{
    if names.len() == 0 {
        seq![]
    } else if names.len() == 1 {
        names[0]
    } else {
        join(names.drop_last(), sep) + sep + names.last()
    }
}

/// The views of a list of strings.
pub open spec fn string_views(v: Seq<String>) -> Seq<Seq<char>> {
    v.map_values(|s: String| s@)
}

/// Joins strings with a separator.
pub fn join_strings(list: &Vec<String>, sep: &str) -> (r: String)
    ensures
        r@ == join(string_views(list@), sep@),
{
    let mut r = String::new();
    let mut i: usize = 0;
    while i < list.len()
        invariant
            i <= list@.len(),
            r@ == join(string_views(list@.subrange(0, i as int)), sep@),
        decreases list@.len() - i,
    {
        let ghost before = r@;
        if i != 0 {
            r.append(sep);
        }
        r.append(list[i].as_str());
        proof {
            let p = string_views(list@.subrange(0, i + 1));
            assert(p.drop_last() =~= string_views(list@.subrange(0, i as int)));
            if i == 0 {
                assert(r@ =~= join(p, sep@));
            } else {
                assert(r@ =~= join(p, sep@));
            }
        }
        i = i + 1;
    }
    assert(list@.subrange(0, i as int) =~= list@);
    r
}

/// The position in the witness of the `i`-th input.
pub open spec fn input_idx_spec(c: Circuit, i: nat) -> Result<nat, ErrM> {
    if i >= c.n_inputs {
        Err(ErrM::InputOutOfBounds(i, c.n_inputs as nat))
    } else {
        Ok((c.n_outputs + 1 + i) as nat)
    }
}

/// The names of the `i`-th input signal, joined by commas.
pub open spec fn signal_names_spec(c: Circuit, i: nat) -> Result<Seq<char>, ErrM> {
    match input_idx_spec(c, i) {
        Err(er) => Err(er),
        Ok(idx) => Ok(join(string_views(c.signals@[idx as int].names@), seq![','])),
    }
}

impl Circuit {
    /// Whether the circuit's counts are consistent: the variables are among
    /// the signals and, when there are inputs, the outputs and inputs stay
    /// within the signals.
    pub open spec fn well_formed(self) -> bool {
        &&& self.n_inputs > 0 ==> self.n_outputs + 1 + self.n_inputs <= self.signals@.len()
        &&& self.n_inputs > 0 ==> self.n_outputs + 1 + self.n_inputs <= self.n_signals
        &&& self.n_vars <= self.n_signals
    }

    /// Checks [`Circuit::well_formed`].
    pub fn check(&self) -> (r: bool)
        ensures
            r == self.well_formed(),
    {
        if self.n_vars > self.n_signals {
            return false;
        }
        if self.n_inputs == 0 {
            return true;
        }
        if self.n_outputs >= usize::MAX - self.n_inputs {
            return false;
        }
        let end = self.n_outputs + 1 + self.n_inputs;
        end <= self.signals.len() && end <= self.n_signals
    }

    /// Returns the index of the i-th input.
    pub fn input_idx(&self, i: usize) -> (r: Result<usize, CircuitError>)
        requires
            i < self.n_inputs ==> self.n_outputs + 1 + i <= usize::MAX,
        ensures
            res_model(r, |x: usize| x as nat) == input_idx_spec(*self, i as nat),
    {
        if i >= self.n_inputs {
            return Err(CircuitError::InputIndexOutOfBounds(i, self.n_inputs));
        }
        Ok(self.n_outputs + 1 + i)
    }

    /// Returns the names of the i-th input signal, joined by commas.
    pub fn signal_names(&self, i: usize) -> (r: Result<String, CircuitError>)
        requires
            i < self.n_inputs ==> self.n_outputs + 1 + i < self.signals@.len(),
        ensures
            res_model(r, |x: String| x@) == signal_names_spec(*self, i as nat),
    {
        assert(i < self.n_inputs ==> self.n_outputs + 1 + i < self.signals.len());
        let idx = self.input_idx(i)?;
        proof {
            reveal_strlit(",");
        }
        assert(","@ =~= seq![',']);
        Ok(join_strings(&self.signals[idx].names, ","))
    }
}

} // verus!
