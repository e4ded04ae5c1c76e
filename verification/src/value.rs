//! Circuit values: field elements and (nested) arrays of them.

use vstd::prelude::*;
use crate::field::{Fr, fr_modulus, fr_sub_spec, fr_neg, fr_to_string, decimal};

verus! {

/// Circuit value, representing either a field element or an array of values.
#[derive(Debug, PartialEq, Eq)]
pub enum Value {
    Fr(Fr),
    Array(Vec<Value>),
}

/// Mathematical model of a [`Value`].
pub enum Val {
    Num(nat),
    Arr(Seq<Val>),
}

/// Errors of value conversions.
#[derive(Debug)]
pub enum ValueError {
    ExpectedNumber,
    ExpectedArray,
    InvalidNumber(String),
    ValueOutOfRange,
}

/// The models of a sequence of values.
pub open spec fn models(s: Seq<Value>) -> Seq<Val>
    decreases s,
{
    if s.len() == 0 {
        seq![]
    } else {
        models(s.drop_last()).push(s.last().model())
    }
}

impl Value {
    /// The value as a number or a nested array of numbers.
    pub open spec fn model(self) -> Val
        decreases self,
    {
        match self {
            Value::Fr(f) => Val::Num(f.val()),
            Value::Array(v) => Val::Arr(models(v@)),
        }
    }
}

/// The models of a list of values, element by element.
pub proof fn lemma_models(s: Seq<Value>)
    ensures
        models(s).len() == s.len(),
        forall|i: int| 0 <= i < s.len() ==> #[trigger] models(s)[i] == s[i].model(),
    decreases s.len(),
{
    if s.len() > 0 {
        lemma_models(s.drop_last());
        assert forall|i: int| 0 <= i < s.len() implies #[trigger] models(s)[i] == s[i].model() by {
            if i < s.len() - 1 {
                assert(s.drop_last()[i] == s[i]);
            }
        }
    }
}

/// Two sequences of values with equal models element by element have equal
/// models.
pub proof fn lemma_models_ext(s: Seq<Value>, t: Seq<Value>)
    requires
        s.len() == t.len(),
        forall|i: int| 0 <= i < s.len() ==> s[i].model() == t[i].model(),
    ensures
        models(s) == models(t),
{
    lemma_models(s);
    lemma_models(t);
    assert(models(s) =~= models(t));
}

/// The selector that a field element stands for: its lowest 64-bit limb, when
/// that limb fits in 32 bits.
pub open spec fn fr_u32_spec(v: nat) -> Option<u32> {
    if v % 0x1_0000_0000_0000_0000 < 0x1_0000_0000 {
        Some((v % 0x1_0000_0000_0000_0000) as u32)
    } else {
        None
    }
}

/// Converts a field element to a selector: the lowest 64-bit limb of its
/// canonical value, when that limb fits in `u32`.
pub fn fr_to_u32(f: Fr) -> (r: Result<u32, ValueError>)
    ensures
        match fr_u32_spec(f.val()) {
            Some(u) => r == Ok::<u32, ValueError>(u),
            None => r matches Err(ValueError::InvalidNumber(t)) && t@ == decimal(f.val()),
        },
{
    let limb = f.low_limb();
    if limb < 0x1_0000_0000 {
        Ok(limb as u32)
    } else {
        Err(ValueError::InvalidNumber(fr_to_string(&f)))
    }
}

impl Value {
    /// A copy of this value.
    pub fn clone_value(&self) -> (r: Value)
        ensures
            r.model() == self.model(),
        decreases self,
    {
        match self {
            Value::Fr(f) => Value::Fr(*f),
            Value::Array(v) => {
                let mut out: Vec<Value> = Vec::new();
                let mut i: usize = 0;
                while i < v.len()
                    invariant
                        i <= v.len(),
                        *self == Value::Array(*v),
                        out@.len() == i,
                        forall|j: int| 0 <= j < i ==> out@[j].model() == v@[j].model(),
                    decreases v.len() - i,
                {
                    proof {
                        let w = (*self)->Array_0;
                        assert(decreases_to!(*self => (*self)->Array_0));
                        assert(decreases_to!(w => w@));
                        assert(decreases_to!(w@ => w@[i as int]));
                    }
                    let c = v[i].clone_value();
                    out.push(c);
                    i = i + 1;
                }
                proof {
                    lemma_models_ext(out@, v@);
                }
                Value::Array(out)
            },
        }
    }

    /// The field element this value holds.
    pub fn into_fr(self) -> (r: Result<Fr, ValueError>)
        ensures
            match self {
                Value::Fr(f) => r == Ok::<Fr, ValueError>(f),
                Value::Array(_) => r matches Err(ValueError::ExpectedNumber),
            },
    {
        match self {
            Value::Fr(f) => Ok(f),
            Value::Array(_) => Err(ValueError::ExpectedNumber),
        }
    }

    /// The selector this value holds (see [`fr_to_u32`]).
    pub fn into_u32(self) -> (r: Result<u32, ValueError>)
        ensures
            match self {
                Value::Fr(f) => match fr_u32_spec(f.val()) {
                    Some(u) => r == Ok::<u32, ValueError>(u),
                    None => r matches Err(ValueError::InvalidNumber(t)) && t@ == decimal(f.val()),
                },
                Value::Array(_) => r matches Err(ValueError::ExpectedNumber),
            },
    {
        match self {
            Value::Fr(f) => fr_to_u32(f),
            Value::Array(_) => Err(ValueError::ExpectedNumber),
        }
    }

    /// The lowest 64-bit limb of the field element this value holds.
    pub fn into_u64(self) -> (r: Result<u64, ValueError>)
        ensures
            match self {
                Value::Fr(f) => r == Ok::<u64, ValueError>((f.val() % 0x1_0000_0000_0000_0000) as u64),
                Value::Array(_) => r matches Err(ValueError::ExpectedNumber),
            },
    {
        match self {
            Value::Fr(f) => Ok(f.low_limb()),
            Value::Array(_) => Err(ValueError::ExpectedNumber),
        }
    }

    /// The non-negative integer equal to the field element this value holds.
    pub fn into_number(self) -> (r: Result<num_bigint::BigInt, ValueError>)
        ensures
            match self {
                Value::Fr(f) => r matches Ok(n) && crate::bigint::bigint_value(n) == f.val(),
                Value::Array(_) => r matches Err(ValueError::ExpectedNumber),
            },
    {
        match self {
            Value::Fr(f) => Ok(crate::bigint::fr_to_bigint(f)),
            Value::Array(_) => Err(ValueError::ExpectedNumber),
        }
    }

    /// Whether this value is the field element zero.
    pub fn is_zero(&self) -> (r: Result<bool, ValueError>)
        ensures
            match self {
                Value::Fr(f) => r == Ok::<bool, ValueError>(f.val() == 0),
                Value::Array(_) => r matches Err(ValueError::ExpectedNumber),
            },
    {
        match self {
            Value::Fr(f) => Ok(f.is_zero()),
            Value::Array(_) => Err(ValueError::ExpectedNumber),
        }
    }

    /// The field element with value `v`.
    pub fn from_u64(v: u64) -> (r: Value)
        ensures
            r.model() == Val::Num(v as nat),
    {
        Value::Fr(Fr::from_u64(v))
    }

    /// The field element congruent to `v`.
    pub fn from_i64(v: i64) -> (r: Value)
        ensures
            r.model() == Val::Num(((v as int) % (fr_modulus() as int)) as nat),
    {
        if v >= 0 {
            Value::Fr(Fr::from_u64(v as u64))
        } else {
            let abs: u64 = if v == i64::MIN { 0x8000_0000_0000_0000u64 } else { (-v) as u64 };
            let f = fr_neg(&Fr::from_u64(abs));
            Value::Fr(f)
        }
    }
}

/// The element `v` modulo the field order.
proof fn lemma_from_val_small(f: Fr, v: nat)
    requires
        f.val() == v,
        v < fr_modulus(),
    ensures
        Fr::from_val(v) == f,
{
    Fr::lemma_from_val(v);
    vstd::arithmetic::div_mod::lemma_small_mod(v, fr_modulus());
    Fr::from_val(v).lemma_val_injective(f);
}

impl From<u64> for Value {
    fn from(v: u64) -> (r: Value) {
        let f = Fr::from_u64(v);
        proof {
            lemma_from_val_small(f, v as nat);
        }
        Value::Fr(f)
    }
}

impl vstd::std_specs::convert::FromSpecImpl<u64> for Value {
    open spec fn obeys_from_spec() -> bool {
        true
    }

    open spec fn from_spec(v: u64) -> Value {
        Value::Fr(Fr::from_val(v as nat))
    }
}

impl From<u32> for Value {
    fn from(v: u32) -> (r: Value) {
        let f = Fr::from_u64(v as u64);
        proof {
            lemma_from_val_small(f, v as nat);
        }
        Value::Fr(f)
    }
}

impl vstd::std_specs::convert::FromSpecImpl<u32> for Value {
    open spec fn obeys_from_spec() -> bool {
        true
    }

    open spec fn from_spec(v: u32) -> Value {
        Value::Fr(Fr::from_val(v as nat))
    }
}

impl From<bool> for Value {
    fn from(b: bool) -> (r: Value) {
        let f = Fr::from_u64(if b { 1 } else { 0 });
        proof {
            lemma_from_val_small(f, if b { 1 } else { 0 });
        }
        Value::Fr(f)
    }
}

impl vstd::std_specs::convert::FromSpecImpl<bool> for Value {
    open spec fn obeys_from_spec() -> bool {
        true
    }

    open spec fn from_spec(b: bool) -> Value {
        Value::Fr(Fr::from_val(if b { 1 } else { 0 }))
    }
}

impl From<i32> for Value {
    fn from(v: i32) -> (r: Value) {
        let f = if v >= 0 {
            Fr::from_u64(v as u64)
        } else {
            let a: u64 = if v == i32::MIN { 0x8000_0000u64 } else { (-v) as u64 };
            fr_neg(&Fr::from_u64(a))
        };
        proof {
            let m = ((v as int) % (fr_modulus() as int)) as nat;
            if v < 0 {
                assert(fr_sub_spec(0, (-v) as nat) == m);
            } else {
                vstd::arithmetic::div_mod::lemma_small_mod(v as nat, fr_modulus());
            }
            lemma_from_val_small(f, m);
        }
        Value::Fr(f)
    }
}

impl vstd::std_specs::convert::FromSpecImpl<i32> for Value {
    open spec fn obeys_from_spec() -> bool {
        true
    }

    open spec fn from_spec(v: i32) -> Value {
        Value::Fr(Fr::from_val(((v as int) % (fr_modulus() as int)) as nat))
    }
}

impl From<Fr> for Value {
    fn from(f: Fr) -> (r: Value) {
        Value::Fr(f)
    }
}

impl vstd::std_specs::convert::FromSpecImpl<Fr> for Value {
    open spec fn obeys_from_spec() -> bool {
        true
    }

    open spec fn from_spec(f: Fr) -> Value {
        Value::Fr(f)
    }
}

/// The text of a value: the decimal form of a number, or the texts of the
/// items of an array, separated by `", "`, in square brackets.
pub open spec fn val_text(v: Val) -> Seq<char>
    decreases v, 0int,
{
    match v {
        Val::Num(n) => decimal(n),
        Val::Arr(items) => seq!['['] + items_text(items, items.len()) + seq![']'],
    }
}

/// The texts of the first `n` items, separated by `", "`.
pub open spec fn items_text(items: Seq<Val>, n: nat) -> Seq<char>
    decreases items, n,
{
    if n == 0 || n > items.len() {
        seq![]
    } else {
        items_text(items, (n - 1) as nat) + (if n > 1 { seq![',', ' '] } else { seq![] }) + val_text(items[n - 1])
    }
}

impl Value {
    /// The text of this value (see [`val_text`]).
    pub fn to_text(&self) -> (r: String)
        ensures
            r@ == val_text(self.model()),
        decreases self,
    {
        match self {
            Value::Fr(f) => fr_to_string(f),
            Value::Array(arr) => {
                proof {
                    reveal_strlit("[");
                    reveal_strlit("]");
                    reveal_strlit(", ");
                    lemma_models(arr@);
                }
                let ghost items = models(arr@);
                let mut out = String::from_str("[");
                let mut i: usize = 0;
                while i < arr.len()
                    invariant
                        i <= arr@.len(),
                        *self == Value::Array(*arr),
                        items == models(arr@),
                        items.len() == arr@.len(),
                        forall|j: int| 0 <= j < arr@.len() ==> #[trigger] items[j] == arr@[j].model(),
                        ", "@ == seq![',', ' '],
                        out@ == seq!['['] + items_text(items, i as nat),
                    decreases arr@.len() - i,
                {
                    proof {
                        assert(decreases_to!(*self => (*self)->Array_0));
                        assert(decreases_to!(*arr => arr@));
                        assert(decreases_to!(arr@ => arr@[i as int]));
                    }
                    if i > 0 {
                        out.append(", ");
                    }
                    let t = arr[i].to_text();
                    out.append(t.as_str());
                    proof {
                        assert(items_text(items, (i + 1) as nat) == items_text(items, i as nat)
                            + (if i > 0 { seq![',', ' '] } else { Seq::<char>::empty() }) + val_text(items[i as int]));
                        if i > 0 {
                            assert(out@ =~= seq!['['] + items_text(items, (i + 1) as nat));
                        } else {
                            assert(out@ =~= seq!['['] + items_text(items, (i + 1) as nat));
                        }
                    }
                    i = i + 1;
                }
                out.append("]");
                proof {
                    assert(out@ =~= val_text(self.model()));
                }
                out
            },
        }
    }
}

} // verus!
