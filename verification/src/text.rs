//! Decimal text of small integers and signal names.

use vstd::prelude::*;
use crate::field::{decimal, digit_char};

verus! {

fn digit_str(d: u32) -> (r: &'static str)
    requires
        d < 10,
    ensures
        r@ == seq![digit_char(d as nat)],
{
    proof {
        reveal_strlit("0");
        reveal_strlit("1");
        reveal_strlit("2");
        reveal_strlit("3");
        reveal_strlit("4");
        reveal_strlit("5");
        reveal_strlit("6");
        reveal_strlit("7");
        reveal_strlit("8");
        reveal_strlit("9");
    }
    if d == 0 {
        "0"
    } else if d == 1 {
        "1"
    } else if d == 2 {
        "2"
    } else if d == 3 {
        "3"
    } else if d == 4 {
        "4"
    } else if d == 5 {
        "5"
    } else if d == 6 {
        "6"
    } else if d == 7 {
        "7"
    } else if d == 8 {
        "8"
    } else {
        "9"
    }
}

/// Appends the decimal form of `v` to `out`.
pub fn push_decimal(out: &mut String, v: u32)
    ensures
        final(out)@ == old(out)@ + decimal(v as nat),
    decreases v,
{
    if v < 10 {
        out.append(digit_str(v));
    } else {
        push_decimal(out, v / 10);
        out.append(digit_str(v % 10));
        assert(final(out)@ =~= old(out)@ + decimal(v as nat));
    }
}

/// The text `[s0][s1]...` of a list of selectors.
pub open spec fn selectors_text(sels: Seq<u32>) -> Seq<char>
    decreases sels.len(),
{
    if sels.len() == 0 {
        seq![]
    } else {
        selectors_text(sels.drop_last()) + seq!['['] + decimal(sels.last() as nat) + seq![']']
    }
}

/// Appends `[s]` for each selector `s` to `out`.
pub fn append_selectors(out: &mut String, selectors: &Vec<u32>)
    ensures
        final(out)@ == old(out)@ + selectors_text(selectors@),
{
    proof {
        reveal_strlit("[");
        reveal_strlit("]");
    }
    let mut i: usize = 0;
    while i < selectors.len()
        invariant
            i <= selectors@.len(),
            out@ == old(out)@ + selectors_text(selectors@.subrange(0, i as int)),
        decreases selectors@.len() - i,
    {
        let ghost before = out@;
        proof {
            reveal_strlit("[");
            reveal_strlit("]");
        }
        out.append("[");
        push_decimal(out, selectors[i]);
        out.append("]");
        proof {
            let s = selectors@.subrange(0, i + 1);
            assert(s.drop_last() =~= selectors@.subrange(0, i as int));
            assert(s.last() == selectors@[i as int]);
            assert(out@ =~= before + seq!['['] + decimal(selectors@[i as int] as nat) + seq![']']);
            assert(out@ =~= old(out)@ + selectors_text(s));
        }
        i = i + 1;
    }
    assert(selectors@.subrange(0, i as int) =~= selectors@);
}

/// The text of selectors one after the other is the text of each list one
/// after the other.
pub proof fn lemma_selectors_text_concat(a: Seq<u32>, b: Seq<u32>)
    ensures
        selectors_text(a + b) == selectors_text(a) + selectors_text(b),
    decreases b.len(),
{
    if b.len() == 0 {
        assert(a + b =~= a);
        assert(selectors_text(a) + seq![] =~= selectors_text(a));
    } else {
        assert((a + b).drop_last() =~= a + b.drop_last());
        assert((a + b).last() == b.last());
        lemma_selectors_text_concat(a, b.drop_last());
        assert(selectors_text(a) + selectors_text(b.drop_last()) + seq!['['] + decimal(b.last() as nat) + seq![']']
            =~= selectors_text(a) + (selectors_text(b.drop_last()) + seq!['['] + decimal(b.last() as nat) + seq![']']));
    }
}

/// Selectors are written outermost first: the text of `[s0, s1, ...]` is
/// `[s0]` followed by the text of the rest.
pub proof fn lemma_selectors_text_outer_first(s0: u32, rest: Seq<u32>)
    ensures
        selectors_text(seq![s0] + rest) == seq!['['] + decimal(s0 as nat) + seq![']'] + selectors_text(rest),
{
    lemma_selectors_text_concat(seq![s0], rest);
    let one = seq![s0];
    assert(one.drop_last() =~= Seq::<u32>::empty());
    assert(one.last() == s0);
    assert(selectors_text(one.drop_last()) == Seq::<char>::empty());
    assert(selectors_text(one) == selectors_text(one.drop_last()) + seq!['['] + decimal(s0 as nat) + seq![']']);
    assert(Seq::<char>::empty() + seq!['['] + decimal(s0 as nat) + seq![']'] =~= seq!['['] + decimal(s0 as nat) + seq![']']);
}

} // verus!
