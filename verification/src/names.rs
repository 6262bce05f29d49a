//! Generated names.
//!
//! A generated name is a base, a dot and a number in decimal notation, as in
//! `x.3`. The base and the number can be read back from the name, so two
//! generated names are equal only where both the bases and the numbers are.

use vstd::prelude::*;
use crate::chars::{is_digit, push_char};
use crate::decimal::{char_of_digit, decimal_text, lemma_decimal_text, lemma_decimal_text_injective};

verus! {

/// The name made of `base`, a dot and the decimal notation of `number`.
pub open spec fn ssa_name(base: Seq<char>, number: nat) -> Seq<char> {
    base + seq!['.'] + decimal_text(number)
}

/// A generated name gives back its base and its number.
pub proof fn lemma_ssa_name_injective(base1: Seq<char>, number1: nat, base2: Seq<char>, number2: nat)
    requires
        ssa_name(base1, number1) == ssa_name(base2, number2),
    ensures
        base1 == base2,
        number1 == number2,
{
    let d1 = decimal_text(number1);
    let d2 = decimal_text(number2);
    let s1 = ssa_name(base1, number1);
    let s2 = ssa_name(base2, number2);
    lemma_decimal_text(number1);
    lemma_decimal_text(number2);
    assert(s1.len() == base1.len() + 1 + d1.len());
    assert(s2.len() == base2.len() + 1 + d2.len());
    if d1.len() < d2.len() {
        // the dot of the first name falls among the digits of the second
        let k = base1.len() as int;
        assert(s1[k] == '.');
        assert(s2[k] == d2[k - base2.len() - 1]);
        assert(is_digit(d2[k - base2.len() - 1]));
    } else if d2.len() < d1.len() {
        let k = base2.len() as int;
        assert(s2[k] == '.');
        assert(s1[k] == d1[k - base1.len() - 1]);
        assert(is_digit(d1[k - base1.len() - 1]));
    } else {
        assert(base1.len() == base2.len());
        assert(base1 =~= base2) by {
            assert forall|i: int| 0 <= i < base1.len() implies base1[i] == base2[i] by {
                assert(s1[i] == base1[i]);
                assert(s2[i] == base2[i]);
            }
        }
        assert(d1 =~= d2) by {
            assert forall|i: int| 0 <= i < d1.len() implies d1[i] == d2[i] by {
                assert(s1[base1.len() + 1 + i] == d1[i]);
                assert(s2[base2.len() + 1 + i] == d2[i]);
            }
        }
        lemma_decimal_text_injective(number1, number2);
    }
}

/// Appends the decimal notation of `number` to `text`.
fn push_decimal(text: &mut String, number: u64)
    ensures
        final(text)@ == old(text)@ + decimal_text(number as nat),
    decreases number,
{
    if number >= 10 {
        push_decimal(text, number / 10);
    }
    let digit: u8 = (number % 10) as u8;
    push_char(text, char_of_digit(digit));
    proof {
        if number >= 10 {
            assert(text@ =~= old(text)@ + decimal_text(number as nat));
        } else {
            assert(text@ =~= old(text)@ + decimal_text(number as nat));
        }
    }
}

/// The generated name for `base` and `number`.
pub fn make_name(base: &String, number: u64) -> (name: String)
    ensures
        name@ == ssa_name(base@, number as nat),
{
    let mut name: String = base.clone();
    push_char(&mut name, '.');
    push_decimal(&mut name, number);
    assert(name@ =~= ssa_name(base@, number as nat));
    name
}

} // verus!
