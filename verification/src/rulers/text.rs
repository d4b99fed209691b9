//! The textual form of a ruler: its marks, the mark 0 first, as a list in square brackets.

use crate::rulers::{GInt, GolombRuler};
use vstd::prelude::*;

verus! {

/// The character of a decimal digit.
pub open spec fn digit_char(d: nat) -> char {
    if d == 0 {
        '0'
    } else if d == 1 {
        '1'
    } else if d == 2 {
        '2'
    } else if d == 3 {
        '3'
    } else if d == 4 {
        '4'
    } else if d == 5 {
        '5'
    } else if d == 6 {
        '6'
    } else if d == 7 {
        '7'
    } else if d == 8 {
        '8'
    } else {
        '9'
    }
}

/// A natural number in decimal digits.
pub open spec fn decimal(n: nat) -> Seq<char>
    decreases n,
{
    if n < 10 {
        seq![digit_char(n)]
    } else {
        decimal(n / 10).push(digit_char(n % 10))
    }
}

/// An integer in decimal digits, with a minus sign where it is negative.
pub open spec fn integer_text(m: int) -> Seq<char> {
    if m < 0 {
        seq!['-'] + decimal((-m) as nat)
    } else {
        decimal(m as nat)
    }
}

/// The marks as they follow the mark 0 in the text: each after a comma and a space.
pub open spec fn marks_text(marks: Seq<i128>) -> Seq<char>
    decreases marks.len(),
{
    if marks.len() == 0 {
        Seq::empty()
    } else {
        marks_text(marks.drop_last()) + seq![',', ' '] + integer_text(marks.last() as int)
    }
}

/// The textual form of the ruler with these marks, such as `[0, 1, 3, 7]`.
pub open spec fn ruler_text(marks: Seq<i128>) -> Seq<char> {
    seq!['[', '0'] + marks_text(marks) + seq![']']
}

/// The digits in the order opposite to the one they were found in.
spec fn reversed(digits: Seq<u8>) -> Seq<char> {
    Seq::new(digits.len(), |i: int| digit_char(digits[digits.len() - 1 - i] as nat))
}

/// The text of a decimal digit.
fn digit_str(d: u8) -> (text: &'static str)
    requires
        d < 10,
    ensures
        text@ == seq![digit_char(d as nat)],
{
    proof {
        reveal_strlit("0");
        reveal_strlit("1");
        reveal_strlit("2");
        reveal_strlit("3");
        reveal_strlit("4");
        reveal_strlit("5");
        reveal_strlit("6");
        reveal_strlit("7");
        reveal_strlit("8");
        reveal_strlit("9");
    }
    let text = match d {
        0 => "0",
        1 => "1",
        2 => "2",
        3 => "3",
        4 => "4",
        5 => "5",
        6 => "6",
        7 => "7",
        8 => "8",
        _ => "9",
    };
    assert(text@ =~= seq![digit_char(d as nat)]);
    text
}

/// Append an integer in decimal digits.
fn push_integer(text: &mut String, m: GInt)
    ensures
        final(text)@ == old(text)@ + integer_text(m as int),
{
    let ghost start = text@;
    let magnitude: u128 = if m < 0 {
        proof {
            reveal_strlit("-");
        }
        text.append("-");
        ((-(m + 1)) as u128) + 1
    } else {
        m as u128
    };
    let ghost signed = text@;
    // the digits, the lowest first
    let mut digits: Vec<u8> = Vec::new();
    let mut rest: u128 = magnitude;
    while rest >= 10
        invariant
            decimal(magnitude as nat) == decimal(rest as nat) + reversed(digits@),
            forall|i: int| 0 <= i < digits@.len() ==> digits@[i] < 10,
        decreases rest,
    {
        let ghost before = digits@;
        digits.push((rest % 10) as u8);
        proof {
            assert(decimal((rest / 10) as nat) + reversed(digits@) =~= decimal(rest as nat)
                + reversed(before));
        }
        rest = rest / 10;
    }
    text.append(digit_str(rest as u8));
    let mut i: usize = digits.len();
    while i > 0
        invariant
            i <= digits@.len(),
            forall|i: int| 0 <= i < digits@.len() ==> digits@[i] < 10,
            text@ == signed + decimal(rest as nat) + reversed(digits@).take(digits@.len() - i),
        decreases i,
    {
        i -= 1;
        text.append(digit_str(digits[i]));
        assert(text@ =~= signed + decimal(rest as nat) + reversed(digits@).take(
            digits@.len() - i,
        ));
    }
    assert(reversed(digits@).take(digits@.len() as int) =~= reversed(digits@));
    assert(text@ =~= start + integer_text(m as int));
}

impl GolombRuler {
    /// The textual form of the ruler: its marks, the mark 0 first, such as `[0, 1, 3, 7]`.
    pub fn to_string(&self) -> (text: String)
        ensures
            text@ == ruler_text(self@),
    {
        proof {
            reveal_strlit("[0");
            reveal_strlit(", ");
            reveal_strlit("]");
        }
        let mut text = String::from_str("[0");
        let mut i: usize = 0;
        while i < self.marks.len()
            invariant
                i <= self.marks@.len(),
                text@ == seq!['[', '0'] + marks_text(self.marks@.take(i as int)),
            decreases self.marks@.len() - i,
        {
            proof {
                reveal_strlit(", ");
            }
            text.append(", ");
            push_integer(&mut text, self.marks[i]);
            proof {
                assert(", "@ =~= seq![',', ' ']);
                assert(self.marks@.take(i + 1).drop_last() =~= self.marks@.take(i as int));
                assert(text@ =~= seq!['[', '0'] + marks_text(self.marks@.take(i + 1)));
            }
            i += 1;
        }
        text.append("]");
        assert(self.marks@.take(i as int) =~= self.marks@);
        assert(text@ =~= ruler_text(self.marks@));
        text
    }
}

} // verus!
