//! The text form of a board: one line per target that has an expression.

use crate::expr::{op_symbol, Answer, Value};
use crate::search::{Board, BOARD_SIZE};
use vstd::prelude::*;

verus! {

/// The decimal digit `d`.
pub open spec fn digit_char(d: nat) -> char {
    if d == 0 {
        '0'
    } else if d == 1 {
        '1'
    } else if d == 2 {
        '2'
    } else if d == 3 {
        '3'
    } else if d == 4 {
        '4'
    } else if d == 5 {
        '5'
    } else if d == 6 {
        '6'
    } else if d == 7 {
        '7'
    } else if d == 8 {
        '8'
    } else {
        '9'
    }
}

/// `n` written in decimal, without leading zeros.
pub open spec fn decimal(n: nat) -> Seq<char>
    decreases n,
{
    if n < 10 {
        seq![digit_char(n)]
    } else {
        decimal(n / 10).push(digit_char(n % 10))
    }
}

/// An operand as text: the number alone for exponent 1, else `number^power`.
pub open spec fn operand_text(v: Value) -> Seq<char> {
    if v.power == 1 {
        decimal(v.number as nat)
    } else {
        decimal(v.number as nat) + seq!['^'] + decimal(v.power as nat)
    }
}

/// `s` followed by spaces up to a width of three characters.
pub open spec fn padded(s: Seq<char>) -> Seq<char> {
    if s.len() >= 3 {
        s
    } else {
        s + Seq::new((3 - s.len()) as nat, |i: int| ' ')
    }
}

/// The line for target `t`: `X OP1 Y OP2 Z = T`, each operand padded to
/// three characters.
pub open spec fn line_text(t: u8, a: Answer) -> Seq<char> {
    padded(operand_text(a.x)) + seq![' ', op_symbol(a.op1), ' '] + padded(operand_text(a.y))
        + seq![' ', op_symbol(a.op2), ' '] + padded(operand_text(a.z)) + seq![' ', '=', ' ']
        + decimal(t as nat) + seq!['\n']
}

/// The lines of the targets from 1 to `n` that `b` has, in ascending order.
pub open spec fn board_text_upto(b: Map<u8, Answer>, n: nat) -> Seq<char>
    decreases n,
{
    if n == 0 {
        seq![]
    } else if b.contains_key(n as u8) {
        board_text_upto(b, (n - 1) as nat) + line_text(n as u8, b[n as u8])
    } else {
        board_text_upto(b, (n - 1) as nat)
    }
}

/// The text of a whole board.
pub open spec fn board_text(b: Map<u8, Answer>) -> Seq<char> {
    board_text_upto(b, BOARD_SIZE as nat)
}

/// Relies on `String::push`: appends the character at the end of the string.
#[verifier::external_body]
fn push_char(s: &mut String, c: char)
    ensures
        final(s)@ == old(s)@.push(c),
{
    s.push(c);
}

/// How many characters the decimal form of small numbers takes.
proof fn lemma_decimal_len(n: nat)
    ensures
        decimal(n).len() >= 1,
        n < 10 ==> decimal(n).len() == 1,
        10 <= n < 100 ==> decimal(n).len() == 2,
        n >= 100 ==> decimal(n).len() >= 3,
    decreases n,
{
    if n >= 10 {
        lemma_decimal_len(n / 10);
    }
}

/// The decimal digit `d`.
fn digit(d: u32) -> (c: char)
    requires
        d < 10,
    ensures
        c == digit_char(d as nat),
{
    if d == 0 {
        '0'
    } else if d == 1 {
        '1'
    } else if d == 2 {
        '2'
    } else if d == 3 {
        '3'
    } else if d == 4 {
        '4'
    } else if d == 5 {
        '5'
    } else if d == 6 {
        '6'
    } else if d == 7 {
        '7'
    } else if d == 8 {
        '8'
    } else {
        '9'
    }
}

/// Appends `n` in decimal.
fn push_decimal(s: &mut String, n: u32)
    ensures
        final(s)@ == old(s)@ + decimal(n as nat),
    decreases n,
{
    let ghost start = s@;
    if n >= 10 {
        push_decimal(s, n / 10);
    }
    push_char(s, digit(n % 10));
    proof {
        if n >= 10 {
            assert(s@ =~= start + decimal(n as nat));
        } else {
            assert(s@ =~= start + decimal(n as nat));
        }
    }
}

/// Appends an operand, padded to three characters.
fn push_operand(s: &mut String, v: &Value)
    ensures
        final(s)@ == old(s)@ + padded(operand_text(*v)),
{
    let ghost start = s@;
    proof {
        lemma_decimal_len(v.number as nat);
        lemma_decimal_len(v.power as nat);
    }
    push_decimal(s, v.number as u32);
    if v.power == 1 {
        if v.number < 10 {
            push_char(s, ' ');
            push_char(s, ' ');
        } else if v.number < 100 {
            push_char(s, ' ');
        }
    } else {
        push_char(s, '^');
        push_decimal(s, v.power);
    }
    assert(s@ =~= start + padded(operand_text(*v)));
}

/// Appends the line for target `t` with expression `a`.
fn push_line(s: &mut String, t: u8, a: &Answer)
    ensures
        final(s)@ == old(s)@ + line_text(t, *a),
{
    let ghost start = s@;
    push_operand(s, &a.x);
    push_char(s, ' ');
    push_char(s, a.op1.symbol());
    push_char(s, ' ');
    push_operand(s, &a.y);
    push_char(s, ' ');
    push_char(s, a.op2.symbol());
    push_char(s, ' ');
    push_operand(s, &a.z);
    push_char(s, ' ');
    push_char(s, '=');
    push_char(s, ' ');
    push_decimal(s, t as u32);
    push_char(s, '\n');
    assert(s@ =~= start + line_text(t, *a));
}

impl Value {
    /// The operand as text: the number alone for exponent 1, else
    /// `number^power`.
    pub fn text(&self) -> (r: String)
        ensures
            r@ == operand_text(*self),
    {
        let mut r = String::new();
        push_decimal(&mut r, self.number as u32);
        if self.power != 1 {
            push_char(&mut r, '^');
            push_decimal(&mut r, self.power);
        }
        assert(r@ =~= operand_text(*self));
        r
    }
}

/// The board as text: for each target from 1 to 36 that has an expression,
/// in ascending order, the line `X OP1 Y OP2 Z = T`.
pub fn display(results: &Board) -> (text: String)
    ensures
        text@ == board_text(results@),
{
    broadcast use vstd::std_specs::hash::group_hash_axioms;

    let mut text = String::new();
    let mut t: u8 = 1;
    while t <= BOARD_SIZE
        invariant
            1 <= t <= BOARD_SIZE + 1,
            text@ == board_text_upto(results@, (t - 1) as nat),
        decreases BOARD_SIZE + 1 - t,
    {
        match results.get(&t) {
            Some(answer) => push_line(&mut text, t, answer),
            None => {},
        }
        t += 1;
    }
    text
}

} // verus!
