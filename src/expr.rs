//! Operators, operands and the saturating arithmetic that evaluates them.

use vstd::prelude::*;

verus! {

/// One of the four arithmetic operators of the game.
#[derive(Clone, Copy, PartialEq, Eq, Structural, Debug)]
pub enum Op {
    Add,
    Subtract,
    Multiply,
    Divide,
}

/// A die value raised to a small power.
#[derive(Clone, Copy, PartialEq, Eq, Structural, Debug)]
pub struct Value {
    pub number: u8,
    pub power: u32,
}

/// The expression `(x op1 y) op2 z`.
#[derive(Clone, Copy, PartialEq, Eq, Structural, Debug)]
pub struct Answer {
    pub x: Value,
    pub op1: Op,
    pub y: Value,
    pub op2: Op,
    pub z: Value,
}

/// `b` raised to the power `e`.
pub open spec fn power_of(b: nat, e: nat) -> nat
    decreases e,
{
    if e == 0 {
        1
    } else {
        b * power_of(b, (e - 1) as nat)
    }
}

/// What `apply` gives: addition and multiplication saturate at `u8::MAX`,
/// subtraction saturates at zero, and a division by zero or one that leaves
/// a remainder gives zero.
pub open spec fn apply(o: Op, a: u8, b: u8) -> u8 {
    match o {
        Op::Add => if a + b > 255 { 255u8 } else { (a + b) as u8 },
        Op::Subtract => if a < b { 0u8 } else { (a - b) as u8 },
        Op::Multiply => if a * b > 255 { 255u8 } else { (a * b) as u8 },
        Op::Divide => if b == 0 || a % b != 0 { 0u8 } else { (a / b) as u8 },
    }
}

/// Whether `o` applied to `a` and `b` is a true division by zero or a
/// division that leaves a remainder.
pub open spec fn is_bad_division(o: Op, a: u8, b: u8) -> bool {
    o == Op::Divide && (b == 0 || a % b != 0)
}

/// The numeric value of an operand.
pub open spec fn operand_value(v: Value) -> u8 {
    power_of(v.number as nat, v.power as nat) as u8
}

/// What an expression evaluates to.
pub open spec fn answer_value(a: Answer) -> u8 {
    apply(a.op2, apply(a.op1, operand_value(a.x), operand_value(a.y)), operand_value(a.z))
}

/// A positive base gives a power that grows with the exponent.
pub proof fn lemma_power_grows(b: nat, e1: nat, e2: nat)
    requires
        b >= 1,
        e1 <= e2,
    ensures
        power_of(b, e1) <= power_of(b, e2),
    decreases e2,
{
    if e1 < e2 {
        lemma_power_grows(b, e1, (e2 - 1) as nat);
        lemma_power_positive(b, (e2 - 1) as nat);
        assert(power_of(b, (e2 - 1) as nat) <= b * power_of(b, (e2 - 1) as nat)) by (nonlinear_arith)
            requires
                b >= 1,
                power_of(b, (e2 - 1) as nat) >= 1,
        ;
    }
}

/// A positive base has a positive power.
pub proof fn lemma_power_positive(b: nat, e: nat)
    requires
        b >= 1,
    ensures
        power_of(b, e) >= 1,
    decreases e,
{
    if e > 0 {
        lemma_power_positive(b, (e - 1) as nat);
        assert(b * power_of(b, (e - 1) as nat) >= 1) by (nonlinear_arith)
            requires
                b >= 1,
                power_of(b, (e - 1) as nat) >= 1,
        ;
    }
}

/// `base` raised to `exp`, where the result fits in a `u8`.
pub fn power(base: u8, exp: u32) -> (r: u8)
    requires
        power_of(base as nat, exp as nat) <= 255,
    ensures
        r as nat == power_of(base as nat, exp as nat),
{
    let mut acc: u8 = 1;
    let mut i: u32 = 0;
    while i < exp
        invariant
            i <= exp,
            acc as nat == power_of(base as nat, i as nat),
            power_of(base as nat, exp as nat) <= 255,
        decreases exp - i,
    {
        proof {
            if base >= 1 {
                lemma_power_grows(base as nat, (i + 1) as nat, exp as nat);
            }
            assert(power_of(base as nat, (i + 1) as nat) == base as nat * power_of(base as nat, i as nat));
        }
        acc = acc * base;
        i = i + 1;
    }
    acc
}

/// Applies `o` to `n1` and `n2` with the saturating arithmetic of `apply`.
pub fn op(n1: u8, o: &Op, n2: u8) -> (r: u8)
    ensures
        r == apply(*o, n1, n2),
{
    match o {
        Op::Add => n1.saturating_add(n2),
        Op::Subtract => n1.saturating_sub(n2),
        Op::Multiply => {
            proof {
                assert(n1 as int * n2 as int <= 255 * 255) by (nonlinear_arith)
                    requires
                        n1 <= 255,
                        n2 <= 255,
                ;
            }
            let p: u16 = (n1 as u16) * (n2 as u16);
            if p > 255 {
                255
            } else {
                p as u8
            }
        },
        Op::Divide => {
            if n2 == 0 {
                return 0;
            }
            if n1 % n2 != 0 {
                return 0;
            }
            n1 / n2
        },
    }
}

impl Op {
    /// The character that stands for the operator.
    pub fn symbol(&self) -> (c: char)
        ensures
            c == op_symbol(*self),
    {
        match self {
            Op::Add => '+',
            Op::Subtract => '-',
            Op::Multiply => '*',
            Op::Divide => '/',
        }
    }
}

/// The character that stands for an operator.
pub open spec fn op_symbol(o: Op) -> char {
    match o {
        Op::Add => '+',
        Op::Subtract => '-',
        Op::Multiply => '*',
        Op::Divide => '/',
    }
}

impl Answer {
    /// Builds the expression `(x^x_power op1 y^y_power) op2 z^z_power`.
    pub fn from(
        x: &u8,
        x_power: &u32,
        op1: &Op,
        y: &u8,
        y_power: &u32,
        op2: &Op,
        z: &u8,
        z_power: &u32,
    ) -> (r: Answer)
        ensures
            r == (Answer {
                x: Value { number: *x, power: *x_power },
                op1: *op1,
                y: Value { number: *y, power: *y_power },
                op2: *op2,
                z: Value { number: *z, power: *z_power },
            }),
    {
        Answer {
            x: Value { number: *x, power: *x_power },
            op1: *op1,
            y: Value { number: *y, power: *y_power },
            op2: *op2,
            z: Value { number: *z, power: *z_power },
        }
    }
}

} // verus!
