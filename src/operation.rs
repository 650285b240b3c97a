//! One binary arithmetic step between two non-negative integers.
use vstd::prelude::*;

use crate::text::{decimal, push_chars, push_decimal, string_of};

verus! {

/// The four operators of the game.
#[derive(Clone, Copy, PartialEq, Eq, Structural, Debug)]
pub enum OperationType {
    Addition,
    Subtraction,
    Multiplication,
    Division,
}

impl OperationType {
    /// The symbol that stands for the operator.
    pub open spec fn symbol_spec(self) -> char {
        match self {
            OperationType::Addition => '+',
            OperationType::Subtraction => '−',
            OperationType::Multiplication => '×',
            OperationType::Division => '÷',
        }
    }

    /// The symbol that stands for the operator: `+`, `−`, `×` or `÷`.
    pub fn symbol(&self) -> (r: char)
        ensures
            r == self.symbol_spec(),
    {
        match self {
            OperationType::Addition => '+',
            OperationType::Subtraction => '−',
            OperationType::Multiplication => '×',
            OperationType::Division => '÷',
        }
    }
}

/// A single operation between two integers, stored in canonical order:
/// `op1 >= op2` for every value built by [`Operation::new`].
#[derive(Clone, Copy, PartialEq, Eq, Structural, Debug)]
pub struct Operation {
    pub op1: u32,
    pub op2: u32,
    pub op_type: OperationType,
}

/// Whatever the order of the operands given, the first stored operand is at
/// least the second, and swapping the two arguments builds the same
/// operation.
pub proof fn lemma_canonical_order(a: u32, b: u32, op_type: OperationType)
    ensures
        Operation::canonical(a, b, op_type).op1 >= Operation::canonical(a, b, op_type).op2,
        Operation::canonical(a, b, op_type) == Operation::canonical(b, a, op_type),
{
}

/// Addition and multiplication are always possible; subtraction exactly when
/// the first operand is strictly greater; division exactly when the first
/// operand is a multiple of the second (a division by zero is never
/// possible, so the pair of two zeros is left out).
pub proof fn lemma_possible_rules(op: Operation)
    requires
        !(op.op_type == OperationType::Division && op.op1 == 0 && op.op2 == 0),
    ensures
        op.op_type == OperationType::Addition ==> op.possible(),
        op.op_type == OperationType::Multiplication ==> op.possible(),
        op.op_type == OperationType::Subtraction ==> (op.possible() <==> op.op1 > op.op2),
        op.op_type == OperationType::Division ==> (op.possible() <==> exists|k: nat| op.op1 == #[trigger] (k * op.op2)),
{
    if op.op_type == OperationType::Division {
        if op.op2 != 0 && op.op1 % op.op2 == 0 {
            let k = (op.op1 / op.op2) as nat;
            vstd::arithmetic::div_mod::lemma_fundamental_div_mod(op.op1 as int, op.op2 as int);
            assert(op.op1 == k * op.op2) by (nonlinear_arith)
                requires
                    op.op1 == op.op2 * (op.op1 / op.op2) + op.op1 % op.op2,
                    op.op1 % op.op2 == 0,
                    k == op.op1 / op.op2,
            ;
        }
        if exists|k: nat| op.op1 == #[trigger] (k * op.op2) {
            let k = choose|k: nat| op.op1 == #[trigger] (k * op.op2);
            if op.op2 == 0 {
                assert(op.op1 == 0) by (nonlinear_arith)
                    requires
                        op.op1 == k * op.op2,
                        op.op2 == 0,
                ;
            } else {
                vstd::arithmetic::div_mod::lemma_mod_multiples_basic(k as int, op.op2 as int);
            }
        }
    }
}

impl Operation {
    /// The operation between `a` and `b`, larger (or equal) operand first.
    pub open spec fn canonical(a: u32, b: u32, op_type: OperationType) -> Operation {
        if b > a {
            Operation { op1: b, op2: a, op_type }
        } else {
            Operation { op1: a, op2: b, op_type }
        }
    }

    /// Whether the operation yields a non-negative integer: subtraction
    /// needs a strictly positive difference, division an exact quotient by a
    /// non-zero divisor.
    pub open spec fn possible(self) -> bool {
        match self.op_type {
            OperationType::Addition => true,
            OperationType::Multiplication => true,
            OperationType::Subtraction => self.op1 > self.op2,
            OperationType::Division => self.op2 != 0 && self.op1 % self.op2 == 0,
        }
    }

    /// The mathematical value of the operation (meaningful when possible).
    pub open spec fn value(self) -> int {
        match self.op_type {
            OperationType::Addition => self.op1 + self.op2,
            OperationType::Subtraction => self.op1 - self.op2,
            OperationType::Multiplication => self.op1 * self.op2,
            OperationType::Division => if self.op2 == 0 { 0 } else { self.op1 as int / self.op2 as int },
        }
    }

    /// The result as a `u32`: defined when the operation is possible and its
    /// value fits in a `u32`.
    pub open spec fn outcome(self) -> Option<u32> {
        if self.possible() && 0 <= self.value() <= u32::MAX {
            Some(self.value() as u32)
        } else {
            None
        }
    }

    /// `op` alone when it is possible, nothing otherwise.
    pub open spec fn keep_if_possible(op: Operation) -> Seq<Operation> {
        if op.possible() {
            seq![op]
        } else {
            Seq::empty()
        }
    }

    /// The possible operations between `a` and `b`, in the order addition,
    /// subtraction, multiplication, division.
    pub open spec fn possible_ops(a: u32, b: u32) -> Seq<Operation> {
        Self::keep_if_possible(Self::canonical(a, b, OperationType::Addition))
            + Self::keep_if_possible(Self::canonical(a, b, OperationType::Subtraction))
            + Self::keep_if_possible(Self::canonical(a, b, OperationType::Multiplication))
            + Self::keep_if_possible(Self::canonical(a, b, OperationType::Division))
    }

    /// The text of the operation: `"<op1> <symbol> <op2> = <result>"`, with
    /// `X` for a result that is not defined.
    pub open spec fn text(self) -> Seq<char> {
        decimal(self.op1 as nat) + seq![' ', self.op_type.symbol_spec(), ' '] + decimal(self.op2 as nat)
            + seq![' ', '=', ' '] + match self.outcome() {
            Some(v) => decimal(v as nat),
            None => seq!['X'],
        }
    }

    /// Appends the text of the operation to `out`.
    pub fn write_to(&self, out: &mut Vec<char>)
        ensures
            final(out)@ == old(out)@ + self.text(),
    {
        push_decimal(out, self.op1);
        let sym = self.op_type.symbol();
        push_chars(out, &[' ', sym, ' ']);
        push_decimal(out, self.op2);
        push_chars(out, &[' ', '=', ' ']);
        match self.result() {
            Some(v) => push_decimal(out, v),
            None => push_chars(out, &['X']),
        }
        proof {
            assert(final(out)@ =~= old(out)@ + self.text());
        }
    }

    /// The text of the operation, as `"7 + 2 = 9"`.
    pub fn render(&self) -> (r: String)
        ensures
            r@ == self.text(),
    {
        let mut out: Vec<char> = Vec::new();
        self.write_to(&mut out);
        proof {
            assert(out@ =~= self.text());
        }
        string_of(out)
    }

    /// Creates all the possible operations between two numbers.
    pub fn create_all_possible_ops(op1: u32, op2: u32) -> (r: Vec<Operation>)
        ensures
            r@ == Self::possible_ops(op1, op2),
    {
        let mut r: Vec<Operation> = Vec::new();
        let add = Operation::new(op1, op2, OperationType::Addition);
        if add.is_possible() {
            r.push(add);
        }
        let sub = Operation::new(op1, op2, OperationType::Subtraction);
        if sub.is_possible() {
            r.push(sub);
        }
        let mul = Operation::new(op1, op2, OperationType::Multiplication);
        if mul.is_possible() {
            r.push(mul);
        }
        let div = Operation::new(op1, op2, OperationType::Division);
        if div.is_possible() {
            r.push(div);
        }
        proof {
            assert(r@ =~= Self::possible_ops(op1, op2));
        }
        r
    }

    /// Builds the operation, swapping the operands when `op2 > op1`.
    pub fn new(op1: u32, op2: u32, op_type: OperationType) -> (r: Operation)
        ensures
            r == Self::canonical(op1, op2, op_type),
            r.op1 >= r.op2,
    {
        if op2 > op1 {
            Operation { op1: op2, op2: op1, op_type }
        } else {
            Operation { op1, op2, op_type }
        }
    }

    /// Whether the operation yields a non-negative integer result.
    pub fn is_possible(&self) -> (r: bool)
        ensures
            r == self.possible(),
    {
        match self.op_type {
            OperationType::Addition | OperationType::Multiplication => true,
            OperationType::Subtraction => self.op1 > self.op2,
            OperationType::Division => self.op2 != 0 && self.op1 % self.op2 == 0,
        }
    }

    /// The result of the operation, or `None` when it is not possible or does
    /// not fit in a `u32`.
    pub fn result(&self) -> (r: Option<u32>)
        ensures
            r == self.outcome(),
    {
        match self.op_type {
            OperationType::Addition => self.op1.checked_add(self.op2),
            OperationType::Subtraction => {
                if self.op1 > self.op2 {
                    Some(self.op1 - self.op2)
                } else {
                    None
                }
            },
            OperationType::Multiplication => self.op1.checked_mul(self.op2),
            OperationType::Division => {
                if self.op2 != 0 && self.op1 % self.op2 == 0 {
                    Some(self.op1 / self.op2)
                } else {
                    None
                }
            },
        }
    }
}

} // verus!
