//! Arithmetic expressions as trees, and their values.

use vstd::prelude::*;
use vstd::string::StringSliceAdditionalSpecFns;

verus! {

/// Why an expression has no value.
#[derive(Clone, Copy, Debug, PartialEq, Eq, Structural)]
pub enum EvalError {
    /// A number is not written in decimal digits, or does not fit 64 bits.
    NotANumber,
    /// A result does not fit 64 bits, or a divisor is zero.
    MathError,
}

/// The number that decimal digits stand for, or nothing where a byte is
/// no digit.
pub open spec fn digits_value(digits: Seq<u8>) -> Option<int>
    decreases digits.len(),
{
    if digits.len() == 0 {
        Some(0)
    } else if digits.last() < 48 || digits.last() > 57 {
        None
    } else {
        match digits_value(digits.drop_last()) {
            Some(value) => Some(value * 10 + (digits.last() - 48)),
            None => None,
        }
    }
}

/// The number that the bytes stand for: decimal digits, at least one, after
/// an optional sign; nothing where the bytes are not of that form or the
/// number does not fit 64 bits.
pub open spec fn decimal_value(bytes: Seq<u8>) -> Option<i64> {
    let negative = bytes.len() > 0 && bytes[0] == 45;
    let signed = bytes.len() > 0 && (bytes[0] == 45 || bytes[0] == 43);
    let digits = if signed {
        bytes.subrange(1, bytes.len() as int)
    } else {
        bytes
    };
    if digits.len() == 0 {
        None
    } else {
        match digits_value(digits) {
            None => None,
            Some(value) => if negative {
                if -value >= i64::MIN {
                    Some((-value) as i64)
                } else {
                    None
                }
            } else {
                if value <= i64::MAX {
                    Some(value as i64)
                } else {
                    None
                }
            },
        }
    }
}

/// Reads a number: decimal digits, at least one, after an optional sign.
pub fn parse_i64(bytes: &[u8]) -> (r: Option<i64>)
    ensures
        r == decimal_value(bytes@),
{
    let negative = bytes.len() > 0 && bytes[0] == 45;
    let start: usize = if bytes.len() > 0 && (bytes[0] == 45 || bytes[0] == 43) {
        1
    } else {
        0
    };
    if start == bytes.len() {
        return None;
    }
    let ghost digits = bytes@.subrange(start as int, bytes@.len() as int);
    proof {
        if start == 0 {
            assert(digits =~= bytes@);
        }
    }
    // The value so far, as long as it fits.
    let mut value: Option<u64> = Some(0);
    let mut i: usize = start;
    proof {
        assert(digits.subrange(0, 0) =~= Seq::<u8>::empty());
    }
    while i < bytes.len()
        invariant
            start <= i <= bytes@.len(),
            start <= 1,
            start == 1 <==> bytes@.len() > 0 && (bytes@[0] == 45 || bytes@[0] == 43),
            digits == bytes@.subrange(start as int, bytes@.len() as int),
            digits_value(digits.subrange(0, i - start)).is_some(),
            digits_value(digits.subrange(0, i - start)).unwrap() >= 0,
            value.is_some() <==> digits_value(digits.subrange(0, i - start)).unwrap() <= u64::MAX,
            value.is_some() ==> value.unwrap() == digits_value(
                digits.subrange(0, i - start),
            ).unwrap(),
        decreases bytes@.len() - i,
    {
        let byte = bytes[i];
        let ghost so_far = digits.subrange(0, i - start);
        let ghost next = digits.subrange(0, i - start + 1);
        proof {
            assert(next.drop_last() =~= so_far);
            assert(next.last() == byte);
        }
        if byte < 48 || byte > 57 {
            proof {
                assert(digits_value(next).is_none());
                lemma_digits_fail(digits, i - start + 1);
                if start == 0 {
                    assert(digits =~= bytes@);
                }
            }
            return None;
        }
        value = match value {
            Some(current) => match current.checked_mul(10) {
                Some(shifted) => shifted.checked_add((byte - 48) as u64),
                None => None,
            },
            None => None,
        };
        i = i + 1;
    }
    proof {
        assert(digits.subrange(0, digits.len() as int) =~= digits);
    }
    match value {
        Some(magnitude) => {
            if negative {
                if magnitude <= 0x8000_0000_0000_0000 {
                    if magnitude == 0x8000_0000_0000_0000 {
                        Some(i64::MIN)
                    } else {
                        Some(-(magnitude as i64))
                    }
                } else {
                    None
                }
            } else if magnitude <= 0x7fff_ffff_ffff_ffff {
                Some(magnitude as i64)
            } else {
                None
            }
        },
        None => None,
    }
}

/// Digits that have no value so far have none however they go on.
proof fn lemma_digits_fail(digits: Seq<u8>, count: int)
    requires
        0 <= count <= digits.len(),
        digits_value(digits.subrange(0, count)).is_none(),
    ensures
        digits_value(digits).is_none(),
    decreases digits.len() - count,
{
    if count < digits.len() {
        let next = digits.subrange(0, count + 1);
        assert(next.drop_last() =~= digits.subrange(0, count));
        lemma_digits_fail(digits, count + 1);
    } else {
        assert(digits.subrange(0, count) =~= digits);
    }
}

#[derive(PartialEq, Clone, Copy, Debug, Eq, Structural)]
pub enum Op {
    Add,
    Sub,
    Mul,
    Div,
}

impl Op {
    /// The result of the operation on two numbers, or nothing where it does
    /// not fit 64 bits or the divisor is zero. Division rounds towards
    /// zero.
    pub open spec fn apply(self, a: i64, b: i64) -> Option<i64> {
        match self {
            Op::Add => i64::checked_add(a, b),
            Op::Sub => i64::checked_sub(a, b),
            Op::Mul => i64::checked_mul(a, b),
            Op::Div => i64::checked_div(a, b),
        }
    }

    pub fn eval(&self, a: i64, b: i64) -> (r: Result<i64, EvalError>)
        ensures
            self.apply(a, b).is_some() ==> r == Ok::<i64, EvalError>(self.apply(a, b).unwrap()),
            self.apply(a, b).is_none() ==> r == Err::<i64, EvalError>(EvalError::MathError),
    {
        let result = match *self {
            Op::Add => i64::checked_add(a, b),
            Op::Sub => i64::checked_sub(a, b),
            Op::Mul => i64::checked_mul(a, b),
            Op::Div => i64::checked_div(a, b),
        };
        match result {
            Some(value) => Ok(value),
            None => Err(EvalError::MathError),
        }
    }
}

#[derive(Debug)]
pub enum Ast {
    Num(String),
    OpNode(Op, Box<Ast>, Box<Ast>),
}

impl Ast {
    /// The value of the expression: the number that a leaf is written as,
    /// and the result of the operation on the values of the two sides of a
    /// node. The left side is looked at first: where it has no value, its
    /// error is the error of the node.
    pub open spec fn value(self) -> Result<i64, EvalError>
        decreases self,
    {
        match self {
            Ast::Num(s) => match decimal_value(vstd::utf8::encode_utf8(s@)) {
                Some(value) => Ok(value),
                None => Err(EvalError::NotANumber),
            },
            Ast::OpNode(op, a, b) => match a.value() {
                Err(error) => Err(error),
                Ok(left) => match b.value() {
                    Err(error) => Err(error),
                    Ok(right) => match op.apply(left, right) {
                        Some(value) => Ok(value),
                        None => Err(EvalError::MathError),
                    },
                },
            },
        }
    }

    /// The value of the expression.
    pub fn eval(&self) -> (r: Result<i64, EvalError>)
        ensures
            r == self.value(),
        decreases self,
    {
        match self {
            Ast::Num(s) => match parse_i64(s.as_str().as_bytes()) {
                Some(value) => Ok(value),
                None => Err(EvalError::NotANumber),
            },
            Ast::OpNode(op, a, b) => {
                let left = match a.eval() {
                    Ok(left) => left,
                    Err(error) => {
                        return Err(error);
                    },
                };
                let right = match b.eval() {
                    Ok(right) => right,
                    Err(error) => {
                        return Err(error);
                    },
                };
                op.eval(left, right)
            },
        }
    }

    /// A copy of the expression.
    pub fn duplicate(&self) -> (r: Ast)
        ensures
            r == *self,
        decreases self,
    {
        match self {
            Ast::Num(s) => Ast::Num(s.clone()),
            Ast::OpNode(op, a, b) => Ast::OpNode(
                *op,
                Box::new(a.duplicate()),
                Box::new(b.duplicate()),
            ),
        }
    }
}

/// The tree that stands for operands that are joined from left to right:
/// the first `count` operators applied, each to the tree so far and to the
/// operand that follows it, the last one to `last`.
pub open spec fn joined(items: Seq<(Ast, Op)>, last: Ast, count: nat) -> Ast
    decreases count,
{
    if count == 0 {
        items[0].0
    } else {
        Ast::OpNode(
            items[count - 1].1,
            Box::new(joined(items, last, (count - 1) as nat)),
            Box::new(
                if count == items.len() {
                    last
                } else {
                    items[count as int].0
                },
            ),
        )
    }
}

/// The operand to the right of the operator of step `count`: the operand
/// that follows, and `last` for the last operator.
pub open spec fn right_of<T>(items: Seq<(Ast, T)>, last: Ast, count: nat) -> Ast {
    if count == items.len() {
        last
    } else {
        items[count as int].0
    }
}

/// Whether `result` can come of joining the first operand with the `count`
/// operands that follow it, from left to right: each step hands `fold` the
/// operator, what has come of the steps before, and the operand that
/// follows, which for the last operator is `last`.
pub open spec fn folds_to<T, F: Fn(T, Ast, Ast) -> Ast>(
    fold: F,
    items: Seq<(Ast, T)>,
    last: Ast,
    count: nat,
    result: Ast,
) -> bool
    decreases count,
{
    if count == 0 {
        result == items[0].0
    } else {
        exists|before: Ast|
            folds_to(fold, items, last, (count - 1) as nat, before) && #[trigger] call_ensures(
                fold,
                (items[count - 1].1, before, right_of(items, last, count)),
                result,
            )
    }
}

/// Joins operands from left to right into one tree, each step made by
/// `fold`. The operands but the last come in reverse order, each with the
/// operator that follows it.
///
/// Example: ([(2, -), (1, +)], 4) ==> (1 + 2) - 4
pub fn vecast_to_ast<T: Copy, F: Fn(T, Ast, Ast) -> Ast>(va: (Vec<(Ast, T)>, Ast), fold: F) -> (r:
    Ast)
    requires
        forall|op: T, left: Ast, right: Ast| call_requires(fold, (op, left, right)),
    ensures
        va.0@.len() == 0 ==> r == va.1,
        va.0@.len() > 0 ==> folds_to(fold, va.0@.reverse(), va.1, va.0@.len(), r),
{
    let (mut x, y) = va;
    if x.len() == 0 {
        return y;
    }
    let ghost items = x@.reverse();
    let count = x.len();
    // The operands in the order in which they are joined.
    let mut ordered: Vec<(Ast, T)> = Vec::new();
    while x.len() > 0
        invariant
            x@.len() + ordered@.len() == count,
            count == items.len(),
            forall|k: int| 0 <= k < ordered@.len() ==> ordered@[k] == items[k],
            forall|k: int| 0 <= k < x@.len() ==> x@[k] == items[count - 1 - k],
        decreases x@.len(),
    {
        let item = x.pop().unwrap();
        ordered.push(item);
    }
    let mut ast = ordered[0].0.duplicate();
    let mut i: usize = 0;
    while i < count
        invariant
            i <= count,
            count == items.len(),
            ordered@ =~= items,
            folds_to(fold, items, y, i as nat, ast),
            forall|op: T, left: Ast, right: Ast| call_requires(fold, (op, left, right)),
        decreases count - i,
    {
        let right = if i == count - 1 {
            y.duplicate()
        } else {
            ordered[i + 1].0.duplicate()
        };
        let ghost before = ast;
        ast = fold(ordered[i].1, ast, right);
        proof {
            assert(folds_to(fold, items, y, i as nat, before));
        }
        i = i + 1;
    }
    ast
}

/// Joined by the making of nodes, operands become the tree that stands for
/// them: where each step makes the node of the operator and its two sides,
/// what comes of the steps is the tree of `joined`.
pub proof fn lemma_folds_to_tree<F: Fn(Op, Ast, Ast) -> Ast>(
    fold: F,
    items: Seq<(Ast, Op)>,
    last: Ast,
    count: nat,
    result: Ast,
)
    requires
        forall|op: Op, left: Ast, right: Ast, node: Ast|
            call_ensures(fold, (op, left, right), node) ==> node == Ast::OpNode(
                op,
                Box::new(left),
                Box::new(right),
            ),
        folds_to(fold, items, last, count, result),
    ensures
        result == joined(items, last, count),
    decreases count,
{
    if count > 0 {
        let before = choose|before: Ast|
            folds_to(fold, items, last, (count - 1) as nat, before) && #[trigger] call_ensures(
                fold,
                (items[count - 1].1, before, right_of(items, last, count)),
                result,
            );
        lemma_folds_to_tree(fold, items, last, (count - 1) as nat, before);
    }
}

} // verus!
