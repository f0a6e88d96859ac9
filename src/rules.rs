use vstd::prelude::*;
use crate::rewrite::{PatNode, Rewrite};
use crate::term::{Constant, Op};

verus! {

/// Bits of the double 0.0.
pub const ZERO_BITS: u64 = 0;

/// Bits of the double 1.0.
pub const ONE_BITS: u64 = 0x3ff0_0000_0000_0000u64;

/// Bits of the double -1.0.
pub const MINUS_ONE_BITS: u64 = 0xbff0_0000_0000_0000u64;

/// A rule from its name, its two sides and its number of variables.
fn rule(name: &'static str, lhs: Vec<PatNode>, rhs: Vec<PatNode>, nvars: usize) -> (r: Rewrite)
    requires
        crate::rewrite::pat_wf(lhs@, nvars as int),
        crate::rewrite::pat_wf(rhs@, nvars as int),
        forall|k: int| 0 <= k < rhs@.len() ==> match #[trigger] rhs@[k] {
            PatNode::Var(v) => crate::rewrite::vars_under(lhs@, lhs@.len() - 1).contains(v as int),
            _ => true,
        },
    ensures
        r.wf(),
        r.name == name,
        r.lhs@ == lhs@,
        r.rhs@ == rhs@,
        r.nvars == nvars,
{
    Rewrite { name, lhs, rhs, nvars }
}

/// The arithmetic rewrite rules, in the order in which they are applied: commutativity and
/// associativity of `+` and `*`, subtraction as addition, the identities of 0 and 1 in both
/// directions, cancellation, distribution and factoring.
pub fn rules() -> (r: Vec<Rewrite>)
    ensures
        crate::runner::rules_wf(r@),
        r@.len() == 13,
        r@[0].name == "comm-add",
        r@[0].lhs@ == seq![PatNode::Var(0), PatNode::Var(1), PatNode::Bin(Op::Add, 0, 1)],
        r@[0].rhs@ == seq![PatNode::Var(1), PatNode::Var(0), PatNode::Bin(Op::Add, 0, 1)],
        r@[0].nvars == 2,
        r@[1].name == "comm-mul",
        r@[1].lhs@ == seq![PatNode::Var(0), PatNode::Var(1), PatNode::Bin(Op::Mul, 0, 1)],
        r@[1].rhs@ == seq![PatNode::Var(1), PatNode::Var(0), PatNode::Bin(Op::Mul, 0, 1)],
        r@[1].nvars == 2,
        r@[2].name == "assoc-add",
        r@[2].lhs@ == seq![PatNode::Var(0), PatNode::Var(1), PatNode::Var(2), PatNode::Bin(Op::Add, 1, 2), PatNode::Bin(Op::Add, 0, 3)],
        r@[2].rhs@ == seq![PatNode::Var(0), PatNode::Var(1), PatNode::Bin(Op::Add, 0, 1), PatNode::Var(2), PatNode::Bin(Op::Add, 2, 3)],
        r@[2].nvars == 3,
        r@[3].name == "assoc-mul",
        r@[3].lhs@ == seq![PatNode::Var(0), PatNode::Var(1), PatNode::Var(2), PatNode::Bin(Op::Mul, 1, 2), PatNode::Bin(Op::Mul, 0, 3)],
        r@[3].rhs@ == seq![PatNode::Var(0), PatNode::Var(1), PatNode::Bin(Op::Mul, 0, 1), PatNode::Var(2), PatNode::Bin(Op::Mul, 2, 3)],
        r@[3].nvars == 3,
        r@[4].name == "sub-canon",
        r@[4].lhs@ == seq![PatNode::Var(0), PatNode::Var(1), PatNode::Bin(Op::Sub, 0, 1)],
        r@[4].rhs@ == seq![PatNode::Var(0), PatNode::Constant(Constant { bits: MINUS_ONE_BITS }), PatNode::Var(1), PatNode::Bin(Op::Mul, 1, 2), PatNode::Bin(Op::Add, 0, 3)],
        r@[4].nvars == 2,
        r@[5].name == "zero-add",
        r@[5].lhs@ == seq![PatNode::Var(0), PatNode::Constant(Constant { bits: ZERO_BITS }), PatNode::Bin(Op::Add, 0, 1)],
        r@[5].rhs@ == seq![PatNode::Var(0)],
        r@[5].nvars == 1,
        r@[6].name == "zero-mul",
        r@[6].lhs@ == seq![PatNode::Var(0), PatNode::Constant(Constant { bits: ZERO_BITS }), PatNode::Bin(Op::Mul, 0, 1)],
        r@[6].rhs@ == seq![PatNode::Constant(Constant { bits: ZERO_BITS })],
        r@[6].nvars == 1,
        r@[7].name == "one-mul",
        r@[7].lhs@ == seq![PatNode::Var(0), PatNode::Constant(Constant { bits: ONE_BITS }), PatNode::Bin(Op::Mul, 0, 1)],
        r@[7].rhs@ == seq![PatNode::Var(0)],
        r@[7].nvars == 1,
        r@[8].name == "add-zero",
        r@[8].lhs@ == seq![PatNode::Var(0)],
        r@[8].rhs@ == seq![PatNode::Var(0), PatNode::Constant(Constant { bits: ZERO_BITS }), PatNode::Bin(Op::Add, 0, 1)],
        r@[8].nvars == 1,
        r@[9].name == "mul-one",
        r@[9].lhs@ == seq![PatNode::Var(0)],
        r@[9].rhs@ == seq![PatNode::Var(0), PatNode::Constant(Constant { bits: ONE_BITS }), PatNode::Bin(Op::Mul, 0, 1)],
        r@[9].nvars == 1,
        r@[10].name == "cancel-sub",
        r@[10].lhs@ == seq![PatNode::Var(0), PatNode::Var(0), PatNode::Bin(Op::Sub, 0, 1)],
        r@[10].rhs@ == seq![PatNode::Constant(Constant { bits: ZERO_BITS })],
        r@[10].nvars == 1,
        r@[11].name == "distribute",
        r@[11].lhs@ == seq![PatNode::Var(0), PatNode::Var(1), PatNode::Var(2), PatNode::Bin(Op::Add, 1, 2), PatNode::Bin(Op::Mul, 0, 3)],
        r@[11].rhs@ == seq![PatNode::Var(0), PatNode::Var(1), PatNode::Bin(Op::Mul, 0, 1), PatNode::Var(0), PatNode::Var(2), PatNode::Bin(Op::Mul, 3, 4), PatNode::Bin(Op::Add, 2, 5)],
        r@[11].nvars == 3,
        r@[12].name == "factor",
        r@[12].lhs@ == seq![PatNode::Var(0), PatNode::Var(1), PatNode::Bin(Op::Mul, 0, 1), PatNode::Var(0), PatNode::Var(2), PatNode::Bin(Op::Mul, 3, 4), PatNode::Bin(Op::Add, 2, 5)],
        r@[12].rhs@ == seq![PatNode::Var(0), PatNode::Var(1), PatNode::Var(2), PatNode::Bin(Op::Add, 1, 2), PatNode::Bin(Op::Mul, 0, 3)],
        r@[12].nvars == 3,
{
    let zero = PatNode::Constant(Constant { bits: ZERO_BITS });
    let one = PatNode::Constant(Constant { bits: ONE_BITS });
    let minus_one = PatNode::Constant(Constant { bits: MINUS_ONE_BITS });
    let a = PatNode::Var(0);
    let b = PatNode::Var(1);
    let c = PatNode::Var(2);
    let mut r: Vec<Rewrite> = Vec::new();
    proof {
        reveal_with_fuel(crate::rewrite::vars_under, 4);
    }
    r.push(rule("comm-add", vec![a, b, PatNode::Bin(Op::Add, 0, 1)], vec![b, a, PatNode::Bin(Op::Add, 0, 1)], 2));
    r.push(rule("comm-mul", vec![a, b, PatNode::Bin(Op::Mul, 0, 1)], vec![b, a, PatNode::Bin(Op::Mul, 0, 1)], 2));
    r.push(rule(
        "assoc-add",
        vec![a, b, c, PatNode::Bin(Op::Add, 1, 2), PatNode::Bin(Op::Add, 0, 3)],
        vec![a, b, PatNode::Bin(Op::Add, 0, 1), c, PatNode::Bin(Op::Add, 2, 3)],
        3,
    ));
    r.push(rule(
        "assoc-mul",
        vec![a, b, c, PatNode::Bin(Op::Mul, 1, 2), PatNode::Bin(Op::Mul, 0, 3)],
        vec![a, b, PatNode::Bin(Op::Mul, 0, 1), c, PatNode::Bin(Op::Mul, 2, 3)],
        3,
    ));
    r.push(rule(
        "sub-canon",
        vec![a, b, PatNode::Bin(Op::Sub, 0, 1)],
        vec![a, minus_one, b, PatNode::Bin(Op::Mul, 1, 2), PatNode::Bin(Op::Add, 0, 3)],
        2,
    ));
    r.push(rule("zero-add", vec![a, zero, PatNode::Bin(Op::Add, 0, 1)], vec![a], 1));
    r.push(rule("zero-mul", vec![a, zero, PatNode::Bin(Op::Mul, 0, 1)], vec![zero], 1));
    r.push(rule("one-mul", vec![a, one, PatNode::Bin(Op::Mul, 0, 1)], vec![a], 1));
    r.push(rule("add-zero", vec![a], vec![a, zero, PatNode::Bin(Op::Add, 0, 1)], 1));
    r.push(rule("mul-one", vec![a], vec![a, one, PatNode::Bin(Op::Mul, 0, 1)], 1));
    r.push(rule("cancel-sub", vec![a, a, PatNode::Bin(Op::Sub, 0, 1)], vec![zero], 1));
    r.push(rule(
        "distribute",
        vec![a, b, c, PatNode::Bin(Op::Add, 1, 2), PatNode::Bin(Op::Mul, 0, 3)],
        vec![a, b, PatNode::Bin(Op::Mul, 0, 1), a, c, PatNode::Bin(Op::Mul, 3, 4), PatNode::Bin(Op::Add, 2, 5)],
        3,
    ));
    r.push(rule(
        "factor",
        vec![a, b, PatNode::Bin(Op::Mul, 0, 1), a, c, PatNode::Bin(Op::Mul, 3, 4), PatNode::Bin(Op::Add, 2, 5)],
        vec![a, b, c, PatNode::Bin(Op::Add, 1, 2), PatNode::Bin(Op::Mul, 0, 3)],
        3,
    ));
    r
}

} // verus!
