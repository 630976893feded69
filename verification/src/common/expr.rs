//! Scalar expressions of query plans.
use crate::common::field::Field;
use crate::common::ids::ColumnId;
use std::rc::Rc;
use vstd::prelude::*;

verus! {

/// Operators with two operands.
#[derive(Clone, Copy, Debug, PartialEq, Eq, Structural)]
pub enum BinaryOp {
    Add,
    Sub,
    Mul,
    Div,
    Eq,
    Neq,
    Gt,
    Ge,
    Lt,
    Le,
    And,
    Or,
}

/// Aggregates.
#[derive(Clone, Copy, Debug, PartialEq, Eq, Structural)]
pub enum AggOp {
    Avg,
    Count,
    Max,
    Min,
    Sum,
}

/// A scalar expression. `P` is the kind of plan that subqueries are.
#[derive(Debug)]
pub enum Expression<P> {
    /// A column, by its id.
    ColRef { id: ColumnId },
    /// A constant.
    Field { val: Rc<Field> },
    Binary { op: BinaryOp, left: Rc<Expression<P>>, right: Rc<Expression<P>> },
    Case {
        expr: Rc<Expression<P>>,
        whens: Rc<Vec<(Rc<Expression<P>>, Rc<Expression<P>>)>>,
        else_expr: Rc<Expression<P>>,
    },
    Subquery { expr: Rc<P> },
}

/// What the conjunction of predicates is: each one is joined to the rest of
/// them, the first one outermost.
pub open spec fn conjunction<P>(preds: Seq<Rc<Expression<P>>>) -> Rc<Expression<P>>
    decreases preds.len(),
{
    if preds.len() <= 1 {
        preds[0]
    } else {
        Rc::new(
            Expression::Binary {
                op: BinaryOp::And,
                left: preds[0],
                right: conjunction(preds.drop_first()),
            },
        )
    }
}

impl<P> Expression<P> {
    /// The conjunction of predicates, of which there is at least one.
    pub fn combine_preds(preds: &[Rc<Expression<P>>]) -> (r: Rc<Expression<P>>)
        requires
            preds@.len() > 0,
        ensures
            r == conjunction(preds@),
    {
        let mut i: usize = preds.len() - 1;
        let mut all: Rc<Expression<P>> = preds[i].clone();
        assert(preds@.skip(i as int) =~= seq![preds@[i as int]]);
        while i > 0
            invariant
                i < preds@.len(),
                all == conjunction(preds@.skip(i as int)),
            decreases i,
        {
            i = i - 1;
            proof {
                assert(preds@.skip(i as int).drop_first() =~= preds@.skip(i + 1));
            }
            all = Rc::new(Expression::Binary { op: BinaryOp::And, left: preds[i].clone(), right: all });
        }
        assert(preds@.skip(0) =~= preds@);
        all
    }
}

/// What is left of a conjunction behind its first `n` predicates.
pub open spec fn behind<P>(e: Rc<Expression<P>>, n: int) -> Rc<Expression<P>>
    decreases n,
{
    if n <= 0 {
        e
    } else {
        match *behind(e, n - 1) {
            Expression::Binary { right, .. } => right,
            _ => e,
        }
    }
}

/// A conjunction has its predicates in their order: behind any number of them
/// comes the conjunction of the next one with all that follow, and the last one
/// stands alone.
pub proof fn lemma_conjunction_order<P>(preds: Seq<Rc<Expression<P>>>, n: int)
    requires
        0 <= n < preds.len(),
    ensures
        n == preds.len() - 1 ==> behind(conjunction(preds), n) == preds[n],
        n < preds.len() - 1 ==> {
            &&& *behind(conjunction(preds), n) matches Expression::Binary {
                op: BinaryOp::And,
                left,
                ..
            }
            &&& left == preds[n]
        },
{
    lemma_behind(preds, n);
    let rest = preds.skip(n);
    assert(rest[0] == preds[n]);
}

/// Behind the first predicates comes the conjunction of the others.
proof fn lemma_behind<P>(preds: Seq<Rc<Expression<P>>>, n: int)
    requires
        0 <= n < preds.len(),
    ensures
        behind(conjunction(preds), n) == conjunction(preds.skip(n)),
    decreases n,
{
    if n > 0 {
        lemma_behind(preds, n - 1);
        assert(preds.skip(n - 1).drop_first() =~= preds.skip(n));
    } else {
        assert(preds.skip(0) =~= preds);
    }
}

} // verus!
