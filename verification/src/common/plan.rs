//! Logical and physical query plans.
use crate::common::expr;
use crate::common::expr::{AggOp, BinaryOp, Expression};
use crate::common::field::Field;
use crate::common::ids::{ColumnId, ContainerId};
use crate::common::meaning;
use std::collections::HashMap;
use std::rc::Rc;
use vstd::prelude::*;

verus! {

/// Which rows of two inputs a join keeps.
#[derive(Clone, Copy, Debug, PartialEq, Eq, Structural)]
pub enum JoinType {
    Inner,
    LeftOuter,
    RightOuter,
    FullOuter,
    CrossJoin,
}

/// Scalar expressions with logical subqueries.
pub type LogicalExpr = Rc<Expression<LogicalRelExpr>>;

/// Scalar expressions with physical subqueries.
pub type PhysicalExpr = Rc<Expression<PhysicalRelExpr>>;

/// What a query computes.
#[derive(Debug)]
pub enum LogicalRelExpr {
    Scan { cid: ContainerId, table_name: Rc<String>, column_names: Rc<Vec<ColumnId>> },
    /// A point lookup: the rows whose indexed columns equal the key values.
    IndexScan {
        cid: ContainerId,
        table_name: Rc<String>,
        column_names: Rc<Vec<ColumnId>>,
        index_id: ContainerId,
        key_values: Rc<Vec<LogicalExpr>>,
    },
    Select { src: Rc<LogicalRelExpr>, predicates: Rc<Vec<LogicalExpr>> },
    Join {
        join_type: JoinType,
        left: Rc<LogicalRelExpr>,
        right: Rc<LogicalRelExpr>,
        predicates: Rc<Vec<LogicalExpr>>,
    },
    Project { src: Rc<LogicalRelExpr>, cols: Rc<Vec<ColumnId>> },
    OrderBy { src: Rc<LogicalRelExpr>, cols: Rc<Vec<(ColumnId, bool, bool)>> },
    Aggregate {
        src: Rc<LogicalRelExpr>,
        group_by: Rc<Vec<ColumnId>>,
        aggrs: Rc<Vec<(ColumnId, (ColumnId, AggOp))>>,
    },
    Compute { input: Rc<LogicalRelExpr>, exprs: Rc<Vec<(ColumnId, LogicalExpr)>> },
    FlatMap { input: Rc<LogicalRelExpr>, func: Rc<LogicalRelExpr> },
    Rename { src: Rc<LogicalRelExpr>, src_to_dest: Rc<HashMap<ColumnId, ColumnId>> },
    Delete { cid: ContainerId, src: Rc<LogicalRelExpr> },
    Update {
        cid: ContainerId,
        src: Rc<LogicalRelExpr>,
        assignments: Rc<Vec<(usize, Rc<Field>)>>,
    },
}

/// How a query is computed.
#[derive(Debug)]
pub enum PhysicalRelExpr {
    Scan {
        cid: ContainerId,
        table_name: Rc<String>,
        column_names: Rc<Vec<ColumnId>>,
        tree_hash: Option<u64>,
    },
    IndexScan {
        cid: ContainerId,
        table_name: Rc<String>,
        column_names: Rc<Vec<ColumnId>>,
        index_id: ContainerId,
        key_values: Rc<Vec<PhysicalExpr>>,
        tree_hash: Option<u64>,
    },
    Select { src: Rc<PhysicalRelExpr>, predicates: Rc<Vec<PhysicalExpr>>, tree_hash: Option<u64> },
    CrossJoin { left: Rc<PhysicalRelExpr>, right: Rc<PhysicalRelExpr>, tree_hash: Option<u64> },
    NestedLoopJoin {
        join_type: JoinType,
        left: Rc<PhysicalRelExpr>,
        right: Rc<PhysicalRelExpr>,
        predicates: Rc<Vec<PhysicalExpr>>,
        tree_hash: Option<u64>,
    },
    HashJoin {
        join_type: JoinType,
        left: Rc<PhysicalRelExpr>,
        right: Rc<PhysicalRelExpr>,
        predicates: Rc<Vec<PhysicalExpr>>,
        tree_hash: Option<u64>,
    },
    SortMergeJoin {
        join_type: JoinType,
        left: Rc<PhysicalRelExpr>,
        right: Rc<PhysicalRelExpr>,
        predicates: Rc<Vec<PhysicalExpr>>,
        tree_hash: Option<u64>,
    },
    Project { src: Rc<PhysicalRelExpr>, cols: Rc<Vec<ColumnId>>, tree_hash: Option<u64> },
    Sort {
        src: Rc<PhysicalRelExpr>,
        cols: Rc<Vec<(ColumnId, bool, bool)>>,
        tree_hash: Option<u64>,
    },
    HashAggregate {
        src: Rc<PhysicalRelExpr>,
        group_by: Rc<Vec<ColumnId>>,
        aggrs: Rc<Vec<(ColumnId, (ColumnId, AggOp))>>,
        tree_hash: Option<u64>,
    },
    Compute {
        input: Rc<PhysicalRelExpr>,
        exprs: Rc<Vec<(ColumnId, PhysicalExpr)>>,
        tree_hash: Option<u64>,
    },
    FlatMap { input: Rc<PhysicalRelExpr>, func: Rc<PhysicalRelExpr>, tree_hash: Option<u64> },
    Rename {
        src: Rc<PhysicalRelExpr>,
        src_to_dest: Rc<HashMap<ColumnId, ColumnId>>,
        tree_hash: Option<u64>,
    },
    Delete { cid: ContainerId, src: Rc<PhysicalRelExpr>, tree_hash: Option<u64> },
    Update {
        cid: ContainerId,
        src: Rc<PhysicalRelExpr>,
        assignments: Rc<Vec<(usize, Rc<Field>)>>,
        tree_hash: Option<u64>,
    },
}

/// `p` is the physical form of the expression `l`: the same, but for
/// subqueries.
pub open spec fn expr_form(l: Expression<LogicalRelExpr>, p: Expression<PhysicalRelExpr>) -> bool
    decreases l, 0int,
{
    match (l, p) {
        (Expression::ColRef { id }, Expression::ColRef { id: id2 }) => id == id2,
        (Expression::Field { val }, Expression::Field { val: val2 }) => val == val2,
        (
            Expression::Binary { op, left, right },
            Expression::Binary { op: op2, left: left2, right: right2 },
        ) => op == op2 && expr_form(*left, *left2) && expr_form(*right, *right2),
        (
            Expression::Case { expr, whens, else_expr },
            Expression::Case { expr: expr2, whens: whens2, else_expr: else2 },
        ) => {
            &&& expr_form(*expr, *expr2)
            &&& whens@.len() == whens2@.len()
            &&& forall|i: int|
                0 <= i < whens@.len() ==> {
                    &&& expr_form(*(#[trigger] whens@[i]).0, *whens2@[i].0)
                    &&& expr_form(*whens@[i].1, *whens2@[i].1)
                }
            &&& expr_form(*else_expr, *else2)
        },
        (Expression::Subquery { expr }, Expression::Subquery { expr: expr2 }) => plan_form(
            *expr,
            *expr2,
        ),
        _ => false,
    }
}

/// The physical forms of expressions, one by one.
pub open spec fn exprs_form(l: Seq<LogicalExpr>, p: Seq<PhysicalExpr>) -> bool
    decreases l, 0int,
{
    &&& l.len() == p.len()
    &&& forall|i: int| 0 <= i < l.len() ==> expr_form(*(#[trigger] l[i]), *p[i])
}

/// The predicates are one equality.
pub open spec fn is_single_eq(preds: Seq<PhysicalExpr>) -> bool {
    preds.len() == 1 && (*preds[0] matches Expression::Binary { op, .. } && op == BinaryOp::Eq)
}

/// `p` is the conjunction of the physical forms of the predicates, the first
/// one outermost.
pub open spec fn conjunction_form(l: Seq<LogicalExpr>, p: Expression<PhysicalRelExpr>) -> bool
    decreases l, 0int,
{
    if l.len() <= 1 {
        l.len() == 1 && expr_form(*l[0], p)
    } else {
        &&& p matches Expression::Binary { op, left, right }
        &&& op == BinaryOp::And
        &&& expr_form(*l[0], *left)
        &&& conjunction_form(l.drop_first(), *right)
    }
}

/// The predicates of a join are those of the logical one, joined into one.
pub open spec fn joined_form(l: Seq<LogicalExpr>, p: Seq<PhysicalExpr>) -> bool
    decreases l, 1int,
{
    if l.len() == 0 {
        p.len() == 0
    } else {
        p.len() == 1 && conjunction_form(l, *p[0])
    }
}

/// `p` is the physical form that the structure of `l` alone gives: joins on
/// one equality are hash joins, all others nested loops, and everything else
/// has one form.
pub open spec fn plan_form(l: LogicalRelExpr, p: PhysicalRelExpr) -> bool
    decreases l, 0int,
{
    match l {
        LogicalRelExpr::Scan { cid, table_name, column_names } => p == (PhysicalRelExpr::Scan {
            cid,
            table_name,
            column_names,
            tree_hash: None,
        }),
        LogicalRelExpr::IndexScan { cid, table_name, column_names, index_id, key_values } => {
            &&& p matches PhysicalRelExpr::IndexScan { key_values: kv, .. }
            &&& p == (PhysicalRelExpr::IndexScan {
                cid,
                table_name,
                column_names,
                index_id,
                key_values: kv,
                tree_hash: None,
            })
            &&& exprs_form(key_values@, kv@)
        },
        LogicalRelExpr::Select { src, predicates } => {
            &&& p matches PhysicalRelExpr::Select { src: s, predicates: ps, tree_hash }
            &&& tree_hash is None
            &&& plan_form(*src, *s)
            &&& exprs_form(predicates@, ps@)
        },
        LogicalRelExpr::Join { join_type, left, right, predicates } => match p {
            PhysicalRelExpr::HashJoin {
                join_type: jt,
                left: pl,
                right: pr,
                predicates: ps,
                tree_hash,
            } => {
                &&& jt == join_type
                &&& tree_hash is None
                &&& plan_form(*left, *pl)
                &&& plan_form(*right, *pr)
                &&& joined_form(predicates@, ps@)
                &&& join_type == JoinType::Inner && is_single_eq(ps@)
            },
            PhysicalRelExpr::NestedLoopJoin {
                join_type: jt,
                left: pl,
                right: pr,
                predicates: ps,
                tree_hash,
            } => {
                &&& jt == join_type
                &&& tree_hash is None
                &&& plan_form(*left, *pl)
                &&& plan_form(*right, *pr)
                &&& joined_form(predicates@, ps@)
                &&& !(join_type == JoinType::Inner && is_single_eq(ps@))
            },
            _ => false,
        },
        LogicalRelExpr::Project { src, cols } => {
            &&& p matches PhysicalRelExpr::Project { src: s, cols: c, tree_hash }
            &&& tree_hash is None
            &&& plan_form(*src, *s)
            &&& c == cols
        },
        LogicalRelExpr::OrderBy { src, cols } => {
            &&& p matches PhysicalRelExpr::Sort { src: s, cols: c, tree_hash }
            &&& tree_hash is None
            &&& plan_form(*src, *s)
            &&& c == cols
        },
        LogicalRelExpr::Aggregate { src, group_by, aggrs } => {
            &&& p matches PhysicalRelExpr::HashAggregate { src: s, group_by: g, aggrs: a, tree_hash }
            &&& tree_hash is None
            &&& plan_form(*src, *s)
            &&& g == group_by
            &&& a == aggrs
        },
        LogicalRelExpr::Compute { input, exprs } => {
            &&& p matches PhysicalRelExpr::Compute { input: s, exprs: e, tree_hash }
            &&& tree_hash is None
            &&& plan_form(*input, *s)
            &&& columns_form(exprs@, e@)
        },
        LogicalRelExpr::FlatMap { input, func } => {
            &&& p matches PhysicalRelExpr::FlatMap { input: s, func: f, tree_hash }
            &&& tree_hash is None
            &&& plan_form(*input, *s)
            &&& plan_form(*func, *f)
        },
        LogicalRelExpr::Rename { src, src_to_dest } => {
            &&& p matches PhysicalRelExpr::Rename { src: s, src_to_dest: d, tree_hash }
            &&& tree_hash is None
            &&& plan_form(*src, *s)
            &&& d == src_to_dest
        },
        LogicalRelExpr::Delete { cid, src } => {
            &&& p matches PhysicalRelExpr::Delete { cid: c, src: s, tree_hash }
            &&& tree_hash is None
            &&& c == cid
            &&& plan_form(*src, *s)
        },
        LogicalRelExpr::Update { cid, src, assignments } => {
            &&& p matches PhysicalRelExpr::Update { cid: c, src: s, assignments: a, tree_hash }
            &&& tree_hash is None
            &&& c == cid
            &&& plan_form(*src, *s)
            &&& a == assignments
        },
    }
}

/// The physical forms of computed columns, one by one.
pub open spec fn columns_form(l: Seq<(ColumnId, LogicalExpr)>, p: Seq<(ColumnId, PhysicalExpr)>) -> bool
    decreases l, 0int,
{
    &&& l.len() == p.len()
    &&& forall|i: int|
        0 <= i < l.len() ==> (#[trigger] l[i]).0 == p[i].0 && expr_form(*l[i].1, *p[i].1)
}

/// Two physical expressions are the same, down to every part.
pub open spec fn same_expr(p: Expression<PhysicalRelExpr>, q: Expression<PhysicalRelExpr>) -> bool
    decreases p, 0int,
{
    match (p, q) {
        (Expression::ColRef { id }, Expression::ColRef { id: id2 }) => id == id2,
        (Expression::Field { val }, Expression::Field { val: val2 }) => val == val2,
        (
            Expression::Binary { op, left, right },
            Expression::Binary { op: op2, left: left2, right: right2 },
        ) => op == op2 && same_expr(*left, *left2) && same_expr(*right, *right2),
        (
            Expression::Case { expr, whens, else_expr },
            Expression::Case { expr: expr2, whens: whens2, else_expr: else2 },
        ) => {
            &&& same_expr(*expr, *expr2)
            &&& whens@.len() == whens2@.len()
            &&& forall|i: int|
                0 <= i < whens@.len() ==> {
                    &&& same_expr(*(#[trigger] whens@[i]).0, *whens2@[i].0)
                    &&& same_expr(*whens@[i].1, *whens2@[i].1)
                }
            &&& same_expr(*else_expr, *else2)
        },
        (Expression::Subquery { expr }, Expression::Subquery { expr: expr2 }) => same_plan(
            *expr,
            *expr2,
        ),
        _ => false,
    }
}

/// Two rows of physical expressions are the same.
pub open spec fn same_exprs(p: Seq<PhysicalExpr>, q: Seq<PhysicalExpr>) -> bool
    decreases p, 0int,
{
    &&& p.len() == q.len()
    &&& forall|i: int| 0 <= i < p.len() ==> same_expr(*(#[trigger] p[i]), *q[i])
}

/// Two rows of computed columns are the same.
pub open spec fn same_columns(
    p: Seq<(ColumnId, PhysicalExpr)>,
    q: Seq<(ColumnId, PhysicalExpr)>,
) -> bool
    decreases p, 0int,
{
    &&& p.len() == q.len()
    &&& forall|i: int|
        0 <= i < p.len() ==> (#[trigger] p[i]).0 == q[i].0 && same_expr(*p[i].1, *q[i].1)
}

/// Two physical plans are the same, down to every operator, column and
/// expression.
pub open spec fn same_plan(p: PhysicalRelExpr, q: PhysicalRelExpr) -> bool
    decreases p, 0int,
{
    match (p, q) {
        (PhysicalRelExpr::Scan { .. }, PhysicalRelExpr::Scan { .. }) => p == q,
        (
            PhysicalRelExpr::IndexScan {
                cid,
                table_name,
                column_names,
                index_id,
                key_values,
                tree_hash,
            },
            PhysicalRelExpr::IndexScan {
                cid: cid2,
                table_name: table_name2,
                column_names: column_names2,
                index_id: index_id2,
                key_values: key_values2,
                tree_hash: hash2,
            },
        ) => {
            &&& cid == cid2
            &&& table_name == table_name2
            &&& column_names == column_names2
            &&& index_id == index_id2
            &&& same_exprs(key_values@, key_values2@)
            &&& tree_hash == hash2
        },
        (
            PhysicalRelExpr::Select { src, predicates, tree_hash },
            PhysicalRelExpr::Select { src: src2, predicates: preds2, tree_hash: hash2 },
        ) => {
            &&& same_plan(*src, *src2)
            &&& same_exprs(predicates@, preds2@)
            &&& tree_hash == hash2
        },
        (
            PhysicalRelExpr::CrossJoin { left, right, tree_hash },
            PhysicalRelExpr::CrossJoin { left: left2, right: right2, tree_hash: hash2 },
        ) => same_plan(*left, *left2) && same_plan(*right, *right2) && tree_hash == hash2,
        (
            PhysicalRelExpr::NestedLoopJoin { join_type, left, right, predicates, tree_hash },
            PhysicalRelExpr::NestedLoopJoin {
                join_type: type2,
                left: left2,
                right: right2,
                predicates: preds2,
                tree_hash: hash2,
            },
        ) => {
            &&& join_type == type2
            &&& same_plan(*left, *left2)
            &&& same_plan(*right, *right2)
            &&& same_exprs(predicates@, preds2@)
            &&& tree_hash == hash2
        },
        (
            PhysicalRelExpr::HashJoin { join_type, left, right, predicates, tree_hash },
            PhysicalRelExpr::HashJoin {
                join_type: type2,
                left: left2,
                right: right2,
                predicates: preds2,
                tree_hash: hash2,
            },
        ) => {
            &&& join_type == type2
            &&& same_plan(*left, *left2)
            &&& same_plan(*right, *right2)
            &&& same_exprs(predicates@, preds2@)
            &&& tree_hash == hash2
        },
        (
            PhysicalRelExpr::SortMergeJoin { join_type, left, right, predicates, tree_hash },
            PhysicalRelExpr::SortMergeJoin {
                join_type: type2,
                left: left2,
                right: right2,
                predicates: preds2,
                tree_hash: hash2,
            },
        ) => {
            &&& join_type == type2
            &&& same_plan(*left, *left2)
            &&& same_plan(*right, *right2)
            &&& same_exprs(predicates@, preds2@)
            &&& tree_hash == hash2
        },
        (
            PhysicalRelExpr::Project { src, cols, tree_hash },
            PhysicalRelExpr::Project { src: src2, cols: cols2, tree_hash: hash2 },
        ) => same_plan(*src, *src2) && cols == cols2 && tree_hash == hash2,
        (
            PhysicalRelExpr::Sort { src, cols, tree_hash },
            PhysicalRelExpr::Sort { src: src2, cols: cols2, tree_hash: hash2 },
        ) => same_plan(*src, *src2) && cols == cols2 && tree_hash == hash2,
        (
            PhysicalRelExpr::HashAggregate { src, group_by, aggrs, tree_hash },
            PhysicalRelExpr::HashAggregate {
                src: src2,
                group_by: group_by2,
                aggrs: aggrs2,
                tree_hash: hash2,
            },
        ) => {
            &&& same_plan(*src, *src2)
            &&& group_by == group_by2
            &&& aggrs == aggrs2
            &&& tree_hash == hash2
        },
        (
            PhysicalRelExpr::Compute { input, exprs, tree_hash },
            PhysicalRelExpr::Compute { input: input2, exprs: exprs2, tree_hash: hash2 },
        ) => {
            &&& same_plan(*input, *input2)
            &&& same_columns(exprs@, exprs2@)
            &&& tree_hash == hash2
        },
        (
            PhysicalRelExpr::FlatMap { input, func, tree_hash },
            PhysicalRelExpr::FlatMap { input: input2, func: func2, tree_hash: hash2 },
        ) => same_plan(*input, *input2) && same_plan(*func, *func2) && tree_hash == hash2,
        (
            PhysicalRelExpr::Rename { src, src_to_dest, tree_hash },
            PhysicalRelExpr::Rename { src: src2, src_to_dest: dest2, tree_hash: hash2 },
        ) => same_plan(*src, *src2) && src_to_dest == dest2 && tree_hash == hash2,
        (
            PhysicalRelExpr::Delete { cid, src, tree_hash },
            PhysicalRelExpr::Delete { cid: cid2, src: src2, tree_hash: hash2 },
        ) => cid == cid2 && same_plan(*src, *src2) && tree_hash == hash2,
        (
            PhysicalRelExpr::Update { cid, src, assignments, tree_hash },
            PhysicalRelExpr::Update {
                cid: cid2,
                src: src2,
                assignments: assignments2,
                tree_hash: hash2,
            },
        ) => {
            &&& cid == cid2
            &&& same_plan(*src, *src2)
            &&& assignments == assignments2
            &&& tree_hash == hash2
        },
        _ => false,
    }
}

/// An expression has one physical form.
pub proof fn lemma_one_expr_form(
    l: &Expression<LogicalRelExpr>,
    p: &Expression<PhysicalRelExpr>,
    q: &Expression<PhysicalRelExpr>,
)
    requires
        expr_form(*l, *p),
        expr_form(*l, *q),
    ensures
        same_expr(*p, *q),
    decreases *l, 0int,
{
    match (l, p, q) {
        (
            Expression::Binary { left, right, .. },
            Expression::Binary { left: pl, right: pr, .. },
            Expression::Binary { left: ql, right: qr, .. },
        ) => {
            lemma_one_expr_form(&*left, &*pl, &*ql);
            lemma_one_expr_form(&*right, &*pr, &*qr);
        },
        (
            Expression::Case { expr, whens, else_expr },
            Expression::Case { expr: pe, whens: pw, else_expr: po },
            Expression::Case { expr: qe, whens: qw, else_expr: qo },
        ) => {
            lemma_one_expr_form(&*expr, &*pe, &*qe);
            lemma_one_expr_form(&*else_expr, &*po, &*qo);
            assert(decreases_to!(*l => whens));
            assert(decreases_to!(whens => whens@));
            assert forall|i: int| 0 <= i < pw@.len() implies {
                &&& same_expr(*(#[trigger] pw@[i]).0, *qw@[i].0)
                &&& same_expr(*pw@[i].1, *qw@[i].1)
            } by {
                assert(decreases_to!(whens@ => whens@[i]));
                let arm = whens@[i];
                lemma_one_expr_form(&*arm.0, &*pw@[i].0, &*qw@[i].0);
                lemma_one_expr_form(&*arm.1, &*pw@[i].1, &*qw@[i].1);
            }
        },
        (
            Expression::Subquery { expr },
            Expression::Subquery { expr: pe },
            Expression::Subquery { expr: qe },
        ) => {
            lemma_one_form(&*expr, &*pe, &*qe);
        },
        _ => {},
    }
}

/// A row of expressions has one physical form.
pub proof fn lemma_one_exprs_form(
    l: Seq<LogicalExpr>,
    p: Seq<PhysicalExpr>,
    q: Seq<PhysicalExpr>,
)
    requires
        exprs_form(l, p),
        exprs_form(l, q),
    ensures
        same_exprs(p, q),
    decreases l, 0int,
{
    assert forall|i: int| 0 <= i < p.len() implies same_expr(*(#[trigger] p[i]), *q[i]) by {
        assert(decreases_to!(l => l[i]));
        lemma_one_expr_form(&*l[i], &*p[i], &*q[i]);
    }
}

/// A row of computed columns has one physical form.
pub proof fn lemma_one_columns_form(
    l: Seq<(ColumnId, LogicalExpr)>,
    p: Seq<(ColumnId, PhysicalExpr)>,
    q: Seq<(ColumnId, PhysicalExpr)>,
)
    requires
        columns_form(l, p),
        columns_form(l, q),
    ensures
        same_columns(p, q),
    decreases l, 0int,
{
    assert forall|i: int| 0 <= i < p.len() implies (#[trigger] p[i]).0 == q[i].0 && same_expr(
        *p[i].1,
        *q[i].1,
    ) by {
        assert(decreases_to!(l => l[i]));
        let c = l[i];
        lemma_one_expr_form(&*c.1, &*p[i].1, &*q[i].1);
    }
}

/// The predicates of a join have one physical form.
pub proof fn lemma_one_conjunction_form(
    l: Seq<LogicalExpr>,
    p: &Expression<PhysicalRelExpr>,
    q: &Expression<PhysicalRelExpr>,
)
    requires
        conjunction_form(l, *p),
        conjunction_form(l, *q),
    ensures
        same_expr(*p, *q),
    decreases l, 0int,
{
    assert(decreases_to!(l => l[0]));
    if l.len() == 1 {
        lemma_one_expr_form(&*l[0], p, q);
    } else {
        match (p, q) {
            (
                Expression::Binary { left: pl, right: pr, .. },
                Expression::Binary { left: ql, right: qr, .. },
            ) => {
                lemma_one_expr_form(&*l[0], &*pl, &*ql);
                assert(l.drop_first() =~= l.subrange(1, l.len() as int));
                assert(decreases_to!(l => l.subrange(1, l.len() as int)));
                lemma_one_conjunction_form(l.drop_first(), &*pr, &*qr);
            },
            _ => {},
        }
    }
}

/// A logical plan has one physical form: what its structure alone gives.
pub proof fn lemma_one_form(l: &LogicalRelExpr, p: &PhysicalRelExpr, q: &PhysicalRelExpr)
    requires
        plan_form(*l, *p),
        plan_form(*l, *q),
    ensures
        same_plan(*p, *q),
    decreases *l, 0int,
{
    match l {
        LogicalRelExpr::Scan { .. } => {},
        LogicalRelExpr::IndexScan { key_values, .. } => {
            assert(decreases_to!(*l => key_values));
            assert(decreases_to!(key_values => key_values@));
            lemma_one_exprs_form(key_values@, p->key_values@, q->key_values@);
        },
        LogicalRelExpr::Select { src, predicates } => {
            match (p, q) {
                (
                    PhysicalRelExpr::Select { src: s1, predicates: p1, .. },
                    PhysicalRelExpr::Select { src: s2, predicates: p2, .. },
                ) => {
                    lemma_one_form(&*src, &*s1, &*s2);
                    assert(decreases_to!(*l => predicates));
                    assert(decreases_to!(predicates => predicates@));
                    lemma_one_exprs_form(predicates@, p1@, p2@);
                },
                _ => {},
            }
        },
        LogicalRelExpr::Join { left, right, predicates, .. } => {
            let (l1, r1, p1) = match p {
                PhysicalRelExpr::HashJoin { left, right, predicates, .. } => (
                    left,
                    right,
                    predicates,
                ),
                PhysicalRelExpr::NestedLoopJoin { left, right, predicates, .. } => (
                    left,
                    right,
                    predicates,
                ),
                _ => arbitrary(),
            };
            let (l2, r2, p2) = match q {
                PhysicalRelExpr::HashJoin { left, right, predicates, .. } => (
                    left,
                    right,
                    predicates,
                ),
                PhysicalRelExpr::NestedLoopJoin { left, right, predicates, .. } => (
                    left,
                    right,
                    predicates,
                ),
                _ => arbitrary(),
            };
            lemma_one_form(&*left, &*l1, &*l2);
            lemma_one_form(&*right, &*r1, &*r2);
            assert(decreases_to!(*l => predicates));
            assert(decreases_to!(predicates => predicates@));
            assert(joined_form(predicates@, p1@));
            assert(joined_form(predicates@, p2@));
            if predicates@.len() > 0 {
                lemma_one_conjunction_form(predicates@, &*p1@[0], &*p2@[0]);
            }
            assert(same_exprs(p1@, p2@));
            assert(is_single_eq(p1@) == is_single_eq(p2@));
        },
        LogicalRelExpr::Project { src, .. } => {
            lemma_one_form(&*src, &*p->Project_src, &*q->Project_src);
        },
        LogicalRelExpr::OrderBy { src, .. } => {
            lemma_one_form(&*src, &*p->Sort_src, &*q->Sort_src);
        },
        LogicalRelExpr::Aggregate { src, .. } => {
            lemma_one_form(&*src, &*p->HashAggregate_src, &*q->HashAggregate_src);
        },
        LogicalRelExpr::Compute { input, exprs } => {
            lemma_one_form(&*input, &*p->Compute_input, &*q->Compute_input);
            assert(decreases_to!(*l => exprs));
            assert(decreases_to!(exprs => exprs@));
            lemma_one_columns_form(exprs@, p->exprs@, q->exprs@);
        },
        LogicalRelExpr::FlatMap { input, func } => {
            lemma_one_form(&*input, &*p->FlatMap_input, &*q->FlatMap_input);
            lemma_one_form(&*func, &*p->func, &*q->func);
        },
        LogicalRelExpr::Rename { src, .. } => {
            lemma_one_form(&*src, &*p->Rename_src, &*q->Rename_src);
        },
        LogicalRelExpr::Delete { src, .. } => {
            lemma_one_form(&*src, &*p->Delete_src, &*q->Delete_src);
        },
        LogicalRelExpr::Update { src, .. } => {
            lemma_one_form(&*src, &*p->Update_src, &*q->Update_src);
        },
    }
}

/// The physical form of an expression.
pub fn to_physical_expression(e: &LogicalExpr) -> (r: PhysicalExpr)
    ensures
        expr_form(**e, *r),
        meaning::evaluates_as(&**e, &*r),
    decreases **e, 0int,
{
    let r: PhysicalExpr = match &**e {
        Expression::ColRef { id } => Rc::new(Expression::ColRef { id: *id }),
        Expression::Field { val } => Rc::new(Expression::Field { val: val.clone() }),
        Expression::Binary { op, left, right } => {
            let l = to_physical_expression(left);
            let r = to_physical_expression(right);
            Rc::new(Expression::Binary { op: *op, left: l, right: r })
        },
        Expression::Case { expr, whens, else_expr } => {
            let subject = to_physical_expression(expr);
            assert(decreases_to!(**e => whens));
            assert(decreases_to!(whens => whens@));
            let arms = to_physical_arms(whens);
            let otherwise = to_physical_expression(else_expr);
            Rc::new(
                Expression::Case { expr: subject, whens: Rc::new(arms), else_expr: otherwise },
            )
        },
        Expression::Subquery { expr } => {
            let plan = expr.to_physical_plan();
            Rc::new(Expression::Subquery { expr: Rc::new(plan) })
        },
    };
    proof {
        meaning::lemma_evaluates_as(&**e, &*r);
    }
    r
}

/// The physical forms of the arms of a case distinction.
fn to_physical_arms(whens: &Vec<(LogicalExpr, LogicalExpr)>) -> (r: Vec<
    (PhysicalExpr, PhysicalExpr),
>)
    ensures
        r@.len() == whens@.len(),
        forall|i: int|
            0 <= i < whens@.len() ==> {
                &&& expr_form(*(#[trigger] whens@[i]).0, *r@[i].0)
                &&& expr_form(*whens@[i].1, *r@[i].1)
            },
    decreases whens@, 0int,
{
    let mut arms: Vec<(PhysicalExpr, PhysicalExpr)> = Vec::new();
    let mut i: usize = 0;
    while i < whens.len()
        invariant
            i <= whens@.len(),
            arms@.len() == i,
            forall|j: int|
                0 <= j < i ==> {
                    &&& expr_form(*(#[trigger] whens@[j]).0, *arms@[j].0)
                    &&& expr_form(*whens@[j].1, *arms@[j].1)
                },
        decreases whens@.len() - i,
    {
        assert(decreases_to!(whens@ => whens@[i as int]));
        let when = to_physical_expression(&whens[i].0);
        let value = to_physical_expression(&whens[i].1);
        arms.push((when, value));
        i = i + 1;
    }
    arms
}

/// The physical forms of expressions.
pub fn to_physical_expressions(es: &Vec<LogicalExpr>) -> (r: Vec<PhysicalExpr>)
    ensures
        exprs_form(es@, r@),
    decreases es@, 0int,
{
    let mut out: Vec<PhysicalExpr> = Vec::new();
    let mut i: usize = 0;
    while i < es.len()
        invariant
            i <= es@.len(),
            out@.len() == i,
            forall|j: int| 0 <= j < i ==> expr_form(*(#[trigger] es@[j]), *out@[j]),
        decreases es@.len() - i,
    {
        assert(decreases_to!(es@ => es@[i as int]));
        out.push(to_physical_expression(&es[i]));
        i = i + 1;
    }
    out
}

/// The predicates of a join, joined into one.
pub fn join_predicates(preds: &Vec<LogicalExpr>) -> (r: Vec<PhysicalExpr>)
    ensures
        joined_form(preds@, r@),
    decreases preds@, 1int,
{
    let each = to_physical_expressions(preds);
    if each.len() == 0 {
        each
    } else {
        let all = Expression::combine_preds(&each);
        proof {
            lemma_conjunction_form(preds@, each@);
        }
        vec![all]
    }
}

/// The conjunction of physical forms is one of the conjunction.
proof fn lemma_conjunction_form(l: Seq<LogicalExpr>, p: Seq<PhysicalExpr>)
    requires
        exprs_form(l, p),
        l.len() > 0,
    ensures
        conjunction_form(l, *expr::conjunction(p)),
    decreases l.len(),
{
    assert(expr_form(*l[0], *p[0]));
    if l.len() > 1 {
        let l2 = l.drop_first();
        let p2 = p.drop_first();
        assert forall|i: int| 0 <= i < l2.len() implies expr_form(*(#[trigger] l2[i]), *p2[i]) by {
            assert(l2[i] == l[i + 1]);
        }
        lemma_conjunction_form(l2, p2);
    }
}

/// The physical forms of computed columns.
pub fn to_physical_columns(es: &Vec<(ColumnId, LogicalExpr)>) -> (r: Vec<(ColumnId, PhysicalExpr)>)
    ensures
        columns_form(es@, r@),
    decreases es@, 0int,
{
    let mut out: Vec<(ColumnId, PhysicalExpr)> = Vec::new();
    let mut i: usize = 0;
    while i < es.len()
        invariant
            i <= es@.len(),
            out@.len() == i,
            forall|j: int|
                0 <= j < i ==> (#[trigger] es@[j]).0 == out@[j].0 && expr_form(*es@[j].1, *out@[j].1),
        decreases es@.len() - i,
    {
        assert(decreases_to!(es@ => es@[i as int]));
        let id: ColumnId = es[i].0;
        out.push((id, to_physical_expression(&es[i].1)));
        i = i + 1;
    }
    out
}

/// Whether the predicates are one equality.
pub fn single_eq(preds: &Vec<PhysicalExpr>) -> (r: bool)
    ensures
        r == is_single_eq(preds@),
{
    if preds.len() == 1 {
        match &*preds[0] {
            Expression::Binary { op, .. } => *op == BinaryOp::Eq,
            _ => false,
        }
    } else {
        false
    }
}

impl LogicalRelExpr {
    /// The physical form that the structure of the plan alone gives.
    pub fn to_physical_plan(&self) -> (r: PhysicalRelExpr)
        ensures
            plan_form(*self, r),
            meaning::answers(self, &r),
        decreases *self, 0int,
    {
        let r: PhysicalRelExpr = match self {
            LogicalRelExpr::Scan { cid, table_name, column_names } => PhysicalRelExpr::Scan {
                cid: *cid,
                table_name: table_name.clone(),
                column_names: column_names.clone(),
                tree_hash: None,
            },
            LogicalRelExpr::IndexScan { cid, table_name, column_names, index_id, key_values } => {
                assert(decreases_to!(*self => key_values));
                assert(decreases_to!(key_values => key_values@));
                let kv = to_physical_expressions(key_values);
                PhysicalRelExpr::IndexScan {
                    cid: *cid,
                    table_name: table_name.clone(),
                    column_names: column_names.clone(),
                    index_id: *index_id,
                    key_values: Rc::new(kv),
                    tree_hash: None,
                }
            },
            LogicalRelExpr::Select { src, predicates } => {
                let s = src.to_physical_plan();
                assert(decreases_to!(*self => predicates));
                assert(decreases_to!(predicates => predicates@));
                let ps = to_physical_expressions(predicates);
                PhysicalRelExpr::Select { src: Rc::new(s), predicates: Rc::new(ps), tree_hash: None }
            },
            LogicalRelExpr::Join { join_type, left, right, predicates } => {
                let l = left.to_physical_plan();
                let r = right.to_physical_plan();
                assert(decreases_to!(*self => predicates));
                assert(decreases_to!(predicates => predicates@));
                let ps = join_predicates(predicates);
                if *join_type == JoinType::Inner && single_eq(&ps) {
                    PhysicalRelExpr::HashJoin {
                        join_type: *join_type,
                        left: Rc::new(l),
                        right: Rc::new(r),
                        predicates: Rc::new(ps),
                        tree_hash: None,
                    }
                } else {
                    PhysicalRelExpr::NestedLoopJoin {
                        join_type: *join_type,
                        left: Rc::new(l),
                        right: Rc::new(r),
                        predicates: Rc::new(ps),
                        tree_hash: None,
                    }
                }
            },
            LogicalRelExpr::Project { src, cols } => {
                let s = src.to_physical_plan();
                PhysicalRelExpr::Project { src: Rc::new(s), cols: cols.clone(), tree_hash: None }
            },
            LogicalRelExpr::OrderBy { src, cols } => {
                let s = src.to_physical_plan();
                PhysicalRelExpr::Sort { src: Rc::new(s), cols: cols.clone(), tree_hash: None }
            },
            LogicalRelExpr::Aggregate { src, group_by, aggrs } => {
                let s = src.to_physical_plan();
                PhysicalRelExpr::HashAggregate {
                    src: Rc::new(s),
                    group_by: group_by.clone(),
                    aggrs: aggrs.clone(),
                    tree_hash: None,
                }
            },
            LogicalRelExpr::Compute { input, exprs } => {
                let s = input.to_physical_plan();
                assert(decreases_to!(*self => exprs));
                assert(decreases_to!(exprs => exprs@));
                let es = to_physical_columns(exprs);
                PhysicalRelExpr::Compute { input: Rc::new(s), exprs: Rc::new(es), tree_hash: None }
            },
            LogicalRelExpr::FlatMap { input, func } => {
                let s = input.to_physical_plan();
                let f = func.to_physical_plan();
                PhysicalRelExpr::FlatMap { input: Rc::new(s), func: Rc::new(f), tree_hash: None }
            },
            LogicalRelExpr::Rename { src, src_to_dest } => {
                let s = src.to_physical_plan();
                PhysicalRelExpr::Rename {
                    src: Rc::new(s),
                    src_to_dest: src_to_dest.clone(),
                    tree_hash: None,
                }
            },
            LogicalRelExpr::Delete { cid, src } => {
                let s = src.to_physical_plan();
                PhysicalRelExpr::Delete { cid: *cid, src: Rc::new(s), tree_hash: None }
            },
            LogicalRelExpr::Update { cid, src, assignments } => {
                let s = src.to_physical_plan();
                PhysicalRelExpr::Update {
                    cid: *cid,
                    src: Rc::new(s),
                    assignments: assignments.clone(),
                    tree_hash: None,
                }
            },
        };
        proof {
            meaning::lemma_answers(self, &r);
        }
        r
    }
}

/// An inner join on one equality is made a hash join, every other join nested
/// loops.
pub proof fn lemma_equality_joins_hash(l: LogicalRelExpr, p: PhysicalRelExpr)
    requires
        plan_form(l, p),
        l is Join,
    ensures
        p is HashJoin || p is NestedLoopJoin,
        p is HashJoin <==> {
            &&& l->Join_join_type == JoinType::Inner
            &&& l->Join_predicates@.len() == 1
            &&& *l->Join_predicates@[0] matches Expression::Binary { op: BinaryOp::Eq, .. }
        },
{
    let preds = l->Join_predicates@;
    let ps = match p {
        PhysicalRelExpr::HashJoin { predicates, .. } => predicates@,
        PhysicalRelExpr::NestedLoopJoin { predicates, .. } => predicates@,
        _ => Seq::empty(),
    };
    assert(joined_form(preds, ps));
    if preds.len() == 1 {
        assert(expr_form(*preds[0], *ps[0]));
    }
}

/// The hash that a plan carries.
pub open spec fn carried_hash(p: PhysicalRelExpr) -> Option<u64> {
    match p {
        PhysicalRelExpr::Scan { tree_hash, .. } => tree_hash,
        PhysicalRelExpr::IndexScan { tree_hash, .. } => tree_hash,
        PhysicalRelExpr::Select { tree_hash, .. } => tree_hash,
        PhysicalRelExpr::CrossJoin { tree_hash, .. } => tree_hash,
        PhysicalRelExpr::NestedLoopJoin { tree_hash, .. } => tree_hash,
        PhysicalRelExpr::HashJoin { tree_hash, .. } => tree_hash,
        PhysicalRelExpr::SortMergeJoin { tree_hash, .. } => tree_hash,
        PhysicalRelExpr::Project { tree_hash, .. } => tree_hash,
        PhysicalRelExpr::Sort { tree_hash, .. } => tree_hash,
        PhysicalRelExpr::HashAggregate { tree_hash, .. } => tree_hash,
        PhysicalRelExpr::Compute { tree_hash, .. } => tree_hash,
        PhysicalRelExpr::FlatMap { tree_hash, .. } => tree_hash,
        PhysicalRelExpr::Rename { tree_hash, .. } => tree_hash,
        PhysicalRelExpr::Delete { tree_hash, .. } => tree_hash,
        PhysicalRelExpr::Update { tree_hash, .. } => tree_hash,
    }
}

/// A new physical plan carries no hash.
pub proof fn lemma_no_hash_yet(l: LogicalRelExpr, p: PhysicalRelExpr)
    requires
        plan_form(l, p),
    ensures
        carried_hash(p) is None,
{
}

} // verus!
