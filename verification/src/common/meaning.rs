//! What plans and expressions mean: the rows that a plan gives, and the value
//! that an expression has on a row.
//!
//! Logical and physical plans have their meaning in the same world, so that a
//! physical plan can be held against the query that it is to answer.
use crate::common::expr;
use crate::common::expr::{AggOp, BinaryOp, Expression};
use crate::common::field::{Field, FieldView};
use crate::common::ids::{ColumnId, ContainerId};
use crate::common::plan;
use crate::common::plan::{JoinType, LogicalExpr, LogicalRelExpr, PhysicalExpr, PhysicalRelExpr};
use std::rc::Rc;
use vstd::prelude::*;

verus! {

/// A row of a query: the value of each of its columns.
pub type Row = Map<ColumnId, FieldView>;

/// Everything that the meaning of a plan depends on: what is stored, and what
/// each operator does with the values and rows that it is given.
pub struct World {
    /// The rows of a table, by its container and its name. Fields go by
    /// position.
    pub stored: spec_fn(ContainerId, Seq<char>) -> Seq<Seq<FieldView>>,
    /// The columns of a table that make up the key of an index, in key order.
    pub key_columns: spec_fn(ContainerId) -> Seq<ColumnId>,
    /// What an operator with two operands gives.
    pub apply: spec_fn(BinaryOp, FieldView, FieldView) -> FieldView,
    /// Whether a value counts as true.
    pub truth: spec_fn(FieldView) -> bool,
    /// What a case distinction gives, from its subject, its arms and the value
    /// for everything else.
    pub pick: spec_fn(FieldView, Seq<(FieldView, FieldView)>, FieldView) -> FieldView,
    /// What the rows of a subquery are worth as a value.
    pub scalar: spec_fn(Seq<Row>) -> FieldView,
    /// The rows of a join, from its two sides and from which pairs of their rows
    /// meet its condition, the pairs in the order of `pairs`.
    pub join: spec_fn(JoinType, Seq<Row>, Seq<Row>, Seq<bool>) -> Seq<Row>,
    pub project: spec_fn(Seq<Row>, Seq<ColumnId>) -> Seq<Row>,
    pub sort: spec_fn(Seq<Row>, Seq<(ColumnId, bool, bool)>) -> Seq<Row>,
    pub aggregate: spec_fn(Seq<Row>, Seq<ColumnId>, Seq<(ColumnId, (ColumnId, AggOp))>) -> Seq<Row>,
    pub rename: spec_fn(Seq<Row>, Map<ColumnId, ColumnId>) -> Seq<Row>,
    /// What deleting rows of a table gives.
    pub delete: spec_fn(ContainerId, Seq<Row>) -> Seq<Row>,
    /// What updating rows of a table gives.
    pub update: spec_fn(ContainerId, Seq<Row>, Seq<(usize, Rc<Field>)>) -> Seq<Row>,
}

/// A conjunction is true where both its sides are.
pub open spec fn and_tells(w: World) -> bool {
    forall|a: FieldView, b: FieldView|
        (w.truth)(#[trigger] (w.apply)(BinaryOp::And, a, b)) <==> (w.truth)(a) && (w.truth)(b)
}

/// An equality is true where both its sides have the same value.
pub open spec fn eq_tells(w: World) -> bool {
    forall|a: FieldView, b: FieldView|
        (w.truth)(#[trigger] (w.apply)(BinaryOp::Eq, a, b)) <==> a == b
}

/// A stored row under the column names of a scan.
pub open spec fn named(columns: Seq<ColumnId>, fields: Seq<FieldView>) -> Row {
    Map::new(
        |c: ColumnId| columns.contains(c),
        |c: ColumnId| fields[columns.index_of(c)],
    )
}

/// What expressions see: the row, and behind it the row of an outer query.
pub open spec fn seen(outer: Row, row: Row) -> Row {
    outer.union_prefer_right(row)
}

/// The rows of a table under the column names of a scan.
pub open spec fn scanned(w: World, cid: ContainerId, name: Seq<char>, columns: Seq<ColumnId>) -> Seq<
    Row,
> {
    (w.stored)(cid, name).map_values(|f: Seq<FieldView>| named(columns, f))
}

/// The items that a mask picks out.
pub open spec fn picked_out<T>(s: Seq<T>, mask: Seq<bool>) -> Seq<T>
    decreases s.len(),
{
    if s.len() == 0 || s.len() != mask.len() {
        Seq::empty()
    } else if mask.last() {
        picked_out(s.drop_last(), mask.drop_last()).push(s.last())
    } else {
        picked_out(s.drop_last(), mask.drop_last())
    }
}

/// A row with each of the rows of the other side of a join.
pub open spec fn paired(row: Row, right: Seq<Row>) -> Seq<Row> {
    right.map_values(|r: Row| row.union_prefer_right(r))
}

/// Every row of one side of a join with every row of the other.
pub open spec fn pairs(left: Seq<Row>, right: Seq<Row>) -> Seq<Row>
    decreases left.len(),
{
    if left.len() == 0 {
        Seq::empty()
    } else {
        pairs(left.drop_last(), right) + paired(left.last(), right)
    }
}

/// The value of a logical expression on a row.
pub open spec fn value(w: World, e: Expression<LogicalRelExpr>, on: Row) -> FieldView
    decreases e, 0int,
{
    match e {
        Expression::ColRef { id } => on[id],
        Expression::Field { val } => val@,
        Expression::Binary { op, left, right } => (w.apply)(
            op,
            value(w, *left, on),
            value(w, *right, on),
        ),
        Expression::Case { expr, whens, else_expr } => (w.pick)(
            value(w, *expr, on),
            arms(w, whens@, whens@.len() as int, on),
            value(w, *else_expr, on),
        ),
        Expression::Subquery { expr } => (w.scalar)(rows(w, &*expr, on)),
    }
}

/// The values of the first `n` arms of a case distinction.
pub open spec fn arms(w: World, whens: Seq<(LogicalExpr, LogicalExpr)>, n: int, on: Row) -> Seq<
    (FieldView, FieldView),
>
    decreases whens, n,
{
    if n <= 0 || n > whens.len() {
        Seq::empty()
    } else {
        arms(w, whens, n - 1, on).push(
            (value(w, *whens[n - 1].0, on), value(w, *whens[n - 1].1, on)),
        )
    }
}

/// Every predicate is true on a row.
pub open spec fn all_true(w: World, preds: Seq<LogicalExpr>, on: Row) -> bool
    decreases preds, 0int,
{
    forall|i: int| 0 <= i < preds.len() ==> (w.truth)(value(w, *(#[trigger] preds[i]), on))
}

/// On which of the rows every predicate is true.
pub open spec fn true_on(w: World, preds: Seq<LogicalExpr>, rs: Seq<Row>, outer: Row) -> Seq<bool>
    decreases preds, rs.len() + 1,
{
    if rs.len() == 0 {
        Seq::empty()
    } else {
        true_on(w, preds, rs.drop_last(), outer).push(
            all_true(w, preds, seen(outer, rs.last())),
        )
    }
}

/// The index key of a stored row is the one that the expressions give, on that
/// row under the column names of the scan.
pub open spec fn has_key(
    w: World,
    index_id: ContainerId,
    key: Seq<LogicalExpr>,
    columns: Seq<ColumnId>,
    fields: Seq<FieldView>,
    outer: Row,
) -> bool
    decreases key, 0int,
{
    &&& key.len() == (w.key_columns)(index_id).len()
    &&& forall|i: int|
        0 <= i < key.len() ==> fields[(w.key_columns)(index_id)[i] as int] == value(
            w,
            *(#[trigger] key[i]),
            seen(outer, named(columns, fields)),
        )
}

/// Which of the stored rows have the index key.
pub open spec fn key_on(
    w: World,
    index_id: ContainerId,
    key: Seq<LogicalExpr>,
    columns: Seq<ColumnId>,
    stored: Seq<Seq<FieldView>>,
    outer: Row,
) -> Seq<bool>
    decreases key, stored.len() + 1,
{
    if stored.len() == 0 {
        Seq::empty()
    } else {
        key_on(w, index_id, key, columns, stored.drop_last(), outer).push(
            has_key(w, index_id, key, columns, stored.last(), outer),
        )
    }
}

/// A row with the first `n` computed columns.
pub open spec fn computed(
    w: World,
    exprs: Seq<(ColumnId, LogicalExpr)>,
    n: int,
    row: Row,
    on: Row,
) -> Row
    decreases exprs, n,
{
    if n <= 0 || n > exprs.len() {
        row
    } else {
        computed(w, exprs, n - 1, row, on).insert(
            exprs[n - 1].0,
            value(w, *exprs[n - 1].1, on),
        )
    }
}

/// Every row with its computed columns.
pub open spec fn computed_all(
    w: World,
    exprs: Seq<(ColumnId, LogicalExpr)>,
    rs: Seq<Row>,
    outer: Row,
) -> Seq<Row>
    decreases exprs, exprs.len() + rs.len() + 1,
{
    if rs.len() == 0 {
        Seq::empty()
    } else {
        computed_all(w, exprs, rs.drop_last(), outer).push(
            computed(w, exprs, exprs.len() as int, rs.last(), seen(outer, rs.last())),
        )
    }
}

/// Every row with each of the rows that a plan gives within it.
pub open spec fn flat(w: World, func: &LogicalRelExpr, rs: Seq<Row>, outer: Row) -> Seq<Row>
    decreases *func, rs.len() + 1,
{
    if rs.len() == 0 {
        Seq::empty()
    } else {
        flat(w, func, rs.drop_last(), outer) + paired(
            rs.last(),
            rows(w, func, seen(outer, rs.last())),
        )
    }
}

/// The rows that a logical plan gives, within an outer row.
pub open spec fn rows(w: World, l: &LogicalRelExpr, outer: Row) -> Seq<Row>
    decreases *l, 0int,
{
    match *l {
        LogicalRelExpr::Scan { cid, table_name, column_names } => scanned(
            w,
            cid,
            table_name@,
            column_names@,
        ),
        LogicalRelExpr::IndexScan { cid, table_name, column_names, index_id, key_values } => picked_out(
            scanned(w, cid, table_name@, column_names@),
            key_on(
                w,
                index_id,
                key_values@,
                column_names@,
                (w.stored)(cid, table_name@),
                outer,
            ),
        ),
        LogicalRelExpr::Select { src, predicates } => picked_out(
            rows(w, &*src, outer),
            true_on(w, predicates@, rows(w, &*src, outer), outer),
        ),
        LogicalRelExpr::Join { join_type, left, right, predicates } => (w.join)(
            join_type,
            rows(w, &*left, outer),
            rows(w, &*right, outer),
            true_on(
                w,
                predicates@,
                pairs(rows(w, &*left, outer), rows(w, &*right, outer)),
                outer,
            ),
        ),
        LogicalRelExpr::Project { src, cols } => (w.project)(rows(w, &*src, outer), cols@),
        LogicalRelExpr::OrderBy { src, cols } => (w.sort)(rows(w, &*src, outer), cols@),
        LogicalRelExpr::Aggregate { src, group_by, aggrs } => (w.aggregate)(
            rows(w, &*src, outer),
            group_by@,
            aggrs@,
        ),
        LogicalRelExpr::Compute { input, exprs } => computed_all(
            w,
            exprs@,
            rows(w, &*input, outer),
            outer,
        ),
        LogicalRelExpr::FlatMap { input, func } => flat(
            w,
            &*func,
            rows(w, &*input, outer),
            outer,
        ),
        LogicalRelExpr::Rename { src, src_to_dest } => (w.rename)(
            rows(w, &*src, outer),
            src_to_dest@,
        ),
        LogicalRelExpr::Delete { cid, src } => (w.delete)(cid, rows(w, &*src, outer)),
        LogicalRelExpr::Update { cid, src, assignments } => (w.update)(
            cid,
            rows(w, &*src, outer),
            assignments@,
        ),
    }
}

/// The value of a physical expression on a row.
pub open spec fn phys_value(w: World, e: Expression<PhysicalRelExpr>, on: Row) -> FieldView
    decreases e, 0int,
{
    match e {
        Expression::ColRef { id } => on[id],
        Expression::Field { val } => val@,
        Expression::Binary { op, left, right } => (w.apply)(
            op,
            phys_value(w, *left, on),
            phys_value(w, *right, on),
        ),
        Expression::Case { expr, whens, else_expr } => (w.pick)(
            phys_value(w, *expr, on),
            phys_arms(w, whens@, whens@.len() as int, on),
            phys_value(w, *else_expr, on),
        ),
        Expression::Subquery { expr } => (w.scalar)(phys_rows(w, &*expr, on)),
    }
}

/// The values of the first `n` arms of a case distinction.
pub open spec fn phys_arms(
    w: World,
    whens: Seq<(PhysicalExpr, PhysicalExpr)>,
    n: int,
    on: Row,
) -> Seq<(FieldView, FieldView)>
    decreases whens, n,
{
    if n <= 0 || n > whens.len() {
        Seq::empty()
    } else {
        phys_arms(w, whens, n - 1, on).push(
            (phys_value(w, *whens[n - 1].0, on), phys_value(w, *whens[n - 1].1, on)),
        )
    }
}

/// Every predicate is true on a row.
pub open spec fn phys_all_true(w: World, preds: Seq<PhysicalExpr>, on: Row) -> bool
    decreases preds, 0int,
{
    forall|i: int| 0 <= i < preds.len() ==> (w.truth)(phys_value(w, *(#[trigger] preds[i]), on))
}

/// On which of the rows every predicate is true.
pub open spec fn phys_true_on(w: World, preds: Seq<PhysicalExpr>, rs: Seq<Row>, outer: Row) -> Seq<bool>
    decreases preds, rs.len() + 1,
{
    if rs.len() == 0 {
        Seq::empty()
    } else {
        phys_true_on(w, preds, rs.drop_last(), outer).push(
            phys_all_true(w, preds, seen(outer, rs.last())),
        )
    }
}

/// The two sides of every predicate have the same value, whatever its operator:
/// what hashing one side and looking up the other finds.
pub open spec fn sides_meet(w: World, preds: Seq<PhysicalExpr>, on: Row) -> bool
    decreases preds, 0int,
{
    forall|i: int|
        0 <= i < preds.len() ==> match *(#[trigger] preds[i]) {
            Expression::Binary { left, right, .. } => phys_value(w, *left, on) == phys_value(
                w,
                *right,
                on,
            ),
            _ => false,
        }
}

/// On which of the rows the two sides of every predicate have the same value.
pub open spec fn meet_on(w: World, preds: Seq<PhysicalExpr>, rs: Seq<Row>, outer: Row) -> Seq<bool>
    decreases preds, rs.len() + 1,
{
    if rs.len() == 0 {
        Seq::empty()
    } else {
        meet_on(w, preds, rs.drop_last(), outer).push(
            sides_meet(w, preds, seen(outer, rs.last())),
        )
    }
}

/// The index key of a stored row is the one that the expressions give, on that
/// row under the column names of the scan.
pub open spec fn phys_has_key(
    w: World,
    index_id: ContainerId,
    key: Seq<PhysicalExpr>,
    columns: Seq<ColumnId>,
    fields: Seq<FieldView>,
    outer: Row,
) -> bool
    decreases key, 0int,
{
    &&& key.len() == (w.key_columns)(index_id).len()
    &&& forall|i: int|
        0 <= i < key.len() ==> fields[(w.key_columns)(index_id)[i] as int] == phys_value(
            w,
            *(#[trigger] key[i]),
            seen(outer, named(columns, fields)),
        )
}

/// Which of the stored rows have the index key.
pub open spec fn phys_key_on(
    w: World,
    index_id: ContainerId,
    key: Seq<PhysicalExpr>,
    columns: Seq<ColumnId>,
    stored: Seq<Seq<FieldView>>,
    outer: Row,
) -> Seq<bool>
    decreases key, stored.len() + 1,
{
    if stored.len() == 0 {
        Seq::empty()
    } else {
        phys_key_on(w, index_id, key, columns, stored.drop_last(), outer).push(
            phys_has_key(w, index_id, key, columns, stored.last(), outer),
        )
    }
}

/// A row with the first `n` computed columns.
pub open spec fn phys_computed(
    w: World,
    exprs: Seq<(ColumnId, PhysicalExpr)>,
    n: int,
    row: Row,
    on: Row,
) -> Row
    decreases exprs, n,
{
    if n <= 0 || n > exprs.len() {
        row
    } else {
        phys_computed(w, exprs, n - 1, row, on).insert(
            exprs[n - 1].0,
            phys_value(w, *exprs[n - 1].1, on),
        )
    }
}

/// Every row with its computed columns.
pub open spec fn phys_computed_all(
    w: World,
    exprs: Seq<(ColumnId, PhysicalExpr)>,
    rs: Seq<Row>,
    outer: Row,
) -> Seq<Row>
    decreases exprs, exprs.len() + rs.len() + 1,
{
    if rs.len() == 0 {
        Seq::empty()
    } else {
        phys_computed_all(w, exprs, rs.drop_last(), outer).push(
            phys_computed(w, exprs, exprs.len() as int, rs.last(), seen(outer, rs.last())),
        )
    }
}

/// Every row with each of the rows that a plan gives within it.
pub open spec fn phys_flat(w: World, func: &PhysicalRelExpr, rs: Seq<Row>, outer: Row) -> Seq<Row>
    decreases *func, rs.len() + 1,
{
    if rs.len() == 0 {
        Seq::empty()
    } else {
        phys_flat(w, func, rs.drop_last(), outer) + paired(
            rs.last(),
            phys_rows(w, func, seen(outer, rs.last())),
        )
    }
}

/// The rows that a physical plan gives, within an outer row. A hash join finds
/// the pairs of rows on which both sides of its predicates have the same value,
/// and keeps no row without a partner.
pub open spec fn phys_rows(w: World, p: &PhysicalRelExpr, outer: Row) -> Seq<Row>
    decreases *p, 0int,
{
    match *p {
        PhysicalRelExpr::Scan { cid, table_name, column_names, .. } => scanned(
            w,
            cid,
            table_name@,
            column_names@,
        ),
        PhysicalRelExpr::IndexScan { cid, table_name, column_names, index_id, key_values, .. } => picked_out(
            scanned(w, cid, table_name@, column_names@),
            phys_key_on(
                w,
                index_id,
                key_values@,
                column_names@,
                (w.stored)(cid, table_name@),
                outer,
            ),
        ),
        PhysicalRelExpr::Select { src, predicates, .. } => picked_out(
            phys_rows(w, &*src, outer),
            phys_true_on(w, predicates@, phys_rows(w, &*src, outer), outer),
        ),
        PhysicalRelExpr::CrossJoin { left, right, .. } => (w.join)(
            JoinType::CrossJoin,
            phys_rows(w, &*left, outer),
            phys_rows(w, &*right, outer),
            pairs(phys_rows(w, &*left, outer), phys_rows(w, &*right, outer)).map_values(
                |r: Row| true,
            ),
        ),
        PhysicalRelExpr::NestedLoopJoin { join_type, left, right, predicates, .. } => (w.join)(
            join_type,
            phys_rows(w, &*left, outer),
            phys_rows(w, &*right, outer),
            phys_true_on(
                w,
                predicates@,
                pairs(phys_rows(w, &*left, outer), phys_rows(w, &*right, outer)),
                outer,
            ),
        ),
        PhysicalRelExpr::HashJoin { left, right, predicates, .. } => (w.join)(
            JoinType::Inner,
            phys_rows(w, &*left, outer),
            phys_rows(w, &*right, outer),
            meet_on(
                w,
                predicates@,
                pairs(phys_rows(w, &*left, outer), phys_rows(w, &*right, outer)),
                outer,
            ),
        ),
        PhysicalRelExpr::SortMergeJoin { left, right, predicates, .. } => (w.join)(
            JoinType::Inner,
            phys_rows(w, &*left, outer),
            phys_rows(w, &*right, outer),
            meet_on(
                w,
                predicates@,
                pairs(phys_rows(w, &*left, outer), phys_rows(w, &*right, outer)),
                outer,
            ),
        ),
        PhysicalRelExpr::Project { src, cols, .. } => (w.project)(
            phys_rows(w, &*src, outer),
            cols@,
        ),
        PhysicalRelExpr::Sort { src, cols, .. } => (w.sort)(phys_rows(w, &*src, outer), cols@),
        PhysicalRelExpr::HashAggregate { src, group_by, aggrs, .. } => (w.aggregate)(
            phys_rows(w, &*src, outer),
            group_by@,
            aggrs@,
        ),
        PhysicalRelExpr::Compute { input, exprs, .. } => phys_computed_all(
            w,
            exprs@,
            phys_rows(w, &*input, outer),
            outer,
        ),
        PhysicalRelExpr::FlatMap { input, func, .. } => phys_flat(
            w,
            &*func,
            phys_rows(w, &*input, outer),
            outer,
        ),
        PhysicalRelExpr::Rename { src, src_to_dest, .. } => (w.rename)(
            phys_rows(w, &*src, outer),
            src_to_dest@,
        ),
        PhysicalRelExpr::Delete { cid, src, .. } => (w.delete)(cid, phys_rows(w, &*src, outer)),
        PhysicalRelExpr::Update { cid, src, assignments, .. } => (w.update)(
            cid,
            phys_rows(w, &*src, outer),
            assignments@,
        ),
    }
}

/// A physical expression has the value of the logical one that it was made
/// from, on every row and whatever the operators do.
pub proof fn lemma_same_value(
    w: World,
    l: &Expression<LogicalRelExpr>,
    p: &Expression<PhysicalRelExpr>,
    on: Row,
)
    requires
        plan::expr_form(*l, *p),
        and_tells(w),
        eq_tells(w),
    ensures
        phys_value(w, *p, on) == value(w, *l, on),
    decreases *l, 0int,
{
    match (l, p) {
        (
            Expression::Binary { left, right, .. },
            Expression::Binary { left: pl, right: pr, .. },
        ) => {
            lemma_same_value(w, &*left, &*pl, on);
            lemma_same_value(w, &*right, &*pr, on);
        },
        (
            Expression::Case { expr, whens, else_expr },
            Expression::Case { expr: pe, whens: pw, else_expr: po },
        ) => {
            lemma_same_value(w, &*expr, &*pe, on);
            lemma_same_value(w, &*else_expr, &*po, on);
            assert(decreases_to!(*l => whens));
            assert(decreases_to!(whens => whens@));
            lemma_same_arms(w, whens@, pw@, whens@.len() as int, on);
        },
        (Expression::Subquery { expr }, Expression::Subquery { expr: pe }) => {
            lemma_same_rows(w, &*expr, &*pe, on);
        },
        _ => {},
    }
}

proof fn lemma_same_arms(
    w: World,
    l: Seq<(LogicalExpr, LogicalExpr)>,
    p: Seq<(PhysicalExpr, PhysicalExpr)>,
    n: int,
    on: Row,
)
    requires
        l.len() == p.len(),
        0 <= n <= l.len(),
        forall|i: int|
            0 <= i < l.len() ==> {
                &&& plan::expr_form(*(#[trigger] l[i]).0, *p[i].0)
                &&& plan::expr_form(*l[i].1, *p[i].1)
            },
        and_tells(w),
        eq_tells(w),
    ensures
        phys_arms(w, p, n, on) == arms(w, l, n, on),
    decreases l, n,
{
    if n > 0 {
        lemma_same_arms(w, l, p, n - 1, on);
        assert(decreases_to!(l => l[n - 1]));
        let arm = l[n - 1];
        lemma_same_value(w, &*arm.0, &*p[n - 1].0, on);
        lemma_same_value(w, &*arm.1, &*p[n - 1].1, on);
    }
}

/// Predicates are true where those are that they were made from.
pub proof fn lemma_same_truth(w: World, l: Seq<LogicalExpr>, p: Seq<PhysicalExpr>, on: Row)
    requires
        plan::exprs_form(l, p),
        and_tells(w),
        eq_tells(w),
    ensures
        phys_all_true(w, p, on) == all_true(w, l, on),
    decreases l, 0int,
{
    assert forall|i: int| 0 <= i < l.len() implies phys_value(w, *p[i], on) == value(
        w,
        *(#[trigger] l[i]),
        on,
    ) by {
        assert(decreases_to!(l => l[i]));
        lemma_same_value(w, &*l[i], &*p[i], on);
    }
    if phys_all_true(w, p, on) {
        assert forall|i: int| 0 <= i < l.len() implies (w.truth)(value(w, *(#[trigger] l[i]), on)) by {
            assert((w.truth)(phys_value(w, *p[i], on)));
        }
    }
    if all_true(w, l, on) {
        assert forall|i: int| 0 <= i < p.len() implies (w.truth)(
            phys_value(w, *(#[trigger] p[i]), on),
        ) by {
            assert((w.truth)(value(w, *l[i], on)));
        }
    }
}

/// A key is the one that it was made from.
proof fn lemma_same_key(
    w: World,
    index_id: ContainerId,
    l: Seq<LogicalExpr>,
    p: Seq<PhysicalExpr>,
    columns: Seq<ColumnId>,
    fields: Seq<FieldView>,
    outer: Row,
)
    requires
        plan::exprs_form(l, p),
        and_tells(w),
        eq_tells(w),
    ensures
        phys_has_key(w, index_id, p, columns, fields, outer) == has_key(
            w,
            index_id,
            l,
            columns,
            fields,
            outer,
        ),
    decreases l, 0int,
{
    let on = seen(outer, named(columns, fields));
    let key = (w.key_columns)(index_id);
    assert forall|i: int| 0 <= i < l.len() implies phys_value(w, *p[i], on) == value(
        w,
        *(#[trigger] l[i]),
        on,
    ) by {
        assert(decreases_to!(l => l[i]));
        lemma_same_value(w, &*l[i], &*p[i], on);
    }
    if phys_has_key(w, index_id, p, columns, fields, outer) {
        assert forall|i: int| 0 <= i < l.len() implies fields[key[i] as int] == value(
            w,
            *(#[trigger] l[i]),
            on,
        ) by {
            assert(fields[key[i] as int] == phys_value(w, *p[i], on));
        }
    }
    if has_key(w, index_id, l, columns, fields, outer) {
        assert forall|i: int| 0 <= i < p.len() implies fields[key[i] as int] == phys_value(
            w,
            *(#[trigger] p[i]),
            on,
        ) by {
            assert(fields[key[i] as int] == value(w, *l[i], on));
        }
    }
}

/// Computed columns are those that they were made from.
proof fn lemma_same_columns(
    w: World,
    l: Seq<(ColumnId, LogicalExpr)>,
    p: Seq<(ColumnId, PhysicalExpr)>,
    n: int,
    row: Row,
    on: Row,
)
    requires
        plan::columns_form(l, p),
        0 <= n <= l.len(),
        and_tells(w),
        eq_tells(w),
    ensures
        phys_computed(w, p, n, row, on) == computed(w, l, n, row, on),
    decreases l, n,
{
    if n > 0 {
        lemma_same_columns(w, l, p, n - 1, row, on);
        assert(decreases_to!(l => l[n - 1]));
        let c = l[n - 1];
        lemma_same_value(w, &*c.1, &*p[n - 1].1, on);
    }
}

/// A conjunction is true where all the predicates are that it was made from.
proof fn lemma_conjunction_truth(
    w: World,
    l: Seq<LogicalExpr>,
    p: &Expression<PhysicalRelExpr>,
    on: Row,
)
    requires
        plan::conjunction_form(l, *p),
        and_tells(w),
        eq_tells(w),
    ensures
        (w.truth)(phys_value(w, *p, on)) == all_true(w, l, on),
    decreases l, 0int,
{
    assert(decreases_to!(l => l[0]));
    if l.len() == 1 {
        lemma_same_value(w, &*l[0], p, on);
        if (w.truth)(phys_value(w, *p, on)) {
            assert forall|i: int| 0 <= i < l.len() implies (w.truth)(
                value(w, *(#[trigger] l[i]), on),
            ) by {
                assert(i == 0);
            }
        }
    } else if let Expression::Binary { left, right, .. } = p {
        let rest = l.drop_first();
        lemma_same_value(w, &*l[0], &*left, on);
        assert(rest =~= l.subrange(1, l.len() as int));
        assert(decreases_to!(l => l.subrange(1, l.len() as int)));
        lemma_conjunction_truth(w, rest, &*right, on);
        if all_true(w, rest, on) && (w.truth)(value(w, *l[0], on)) {
            assert forall|i: int| 0 <= i < l.len() implies (w.truth)(
                value(w, *(#[trigger] l[i]), on),
            ) by {
                if i > 0 {
                    assert(l[i] == rest[i - 1]);
                    assert((w.truth)(value(w, *rest[i - 1], on)));
                }
            }
        }
        if all_true(w, l, on) {
            assert forall|i: int| 0 <= i < rest.len() implies (w.truth)(
                value(w, *(#[trigger] rest[i]), on),
            ) by {
                assert(rest[i] == l[i + 1]);
            }
        }
    }
}

/// The predicates of a join are true where those of the logical one are. A
/// join that may hash has one equality, whose sides have the same value there.
pub proof fn lemma_join_truth(w: World, l: Seq<LogicalExpr>, p: Seq<PhysicalExpr>, on: Row)
    requires
        plan::joined_form(l, p),
        and_tells(w),
        eq_tells(w),
    ensures
        phys_all_true(w, p, on) == all_true(w, l, on),
        plan::is_single_eq(p) ==> sides_meet(w, p, on) == all_true(w, l, on),
    decreases l, 1int,
{
    if l.len() > 0 {
        lemma_conjunction_truth(w, l, &*p[0], on);
        assert(phys_all_true(w, p, on) == (w.truth)(phys_value(w, *p[0], on))) by {
            if (w.truth)(phys_value(w, *p[0], on)) {
                assert forall|i: int| 0 <= i < p.len() implies (w.truth)(
                    phys_value(w, *(#[trigger] p[i]), on),
                ) by {
                    assert(i == 0);
                }
            }
        }
        if plan::is_single_eq(p) {
            lemma_sides_of_equality(w, &*p[0], on);
            if (w.truth)(phys_value(w, *p[0], on)) {
                assert forall|i: int| 0 <= i < p.len() implies match *(#[trigger] p[i]) {
                    Expression::Binary { left, right, .. } => phys_value(w, *left, on)
                        == phys_value(w, *right, on),
                    _ => false,
                } by {
                    assert(i == 0);
                }
            }
        }
    }
}

/// An equality is true where both its sides have the same value.
proof fn lemma_sides_of_equality(w: World, p: &Expression<PhysicalRelExpr>, on: Row)
    requires
        p matches Expression::Binary { op: BinaryOp::Eq, .. },
        eq_tells(w),
    ensures
        (w.truth)(phys_value(w, *p, on)) == (match *p {
            Expression::Binary { left, right, .. } => phys_value(w, *left, on) == phys_value(
                w,
                *right,
                on,
            ),
            _ => false,
        }),
{
}

/// A physical plan gives the rows of the logical plan that it was made from:
/// the same ones in the same order, whatever is stored and whatever the
/// operators do. What a deletion deletes, and what an update updates, are the
/// rows that the source of the query gives.
pub proof fn lemma_same_rows(w: World, l: &LogicalRelExpr, p: &PhysicalRelExpr, outer: Row)
    requires
        plan::plan_form(*l, *p),
        and_tells(w),
        eq_tells(w),
    ensures
        phys_rows(w, p, outer) == rows(w, l, outer),
    decreases *l, 0int,
{
    match l {
        LogicalRelExpr::Scan { .. } => {},
        LogicalRelExpr::IndexScan { cid, table_name, column_names, index_id, key_values } => {
            if let PhysicalRelExpr::IndexScan { key_values: kv, .. } = p {
                assert(decreases_to!(*l => key_values));
                assert(decreases_to!(key_values => key_values@));
                lemma_same_key_on(
                    w,
                    *index_id,
                    key_values@,
                    kv@,
                    column_names@,
                    (w.stored)(*cid, table_name@),
                    outer,
                );
            }
        },
        LogicalRelExpr::Select { src, predicates } => {
            if let PhysicalRelExpr::Select { src: s, predicates: ps, .. } = p {
                lemma_same_rows(w, &*src, &*s, outer);
                assert(decreases_to!(*l => predicates));
                assert(decreases_to!(predicates => predicates@));
                lemma_same_true_on(w, predicates@, ps@, rows(w, &**src, outer), outer);
            }
        },
        LogicalRelExpr::Join { left, right, predicates, .. } => {
            let rs = pairs(rows(w, &**left, outer), rows(w, &**right, outer));
            assert(decreases_to!(*l => predicates));
            assert(decreases_to!(predicates => predicates@));
            match p {
                PhysicalRelExpr::HashJoin { left: pl, right: pr, predicates: ps, .. } => {
                    lemma_same_rows(w, &*left, &*pl, outer);
                    lemma_same_rows(w, &*right, &*pr, outer);
                    lemma_same_condition(w, predicates@, ps@, rs, outer);
                },
                PhysicalRelExpr::NestedLoopJoin { left: pl, right: pr, predicates: ps, .. } => {
                    lemma_same_rows(w, &*left, &*pl, outer);
                    lemma_same_rows(w, &*right, &*pr, outer);
                    lemma_same_condition(w, predicates@, ps@, rs, outer);
                },
                _ => {},
            }
        },
        LogicalRelExpr::Project { src, .. } => {
            lemma_same_rows(w, &*src, &*p->Project_src, outer);
        },
        LogicalRelExpr::OrderBy { src, .. } => {
            lemma_same_rows(w, &*src, &*p->Sort_src, outer);
        },
        LogicalRelExpr::Aggregate { src, .. } => {
            lemma_same_rows(w, &*src, &*p->HashAggregate_src, outer);
        },
        LogicalRelExpr::Compute { input, exprs } => {
            if let PhysicalRelExpr::Compute { input: s, exprs: es, .. } = p {
                lemma_same_rows(w, &*input, &*s, outer);
                assert(decreases_to!(*l => exprs));
                assert(decreases_to!(exprs => exprs@));
                lemma_same_computed(w, exprs@, es@, rows(w, &**input, outer), outer);
            }
        },
        LogicalRelExpr::FlatMap { input, func } => {
            if let PhysicalRelExpr::FlatMap { input: s, func: f, .. } = p {
                lemma_same_rows(w, &*input, &*s, outer);
                lemma_same_flat(w, &*func, &*f, rows(w, &**input, outer), outer);
            }
        },
        LogicalRelExpr::Rename { src, .. } => {
            lemma_same_rows(w, &*src, &*p->Rename_src, outer);
        },
        LogicalRelExpr::Delete { src, .. } => {
            lemma_same_rows(w, &*src, &*p->Delete_src, outer);
        },
        LogicalRelExpr::Update { src, .. } => {
            lemma_same_rows(w, &*src, &*p->Update_src, outer);
        },
    }
}

/// A physical plan answers a logical one: it gives its rows in every world in
/// which conjunctions and equalities mean what they say.
pub open spec fn answers(l: &LogicalRelExpr, p: &PhysicalRelExpr) -> bool {
    forall|w: World, outer: Row|
        and_tells(w) && eq_tells(w) ==> #[trigger] phys_rows(w, p, outer) == rows(w, l, outer)
}

/// A physical expression evaluates as a logical one: it has its value on every
/// row, in every world in which conjunctions and equalities mean what they say.
pub open spec fn evaluates_as(
    l: &Expression<LogicalRelExpr>,
    p: &Expression<PhysicalRelExpr>,
) -> bool {
    forall|w: World, on: Row|
        and_tells(w) && eq_tells(w) ==> #[trigger] phys_value(w, *p, on) == value(w, *l, on)
}

/// A physical plan answers the logical plan that it was made from.
pub proof fn lemma_answers(l: &LogicalRelExpr, p: &PhysicalRelExpr)
    requires
        plan::plan_form(*l, *p),
    ensures
        answers(l, p),
{
    assert forall|w: World, outer: Row|
        and_tells(w) && eq_tells(w) implies #[trigger] phys_rows(w, p, outer) == rows(
        w,
        l,
        outer,
    ) by {
        lemma_same_rows(w, l, p, outer);
    }
}

/// A physical expression evaluates as the logical one that it was made from.
pub proof fn lemma_evaluates_as(l: &Expression<LogicalRelExpr>, p: &Expression<PhysicalRelExpr>)
    requires
        plan::expr_form(*l, *p),
    ensures
        evaluates_as(l, p),
{
    assert forall|w: World, on: Row|
        and_tells(w) && eq_tells(w) implies #[trigger] phys_value(w, *p, on) == value(
        w,
        *l,
        on,
    ) by {
        lemma_same_value(w, l, p, on);
    }
}

/// The condition of a join of either kind is that of the logical one.
pub proof fn lemma_same_condition(
    w: World,
    l: Seq<LogicalExpr>,
    p: Seq<PhysicalExpr>,
    rs: Seq<Row>,
    outer: Row,
)
    requires
        plan::joined_form(l, p),
        and_tells(w),
        eq_tells(w),
    ensures
        phys_true_on(w, p, rs, outer) == true_on(w, l, rs, outer),
        plan::is_single_eq(p) ==> meet_on(w, p, rs, outer) == true_on(w, l, rs, outer),
    decreases l, rs.len() + 2,
{
    if rs.len() > 0 {
        lemma_same_condition(w, l, p, rs.drop_last(), outer);
        lemma_join_truth(w, l, p, seen(outer, rs.last()));
    }
}

/// Predicates are true on the rows on which those are that they were made from.
pub proof fn lemma_same_true_on(
    w: World,
    l: Seq<LogicalExpr>,
    p: Seq<PhysicalExpr>,
    rs: Seq<Row>,
    outer: Row,
)
    requires
        plan::exprs_form(l, p),
        and_tells(w),
        eq_tells(w),
    ensures
        phys_true_on(w, p, rs, outer) == true_on(w, l, rs, outer),
    decreases l, rs.len() + 1,
{
    if rs.len() > 0 {
        lemma_same_true_on(w, l, p, rs.drop_last(), outer);
        lemma_same_truth(w, l, p, seen(outer, rs.last()));
    }
}

/// An index scan finds the rows of the logical one.
proof fn lemma_same_key_on(
    w: World,
    index_id: ContainerId,
    l: Seq<LogicalExpr>,
    p: Seq<PhysicalExpr>,
    columns: Seq<ColumnId>,
    stored: Seq<Seq<FieldView>>,
    outer: Row,
)
    requires
        plan::exprs_form(l, p),
        and_tells(w),
        eq_tells(w),
    ensures
        phys_key_on(w, index_id, p, columns, stored, outer) == key_on(
            w,
            index_id,
            l,
            columns,
            stored,
            outer,
        ),
    decreases l, stored.len() + 1,
{
    if stored.len() > 0 {
        lemma_same_key_on(w, index_id, l, p, columns, stored.drop_last(), outer);
        lemma_same_key(w, index_id, l, p, columns, stored.last(), outer);
    }
}

/// Every row gets the columns that were to be computed.
pub proof fn lemma_same_computed(
    w: World,
    l: Seq<(ColumnId, LogicalExpr)>,
    p: Seq<(ColumnId, PhysicalExpr)>,
    rs: Seq<Row>,
    outer: Row,
)
    requires
        plan::columns_form(l, p),
        and_tells(w),
        eq_tells(w),
    ensures
        phys_computed_all(w, p, rs, outer) == computed_all(w, l, rs, outer),
    decreases l, l.len() + rs.len() + 1,
{
    if rs.len() > 0 {
        lemma_same_computed(w, l, p, rs.drop_last(), outer);
        lemma_same_columns(w, l, p, l.len() as int, rs.last(), seen(outer, rs.last()));
    }
}

/// Within every row, a plan gives the rows of the one that it was made from.
proof fn lemma_same_flat(
    w: World,
    l: &LogicalRelExpr,
    p: &PhysicalRelExpr,
    rs: Seq<Row>,
    outer: Row,
)
    requires
        plan::plan_form(*l, *p),
        and_tells(w),
        eq_tells(w),
    ensures
        phys_flat(w, p, rs, outer) == flat(w, l, rs, outer),
    decreases *l, rs.len() + 1,
{
    if rs.len() > 0 {
        lemma_same_flat(w, l, p, rs.drop_last(), outer);
        lemma_same_rows(w, l, p, seen(outer, rs.last()));
    }
}

/// The conjunction of predicates is true where all of them are.
pub proof fn lemma_conjunction(w: World, preds: Seq<PhysicalExpr>, on: Row)
    requires
        preds.len() > 0,
        and_tells(w),
    ensures
        (w.truth)(phys_value(w, *expr::conjunction(preds), on)) <==> forall|i: int|
            0 <= i < preds.len() ==> (w.truth)(phys_value(w, *(#[trigger] preds[i]), on)),
    decreases preds.len(),
{
    if preds.len() == 1 {
        assert((w.truth)(phys_value(w, *preds[0], on)) ==> forall|i: int|
            0 <= i < preds.len() ==> (w.truth)(phys_value(w, *(#[trigger] preds[i]), on)));
    } else {
        let rest = preds.drop_first();
        lemma_conjunction(w, rest, on);
        let whole = (w.truth)(phys_value(w, *expr::conjunction(preds), on));
        assert(whole == ((w.truth)(phys_value(w, *preds[0], on)) && (w.truth)(
            phys_value(w, *expr::conjunction(rest), on),
        )));
        if whole {
            assert forall|i: int| 0 <= i < preds.len() implies (w.truth)(
                phys_value(w, *(#[trigger] preds[i]), on),
            ) by {
                if i > 0 {
                    assert(preds[i] == rest[i - 1]);
                }
            }
        }
        if forall|i: int|
            0 <= i < preds.len() ==> (w.truth)(phys_value(w, *(#[trigger] preds[i]), on)) {
            assert forall|i: int| 0 <= i < rest.len() implies (w.truth)(
                phys_value(w, *(#[trigger] rest[i]), on),
            ) by {
                assert(rest[i] == preds[i + 1]);
            }
        }
    }
}

/// Whatever is stored, and whatever the key columns of indexes are, there is a
/// world with it in which conjunctions and equalities mean what they say.
pub proof fn lemma_ordinary_world(
    stored: spec_fn(ContainerId, Seq<char>) -> Seq<Seq<FieldView>>,
    key_columns: spec_fn(ContainerId) -> Seq<ColumnId>,
) -> (w: World)
    ensures
        w.stored == stored,
        w.key_columns == key_columns,
        and_tells(w),
        eq_tells(w),
{
    let yes = FieldView::BigInt(1);
    World {
        stored,
        key_columns,
        apply: |op: BinaryOp, a: FieldView, b: FieldView|
            if op == BinaryOp::And {
                if a == yes && b == yes {
                    yes
                } else {
                    FieldView::Null
                }
            } else if a == b {
                yes
            } else {
                FieldView::Null
            },
        truth: |v: FieldView| v == yes,
        pick: |v: FieldView, arms: Seq<(FieldView, FieldView)>, otherwise: FieldView| otherwise,
        scalar: |rs: Seq<Row>| FieldView::Null,
        join: |t: JoinType, left: Seq<Row>, right: Seq<Row>, mask: Seq<bool>|
            picked_out(pairs(left, right), mask),
        project: |rs: Seq<Row>, cols: Seq<ColumnId>| rs,
        sort: |rs: Seq<Row>, cols: Seq<(ColumnId, bool, bool)>| rs,
        aggregate: |
            rs: Seq<Row>,
            group_by: Seq<ColumnId>,
            aggrs: Seq<(ColumnId, (ColumnId, AggOp))>,
        | rs,
        rename: |rs: Seq<Row>, to: Map<ColumnId, ColumnId>| rs,
        delete: |cid: ContainerId, rs: Seq<Row>| rs,
        update: |cid: ContainerId, rs: Seq<Row>, assignments: Seq<(usize, Rc<Field>)>| rs,
    }
}

} // verus!
