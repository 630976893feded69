//! What the cost of a plan is made of.
//!
//! The cost unit is "estimated rows of work": a `Scan` costs its table's row
//! count, a `Select` costs its child's cost plus its own estimated output
//! row count, a join costs its children's costs plus an estimate of the
//! join's own work (probe-proportional for `HashJoin`, product-proportional
//! for `NestedLoopJoin`). Which statistics a node asks for, and how they are
//! put together, is decided here; the numbers are worked out by whoever holds
//! the statistics.
use crate::common::expr::Expression;
use crate::common::ids::{ColumnId, ContainerId};
use crate::common::meaning;
use crate::common::meaning::{Row, World};
use crate::common::plan::{PhysicalExpr, PhysicalRelExpr};
use crate::optimizer::cost;
use crate::optimizer::cost::{Environment, OriginExpression};
use std::rc::Rc;
use vstd::prelude::*;

verus! {

/// A cost model over table statistics `S`.
pub struct CardinalityCostModel<S> {
    pub stats: S,
}

/// What a node adds to the costs of its children.
pub enum OwnCost {
    /// The number of rows of the table.
    TableRows { cid: ContainerId },
    /// The depth of an index on the table, and a handful of rows at random.
    IndexProbe { cid: ContainerId },
    /// The number of rows of the table that match the predicates.
    MatchingRows { cid: ContainerId, predicates: Vec<PhysicalExpr> },
    /// As much as the children together.
    Input,
    /// The rows of the one side times those of the other, at least one. A side
    /// without a table of its own counts as the children together.
    Product { left: Option<ContainerId>, right: Option<ContainerId> },
    /// The rows of both sides.
    Sum { left: Option<ContainerId>, right: Option<ContainerId> },
    /// The rows of each side, each times its logarithm.
    SortedSum { left: Option<ContainerId>, right: Option<ContainerId> },
}

/// The tables that a plan reads, from left to right.
pub open spec fn tables(p: PhysicalRelExpr) -> Seq<ContainerId>
    decreases p,
{
    match p {
        PhysicalRelExpr::Scan { cid, .. } => seq![cid],
        PhysicalRelExpr::IndexScan { cid, .. } => seq![cid],
        PhysicalRelExpr::Select { src, .. } => tables(*src),
        PhysicalRelExpr::CrossJoin { left, right, .. } => tables(*left) + tables(*right),
        PhysicalRelExpr::NestedLoopJoin { left, right, .. } => tables(*left) + tables(*right),
        PhysicalRelExpr::HashJoin { left, right, .. } => tables(*left) + tables(*right),
        PhysicalRelExpr::SortMergeJoin { left, right, .. } => tables(*left) + tables(*right),
        PhysicalRelExpr::Project { src, .. } => tables(*src),
        PhysicalRelExpr::Sort { src, .. } => tables(*src),
        PhysicalRelExpr::HashAggregate { src, .. } => tables(*src),
        PhysicalRelExpr::Compute { input, .. } => tables(*input),
        PhysicalRelExpr::FlatMap { input, func, .. } => tables(*input) + tables(*func),
        PhysicalRelExpr::Rename { src, .. } => tables(*src),
        PhysicalRelExpr::Delete { src, .. } => tables(*src),
        PhysicalRelExpr::Update { src, .. } => tables(*src),
    }
}

impl PhysicalRelExpr {
    /// Appends the tables that the plan reads, from left to right.
    pub fn get_tables_involved(&self, cids: &mut Vec<ContainerId>)
        ensures
            final(cids)@ == old(cids)@ + tables(*self),
        decreases *self,
    {
        let ghost before = cids@;
        match self {
            PhysicalRelExpr::Scan { cid, .. } | PhysicalRelExpr::IndexScan { cid, .. } => {
                cids.push(*cid);
            },
            PhysicalRelExpr::Select { src, .. }
            | PhysicalRelExpr::Project { src, .. }
            | PhysicalRelExpr::Sort { src, .. }
            | PhysicalRelExpr::HashAggregate { src, .. }
            | PhysicalRelExpr::Rename { src, .. }
            | PhysicalRelExpr::Delete { src, .. }
            | PhysicalRelExpr::Update { src, .. } => {
                src.get_tables_involved(cids);
            },
            PhysicalRelExpr::Compute { input, .. } => {
                input.get_tables_involved(cids);
            },
            PhysicalRelExpr::FlatMap { input, func, .. } => {
                input.get_tables_involved(cids);
                func.get_tables_involved(cids);
            },
            PhysicalRelExpr::CrossJoin { left, right, .. }
            | PhysicalRelExpr::NestedLoopJoin { left, right, .. }
            | PhysicalRelExpr::HashJoin { left, right, .. }
            | PhysicalRelExpr::SortMergeJoin { left, right, .. } => {
                left.get_tables_involved(cids);
                right.get_tables_involved(cids);
            },
        }
        assert(cids@ =~= before + tables(*self));
    }
}

/// The one table that a plan reads, if it reads one table once. A join has
/// none, though both its sides read the same table.
pub open spec fn only_table(p: PhysicalRelExpr) -> Option<ContainerId> {
    if tables(p).len() == 1 {
        Some(tables(p)[0])
    } else {
        None
    }
}

/// `q` is `p` with every column of the query, where its origin is known,
/// replaced by the position of the base table column. Subqueries stay as they
/// are.
pub open spec fn raw_form(
    p: Expression<PhysicalRelExpr>,
    q: Expression<PhysicalRelExpr>,
    env: &Environment,
) -> bool
    decreases p,
{
    match p {
        Expression::ColRef { id } => match cost::origin_in(
            env@,
            OriginExpression::DerivedColRef { col_id: id },
        ) {
            OriginExpression::BaseCidAndIndex { index, .. } => q == Expression::<
                PhysicalRelExpr,
            >::ColRef { id: index },
            _ => q == p,
        },
        Expression::Field { .. } => q == p,
        Expression::Binary { op, left, right } => {
            &&& q matches Expression::Binary { op: op2, left: left2, right: right2 }
            &&& op2 == op
            &&& raw_form(*left, *left2, env)
            &&& raw_form(*right, *right2, env)
        },
        Expression::Case { expr, whens, else_expr } => {
            &&& q matches Expression::Case { expr: expr2, whens: whens2, else_expr: else2 }
            &&& raw_form(*expr, *expr2, env)
            &&& whens2@.len() == whens@.len()
            &&& forall|i: int|
                0 <= i < whens@.len() ==> {
                    &&& raw_form(*(#[trigger] whens@[i]).0, *whens2@[i].0, env)
                    &&& raw_form(*whens@[i].1, *whens2@[i].1, env)
                }
            &&& raw_form(*else_expr, *else2, env)
        },
        Expression::Subquery { .. } => q == p,
    }
}

/// The raw forms of expressions, one by one.
pub open spec fn raw_forms(p: Seq<PhysicalExpr>, q: Seq<PhysicalExpr>, env: &Environment) -> bool {
    &&& p.len() == q.len()
    &&& forall|i: int| 0 <= i < p.len() ==> raw_form(*(#[trigger] p[i]), *q[i], env)
}

/// What a node adds to the costs of its children.
pub open spec fn own_cost_of(node: PhysicalRelExpr, env: &Environment, own: OwnCost) -> bool {
    match node {
        PhysicalRelExpr::Scan { cid, .. } => own == OwnCost::TableRows { cid },
        PhysicalRelExpr::IndexScan { cid, .. } => own == OwnCost::IndexProbe { cid },
        PhysicalRelExpr::Select { src, predicates, .. } => match only_table(*src) {
            Some(cid) => {
                &&& own matches OwnCost::MatchingRows { cid: c, predicates: resolved }
                &&& c == cid
                &&& raw_forms(predicates@, resolved@, env)
            },
            None => own == OwnCost::Input,
        },
        PhysicalRelExpr::NestedLoopJoin { left, right, .. } => own == (OwnCost::Product {
            left: only_table(*left),
            right: only_table(*right),
        }),
        PhysicalRelExpr::HashJoin { left, right, .. } => own == (OwnCost::Sum {
            left: only_table(*left),
            right: only_table(*right),
        }),
        PhysicalRelExpr::SortMergeJoin { left, right, .. } => own == (OwnCost::SortedSum {
            left: only_table(*left),
            right: only_table(*right),
        }),
        _ => own == OwnCost::Input,
    }
}

fn resolve_arms(whens: &Vec<(PhysicalExpr, PhysicalExpr)>, env: &Environment) -> (r: Vec<
    (PhysicalExpr, PhysicalExpr),
>)
    ensures
        r@.len() == whens@.len(),
        forall|i: int|
            0 <= i < whens@.len() ==> {
                &&& raw_form(*(#[trigger] whens@[i]).0, *r@[i].0, env)
                &&& raw_form(*whens@[i].1, *r@[i].1, env)
            },
    decreases whens@,
{
    let mut arms: Vec<(PhysicalExpr, PhysicalExpr)> = Vec::new();
    let mut i: usize = 0;
    while i < whens.len()
        invariant
            i <= whens@.len(),
            arms@.len() == i,
            forall|j: int|
                0 <= j < i ==> {
                    &&& raw_form(*(#[trigger] whens@[j]).0, *arms@[j].0, env)
                    &&& raw_form(*whens@[j].1, *arms@[j].1, env)
                },
        decreases whens@.len() - i,
    {
        assert(decreases_to!(whens@ => whens@[i as int]));
        let when = resolve_to_raw(&whens[i].0, env);
        let value = resolve_to_raw(&whens[i].1, env);
        arms.push((when, value));
        i = i + 1;
    }
    arms
}

/// Rewrite every `ColRef` in `expr` from the query's renamed column id
/// space down to the base table's raw (0-based) attribute index, via the
/// origins of the columns. Leaves a `ColRef` unresolved (rather than erroring)
/// if its origin is not known: the resulting predicate still evaluates the
/// same way structurally, it just won't match statistics keyed by raw index.
pub fn resolve_to_raw(expr: &PhysicalExpr, env: &Environment) -> (r: PhysicalExpr)
    ensures
        raw_form(**expr, *r, env),
    decreases **expr,
{
    match &**expr {
        Expression::ColRef { id } => {
            match env.get_origin(&OriginExpression::DerivedColRef { col_id: *id }) {
                OriginExpression::BaseCidAndIndex { index, .. } => Rc::new(
                    Expression::ColRef { id: index },
                ),
                _ => expr.clone(),
            }
        },
        Expression::Field { .. } => expr.clone(),
        Expression::Binary { op, left, right } => {
            let l = resolve_to_raw(left, env);
            let r = resolve_to_raw(right, env);
            Rc::new(Expression::Binary { op: *op, left: l, right: r })
        },
        Expression::Case { expr: subject, whens, else_expr } => {
            let s = resolve_to_raw(subject, env);
            assert(decreases_to!(**expr => whens));
            assert(decreases_to!(whens => whens@));
            let arms = resolve_arms(whens, env);
            let otherwise = resolve_to_raw(else_expr, env);
            Rc::new(Expression::Case { expr: s, whens: Rc::new(arms), else_expr: otherwise })
        },
        // Subqueries aren't costed independently here; leave as-is.
        Expression::Subquery { .. } => expr.clone(),
    }
}

impl<S> CardinalityCostModel<S> {
    pub fn new(stats: S) -> (r: Self)
        ensures
            r.stats == stats,
    {
        CardinalityCostModel { stats }
    }

    /// The single base table `node` scans, if it scans exactly one (a Scan,
    /// IndexScan, or any chain of single-input operators sitting on one of
    /// those). `None` for joins or multi-table shapes.
    pub fn single_table_cid(node: &PhysicalRelExpr) -> (r: Option<ContainerId>)
        ensures
            r == only_table(*node),
    {
        let mut cids: Vec<ContainerId> = Vec::new();
        node.get_tables_involved(&mut cids);
        assert(cids@ =~= tables(*node));
        if cids.len() == 1 {
            Some(cids[0])
        } else {
            None
        }
    }

    /// The predicates with every column resolved to its raw index.
    pub fn resolve_all(predicates: &Vec<PhysicalExpr>, env: &Environment) -> (r: Vec<PhysicalExpr>)
        ensures
            raw_forms(predicates@, r@, env),
    {
        let mut out: Vec<PhysicalExpr> = Vec::new();
        let mut i: usize = 0;
        while i < predicates.len()
            invariant
                i <= predicates@.len(),
                out@.len() == i,
                forall|j: int| 0 <= j < i ==> raw_form(*(#[trigger] predicates@[j]), *out@[j], env),
            decreases predicates@.len() - i,
        {
            out.push(resolve_to_raw(&predicates[i], env));
            i = i + 1;
        }
        out
    }

    /// What a node adds to the costs of its children.
    pub fn own_cost(node: &PhysicalRelExpr, env: &Environment) -> (r: OwnCost)
        ensures
            own_cost_of(*node, env, r),
    {
        match node {
            PhysicalRelExpr::Scan { cid, .. } => OwnCost::TableRows { cid: *cid },
            // The key values are bare literals without a column, so what they
            // match cannot be told from the plan: a tree descent and a handful
            // of rows stand for it.
            PhysicalRelExpr::IndexScan { cid, .. } => OwnCost::IndexProbe { cid: *cid },
            PhysicalRelExpr::Select { src, predicates, .. } => match Self::single_table_cid(src) {
                Some(cid) => OwnCost::MatchingRows {
                    cid,
                    predicates: Self::resolve_all(predicates, env),
                },
                // Filtering on top of a multi-table shape (e.g. after a
                // join): no single-table stats apply, so fall back to the
                // input size unchanged.
                None => OwnCost::Input,
            },
            // Every row of the outer probes every row of the inner.
            PhysicalRelExpr::NestedLoopJoin { left, right, .. } => OwnCost::Product {
                left: Self::single_table_cid(left),
                right: Self::single_table_cid(right),
            },
            // Build and probe: the sizes of the inputs.
            PhysicalRelExpr::HashJoin { left, right, .. } => OwnCost::Sum {
                left: Self::single_table_cid(left),
                right: Self::single_table_cid(right),
            },
            // Sort dominates.
            PhysicalRelExpr::SortMergeJoin { left, right, .. } => OwnCost::SortedSum {
                left: Self::single_table_cid(left),
                right: Self::single_table_cid(right),
            },
            // No competing physical alternative exists for these: pass the
            // input volume through.
            _ => OwnCost::Input,
        }
    }
}

/// A table is read somewhere in the plan.
pub open spec fn reads(p: PhysicalRelExpr, table: ContainerId) -> bool
    decreases p,
{
    match p {
        PhysicalRelExpr::Scan { cid, .. } => cid == table,
        PhysicalRelExpr::IndexScan { cid, .. } => cid == table,
        PhysicalRelExpr::Select { src, .. } => reads(*src, table),
        PhysicalRelExpr::CrossJoin { left, right, .. } => reads(*left, table) || reads(
            *right,
            table,
        ),
        PhysicalRelExpr::NestedLoopJoin { left, right, .. } => reads(*left, table) || reads(
            *right,
            table,
        ),
        PhysicalRelExpr::HashJoin { left, right, .. } => reads(*left, table) || reads(
            *right,
            table,
        ),
        PhysicalRelExpr::SortMergeJoin { left, right, .. } => reads(*left, table) || reads(
            *right,
            table,
        ),
        PhysicalRelExpr::Project { src, .. } => reads(*src, table),
        PhysicalRelExpr::Sort { src, .. } => reads(*src, table),
        PhysicalRelExpr::HashAggregate { src, .. } => reads(*src, table),
        PhysicalRelExpr::Compute { input, .. } => reads(*input, table),
        PhysicalRelExpr::FlatMap { input, func, .. } => reads(*input, table) || reads(
            *func,
            table,
        ),
        PhysicalRelExpr::Rename { src, .. } => reads(*src, table),
        PhysicalRelExpr::Delete { src, .. } => reads(*src, table),
        PhysicalRelExpr::Update { src, .. } => reads(*src, table),
    }
}

/// How many scans a plan has, through an index or not.
pub open spec fn scans(p: PhysicalRelExpr) -> nat
    decreases p,
{
    match p {
        PhysicalRelExpr::Scan { .. } => 1,
        PhysicalRelExpr::IndexScan { .. } => 1,
        PhysicalRelExpr::Select { src, .. } => scans(*src),
        PhysicalRelExpr::CrossJoin { left, right, .. } => scans(*left) + scans(*right),
        PhysicalRelExpr::NestedLoopJoin { left, right, .. } => scans(*left) + scans(*right),
        PhysicalRelExpr::HashJoin { left, right, .. } => scans(*left) + scans(*right),
        PhysicalRelExpr::SortMergeJoin { left, right, .. } => scans(*left) + scans(*right),
        PhysicalRelExpr::Project { src, .. } => scans(*src),
        PhysicalRelExpr::Sort { src, .. } => scans(*src),
        PhysicalRelExpr::HashAggregate { src, .. } => scans(*src),
        PhysicalRelExpr::Compute { input, .. } => scans(*input),
        PhysicalRelExpr::FlatMap { input, func, .. } => scans(*input) + scans(*func),
        PhysicalRelExpr::Rename { src, .. } => scans(*src),
        PhysicalRelExpr::Delete { src, .. } => scans(*src),
        PhysicalRelExpr::Update { src, .. } => scans(*src),
    }
}

/// The tables of a plan are those that it reads, one for every scan.
pub proof fn lemma_tables_read(p: &PhysicalRelExpr, table: ContainerId)
    ensures
        tables(*p).contains(table) <==> reads(*p, table),
        tables(*p).len() == scans(*p),
    decreases *p,
{
    match p {
        PhysicalRelExpr::Scan { .. } | PhysicalRelExpr::IndexScan { .. } => {
            assert(tables(*p)[0] == tables(*p).last());
        },
        PhysicalRelExpr::Select { src, .. }
        | PhysicalRelExpr::Project { src, .. }
        | PhysicalRelExpr::Sort { src, .. }
        | PhysicalRelExpr::HashAggregate { src, .. }
        | PhysicalRelExpr::Rename { src, .. }
        | PhysicalRelExpr::Delete { src, .. }
        | PhysicalRelExpr::Update { src, .. } => {
            lemma_tables_read(&*src, table);
        },
        PhysicalRelExpr::Compute { input, .. } => {
            lemma_tables_read(&*input, table);
        },
        PhysicalRelExpr::FlatMap { input, func, .. } => {
            lemma_tables_read(&*input, table);
            lemma_tables_read(&*func, table);
            lemma_in_either(table);
        },
        PhysicalRelExpr::CrossJoin { left, right, .. }
        | PhysicalRelExpr::NestedLoopJoin { left, right, .. }
        | PhysicalRelExpr::HashJoin { left, right, .. }
        | PhysicalRelExpr::SortMergeJoin { left, right, .. } => {
            lemma_tables_read(&*left, table);
            lemma_tables_read(&*right, table);
            lemma_in_either(table);
        },
    }
}

/// What stands in two rows together stands in one of them.
proof fn lemma_in_either(x: ContainerId)
    ensures
        forall|a: Seq<ContainerId>, b: Seq<ContainerId>| #[trigger]
            (a + b).contains(x) <==> a.contains(x) || b.contains(x),
{
    assert forall|a: Seq<ContainerId>, b: Seq<ContainerId>| #[trigger]
        (a + b).contains(x) <==> a.contains(x) || b.contains(x) by {
        let all = a + b;
        if a.contains(x) {
            let i = choose|i: int| 0 <= i < a.len() && a[i] == x;
            assert(all[i] == x);
        }
        if b.contains(x) {
            let i = choose|i: int| 0 <= i < b.len() && b[i] == x;
            assert(all[a.len() + i] == x);
        }
    }
}

/// A plan has a table of its own if it has one scan, and then the one that it
/// reads.
pub proof fn lemma_own_table(p: &PhysicalRelExpr, table: ContainerId)
    ensures
        only_table(*p) is Some <==> scans(*p) == 1,
        only_table(*p) is Some ==> (only_table(*p) == Some(table) <==> reads(*p, table)),
{
    lemma_tables_read(p, table);
    if scans(*p) == 1 {
        assert(tables(*p)[0] == tables(*p).last());
        if reads(*p, table) {
            let i = choose|i: int| 0 <= i < tables(*p).len() && tables(*p)[i] == table;
            assert(i == 0);
        }
    }
}

/// An expression without subqueries.
pub open spec fn plain(e: Expression<PhysicalRelExpr>) -> bool
    decreases e,
{
    match e {
        Expression::ColRef { .. } => true,
        Expression::Field { .. } => true,
        Expression::Binary { left, right, .. } => plain(*left) && plain(*right),
        Expression::Case { expr, whens, else_expr } => {
            &&& plain(*expr)
            &&& forall|i: int|
                0 <= i < whens@.len() ==> plain(*(#[trigger] whens@[i]).0) && plain(*whens@[i].1)
            &&& plain(*else_expr)
        },
        Expression::Subquery { .. } => false,
    }
}

/// A row of the query and a row of the base table agree: the value of every
/// column that comes from the base table stands at its position there. Other
/// columns keep their ids.
pub open spec fn rows_agree(env: &Environment, on: Row, raw: Row) -> bool {
    forall|id: ColumnId| #[trigger]
        on[id] == (if env@.contains_key(id) {
            match env@[id] {
                OriginExpression::BaseCidAndIndex { index, .. } => raw[index],
                OriginExpression::DerivedColRef { .. } => raw[id],
            }
        } else {
            raw[id]
        })
}

/// A resolved expression has, on a row of the base table, the value that the
/// expression has on the row of the query.
pub proof fn lemma_resolved_value(
    w: World,
    env: &Environment,
    p: &Expression<PhysicalRelExpr>,
    q: &Expression<PhysicalRelExpr>,
    on: Row,
    raw: Row,
)
    requires
        raw_form(*p, *q, env),
        plain(*p),
        rows_agree(env, on, raw),
    ensures
        meaning::phys_value(w, *q, raw) == meaning::phys_value(w, *p, on),
    decreases *p, 0int,
{
    match p {
        Expression::ColRef { id } => {
            assert(on[*id] == on[*id]);
        },
        Expression::Field { .. } => {},
        Expression::Binary { left, right, .. } => {
            if let Expression::Binary { left: l, right: r, .. } = q {
                lemma_resolved_value(w, env, &*left, &*l, on, raw);
                lemma_resolved_value(w, env, &*right, &*r, on, raw);
            }
        },
        Expression::Case { expr, whens, else_expr } => {
            if let Expression::Case { expr: e, whens: ws, else_expr: o } = q {
                lemma_resolved_value(w, env, &*expr, &*e, on, raw);
                lemma_resolved_value(w, env, &*else_expr, &*o, on, raw);
                assert(decreases_to!(*p => whens));
                assert(decreases_to!(whens => whens@));
                lemma_resolved_arms(w, env, whens@, ws@, whens@.len() as int, on, raw);
            }
        },
        Expression::Subquery { .. } => {},
    }
}

/// The arms of a resolved case distinction have the values of its arms.
proof fn lemma_resolved_arms(
    w: World,
    env: &Environment,
    p: Seq<(PhysicalExpr, PhysicalExpr)>,
    q: Seq<(PhysicalExpr, PhysicalExpr)>,
    n: int,
    on: Row,
    raw: Row,
)
    requires
        p.len() == q.len(),
        0 <= n <= p.len(),
        forall|i: int|
            0 <= i < p.len() ==> {
                &&& raw_form(*(#[trigger] p[i]).0, *q[i].0, env)
                &&& raw_form(*p[i].1, *q[i].1, env)
                &&& plain(*p[i].0)
                &&& plain(*p[i].1)
            },
        rows_agree(env, on, raw),
    ensures
        meaning::phys_arms(w, q, n, raw) == meaning::phys_arms(w, p, n, on),
    decreases p, n,
{
    if n > 0 {
        lemma_resolved_arms(w, env, p, q, n - 1, on, raw);
        assert(decreases_to!(p => p[n - 1]));
        let arm = p[n - 1];
        lemma_resolved_value(w, env, &*arm.0, &*q[n - 1].0, on, raw);
        lemma_resolved_value(w, env, &*arm.1, &*q[n - 1].1, on, raw);
    }
}

/// The work that a cost stands for, in rows, given the sizes of the tables, how
/// many rows of a table match predicates, what it takes to probe an index of a
/// table or to sort some rows, and the cost of the children.
pub open spec fn work(
    own: OwnCost,
    size: spec_fn(ContainerId) -> nat,
    matching: spec_fn(ContainerId, Seq<PhysicalExpr>) -> nat,
    probe: spec_fn(ContainerId) -> nat,
    sorting: spec_fn(nat) -> nat,
    input: nat,
) -> nat {
    let side = |t: Option<ContainerId>|
        match t {
            Some(cid) => size(cid),
            None => input,
        };
    match own {
        OwnCost::TableRows { cid } => size(cid),
        OwnCost::IndexProbe { cid } => probe(cid),
        OwnCost::MatchingRows { cid, predicates } => matching(cid, predicates@),
        OwnCost::Input => input,
        OwnCost::Product { left, right } => side(left) * (if side(right) > 1 {
            side(right)
        } else {
            1
        }),
        OwnCost::Sum { left, right } => side(left) + side(right),
        OwnCost::SortedSum { left, right } => sorting(side(left)) + sorting(side(right)),
    }
}

/// What the nodes of a plan cost: a scan as many rows as its table has, a join
/// of two tables their sizes times each other if it nests its loops and their
/// sum if it hashes. So a hash join of two tables with two rows or more never
/// costs more than the nested loops over the same tables.
pub proof fn lemma_costs_of_joins(
    left: Rc<PhysicalRelExpr>,
    right: Rc<PhysicalRelExpr>,
    nested: PhysicalRelExpr,
    hash: PhysicalRelExpr,
    env: &Environment,
    nested_cost: OwnCost,
    hash_cost: OwnCost,
    size: spec_fn(ContainerId) -> nat,
    matching: spec_fn(ContainerId, Seq<PhysicalExpr>) -> nat,
    probe: spec_fn(ContainerId) -> nat,
    sorting: spec_fn(nat) -> nat,
    input: nat,
    a: ContainerId,
    b: ContainerId,
)
    requires
        nested matches PhysicalRelExpr::NestedLoopJoin { left: l, right: r, .. } && l == left && r
            == right,
        hash matches PhysicalRelExpr::HashJoin { left: l, right: r, .. } && l == left && r == right,
        own_cost_of(nested, env, nested_cost),
        own_cost_of(hash, env, hash_cost),
        scans(*left) == 1,
        scans(*right) == 1,
        reads(*left, a),
        reads(*right, b),
    ensures
        work(nested_cost, size, matching, probe, sorting, input) == size(a) * (if size(b) > 1 {
            size(b)
        } else {
            1
        }),
        work(hash_cost, size, matching, probe, sorting, input) == size(a) + size(b),
        size(a) >= 2 && size(b) >= 2 ==> work(hash_cost, size, matching, probe, sorting, input)
            <= work(nested_cost, size, matching, probe, sorting, input),
{
    lemma_own_table(&*left, a);
    lemma_own_table(&*right, b);
    let (x, y) = (size(a), size(b));
    if x >= 2 && y >= 2 {
        assert(x + y <= x * y) by (nonlinear_arith)
            requires
                x >= 2,
                y >= 2,
        ;
    }
}

/// A scan costs as many rows as its table has, and the probe of an index what it
/// takes to probe one of its table. A selection from one table costs the rows
/// that match its predicates, on the rows of that table; one from several
/// tables costs as much as what it selects from.
pub proof fn lemma_costs_of_scans(
    node: PhysicalRelExpr,
    env: &Environment,
    own: OwnCost,
    size: spec_fn(ContainerId) -> nat,
    matching: spec_fn(ContainerId, Seq<PhysicalExpr>) -> nat,
    probe: spec_fn(ContainerId) -> nat,
    sorting: spec_fn(nat) -> nat,
    input: nat,
    table: ContainerId,
)
    requires
        own_cost_of(node, env, own),
        reads(node, table),
    ensures
        node is Scan ==> work(own, size, matching, probe, sorting, input) == size(table),
        node is IndexScan ==> work(own, size, matching, probe, sorting, input) == probe(table),
        node is Select && scans(node) == 1 ==> exists|raw: Seq<PhysicalExpr>|
            {
                &&& #[trigger] raw_forms(node->Select_predicates@, raw, env)
                &&& work(own, size, matching, probe, sorting, input) == matching(table, raw)
            },
        node is Select && scans(node) != 1 ==> work(own, size, matching, probe, sorting, input)
            == input,
{
    if let PhysicalRelExpr::Select { src, predicates, .. } = node {
        lemma_own_table(&*src, table);
        if scans(node) == 1 {
            let raw = own->predicates@;
            assert(raw_forms(predicates@, raw, env));
        }
    }
}

/// A join that sorts costs what it takes to sort both its tables. Every operator
/// that is no scan, no selection and no join on predicates costs as much as its
/// inputs.
pub proof fn lemma_costs_of_others(
    node: PhysicalRelExpr,
    env: &Environment,
    own: OwnCost,
    size: spec_fn(ContainerId) -> nat,
    matching: spec_fn(ContainerId, Seq<PhysicalExpr>) -> nat,
    probe: spec_fn(ContainerId) -> nat,
    sorting: spec_fn(nat) -> nat,
    input: nat,
    a: ContainerId,
    b: ContainerId,
)
    requires
        own_cost_of(node, env, own),
    ensures
        ({
            &&& node matches PhysicalRelExpr::SortMergeJoin { left, right, .. }
            &&& scans(*left) == 1
            &&& scans(*right) == 1
            &&& reads(*left, a)
            &&& reads(*right, b)
        }) ==> work(own, size, matching, probe, sorting, input) == sorting(size(a)) + sorting(
            size(b),
        ),
        !(node is Scan || node is IndexScan || node is Select || node is NestedLoopJoin
            || node is HashJoin || node is SortMergeJoin) ==> work(
            own,
            size,
            matching,
            probe,
            sorting,
            input,
        ) == input,
{
    if let PhysicalRelExpr::SortMergeJoin { left, right, .. } = node {
        lemma_own_table(&*left, a);
        lemma_own_table(&*right, b);
    }
}

/// A subquery of a resolved expression stays as it is.
pub proof fn lemma_subqueries_stay(
    p: Expression<PhysicalRelExpr>,
    q: Expression<PhysicalRelExpr>,
    env: &Environment,
)
    requires
        raw_form(p, q, env),
    ensures
        p is Subquery ==> q == p,
        q is Subquery ==> q == p,
{
}

/// Resolved predicates are as many, and they are all true on a row of the base
/// table where the predicates are all true on the row of the query.
pub proof fn lemma_resolved_truth(
    w: World,
    env: &Environment,
    p: Seq<PhysicalExpr>,
    q: Seq<PhysicalExpr>,
    on: Row,
    raw: Row,
)
    requires
        raw_forms(p, q, env),
        forall|i: int| 0 <= i < p.len() ==> plain(*(#[trigger] p[i])),
        rows_agree(env, on, raw),
    ensures
        q.len() == p.len(),
        meaning::phys_all_true(w, q, raw) == meaning::phys_all_true(w, p, on),
{
    assert forall|i: int| 0 <= i < p.len() implies meaning::phys_value(w, *q[i], raw)
        == meaning::phys_value(w, *(#[trigger] p[i]), on) by {
        lemma_resolved_value(w, env, &*p[i], &*q[i], on, raw);
    }
    if meaning::phys_all_true(w, q, raw) {
        assert forall|i: int| 0 <= i < p.len() implies (w.truth)(
            meaning::phys_value(w, *(#[trigger] p[i]), on),
        ) by {
            assert((w.truth)(meaning::phys_value(w, *q[i], raw)));
        }
    }
    if meaning::phys_all_true(w, p, on) {
        assert forall|i: int| 0 <= i < q.len() implies (w.truth)(
            meaning::phys_value(w, *(#[trigger] q[i]), raw),
        ) by {
            assert((w.truth)(meaning::phys_value(w, *p[i], on)));
        }
    }
}

} // verus!
