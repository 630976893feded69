use crustydb::common::expr::{BinaryOp, Expression};
use crustydb::common::field::Field;
use crustydb::common::ids::ContainerId;
use crustydb::common::plan::{
    to_physical_expression, JoinType, LogicalExpr, LogicalRelExpr, PhysicalExpr, PhysicalRelExpr,
};
use crustydb::common::table::{Catalog, DataType, IndexInfo, TableInfo, TableSchema};
use crustydb::optimizer::cardinality_cost_model::{resolve_to_raw, CardinalityCostModel, OwnCost};
use crustydb::optimizer::cascades_optimizer::{CascadesOptimizer, Query};
use crustydb::optimizer::cost::{Cost, Environment, OriginExpression, PlanCostEstimator};
use crustydb::optimizer::memo::Memo;
use std::cell::Cell;
use std::collections::HashMap;
use std::rc::Rc;

/// Rows of work.
#[derive(Clone, Copy, Default, Debug, PartialEq)]
struct Work(f64);

impl Cost for Work {
    fn is_less(&self, other: &Self) -> bool {
        self.0 < other.0
    }
}

/// The rows of every table.
type Stats = HashMap<ContainerId, Vec<Vec<i64>>>;

const RANDOM_ACCESS_PENALTY: f64 = 4.0;

struct Model {
    inner: CardinalityCostModel<Stats>,
    asked: Cell<usize>,
}

fn holds(row: &[i64], p: &PhysicalExpr) -> bool {
    match &**p {
        Expression::Binary { op: BinaryOp::Eq, left, right } => match (&**left, &**right) {
            (Expression::ColRef { id }, Expression::Field { val }) => {
                **val == Field::BigInt(row[*id])
            }
            _ => true,
        },
        _ => true,
    }
}

impl Model {
    fn new(stats: Stats) -> Self {
        Model { inner: CardinalityCostModel::new(stats), asked: Cell::new(0) }
    }

    fn rows(&self, cid: ContainerId) -> f64 {
        self.inner.stats.get(&cid).map_or(0.0, |rows| rows.len() as f64)
    }

    fn matching(&self, cid: ContainerId, predicates: &[PhysicalExpr]) -> f64 {
        let rows = self.inner.stats.get(&cid);
        rows.map_or(0.0, |rows| {
            rows.iter().filter(|r| predicates.iter().all(|p| holds(r, p))).count() as f64
        })
    }
}

impl PlanCostEstimator for Model {
    type Cost = Work;

    fn cost_of(&self, node: &PhysicalRelExpr, child_costs: &[Work], env: &Environment) -> Work {
        self.asked.set(self.asked.get() + 1);
        let input: f64 = child_costs.iter().map(|c| c.0).sum();
        let side = |cid: Option<ContainerId>| cid.map_or(input, |c| self.rows(c));
        let own = match CardinalityCostModel::<Stats>::own_cost(node, env) {
            OwnCost::TableRows { cid } => self.rows(cid),
            OwnCost::IndexProbe { cid } => self.rows(cid).max(2.0).log2() + RANDOM_ACCESS_PENALTY,
            OwnCost::MatchingRows { cid, predicates } => self.matching(cid, &predicates),
            OwnCost::Input => input,
            OwnCost::Product { left, right } => side(left) * side(right).max(1.0),
            OwnCost::Sum { left, right } => side(left) + side(right),
            OwnCost::SortedSum { left, right } => {
                let (l, r) = (side(left), side(right));
                l * l.max(2.0).log2() + r * r.max(2.0).log2()
            }
        };
        Work(input + own)
    }

    fn cost_of_index_probe(
        &self,
        cid: ContainerId,
        predicates: &[PhysicalExpr],
        _env: &Environment,
    ) -> Work {
        let n = self.rows(cid).max(2.0);
        Work(n.log2() + self.matching(cid, predicates) * RANDOM_ACCESS_PENALTY)
    }

    fn cost_of_full_scan_with_filter(
        &self,
        cid: ContainerId,
        raw_predicates: &[PhysicalExpr],
    ) -> Work {
        Work(self.rows(cid) + self.matching(cid, raw_predicates))
    }
}

fn contains(p: &PhysicalRelExpr, pred: fn(&PhysicalRelExpr) -> bool) -> bool {
    if pred(p) {
        return true;
    }
    match p {
        PhysicalRelExpr::Select { src, .. }
        | PhysicalRelExpr::Project { src, .. }
        | PhysicalRelExpr::Sort { src, .. }
        | PhysicalRelExpr::HashAggregate { src, .. }
        | PhysicalRelExpr::Compute { input: src, .. }
        | PhysicalRelExpr::FlatMap { input: src, .. }
        | PhysicalRelExpr::Rename { src, .. }
        | PhysicalRelExpr::Delete { src, .. }
        | PhysicalRelExpr::Update { src, .. } => contains(src, pred),
        PhysicalRelExpr::CrossJoin { left, right, .. }
        | PhysicalRelExpr::NestedLoopJoin { left, right, .. }
        | PhysicalRelExpr::HashJoin { left, right, .. }
        | PhysicalRelExpr::SortMergeJoin { left, right, .. } => {
            contains(left, pred) || contains(right, pred)
        }
        PhysicalRelExpr::Scan { .. } | PhysicalRelExpr::IndexScan { .. } => false,
    }
}

fn is_hash_join(p: &PhysicalRelExpr) -> bool {
    matches!(p, PhysicalRelExpr::HashJoin { .. })
}

fn is_nested_loop_join(p: &PhysicalRelExpr) -> bool {
    matches!(p, PhysicalRelExpr::NestedLoopJoin { .. })
}

fn is_index_scan(p: &PhysicalRelExpr) -> bool {
    matches!(p, PhysicalRelExpr::IndexScan { .. })
}

fn col(id: usize) -> LogicalExpr {
    Rc::new(Expression::ColRef { id })
}

fn number(v: i64) -> LogicalExpr {
    Rc::new(Expression::Field { val: Rc::new(Field::BigInt(v)) })
}

fn binary(op: BinaryOp, left: LogicalExpr, right: LogicalExpr) -> LogicalExpr {
    Rc::new(Expression::Binary { op, left, right })
}

fn scan(cid: ContainerId, name: &str, column_names: Vec<usize>) -> Rc<LogicalRelExpr> {
    Rc::new(LogicalRelExpr::Scan {
        cid,
        table_name: Rc::new(name.to_string()),
        column_names: Rc::new(column_names),
    })
}

/// `select * from t1 join t2 on <predicate>`, over columns 0 and 1 of the
/// first table and 2 and 3 of the second.
fn join_query(predicate: LogicalExpr) -> Rc<LogicalRelExpr> {
    let join = Rc::new(LogicalRelExpr::Join {
        join_type: JoinType::Inner,
        left: scan(1, "t1", vec![0, 1]),
        right: scan(2, "t2", vec![2, 3]),
        predicates: Rc::new(vec![predicate]),
    });
    Rc::new(LogicalRelExpr::Project { src: join, cols: Rc::new(vec![0, 1, 2, 3]) })
}

fn two_tables(n1: i64, n2: i64) -> Stats {
    HashMap::from([
        (1, (0..n1).map(|i| vec![i, i]).collect()),
        (2, (0..n2).map(|i| vec![i, i]).collect()),
    ])
}

fn optimize(plan: Rc<LogicalRelExpr>, stats: Stats, catalog: Catalog) -> Rc<PhysicalRelExpr> {
    let optimizer = CascadesOptimizer::new(Model::new(stats), catalog);
    optimizer.optimize(&Query::new(plan, Environment::new()))
}

#[test]
fn equi_join_picks_hash_join_over_nested_loop() {
    let query = join_query(binary(BinaryOp::Eq, col(0), col(2)));
    let plan = optimize(query, two_tables(30, 30), Catalog::new());
    assert!(contains(&plan, is_hash_join), "expected a HashJoin in:\n{:?}", plan);
    assert!(
        !contains(&plan, is_nested_loop_join),
        "did not expect a NestedLoopJoin in:\n{:?}",
        plan
    );
}

#[test]
fn non_equi_join_has_no_alternative_to_nested_loop() {
    let query = join_query(binary(BinaryOp::Lt, col(0), col(2)));
    let plan = optimize(query, two_tables(5, 5), Catalog::new());
    assert!(
        contains(&plan, is_nested_loop_join),
        "expected a NestedLoopJoin (no hash join alternative for a non-equality predicate) in:\n{:?}",
        plan
    );
}

#[test]
fn join_of_next_to_nothing_is_a_nested_loop() {
    // One row on either side: probing costs one row, building and probing two.
    let query = join_query(binary(BinaryOp::Eq, col(0), col(2)));
    let plan = optimize(query, two_tables(1, 1), Catalog::new());
    assert!(contains(&plan, is_nested_loop_join));
    // Four rows either way: the nested loop comes first.
    let query = join_query(binary(BinaryOp::Eq, col(0), col(2)));
    let plan = optimize(query, two_tables(2, 2), Catalog::new());
    assert!(contains(&plan, is_nested_loop_join));
}

/// A single-column table with a deliberately skewed value distribution and a
/// secondary index on that column, so a highly selective vs. a barely
/// selective equality predicate can be compared.
fn setup_skewed_table(majority_count: usize, minority_value: i64) -> (Catalog, Stats) {
    let mut catalog = Catalog::new();
    let schema = TableSchema::from_vecs(vec!["v"], vec![DataType::BigInt]);
    catalog.add_table(TableInfo::new(7, "skewed".to_string(), schema));
    let mut rows = vec![vec![1]; majority_count];
    rows.push(vec![minority_value]);
    catalog.add_index(IndexInfo::new(8, "idx_skewed_v".to_string(), 7, vec![0], false));
    (catalog, HashMap::from([(7, rows)]))
}

/// `select * from skewed where v = <value>`, by way of the index.
fn skewed_query(value: i64) -> Rc<LogicalRelExpr> {
    Rc::new(LogicalRelExpr::IndexScan {
        cid: 7,
        table_name: Rc::new("skewed".to_string()),
        column_names: Rc::new(vec![31]),
        index_id: 8,
        key_values: Rc::new(vec![number(value)]),
    })
}

#[test]
fn highly_selective_predicate_uses_index_scan() {
    let (catalog, stats) = setup_skewed_table(999, 999);
    let plan = optimize(skewed_query(999), stats, catalog);
    assert!(
        contains(&plan, is_index_scan),
        "expected an IndexScan for a 1-in-1000 selective predicate in:\n{:?}",
        plan
    );
}

#[test]
fn low_selectivity_predicate_uses_full_scan() {
    let (catalog, stats) = setup_skewed_table(999, 999);
    let plan = optimize(skewed_query(1), stats, catalog);
    assert!(
        !contains(&plan, is_index_scan),
        "expected the cost model to reject the index for a 999-in-1000 predicate in:\n{:?}",
        plan
    );
    // The same equality, over the columns of the scan.
    match &*plan {
        PhysicalRelExpr::Select { src, predicates, .. } => {
            assert!(matches!(&**src, PhysicalRelExpr::Scan { cid: 7, .. }));
            let expected = to_physical_expression(&binary(BinaryOp::Eq, col(31), number(1)));
            assert_eq!(predicates.len(), 1);
            assert_eq!(format!("{:?}", predicates[0]), format!("{:?}", expected));
        }
        other => panic!("{:?}", other),
    }
}

#[test]
fn index_that_the_catalog_does_not_know_is_scanned() {
    let (_, stats) = setup_skewed_table(999, 999);
    let plan = optimize(skewed_query(1), stats, Catalog::new());
    assert!(contains(&plan, is_index_scan));
}

#[test]
fn chosen_plan_has_the_operators_of_the_query() {
    let (catalog, stats) = setup_skewed_table(999, 999);
    let select = Rc::new(LogicalRelExpr::Select {
        src: skewed_query(1),
        predicates: Rc::new(vec![binary(BinaryOp::Gt, col(31), number(0))]),
    });
    let order = Rc::new(LogicalRelExpr::OrderBy {
        src: select,
        cols: Rc::new(vec![(31, true, true)]),
    });
    let plan = optimize(order, stats, catalog);
    let PhysicalRelExpr::Sort { src, cols, .. } = &*plan else { panic!("{:?}", plan) };
    assert_eq!(**cols, vec![(31, true, true)]);
    let PhysicalRelExpr::Select { src, predicates, .. } = &**src else { panic!("{:?}", plan) };
    assert_eq!(predicates.len(), 1);
    assert!(matches!(&**src, PhysicalRelExpr::Select { .. }));
}

#[test]
fn deletion_is_translated_as_it_stands() {
    let query = Rc::new(LogicalRelExpr::Delete {
        cid: 1,
        src: join_query(binary(BinaryOp::Eq, col(0), col(2))),
    });
    let plan = optimize(query.clone(), two_tables(1, 1), Catalog::new());
    assert_eq!(format!("{:?}", plan), format!("{:?}", query.to_physical_plan()));
}

#[test]
fn memo_gives_a_plan_back() {
    let query = join_query(binary(BinaryOp::Eq, col(0), col(2)));
    let mut memo: Memo<Work> = Memo::new();
    let gid = memo.add_group_from_plan(&query);
    let again = memo.reconstruct_logical(gid);
    assert_eq!(format!("{:?}", again), format!("{:?}", query));
    assert_eq!(memo.pretty_string(gid), query.pretty_string());
    assert_eq!(memo.pretty_string(gid), "Project\n  Join\n    Scan t1\n    Scan t2\n");
}

#[test]
fn every_group_of_a_plan_is_translated() {
    let query = join_query(binary(BinaryOp::Eq, col(0), col(2)));
    let mut memo: Memo<Work> = Memo::default();
    let other = memo.add_group_from_plan(&skewed_query(1));
    let gid = memo.add_group_from_plan(&query);
    memo.logical_to_physical(gid);
    assert_eq!(
        format!("{:?}", memo.get_best_group_binding(gid)),
        format!("{:?}", query.to_physical_plan())
    );
    for g in other + 1..gid {
        assert_eq!(
            format!("{:?}", memo.get_best_group_binding(g)),
            format!("{:?}", memo.reconstruct_logical(g).to_physical_plan())
        );
    }
    // The other plan is still to be priced.
    let model = Model::new(setup_skewed_table(999, 999).1);
    memo.resolve_costed(other, &model, &Environment::new());
    assert_eq!(model.asked.get(), 1);
}

#[test]
fn groups_are_priced_once() {
    let query = join_query(binary(BinaryOp::Eq, col(0), col(2)));
    let model = Model::new(two_tables(30, 30));
    let env = Environment::new();
    let mut memo: Memo<Work> = Memo::new();
    let gid = memo.add_group_from_plan(&query);
    let (plan, cost) = memo.resolve_costed(gid, &model, &env);
    // Two scans, two ways to join, one projection.
    assert_eq!(model.asked.get(), 5);
    // (30 + 30) and the join's own 30 + 30, then the projection over again.
    assert_eq!(cost, Work(240.0));
    let (again, _) = memo.resolve_costed(gid, &model, &env);
    assert_eq!(model.asked.get(), 5);
    assert_eq!(format!("{:?}", again), format!("{:?}", plan));
    assert_eq!(
        format!("{:?}", memo.get_best_group_binding(gid)),
        format!("{:?}", plan)
    );
}

#[test]
fn columns_are_resolved_to_the_base_table() {
    let mut env = Environment::new();
    env.set_origin(31, OriginExpression::BaseCidAndIndex { cid: 7, index: 0 });
    env.set_origin(32, OriginExpression::DerivedColRef { col_id: 5 });
    let e = to_physical_expression(&Rc::new(Expression::Case {
        expr: col(31),
        whens: Rc::new(vec![(binary(BinaryOp::Eq, col(31), col(32)), col(33))]),
        else_expr: number(4),
    }));
    let expected = to_physical_expression(&Rc::new(Expression::Case {
        expr: col(0),
        whens: Rc::new(vec![(binary(BinaryOp::Eq, col(0), col(32)), col(33))]),
        else_expr: number(4),
    }));
    assert_eq!(format!("{:?}", resolve_to_raw(&e, &env)), format!("{:?}", expected));
    let sub: LogicalExpr = Rc::new(Expression::Subquery { expr: skewed_query(1) });
    let sub = to_physical_expression(&sub);
    assert_eq!(format!("{:?}", resolve_to_raw(&sub, &env)), format!("{:?}", sub));
    let base = OriginExpression::BaseCidAndIndex { cid: 1, index: 2 };
    assert_eq!(env.get_origin(&base), base);
}

#[test]
fn one_table_is_told_from_several() {
    let one = |p: &LogicalRelExpr| {
        CardinalityCostModel::<Stats>::single_table_cid(&p.to_physical_plan())
    };
    assert_eq!(one(&skewed_query(1)), Some(7));
    let select = LogicalRelExpr::Select {
        src: scan(3, "t", vec![0]),
        predicates: Rc::new(vec![]),
    };
    assert_eq!(one(&select), Some(3));
    let query = join_query(binary(BinaryOp::Eq, col(0), col(2)));
    assert_eq!(one(&query), None);
    let mut cids = vec![9];
    query.to_physical_plan().get_tables_involved(&mut cids);
    assert_eq!(cids, vec![9, 1, 2]);
    // A table that is joined with itself.
    let itself = LogicalRelExpr::Join {
        join_type: JoinType::Inner,
        left: scan(1, "t", vec![0]),
        right: scan(1, "t", vec![1]),
        predicates: Rc::new(vec![]),
    };
    assert_eq!(one(&itself), None);
}

#[test]
fn own_cost_of_every_shape() {
    let env = Environment::new();
    let own = |p: &PhysicalRelExpr| CardinalityCostModel::<Stats>::own_cost(p, &env);
    let side = |cid| Rc::new(scan(cid, "t", vec![0]).to_physical_plan());
    assert!(matches!(own(&side(4)), OwnCost::TableRows { cid: 4 }));
    assert!(matches!(own(&skewed_query(1).to_physical_plan()), OwnCost::IndexProbe { cid: 7 }));
    let predicates = Rc::new(vec![to_physical_expression(&col(0))]);
    let select = PhysicalRelExpr::Select {
        src: side(4),
        predicates: predicates.clone(),
        tree_hash: None,
    };
    match own(&select) {
        OwnCost::MatchingRows { cid, predicates } => assert_eq!((cid, predicates.len()), (4, 1)),
        _ => panic!(),
    }
    let nested = Rc::new(PhysicalRelExpr::NestedLoopJoin {
        join_type: JoinType::Inner,
        left: side(1),
        right: side(2),
        predicates: predicates.clone(),
        tree_hash: None,
    });
    assert!(matches!(own(&nested), OwnCost::Product { left: Some(1), right: Some(2) }));
    let above = PhysicalRelExpr::Select {
        src: nested.clone(),
        predicates: predicates.clone(),
        tree_hash: None,
    };
    assert!(matches!(own(&above), OwnCost::Input));
    let hash = PhysicalRelExpr::HashJoin {
        join_type: JoinType::Inner,
        left: nested.clone(),
        right: side(2),
        predicates: predicates.clone(),
        tree_hash: None,
    };
    assert!(matches!(own(&hash), OwnCost::Sum { left: None, right: Some(2) }));
    let merge = PhysicalRelExpr::SortMergeJoin {
        join_type: JoinType::Inner,
        left: side(3),
        right: nested,
        predicates,
        tree_hash: None,
    };
    assert!(matches!(own(&merge), OwnCost::SortedSum { left: Some(3), right: None }));
    let cross = PhysicalRelExpr::CrossJoin { left: side(1), right: side(2), tree_hash: None };
    assert!(matches!(own(&cross), OwnCost::Input));
}

#[test]
fn groups_are_numbered_as_they_are_added() {
    let same = LogicalRelExpr::Join {
        join_type: JoinType::Inner,
        left: scan(1, "t1", vec![0]),
        right: scan(1, "t1", vec![0]),
        predicates: Rc::new(vec![]),
    };
    let mut memo: Memo<Work> = Memo::new();
    assert_eq!(memo.add_group_from_plan(&Rc::new(same)), 2);
    assert_eq!(memo.add_group_from_plan(&scan(1, "t1", vec![0])), 3);
}

#[test]
fn translated_groups_have_the_cost_of_nothing() {
    let query = join_query(binary(BinaryOp::Eq, col(0), col(2)));
    let mut memo: Memo<Work> = Memo::new();
    let gid = memo.add_group_from_plan(&query);
    memo.logical_to_physical(gid);
    let model = Model::new(two_tables(30, 30));
    let (plan, cost) = memo.resolve_costed(gid, &model, &Environment::new());
    assert_eq!(model.asked.get(), 0);
    assert_eq!(cost, Work::default());
    assert_eq!(format!("{:?}", plan), format!("{:?}", query.to_physical_plan()));
}

#[test]
fn groups_below_a_priced_one_are_priced() {
    let query = join_query(binary(BinaryOp::Eq, col(0), col(2)));
    let model = Model::new(two_tables(30, 30));
    let env = Environment::new();
    let mut memo: Memo<Work> = Memo::new();
    let gid = memo.add_group_from_plan(&query);
    memo.resolve_costed(gid, &model, &env);
    let asked = model.asked.get();
    for g in 0..gid {
        memo.resolve_costed(g, &model, &env);
    }
    assert_eq!(model.asked.get(), asked);
}

#[test]
fn translation_replaces_what_was_priced() {
    // Next to nothing is joined by a nested loop, unless cost does not count.
    let query = join_query(binary(BinaryOp::Eq, col(0), col(2)));
    let model = Model::new(two_tables(1, 1));
    let env = Environment::new();
    let mut memo: Memo<Work> = Memo::new();
    let gid = memo.add_group_from_plan(&query);
    let (priced, _) = memo.resolve_costed(gid, &model, &env);
    assert!(contains(&priced, is_nested_loop_join));
    memo.logical_to_physical(gid);
    let bound = memo.get_best_group_binding(gid);
    assert!(contains(&bound, is_hash_join));
    assert_eq!(format!("{:?}", bound), format!("{:?}", query.to_physical_plan()));
    let asked = model.asked.get();
    let (again, cost) = memo.resolve_costed(gid, &model, &env);
    assert_eq!(model.asked.get(), asked);
    assert_eq!(cost, Work::default());
    assert_eq!(format!("{:?}", again), format!("{:?}", bound));
}
