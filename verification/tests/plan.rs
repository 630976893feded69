use crustydb::common::expr::{AggOp, BinaryOp, Expression};
use crustydb::common::field::Field;
use crustydb::common::plan::{
    single_eq, to_physical_expression, JoinType, LogicalExpr, LogicalRelExpr, PhysicalRelExpr,
};
use std::collections::HashMap;
use std::rc::Rc;

fn col(id: usize) -> LogicalExpr {
    Rc::new(Expression::ColRef { id })
}

fn number(v: i64) -> LogicalExpr {
    Rc::new(Expression::Field { val: Rc::new(Field::BigInt(v)) })
}

fn binary(op: BinaryOp, left: LogicalExpr, right: LogicalExpr) -> LogicalExpr {
    Rc::new(Expression::Binary { op, left, right })
}

fn scan(cid: u16, name: &str) -> Rc<LogicalRelExpr> {
    Rc::new(LogicalRelExpr::Scan {
        cid,
        table_name: Rc::new(name.to_string()),
        column_names: Rc::new(vec![0, 1]),
    })
}

fn join(join_type: JoinType, predicates: Vec<LogicalExpr>) -> LogicalRelExpr {
    LogicalRelExpr::Join {
        join_type,
        left: scan(1, "t1"),
        right: scan(2, "t2"),
        predicates: Rc::new(predicates),
    }
}

#[test]
fn inner_join_on_one_equality_is_hashed() {
    let eq = || binary(BinaryOp::Eq, col(0), col(2));
    let lt = || binary(BinaryOp::Lt, col(0), col(2));
    assert!(matches!(
        join(JoinType::Inner, vec![eq()]).to_physical_plan(),
        PhysicalRelExpr::HashJoin { join_type: JoinType::Inner, .. }
    ));
    for other in [
        join(JoinType::Inner, vec![lt()]),
        join(JoinType::Inner, vec![eq(), eq()]),
        join(JoinType::Inner, vec![]),
        join(JoinType::LeftOuter, vec![eq()]),
        join(JoinType::CrossJoin, vec![eq()]),
    ] {
        assert!(matches!(other.to_physical_plan(), PhysicalRelExpr::NestedLoopJoin { .. }));
    }
}

#[test]
fn predicates_of_a_join_become_one() {
    let preds = vec![
        binary(BinaryOp::Lt, col(0), col(2)),
        binary(BinaryOp::Gt, col(1), number(5)),
        binary(BinaryOp::Neq, col(1), number(7)),
    ];
    let expected = Expression::combine_preds(
        &preds.iter().map(to_physical_expression).collect::<Vec<_>>(),
    );
    match join(JoinType::Inner, preds).to_physical_plan() {
        PhysicalRelExpr::NestedLoopJoin { predicates, .. } => {
            assert_eq!(predicates.len(), 1);
            assert_eq!(format!("{:?}", predicates[0]), format!("{:?}", expected));
        }
        other => panic!("{:?}", other),
    }
}

#[test]
fn conjunction_has_its_first_predicate_outermost() {
    let all = Expression::combine_preds(&[col(1), col(2), col(3)]);
    let expected = binary(BinaryOp::And, col(1), binary(BinaryOp::And, col(2), col(3)));
    assert_eq!(format!("{:?}", all), format!("{:?}", expected));
    assert_eq!(format!("{:?}", Expression::combine_preds(&[col(1)])), format!("{:?}", col(1)));
}

#[test]
fn one_equality_is_told() {
    let eq = to_physical_expression(&binary(BinaryOp::Eq, col(0), number(1)));
    let le = to_physical_expression(&binary(BinaryOp::Le, col(0), number(1)));
    assert!(single_eq(&vec![eq.clone()]));
    assert!(!single_eq(&vec![le]));
    assert!(!single_eq(&vec![eq.clone(), eq]));
    assert!(!single_eq(&vec![]));
    assert!(!single_eq(&vec![to_physical_expression(&col(0))]));
}

#[test]
fn expressions_keep_their_form() {
    let case = Rc::new(Expression::Case {
        expr: col(1),
        whens: Rc::new(vec![(number(1), col(2)), (number(2), col(3))]),
        else_expr: number(9),
    });
    let text = format!("{:?}", to_physical_expression(&case));
    assert_eq!(text, format!("{:?}", case));
    let sub: LogicalExpr = Rc::new(Expression::Subquery { expr: scan(4, "t") });
    match &*to_physical_expression(&sub) {
        Expression::Subquery { expr } => {
            assert!(matches!(&**expr, PhysicalRelExpr::Scan { cid: 4, tree_hash: None, .. }));
        }
        other => panic!("{:?}", other),
    }
}

#[test]
fn every_operator_has_a_physical_form() {
    let src = scan(1, "t");
    let select = Rc::new(LogicalRelExpr::Select { src, predicates: Rc::new(vec![col(0)]) });
    let project = Rc::new(LogicalRelExpr::Project { src: select, cols: Rc::new(vec![1]) });
    let order =
        Rc::new(LogicalRelExpr::OrderBy { src: project, cols: Rc::new(vec![(1, true, false)]) });
    let aggregate = Rc::new(LogicalRelExpr::Aggregate {
        src: order,
        group_by: Rc::new(vec![1]),
        aggrs: Rc::new(vec![(5, (1, AggOp::Sum))]),
    });
    let compute = Rc::new(LogicalRelExpr::Compute {
        input: aggregate,
        exprs: Rc::new(vec![(6, number(3))]),
    });
    let flat = Rc::new(LogicalRelExpr::FlatMap { input: compute, func: scan(2, "u") });
    let rename = Rc::new(LogicalRelExpr::Rename {
        src: flat,
        src_to_dest: Rc::new(HashMap::from([(1, 2)])),
    });
    let update = Rc::new(LogicalRelExpr::Update {
        cid: 1,
        src: rename,
        assignments: Rc::new(vec![(0, Rc::new(Field::Null))]),
    });
    let delete = LogicalRelExpr::Delete { cid: 1, src: update };
    assert_eq!(
        delete.pretty_string(),
        concat_lines(&[
            "Delete",
            "  Update",
            "    Rename",
            "      FlatMap",
            "        Map",
            "          Aggregate",
            "            OrderBy",
            "              Project",
            "                Select",
            "                  Scan t",
            "        Scan u",
        ])
    );
    let mut p = Rc::new(delete.to_physical_plan());
    let mut seen = Vec::new();
    loop {
        let (name, next) = match &*p {
            PhysicalRelExpr::Delete { src, cid: 1, .. } => ("delete", src.clone()),
            PhysicalRelExpr::Update { src, assignments, .. } => {
                assert_eq!(**assignments, vec![(0, Rc::new(Field::Null))]);
                ("update", src.clone())
            }
            PhysicalRelExpr::Rename { src, src_to_dest, .. } => {
                assert_eq!(src_to_dest[&1], 2);
                ("rename", src.clone())
            }
            PhysicalRelExpr::FlatMap { input, .. } => ("flat map", input.clone()),
            PhysicalRelExpr::Compute { input, exprs, .. } => {
                assert_eq!(exprs[0].0, 6);
                ("map", input.clone())
            }
            PhysicalRelExpr::HashAggregate { src, group_by, aggrs, .. } => {
                assert_eq!((group_by[0], aggrs[0]), (1, (5, (1, AggOp::Sum))));
                ("aggregate", src.clone())
            }
            PhysicalRelExpr::Sort { src, cols, .. } => {
                assert_eq!(cols[0], (1, true, false));
                ("sort", src.clone())
            }
            PhysicalRelExpr::Project { src, cols, .. } => {
                assert_eq!(**cols, vec![1]);
                ("project", src.clone())
            }
            PhysicalRelExpr::Select { src, .. } => ("select", src.clone()),
            PhysicalRelExpr::Scan { cid: 1, .. } => break,
            other => panic!("{:?}", other),
        };
        seen.push(name);
        p = next;
    }
    assert_eq!(
        seen,
        vec![
            "delete", "update", "rename", "flat map", "map", "aggregate", "sort", "project",
            "select"
        ]
    );
}

fn concat_lines(lines: &[&str]) -> String {
    let mut all = String::new();
    for l in lines {
        all.push_str(l);
        all.push('\n');
    }
    all
}
