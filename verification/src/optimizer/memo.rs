//! A deliberately simplified Cascades-style memo: every distinct position in
//! the logical plan tree gets its own group (no structural
//! deduplication of syntactically-identical subtrees), and for two node kinds
//! where a real implementation choice exists (join algorithm, and, when built
//! with catalog access, index-scan vs. full-scan-plus-filter) more than one
//! physical candidate is generated per group and costed. Everything else has
//! exactly one physical form, matching `LogicalRelExpr::to_physical_plan()`.
//!
//! This does not attempt full plan-space search (join reordering, rule-driven
//! exploration): it is a bottom-up, System-R-style "pick the best physical
//! form for each subplan, once" optimizer.
use crate::common::expr::{AggOp, BinaryOp, Expression};
use crate::common::ids::{ColumnId, ContainerId, GroupId};
use crate::common::plan;
use crate::common::plan::{JoinType, LogicalExpr, LogicalRelExpr, PhysicalExpr, PhysicalRelExpr};
use crate::common::pretty;
use crate::common::table;
use crate::common::table::{Catalog, IndexInfo};
use crate::optimizer::answers;
use crate::optimizer::cost::{Cost, Environment, PlanCostEstimator};
use std::collections::HashMap;
use std::rc::Rc;
use vstd::prelude::*;

verus! {

/// One node of the logical plan, with children replaced by
/// `GroupId`s pointing at their own memo groups.
pub enum LogicalNode {
    Scan { cid: ContainerId, table_name: Rc<String>, column_names: Rc<Vec<ColumnId>> },
    IndexScan {
        cid: ContainerId,
        table_name: Rc<String>,
        column_names: Rc<Vec<ColumnId>>,
        index_id: ContainerId,
        key_values: Rc<Vec<LogicalExpr>>,
        /// The equivalent `Scan` + equality-`Select` alternative, rebuilt from
        /// the catalog's `IndexInfo` when the memo is built with catalog
        /// access (see `add_group_from_plan_with_catalog`). `None` when built
        /// without it (`add_group_from_plan`), in which case `IndexScan` is
        /// the only candidate for this group.
        scan_select_alt: Option<ScanSelectAlt>,
    },
    Select { src: GroupId, predicates: Rc<Vec<LogicalExpr>> },
    Join {
        join_type: JoinType,
        left: GroupId,
        right: GroupId,
        predicates: Rc<Vec<LogicalExpr>>,
    },
    Project { src: GroupId, cols: Rc<Vec<ColumnId>> },
    OrderBy { src: GroupId, cols: Rc<Vec<(ColumnId, bool, bool)>> },
    Aggregate {
        src: GroupId,
        group_by: Rc<Vec<ColumnId>>,
        aggrs: Rc<Vec<(ColumnId, (ColumnId, AggOp))>>,
    },
    Compute { input: GroupId, exprs: Rc<Vec<(ColumnId, LogicalExpr)>> },
    FlatMap { input: GroupId, func: GroupId },
    Rename { src: GroupId, src_to_dest: Rc<HashMap<ColumnId, ColumnId>> },
    /// `Delete`/`Update` (always plan roots): delegate straight to the
    /// structural translation.
    Opaque(Rc<LogicalRelExpr>),
}

/// Two representations of the same equality predicates, kept separate
/// because they live in different column-id spaces:
/// - `plan_predicates` use the column ids of the `Scan`'s own `column_names`,
///   which is what a `Select` sitting directly on a plain `Scan` needs to
///   actually execute.
/// - `raw_predicates` use the plain 0-based per-table attribute index that
///   statistics are kept by.
pub struct ScanSelectAlt {
    pub plan_columns: Rc<Vec<ColumnId>>,
    pub plan_predicates: Rc<Vec<LogicalExpr>>,
    pub raw_predicates: Rc<Vec<LogicalExpr>>,
}

struct MemoGroup<C: Cost> {
    node: LogicalNode,
    winner: Option<(Rc<PhysicalRelExpr>, C)>,
}

pub struct Memo<C: Cost> {
    groups: Vec<MemoGroup<C>>,
}

/// The groups of the children of a node.
pub open spec fn children(n: LogicalNode) -> Seq<GroupId> {
    match n {
        LogicalNode::Scan { .. } => Seq::empty(),
        LogicalNode::IndexScan { .. } => Seq::empty(),
        LogicalNode::Select { src, .. } => seq![src],
        LogicalNode::Join { left, right, .. } => seq![left, right],
        LogicalNode::Project { src, .. } => seq![src],
        LogicalNode::OrderBy { src, .. } => seq![src],
        LogicalNode::Aggregate { src, .. } => seq![src],
        LogicalNode::Compute { input, .. } => seq![input],
        LogicalNode::FlatMap { input, func } => seq![input, func],
        LogicalNode::Rename { src, .. } => seq![src],
        LogicalNode::Opaque(_) => Seq::empty(),
    }
}

/// A node can stand in group `g`: its children stand in groups before it.
pub open spec fn node_ok(n: LogicalNode, g: int) -> bool {
    &&& forall|i: int| 0 <= i < children(n).len() ==> (#[trigger] children(n)[i]) < g
    &&& n matches LogicalNode::Opaque(p) ==> (*p is Delete || *p is Update)
}

/// The nodes can stand in their groups.
pub open spec fn nodes_ok(nodes: Seq<LogicalNode>) -> bool {
    forall|g: int| 0 <= g < nodes.len() ==> node_ok(#[trigger] nodes[g], g)
}

/// Group `g` stands for the plan.
pub open spec fn holds(nodes: Seq<LogicalNode>, g: int, p: LogicalRelExpr) -> bool
    decreases p,
{
    &&& 0 <= g < nodes.len()
    &&& match p {
        LogicalRelExpr::Scan { cid, table_name, column_names } => nodes[g] == (LogicalNode::Scan {
            cid,
            table_name,
            column_names,
        }),
        LogicalRelExpr::IndexScan { cid, table_name, column_names, index_id, key_values } => {
            &&& nodes[g] matches LogicalNode::IndexScan { scan_select_alt, .. }
            &&& nodes[g] == (LogicalNode::IndexScan {
                cid,
                table_name,
                column_names,
                index_id,
                key_values,
                scan_select_alt,
            })
        },
        LogicalRelExpr::Select { src, predicates } => {
            &&& nodes[g] matches LogicalNode::Select { src: s, predicates: ps }
            &&& ps == predicates
            &&& holds(nodes, s as int, *src)
        },
        LogicalRelExpr::Join { join_type, left, right, predicates } => {
            &&& nodes[g] matches LogicalNode::Join { join_type: jt, left: l, right: r, predicates: ps }
            &&& jt == join_type
            &&& ps == predicates
            &&& holds(nodes, l as int, *left)
            &&& holds(nodes, r as int, *right)
        },
        LogicalRelExpr::Project { src, cols } => {
            &&& nodes[g] matches LogicalNode::Project { src: s, cols: c }
            &&& c == cols
            &&& holds(nodes, s as int, *src)
        },
        LogicalRelExpr::OrderBy { src, cols } => {
            &&& nodes[g] matches LogicalNode::OrderBy { src: s, cols: c }
            &&& c == cols
            &&& holds(nodes, s as int, *src)
        },
        LogicalRelExpr::Aggregate { src, group_by, aggrs } => {
            &&& nodes[g] matches LogicalNode::Aggregate { src: s, group_by: gb, aggrs: a }
            &&& gb == group_by
            &&& a == aggrs
            &&& holds(nodes, s as int, *src)
        },
        LogicalRelExpr::Compute { input, exprs } => {
            &&& nodes[g] matches LogicalNode::Compute { input: s, exprs: e }
            &&& e == exprs
            &&& holds(nodes, s as int, *input)
        },
        LogicalRelExpr::FlatMap { input, func } => {
            &&& nodes[g] matches LogicalNode::FlatMap { input: s, func: f }
            &&& holds(nodes, s as int, *input)
            &&& holds(nodes, f as int, *func)
        },
        LogicalRelExpr::Rename { src, src_to_dest } => {
            &&& nodes[g] matches LogicalNode::Rename { src: s, src_to_dest: d }
            &&& d == src_to_dest
            &&& holds(nodes, s as int, *src)
        },
        LogicalRelExpr::Delete { cid, src } => nodes[g] == LogicalNode::Opaque(Rc::new(p)),
        LogicalRelExpr::Update { cid, src, assignments } => nodes[g] == LogicalNode::Opaque(
            Rc::new(p),
        ),
    }
}

/// A group stands for one plan: what is rebuilt from it is the plan that was
/// added.
pub proof fn lemma_holds_one(
    nodes: Seq<LogicalNode>,
    g: int,
    p: &LogicalRelExpr,
    q: &LogicalRelExpr,
)
    requires
        holds(nodes, g, *p),
        holds(nodes, g, *q),
    ensures
        *p == *q,
    decreases *p,
{
    match (p, q) {
        (LogicalRelExpr::Select { src, .. }, LogicalRelExpr::Select { src: src2, .. }) => {
            lemma_holds_one(nodes, nodes[g]->Select_src as int, &*src, &*src2);
        },
        (
            LogicalRelExpr::Join { left, right, .. },
            LogicalRelExpr::Join { left: left2, right: right2, .. },
        ) => {
            lemma_holds_one(nodes, nodes[g]->left as int, &*left, &*left2);
            lemma_holds_one(nodes, nodes[g]->right as int, &*right, &*right2);
        },
        (LogicalRelExpr::Project { src, .. }, LogicalRelExpr::Project { src: src2, .. }) => {
            lemma_holds_one(nodes, nodes[g]->Project_src as int, &*src, &*src2);
        },
        (LogicalRelExpr::OrderBy { src, .. }, LogicalRelExpr::OrderBy { src: src2, .. }) => {
            lemma_holds_one(nodes, nodes[g]->OrderBy_src as int, &*src, &*src2);
        },
        (LogicalRelExpr::Aggregate { src, .. }, LogicalRelExpr::Aggregate { src: src2, .. }) => {
            lemma_holds_one(nodes, nodes[g]->Aggregate_src as int, &*src, &*src2);
        },
        (LogicalRelExpr::Compute { input, .. }, LogicalRelExpr::Compute { input: input2, .. }) => {
            lemma_holds_one(nodes, nodes[g]->Compute_input as int, &*input, &*input2);
        },
        (
            LogicalRelExpr::FlatMap { input, func },
            LogicalRelExpr::FlatMap { input: input2, func: func2 },
        ) => {
            lemma_holds_one(nodes, nodes[g]->FlatMap_input as int, &*input, &*input2);
            lemma_holds_one(nodes, nodes[g]->func as int, &*func, &*func2);
        },
        (LogicalRelExpr::Rename { src, .. }, LogicalRelExpr::Rename { src: src2, .. }) => {
            lemma_holds_one(nodes, nodes[g]->Rename_src as int, &*src, &*src2);
        },
        _ => {},
    }
}

/// How many positions a plan has that get a group of their own. `Delete` and
/// `Update` stand for all that is below them.
pub open spec fn plan_size(p: LogicalRelExpr) -> nat
    decreases p,
{
    match p {
        LogicalRelExpr::Scan { .. } => 1,
        LogicalRelExpr::IndexScan { .. } => 1,
        LogicalRelExpr::Select { src, .. } => 1 + plan_size(*src),
        LogicalRelExpr::Join { left, right, .. } => 1 + plan_size(*left) + plan_size(*right),
        LogicalRelExpr::Project { src, .. } => 1 + plan_size(*src),
        LogicalRelExpr::OrderBy { src, .. } => 1 + plan_size(*src),
        LogicalRelExpr::Aggregate { src, .. } => 1 + plan_size(*src),
        LogicalRelExpr::Compute { input, .. } => 1 + plan_size(*input),
        LogicalRelExpr::FlatMap { input, func } => 1 + plan_size(*input) + plan_size(*func),
        LogicalRelExpr::Rename { src, .. } => 1 + plan_size(*src),
        LogicalRelExpr::Delete { .. } => 1,
        LogicalRelExpr::Update { .. } => 1,
    }
}

/// The first of the indexes with the given id.
pub open spec fn find_in(infos: Seq<IndexInfo>, index_id: ContainerId) -> Option<IndexInfo>
    decreases infos.len(),
{
    if infos.len() == 0 {
        None
    } else if infos[0].index_id == index_id {
        Some(infos[0])
    } else {
        find_in(infos.drop_first(), index_id)
    }
}

/// A column equals a value.
pub open spec fn equality(id: ColumnId, value: LogicalExpr) -> LogicalExpr {
    Rc::new(
        Expression::Binary {
            op: BinaryOp::Eq,
            left: Rc::new(Expression::ColRef { id }),
            right: value,
        },
    )
}

/// How many columns of an index have a key value.
pub open spec fn keyed(info: IndexInfo, key_values: Seq<LogicalExpr>) -> nat {
    if info.columns@.len() < key_values.len() {
        info.columns@.len()
    } else {
        key_values.len()
    }
}

/// The scan and selection that an index scan can be replaced by: every keyed
/// column of the index equals its key value.
pub open spec fn alt_for(
    alt: ScanSelectAlt,
    info: IndexInfo,
    column_names: Rc<Vec<ColumnId>>,
    key_values: Seq<LogicalExpr>,
) -> bool {
    &&& alt.plan_columns == column_names
    &&& alt.plan_predicates@ == Seq::new(
        keyed(info, key_values),
        |i: int| equality(column_names@[info.columns@[i] as int], key_values[i]),
    )
    &&& alt.raw_predicates@ == Seq::new(
        keyed(info, key_values),
        |i: int| equality(info.columns@[i], key_values[i]),
    )
}

/// The expression says that a column equals a value.
pub open spec fn says_equal(
    e: Expression<LogicalRelExpr>,
    column: ColumnId,
    value: LogicalExpr,
) -> bool {
    &&& e matches Expression::Binary { op: BinaryOp::Eq, left, right }
    &&& *left matches Expression::ColRef { id }
    &&& id == column
    &&& right == value
}

/// The full scan that replaces an index scan filters by one equality for every
/// column of the index that has a key value: as many as the lesser of the
/// number of columns and the number of key values, the i-th one of the column
/// at position `columns[i]` of the scan with the i-th key value. The same is
/// said of the stored columns.
pub proof fn lemma_one_equality_per_key_value(
    alt: ScanSelectAlt,
    info: IndexInfo,
    column_names: Rc<Vec<ColumnId>>,
    key_values: Seq<LogicalExpr>,
)
    requires
        alt_for(alt, info, column_names, key_values),
    ensures
        alt.plan_columns == column_names,
        info.columns@.len() <= key_values.len() ==> alt.plan_predicates@.len()
            == info.columns@.len(),
        key_values.len() <= info.columns@.len() ==> alt.plan_predicates@.len() == key_values.len(),
        alt.raw_predicates@.len() == alt.plan_predicates@.len(),
        forall|i: int|
            #![trigger alt.plan_predicates@[i]]
            0 <= i < info.columns@.len() && i < key_values.len() ==> says_equal(
                *alt.plan_predicates@[i],
                column_names@[info.columns@[i] as int],
                key_values[i],
            ),
        forall|i: int|
            #![trigger alt.raw_predicates@[i]]
            0 <= i < info.columns@.len() && i < key_values.len() ==> says_equal(
                *alt.raw_predicates@[i],
                info.columns@[i],
                key_values[i],
            ),
{
}

/// Every keyed column of the index is one that the scan has.
pub open spec fn columns_known(
    info: IndexInfo,
    column_names: Seq<ColumnId>,
    key_values: Seq<LogicalExpr>,
) -> bool {
    forall|i: int|
        0 <= i < keyed(info, key_values) ==> (#[trigger] info.columns@[i]) < column_names.len()
}

/// An index scan has the alternative that the catalog gives, and none without
/// one.
pub open spec fn alt_right(n: LogicalNode, catalog: Option<&Catalog>) -> bool {
    n matches LogicalNode::IndexScan {
        cid,
        table_name,
        column_names,
        index_id,
        key_values,
        scan_select_alt,
    } ==> match catalog {
        None => scan_select_alt is None,
        Some(c) => match find_in(c.indexes@.filter(table::indexes_table(cid)), index_id) {
            None => scan_select_alt is None,
            Some(info) => if columns_known(info, column_names@, key_values@) {
                scan_select_alt matches Some(alt) && alt_for(alt, info, column_names, key_values@)
            } else {
                scan_select_alt is None
            },
        },
    }
}

/// What a group stands for does not change with more groups.
pub proof fn lemma_holds_kept(
    nodes: Seq<LogicalNode>,
    more: Seq<LogicalNode>,
    g: int,
    p: &LogicalRelExpr,
)
    requires
        holds(nodes, g, *p),
        nodes.len() <= more.len(),
        forall|i: int| 0 <= i < nodes.len() ==> #[trigger] more[i] == nodes[i],
    ensures
        holds(more, g, *p),
    decreases *p,
{
    assert(more[g] == nodes[g]);
    match p {
        LogicalRelExpr::Select { src, .. } => {
            lemma_holds_kept(nodes, more, nodes[g]->Select_src as int, &*src);
        },
        LogicalRelExpr::Join { left, right, .. } => {
            lemma_holds_kept(nodes, more, nodes[g]->left as int, &*left);
            lemma_holds_kept(nodes, more, nodes[g]->right as int, &*right);
        },
        LogicalRelExpr::Project { src, .. } => {
            lemma_holds_kept(nodes, more, nodes[g]->Project_src as int, &*src);
        },
        LogicalRelExpr::OrderBy { src, .. } => {
            lemma_holds_kept(nodes, more, nodes[g]->OrderBy_src as int, &*src);
        },
        LogicalRelExpr::Aggregate { src, .. } => {
            lemma_holds_kept(nodes, more, nodes[g]->Aggregate_src as int, &*src);
        },
        LogicalRelExpr::Compute { input, .. } => {
            lemma_holds_kept(nodes, more, nodes[g]->Compute_input as int, &*input);
        },
        LogicalRelExpr::FlatMap { input, func } => {
            lemma_holds_kept(nodes, more, nodes[g]->FlatMap_input as int, &*input);
            lemma_holds_kept(nodes, more, nodes[g]->func as int, &*func);
        },
        LogicalRelExpr::Rename { src, .. } => {
            lemma_holds_kept(nodes, more, nodes[g]->Rename_src as int, &*src);
        },
        _ => {},
    }
}

/// The catalog knows the index, and the scan has every column of it that has a
/// key value.
pub open spec fn alternative_owed(
    catalog: &Catalog,
    cid: ContainerId,
    index_id: ContainerId,
    column_names: Seq<ColumnId>,
    key_values: Seq<LogicalExpr>,
) -> bool {
    exists|k: int|
        {
            let info = #[trigger] catalog.indexes@[k];
            &&& 0 <= k < catalog.indexes@.len()
            &&& info.table_id == cid
            &&& info.index_id == index_id
            &&& forall|j: int|
                0 <= j < k ==> (#[trigger] catalog.indexes@[j]).table_id != cid
                    || catalog.indexes@[j].index_id != index_id
            &&& forall|i: int|
                0 <= i < info.columns@.len() && i < key_values.len() ==> (
                #[trigger] info.columns@[i]) < column_names.len()
        }
}

/// Where the catalog knows the index and the scan has its columns, a full scan
/// can replace the index scan.
pub proof fn lemma_alternative_owed(
    catalog: &Catalog,
    cid: ContainerId,
    index_id: ContainerId,
    column_names: Seq<ColumnId>,
    key_values: Seq<LogicalExpr>,
)
    requires
        alternative_owed(catalog, cid, index_id, column_names, key_values),
    ensures
        ({
            let found = find_in(catalog.indexes@.filter(table::indexes_table(cid)), index_id);
            found is Some && columns_known(found->0, column_names, key_values)
        }),
{
    let k = choose|k: int|
        {
            let info = #[trigger] catalog.indexes@[k];
            &&& 0 <= k < catalog.indexes@.len()
            &&& info.table_id == cid
            &&& info.index_id == index_id
            &&& forall|j: int|
                0 <= j < k ==> (#[trigger] catalog.indexes@[j]).table_id != cid
                    || catalog.indexes@[j].index_id != index_id
            &&& forall|i: int|
                0 <= i < info.columns@.len() && i < key_values.len() ==> (
                #[trigger] info.columns@[i]) < column_names.len()
        };
    answers::lemma_first_of_table_found(catalog.indexes@, cid, index_id, k);
}

/// The scan and selection that an index scan can be replaced by, where the
/// catalog knows the index and the scan has its columns.
fn find_alt(
    catalog: &Catalog,
    cid: ContainerId,
    index_id: ContainerId,
    column_names: &Rc<Vec<ColumnId>>,
    key_values: &Vec<LogicalExpr>,
) -> (r: Option<ScanSelectAlt>)
    ensures
        match find_in(catalog.indexes@.filter(table::indexes_table(cid)), index_id) {
            None => r is None,
            Some(info) => if columns_known(info, column_names@, key_values@) {
                r matches Some(alt) && alt_for(alt, info, *column_names, key_values@)
            } else {
                r is None
            },
        },
        r matches Some(alt) ==> exists|k: int|
            {
                let info = #[trigger] catalog.indexes@[k];
                &&& 0 <= k < catalog.indexes@.len()
                &&& info.table_id == cid
                &&& info.index_id == index_id
                &&& info.columns@.len() <= key_values@.len() ==> alt.plan_predicates@.len()
                    == info.columns@.len()
                &&& key_values@.len() <= info.columns@.len() ==> alt.plan_predicates@.len()
                    == key_values@.len()
                &&& forall|i: int|
                    0 <= i < alt.plan_predicates@.len() ==> info.columns@[i] < column_names@.len()
                        && says_equal(
                        *(#[trigger] alt.plan_predicates@[i]),
                        column_names@[info.columns@[i] as int],
                        key_values@[i],
                    )
            },
        alternative_owed(catalog, cid, index_id, column_names@, key_values@) ==> r is Some,
{
    proof {
        if alternative_owed(catalog, cid, index_id, column_names@, key_values@) {
            lemma_alternative_owed(catalog, cid, index_id, column_names@, key_values@);
        }
    }
    let infos: Vec<&IndexInfo> = catalog.get_indexes_for_table(cid);
    let ghost all = catalog.indexes@.filter(table::indexes_table(cid));
    let mut k: usize = 0;
    assert(all.skip(0) =~= all);
    while k < infos.len() && infos[k].index_id != index_id
        invariant
            k <= infos@.len(),
            Seq::new(infos@.len(), |i: int| *infos@[i]) == all,
            find_in(all, index_id) == find_in(all.skip(k as int), index_id),
        decreases infos@.len() - k,
    {
        proof {
            assert(all[k as int] == *infos@[k as int]);
            assert(all.skip(k as int).drop_first() =~= all.skip(k + 1));
        }
        k = k + 1;
    }
    proof {
        assert(all.len() == infos@.len());
        if k < infos@.len() {
            assert(all.skip(k as int)[0] == all[k as int]);
            assert(all[k as int] == *infos@[k as int]);
        }
    }
    if k == infos.len() {
        return None;
    }
    let info: &IndexInfo = infos[k];
    let mut plan_predicates: Vec<LogicalExpr> = Vec::new();
    let mut raw_predicates: Vec<LogicalExpr> = Vec::new();
    let mut i: usize = 0;
    while i < info.columns.len() && i < key_values.len()
        invariant
            all == catalog.indexes@.filter(table::indexes_table(cid)),
            find_in(all, index_id) == Some(*info),
            i <= keyed(*info, key_values@),
            forall|j: int| 0 <= j < i ==> (#[trigger] info.columns@[j]) < column_names@.len(),
            plan_predicates@ == Seq::new(
                i as nat,
                |j: int| equality(column_names@[info.columns@[j] as int], key_values@[j]),
            ),
            raw_predicates@ == Seq::new(
                i as nat,
                |j: int| equality(info.columns@[j], key_values@[j]),
            ),
        decreases info.columns@.len() - i,
    {
        let raw_idx: ColumnId = info.columns[i];
        if raw_idx >= column_names.len() {
            proof {
                assert(info.columns@[i as int] >= column_names@.len());
                if alternative_owed(catalog, cid, index_id, column_names@, key_values@) {
                    lemma_alternative_owed(catalog, cid, index_id, column_names@, key_values@);
                }
            }
            return None;
        }
        let plan_col_id: ColumnId = column_names[raw_idx];
        plan_predicates.push(
            Rc::new(
                Expression::Binary {
                    op: BinaryOp::Eq,
                    left: Rc::new(Expression::ColRef { id: plan_col_id }),
                    right: key_values[i].clone(),
                },
            ),
        );
        raw_predicates.push(
            Rc::new(
                Expression::Binary {
                    op: BinaryOp::Eq,
                    left: Rc::new(Expression::ColRef { id: raw_idx }),
                    right: key_values[i].clone(),
                },
            ),
        );
        i = i + 1;
        proof {
            assert(plan_predicates@ =~= Seq::new(
                i as nat,
                |j: int| equality(column_names@[info.columns@[j] as int], key_values@[j]),
            ));
            assert(raw_predicates@ =~= Seq::new(
                i as nat,
                |j: int| equality(info.columns@[j], key_values@[j]),
            ));
        }
    }
    let alt = ScanSelectAlt {
        plan_columns: column_names.clone(),
        plan_predicates: Rc::new(plan_predicates),
        raw_predicates: Rc::new(raw_predicates),
    };
    proof {
        lemma_one_equality_per_key_value(alt, *info, *column_names, key_values@);
        answers::lemma_found_index(catalog, cid, index_id);
        let at = choose|at: int|
            0 <= at < catalog.indexes@.len() && #[trigger] catalog.indexes@[at] == *info;
        assert(catalog.indexes@[at].index_id == index_id);
    }
    Some(alt)
}

/// Group `g` is group `top` or one below it.
pub open spec fn under(nodes: Seq<LogicalNode>, top: int, g: int) -> bool
    decreases top,
    when 0 <= top < nodes.len() && node_ok(nodes[top], top)
{
    let kids = children(nodes[top]);
    ||| g == top
    ||| kids.len() > 0 && under(nodes, kids[0] as int, g)
    ||| kids.len() > 1 && under(nodes, kids[1] as int, g)
}

/// What a group was resolved to is the structural translation of its plan, at
/// the cost that is the default.
pub open spec fn translated<C: Cost>(
    nodes: Seq<LogicalNode>,
    g: int,
    winner: Option<(Rc<PhysicalRelExpr>, C)>,
) -> bool {
    &&& winner matches Some((phys, c))
    &&& forall|p: LogicalRelExpr| #[trigger] holds(nodes, g, p) ==> plan::plan_form(p, *phys)
    &&& call_ensures(<C as Default>::default, (), c)
}

/// Resolving the groups of a plan by structure alone, from group `gid` down,
/// led from `before` to `after`.
pub open spec fn translates<C: Cost>(before: &Memo<C>, after: &Memo<C>, gid: int) -> bool {
    &&& after.nodes() == before.nodes()
    &&& forall|g: int|
        0 <= g < after.nodes().len() ==> if under(before.nodes(), gid, g) {
            translated(before.nodes(), g, #[trigger] after.winners()[g])
        } else {
            after.winners()[g] == before.winners()[g]
        }
}

/// A group that was resolved by structure alone is bound to the plan that
/// `to_physical_plan` gives for the plan it stands for, whether or not it was
/// resolved before, at the default cost. Resolving it again by cost gives that
/// plan and that cost back, and changes nothing.
pub proof fn lemma_translation_is_the_physical_plan<C: Cost>(
    before: &Memo<C>,
    after: &Memo<C>,
    later: &Memo<C>,
    gid: int,
    p: &LogicalRelExpr,
    phys: &PhysicalRelExpr,
    resolved: (Rc<PhysicalRelExpr>, C),
)
    requires
        before.wf(),
        holds(before.nodes(), gid, *p),
        translates(before, after, gid),
        plan::plan_form(*p, *phys),
        after.winners()[gid] matches Some(w) ==> resolved == w && *later == *after,
    ensures
        after.winners()[gid] is Some,
        plan::same_plan(*(after.winners()[gid]->0).0, *phys),
        plan::same_plan(*resolved.0, *phys),
        call_ensures(<C as Default>::default, (), resolved.1),
        *later == *after,
{
    assert(node_ok(before.nodes()[gid], gid));
    assert(under(before.nodes(), gid, gid));
    assert(translated(before.nodes(), gid, after.winners()[gid]));
    plan::lemma_one_form(p, &*(after.winners()[gid]->0).0, phys);
}

/// The children of group `g` are resolved.
pub open spec fn children_resolved<C: Cost>(
    nodes: Seq<LogicalNode>,
    won: Winners<C>,
    g: int,
) -> bool {
    forall|i: int|
        0 <= i < children(nodes[g]).len() ==> won[#[trigger] children(nodes[g])[i] as int] is Some
}

/// The children of every resolved group are resolved.
pub open spec fn resolved_down<C: Cost>(nodes: Seq<LogicalNode>, won: Winners<C>) -> bool {
    forall|g: int|
        0 <= g < nodes.len() && won[g] is Some ==> #[trigger] children_resolved(nodes, won, g)
}

/// A group whose children are resolved can be resolved too.
proof fn lemma_resolved_one<C: Cost>(
    nodes: Seq<LogicalNode>,
    won: Winners<C>,
    after: Winners<C>,
    g: int,
    w: (Rc<PhysicalRelExpr>, C),
)
    requires
        won.len() == nodes.len(),
        nodes_ok(nodes),
        resolved_down(nodes, won),
        0 <= g < nodes.len(),
        children_resolved(nodes, won, g),
        after == won.update(g, Some(w)),
    ensures
        resolved_down(nodes, after),
{
    assert forall|h: int| 0 <= h < nodes.len() && after[h] is Some implies #[trigger] children_resolved(
        nodes,
        after,
        h,
    ) by {
        assert(node_ok(nodes[h], h));
        assert(children_resolved(nodes, won, h));
        assert forall|i: int| 0 <= i < children(nodes[h]).len() implies after[#[trigger] children(
            nodes[h],
        )[i] as int] is Some by {}
    }
}

/// Every group below a resolved one is resolved: it is not priced again.
pub proof fn lemma_resolved_below<C: Cost>(memo: &Memo<C>, top: int, g: int)
    requires
        memo.wf(),
        0 <= top < memo.nodes().len(),
        memo.winners()[top] is Some,
        under(memo.nodes(), top, g),
    ensures
        0 <= g <= top,
        memo.winners()[g] is Some,
    decreases top,
{
    let nodes = memo.nodes();
    let kids = children(nodes[top]);
    assert(node_ok(nodes[top], top));
    assert(children_resolved(nodes, memo.winners(), top));
    if g != top {
        assert(kids[0] < top);
        if under(nodes, kids[0] as int, g) {
            lemma_resolved_below(memo, kids[0] as int, g);
        } else {
            assert(kids[1] < top);
            lemma_resolved_below(memo, kids[1] as int, g);
        }
    }
}

/// The groups of the children of a node, of which there are at most two.
fn child_groups(n: &LogicalNode) -> (r: (Option<GroupId>, Option<GroupId>))
    ensures
        match r {
            (None, None) => children(*n).len() == 0,
            (Some(a), None) => children(*n) == seq![a],
            (Some(a), Some(b)) => children(*n) == seq![a, b],
            (None, Some(_)) => false,
        },
{
    match n {
        LogicalNode::Scan { .. } | LogicalNode::IndexScan { .. } | LogicalNode::Opaque(_) => (
            None,
            None,
        ),
        LogicalNode::Select { src, .. }
        | LogicalNode::Project { src, .. }
        | LogicalNode::OrderBy { src, .. }
        | LogicalNode::Aggregate { src, .. }
        | LogicalNode::Rename { src, .. } => (Some(*src), None),
        LogicalNode::Compute { input, .. } => (Some(*input), None),
        LogicalNode::Join { left, right, .. } => (Some(*left), Some(*right)),
        LogicalNode::FlatMap { input, func } => (Some(*input), Some(*func)),
    }
}

/// What groups were resolved to.
pub type Winners<C> = Seq<Option<(Rc<PhysicalRelExpr>, C)>>;

/// The plan is the scan of an index.
pub open spec fn is_index_scan(
    p: PhysicalRelExpr,
    cid: ContainerId,
    table_name: Rc<String>,
    column_names: Rc<Vec<ColumnId>>,
    index_id: ContainerId,
    key_values: Seq<LogicalExpr>,
) -> bool {
    &&& p matches PhysicalRelExpr::IndexScan { key_values: kv, .. }
    &&& p == (PhysicalRelExpr::IndexScan {
        cid,
        table_name,
        column_names,
        index_id,
        key_values: kv,
        tree_hash: None,
    })
    &&& plan::exprs_form(key_values, kv@)
}

/// The plan is the full scan and selection that an index scan can be replaced
/// by.
pub open spec fn is_scan_select(
    p: PhysicalRelExpr,
    cid: ContainerId,
    table_name: Rc<String>,
    alt: ScanSelectAlt,
) -> bool {
    &&& p matches PhysicalRelExpr::Select { src, predicates, tree_hash }
    &&& tree_hash is None
    &&& *src == (PhysicalRelExpr::Scan {
        cid,
        table_name,
        column_names: alt.plan_columns,
        tree_hash: None,
    })
    &&& plan::exprs_form(alt.plan_predicates@, predicates@)
}

/// Of an index scan and the scan and selection, the index scan unless the
/// other one costs less.
pub open spec fn index_choice<M: PlanCostEstimator>(
    m: &M,
    env: &Environment,
    cid: ContainerId,
    table_name: Rc<String>,
    column_names: Rc<Vec<ColumnId>>,
    index_id: ContainerId,
    key_values: Seq<LogicalExpr>,
    alt: ScanSelectAlt,
    raw: Seq<PhysicalExpr>,
    p: PhysicalRelExpr,
    c: M::Cost,
) -> bool {
    let probe = m.probe_price(cid, raw, env);
    let scan = m.scan_price(cid, raw);
    if scan.less(probe) {
        is_scan_select(p, cid, table_name, alt) && c == scan
    } else {
        is_index_scan(p, cid, table_name, column_names, index_id, key_values) && c == probe
    }
}

/// Of a nested-loop join and, for an inner join on one equality, a hash join,
/// the nested-loop join unless the other one costs less.
pub open spec fn join_choice<M: PlanCostEstimator>(
    m: &M,
    env: &Environment,
    join_type: JoinType,
    left: Rc<PhysicalRelExpr>,
    right: Rc<PhysicalRelExpr>,
    predicates: Rc<Vec<PhysicalExpr>>,
    child_costs: Seq<M::Cost>,
    p: PhysicalRelExpr,
    c: M::Cost,
) -> bool {
    let nested = PhysicalRelExpr::NestedLoopJoin {
        join_type,
        left,
        right,
        predicates,
        tree_hash: None,
    };
    let hash = PhysicalRelExpr::HashJoin { join_type, left, right, predicates, tree_hash: None };
    let nested_price = m.price(nested, child_costs, env);
    let hash_price = m.price(hash, child_costs, env);
    if join_type == JoinType::Inner && plan::is_single_eq(predicates@) && hash_price.less(
        nested_price,
    ) {
        p == hash && c == hash_price
    } else {
        p == nested && c == nested_price
    }
}

/// The predicates of a physical join.
pub open spec fn join_predicates_of(p: PhysicalRelExpr) -> Rc<Vec<PhysicalExpr>> {
    match p {
        PhysicalRelExpr::NestedLoopJoin { predicates, .. } => predicates,
        PhysicalRelExpr::HashJoin { predicates, .. } => predicates,
        _ => Rc::new(arbitrary()),
    }
}

/// The plan and cost are what a node is resolved to, given what its children
/// were resolved to: the cheapest candidate, the first one of those that cost
/// the same.
pub open spec fn picked<M: PlanCostEstimator>(
    n: LogicalNode,
    won: Winners<M::Cost>,
    m: &M,
    env: &Environment,
    p: PhysicalRelExpr,
    c: M::Cost,
) -> bool {
    match n {
        LogicalNode::Scan { cid, table_name, column_names } => {
            &&& p == (PhysicalRelExpr::Scan { cid, table_name, column_names, tree_hash: None })
            &&& c == m.price(p, Seq::empty(), env)
        },
        LogicalNode::IndexScan {
            cid,
            table_name,
            column_names,
            index_id,
            key_values,
            scan_select_alt,
        } => match scan_select_alt {
            None => {
                &&& is_index_scan(p, cid, table_name, column_names, index_id, key_values@)
                &&& c == m.price(p, Seq::empty(), env)
            },
            Some(alt) => exists|raw: Seq<PhysicalExpr>|
                {
                    &&& #[trigger] plan::exprs_form(alt.raw_predicates@, raw)
                    &&& index_choice(
                        m,
                        env,
                        cid,
                        table_name,
                        column_names,
                        index_id,
                        key_values@,
                        alt,
                        raw,
                        p,
                        c,
                    )
                },
        },
        LogicalNode::Select { src, predicates } => {
            &&& won[src as int] matches Some((s, sc))
            &&& p matches PhysicalRelExpr::Select { src: ps, predicates: pp, tree_hash }
            &&& tree_hash is None
            &&& ps == s
            &&& plan::exprs_form(predicates@, pp@)
            &&& c == m.price(p, seq![sc], env)
        },
        LogicalNode::Join { join_type, left, right, predicates } => {
            &&& won[left as int] matches Some((l, lc))
            &&& won[right as int] matches Some((r, rc))
            &&& plan::joined_form(predicates@, join_predicates_of(p)@)
            &&& join_choice(m, env, join_type, l, r, join_predicates_of(p), seq![lc, rc], p, c)
        },
        LogicalNode::Project { src, cols } => {
            &&& won[src as int] matches Some((s, sc))
            &&& p == (PhysicalRelExpr::Project { src: s, cols, tree_hash: None })
            &&& c == m.price(p, seq![sc], env)
        },
        LogicalNode::OrderBy { src, cols } => {
            &&& won[src as int] matches Some((s, sc))
            &&& p == (PhysicalRelExpr::Sort { src: s, cols, tree_hash: None })
            &&& c == m.price(p, seq![sc], env)
        },
        LogicalNode::Aggregate { src, group_by, aggrs } => {
            &&& won[src as int] matches Some((s, sc))
            &&& p == (PhysicalRelExpr::HashAggregate { src: s, group_by, aggrs, tree_hash: None })
            &&& c == m.price(p, seq![sc], env)
        },
        LogicalNode::Compute { input, exprs } => {
            &&& won[input as int] matches Some((s, sc))
            &&& p matches PhysicalRelExpr::Compute { input: ps, exprs: pe, tree_hash }
            &&& tree_hash is None
            &&& ps == s
            &&& plan::columns_form(exprs@, pe@)
            &&& c == m.price(p, seq![sc], env)
        },
        LogicalNode::FlatMap { input, func } => {
            &&& won[input as int] matches Some((s, sc))
            &&& won[func as int] matches Some((f, fc))
            &&& p == (PhysicalRelExpr::FlatMap { input: s, func: f, tree_hash: None })
            &&& c == m.price(p, seq![sc, fc], env)
        },
        LogicalNode::Rename { src, src_to_dest } => {
            &&& won[src as int] matches Some((s, sc))
            &&& p == (PhysicalRelExpr::Rename { src: s, src_to_dest, tree_hash: None })
            &&& c == m.price(p, seq![sc], env)
        },
        LogicalNode::Opaque(l) => {
            &&& plan::plan_form(*l, p)
            &&& c == m.price(p, Seq::empty(), env)
        },
    }
}

/// Group `g` was resolved: to what was picked for its node.
pub open spec fn picked_at<M: PlanCostEstimator>(
    nodes: Seq<LogicalNode>,
    won: Winners<M::Cost>,
    m: &M,
    env: &Environment,
    g: int,
) -> bool {
    won[g] matches Some((p, c)) && picked(nodes[g], won, m, env, *p, c)
}

/// Groups were resolved, and those that had been stay as they were.
pub open spec fn resolves<M: PlanCostEstimator>(
    nodes: Seq<LogicalNode>,
    before: Winners<M::Cost>,
    after: Winners<M::Cost>,
    m: &M,
    env: &Environment,
) -> bool {
    &&& before.len() == after.len() == nodes.len()
    &&& forall|g: int| 0 <= g < before.len() && #[trigger] before[g] is Some ==> after[g] == before[g]
    &&& forall|g: int|
        0 <= g < before.len() && before[g] is None && after[g] is Some ==> #[trigger] picked_at(
            nodes,
            after,
            m,
            env,
            g,
        )
}

/// The position of the least cost, the first one of equal ones.
pub open spec fn cheapest<C: Cost>(costs: Seq<C>) -> int
    decreases costs.len(),
{
    if costs.len() <= 1 {
        0
    } else {
        let b = cheapest(costs.drop_last());
        if costs.last().less(costs[b]) {
            costs.len() - 1
        } else {
            b
        }
    }
}

/// Costs are ordered: none is less than itself, and what is less than a lesser
/// cost is less.
pub open spec fn costs_ordered<C: Cost>() -> bool {
    &&& forall|a: C| !#[trigger] a.less(a)
    &&& forall|a: C, b: C, c: C| #[trigger] a.less(b) && #[trigger] b.less(c) ==> a.less(c)
}

/// No cost is less than the cheapest, and none before it is the same.
pub proof fn lemma_none_cheaper<C: Cost>(costs: Seq<C>)
    requires
        costs_ordered::<C>(),
        costs.len() > 0,
    ensures
        0 <= cheapest(costs) < costs.len(),
        forall|i: int| 0 <= i < costs.len() ==> !#[trigger] costs[i].less(costs[cheapest(costs)]),
        forall|i: int| 0 <= i < cheapest(costs) ==> #[trigger] costs[i] != costs[cheapest(costs)],
    decreases costs.len(),
{
    if costs.len() > 1 {
        let rest = costs.drop_last();
        let b = cheapest(rest);
        lemma_none_cheaper(rest);
        assert forall|i: int| 0 <= i < costs.len() implies !#[trigger] costs[i].less(
            costs[cheapest(costs)],
        ) by {
            if i < costs.len() - 1 {
                assert(rest[i] == costs[i]);
                assert(!rest[i].less(rest[b]));
                if costs.last().less(costs[b]) && costs[i].less(costs.last()) {
                    assert(costs[i].less(costs[b]));
                }
            }
        }
        assert forall|i: int| 0 <= i < cheapest(costs) implies #[trigger] costs[i]
            != costs[cheapest(costs)] by {
            assert(rest[i] == costs[i]);
            assert(!rest[i].less(rest[b]));
        }
    }
}

/// Of the ways to join, none costs less than the one that is chosen.
pub proof fn lemma_join_not_dearer<M: PlanCostEstimator>(
    m: &M,
    env: &Environment,
    join_type: JoinType,
    left: Rc<PhysicalRelExpr>,
    right: Rc<PhysicalRelExpr>,
    predicates: Rc<Vec<PhysicalExpr>>,
    child_costs: Seq<M::Cost>,
    p: PhysicalRelExpr,
    c: M::Cost,
)
    requires
        costs_ordered::<M::Cost>(),
        join_choice(m, env, join_type, left, right, predicates, child_costs, p, c),
    ensures
        !m.price(
            PhysicalRelExpr::NestedLoopJoin {
                join_type,
                left,
                right,
                predicates,
                tree_hash: None,
            },
            child_costs,
            env,
        ).less(c),
        join_type == JoinType::Inner && plan::is_single_eq(predicates@) ==> !m.price(
            PhysicalRelExpr::HashJoin { join_type, left, right, predicates, tree_hash: None },
            child_costs,
            env,
        ).less(c),
{
    let nested = m.price(
        PhysicalRelExpr::NestedLoopJoin { join_type, left, right, predicates, tree_hash: None },
        child_costs,
        env,
    );
    if nested.less(c) {
        assert(nested.less(nested));
    }
}

/// Of an index scan and the full scan in its place, neither costs less than
/// the one that is chosen.
pub proof fn lemma_index_not_dearer<M: PlanCostEstimator>(
    m: &M,
    env: &Environment,
    cid: ContainerId,
    table_name: Rc<String>,
    column_names: Rc<Vec<ColumnId>>,
    index_id: ContainerId,
    key_values: Seq<LogicalExpr>,
    alt: ScanSelectAlt,
    raw: Seq<PhysicalExpr>,
    p: PhysicalRelExpr,
    c: M::Cost,
)
    requires
        costs_ordered::<M::Cost>(),
        index_choice(
            m,
            env,
            cid,
            table_name,
            column_names,
            index_id,
            key_values,
            alt,
            raw,
            p,
            c,
        ),
    ensures
        !m.probe_price(cid, raw, env).less(c),
        !m.scan_price(cid, raw).less(c),
{
    let probe = m.probe_price(cid, raw, env);
    if probe.less(c) {
        assert(probe.less(probe));
    }
}

/// The cost of a candidate: the one given for it, else what the model says.
pub open spec fn candidate_cost<M: PlanCostEstimator>(
    m: &M,
    env: &Environment,
    child_costs: Seq<M::Cost>,
    candidate: (Rc<PhysicalRelExpr>, Option<M::Cost>),
) -> M::Cost {
    match candidate.1 {
        Some(c) => c,
        None => m.price(*candidate.0, child_costs, env),
    }
}

/// The costs of candidates.
pub open spec fn candidate_costs<M: PlanCostEstimator>(
    m: &M,
    env: &Environment,
    child_costs: Seq<M::Cost>,
    candidates: Seq<(Rc<PhysicalRelExpr>, Option<M::Cost>)>,
) -> Seq<M::Cost> {
    Seq::new(candidates.len(), |i: int| candidate_cost(m, env, child_costs, candidates[i]))
}

/// The cheapest of the candidates, and its cost.
fn pick_best<M: PlanCostEstimator>(
    m: &M,
    env: &Environment,
    child_costs: &Vec<M::Cost>,
    candidates: &Vec<(Rc<PhysicalRelExpr>, Option<M::Cost>)>,
) -> (r: (Rc<PhysicalRelExpr>, M::Cost))
    requires
        candidates@.len() > 0,
    ensures
        ({
            let costs = candidate_costs(m, env, child_costs@, candidates@);
            let b = cheapest(costs);
            &&& 0 <= b < candidates@.len()
            &&& r.0 == candidates@[b].0
            &&& r.1 == costs[b]
        }),
{
    let ghost costs = candidate_costs(m, env, child_costs@, candidates@);
    let first: M::Cost = match candidates[0].1 {
        Some(c) => c,
        None => m.cost_of(&candidates[0].0, child_costs, env),
    };
    let mut best: (Rc<PhysicalRelExpr>, M::Cost) = (candidates[0].0.clone(), first);
    let mut i: usize = 1;
    assert(costs.take(1).len() == 1);
    while i < candidates.len()
        invariant
            1 <= i <= candidates@.len(),
            costs == candidate_costs(m, env, child_costs@, candidates@),
            0 <= cheapest(costs.take(i as int)) < i,
            best.0 == candidates@[cheapest(costs.take(i as int))].0,
            best.1 == costs[cheapest(costs.take(i as int))],
        decreases candidates@.len() - i,
    {
        let cost: M::Cost = match candidates[i].1 {
            Some(c) => c,
            None => m.cost_of(&candidates[i].0, child_costs, env),
        };
        proof {
            assert(costs[i as int] == cost);
            assert(costs.take(i + 1).drop_last() =~= costs.take(i as int));
        }
        if cost.is_less(&best.1) {
            best = (candidates[i].0.clone(), cost);
        }
        i = i + 1;
    }
    assert(costs.take(i as int) =~= costs);
    best
}

impl ScanSelectAlt {
    fn share(&self) -> (r: Self)
        ensures
            r == *self,
    {
        ScanSelectAlt {
            plan_columns: self.plan_columns.clone(),
            plan_predicates: self.plan_predicates.clone(),
            raw_predicates: self.raw_predicates.clone(),
        }
    }
}

impl LogicalNode {
    fn share(&self) -> (r: Self)
        ensures
            r == *self,
    {
        match self {
            LogicalNode::Scan { cid, table_name, column_names } => LogicalNode::Scan {
                cid: *cid,
                table_name: table_name.clone(),
                column_names: column_names.clone(),
            },
            LogicalNode::IndexScan {
                cid,
                table_name,
                column_names,
                index_id,
                key_values,
                scan_select_alt,
            } => LogicalNode::IndexScan {
                cid: *cid,
                table_name: table_name.clone(),
                column_names: column_names.clone(),
                index_id: *index_id,
                key_values: key_values.clone(),
                scan_select_alt: match scan_select_alt {
                    Some(alt) => Some(alt.share()),
                    None => None,
                },
            },
            LogicalNode::Select { src, predicates } => LogicalNode::Select {
                src: *src,
                predicates: predicates.clone(),
            },
            LogicalNode::Join { join_type, left, right, predicates } => LogicalNode::Join {
                join_type: *join_type,
                left: *left,
                right: *right,
                predicates: predicates.clone(),
            },
            LogicalNode::Project { src, cols } => LogicalNode::Project {
                src: *src,
                cols: cols.clone(),
            },
            LogicalNode::OrderBy { src, cols } => LogicalNode::OrderBy {
                src: *src,
                cols: cols.clone(),
            },
            LogicalNode::Aggregate { src, group_by, aggrs } => LogicalNode::Aggregate {
                src: *src,
                group_by: group_by.clone(),
                aggrs: aggrs.clone(),
            },
            LogicalNode::Compute { input, exprs } => LogicalNode::Compute {
                input: *input,
                exprs: exprs.clone(),
            },
            LogicalNode::FlatMap { input, func } => LogicalNode::FlatMap {
                input: *input,
                func: *func,
            },
            LogicalNode::Rename { src, src_to_dest } => LogicalNode::Rename {
                src: *src,
                src_to_dest: src_to_dest.clone(),
            },
            LogicalNode::Opaque(plan) => LogicalNode::Opaque(plan.clone()),
        }
    }
}

/// What was picked stays picked where the children stay as they were resolved.
proof fn lemma_picked_kept<M: PlanCostEstimator>(
    n: LogicalNode,
    won: Winners<M::Cost>,
    after: Winners<M::Cost>,
    m: &M,
    env: &Environment,
    p: &PhysicalRelExpr,
    c: M::Cost,
)
    requires
        picked(n, won, m, env, *p, c),
        forall|i: int|
            0 <= i < children(n).len() && won[#[trigger] children(n)[i] as int] is Some
                ==> after[children(n)[i] as int] == won[children(n)[i] as int],
    ensures
        picked(n, after, m, env, *p, c),
{
    if children(n).len() > 0 {
        let _ = children(n)[0];
    }
    if children(n).len() > 1 {
        let _ = children(n)[1];
    }
}

/// Groups that are resolved one after the other are resolved.
proof fn lemma_resolves_twice<M: PlanCostEstimator>(
    nodes: Seq<LogicalNode>,
    before: Winners<M::Cost>,
    mid: Winners<M::Cost>,
    after: Winners<M::Cost>,
    m: &M,
    env: &Environment,
)
    requires
        nodes_ok(nodes),
        resolves(nodes, before, mid, m, env),
        resolves(nodes, mid, after, m, env),
    ensures
        resolves(nodes, before, after, m, env),
{
    assert forall|g: int| 0 <= g < before.len() && #[trigger] before[g] is Some implies after[g]
        == before[g] by {
        assert(mid[g] == before[g]);
    }
    assert forall|g: int| 0 <= g < before.len() && before[g] is None && after[g] is Some
        implies #[trigger] picked_at(nodes, after, m, env, g) by {
        if mid[g] is Some {
            assert(picked_at(nodes, mid, m, env, g));
            assert(after[g] == mid[g]);
            let n = nodes[g];
            assert(node_ok(n, g));
            assert forall|i: int|
                0 <= i < children(n).len() && mid[#[trigger] children(n)[i] as int] is Some
                implies after[children(n)[i] as int] == mid[children(n)[i] as int] by {
                assert(children(n)[i] < g);
            }
            lemma_picked_kept(n, mid, after, m, env, &*(mid[g]->0).0, (mid[g]->0).1);
        }
    }
}

/// A group is resolved to what was picked for its node.
proof fn lemma_resolves_one<M: PlanCostEstimator>(
    nodes: Seq<LogicalNode>,
    before: Winners<M::Cost>,
    after: Winners<M::Cost>,
    m: &M,
    env: &Environment,
    g: int,
    p: Rc<PhysicalRelExpr>,
    c: M::Cost,
)
    requires
        nodes_ok(nodes),
        before.len() == nodes.len(),
        0 <= g < nodes.len(),
        before[g] is None,
        after == before.update(g, Some((p, c))),
        picked(nodes[g], before, m, env, *p, c),
    ensures
        resolves(nodes, before, after, m, env),
{
    let n = nodes[g];
    assert(node_ok(n, g));
    assert forall|i: int| 0 <= i < children(n).len() && before[#[trigger] children(n)[i] as int] is Some
        implies after[children(n)[i] as int] == before[children(n)[i] as int] by {
        assert(children(n)[i] < g);
    }
    lemma_picked_kept(n, before, after, m, env, &*p, c);
}

impl<C: Cost> Default for Memo<C> {
    /// A memo without groups.
    fn default() -> (r: Self)
        ensures
            r.wf(),
            r.nodes().len() == 0,
    {
        Self::new()
    }
}

impl<C: Cost> Memo<C> {
    /// The node of each group.
    pub closed spec fn nodes(&self) -> Seq<LogicalNode> {
        Seq::new(self.groups@.len(), |i: int| self.groups@[i].node)
    }

    /// What each group was resolved to, if it was.
    pub closed spec fn winners(&self) -> Seq<Option<(Rc<PhysicalRelExpr>, C)>> {
        Seq::new(self.groups@.len(), |i: int| self.groups@[i].winner)
    }

    /// The nodes can stand in their groups, and the children of every resolved
    /// group are resolved.
    pub open spec fn wf(&self) -> bool {
        &&& nodes_ok(self.nodes())
        &&& self.nodes().len() == self.winners().len()
        &&& resolved_down(self.nodes(), self.winners())
    }

    /// The memo holds what it held, and more groups, none of them resolved.
    pub open spec fn extends(&self, before: &Self) -> bool {
        &&& before.nodes().len() <= self.nodes().len()
        &&& self.nodes().take(before.nodes().len() as int) == before.nodes()
        &&& self.winners().take(before.nodes().len() as int) == before.winners()
        &&& forall|g: int|
            before.nodes().len() <= g < self.nodes().len() ==> #[trigger] self.winners()[g] is None
    }

    /// A memo without groups.
    pub fn new() -> (r: Self)
        ensures
            r.wf(),
            r.nodes().len() == 0,
    {
        Memo { groups: Vec::new() }
    }

    fn new_group(&mut self, node: LogicalNode) -> (r: GroupId)
        requires
            old(self).wf(),
            node_ok(node, old(self).nodes().len() as int),
        ensures
            final(self).wf(),
            final(self).extends(old(self)),
            r == old(self).nodes().len(),
            final(self).nodes() == old(self).nodes().push(node),
    {
        let id: GroupId = self.groups.len();
        self.groups.push(MemoGroup { node, winner: None });
        proof {
            assert(self.nodes() =~= old(self).nodes().push(node));
            assert(self.winners() =~= old(self).winners().push(None));
            assert(self.nodes().take(old(self).nodes().len() as int) =~= old(self).nodes());
            assert(self.winners().take(old(self).nodes().len() as int) =~= old(self).winners());
            assert forall|g: int| 0 <= g < self.nodes().len() implies node_ok(
                #[trigger] self.nodes()[g],
                g,
            ) by {
                if g < old(self).nodes().len() {
                    assert(self.nodes()[g] == old(self).nodes()[g]);
                }
            }
            assert forall|g: int| 0 <= g < self.nodes().len() && self.winners()[g] is Some
                implies #[trigger] children_resolved(self.nodes(), self.winners(), g) by {
                let n = self.nodes()[g];
                assert(n == old(self).nodes()[g]);
                assert(node_ok(n, g));
                assert(children_resolved(old(self).nodes(), old(self).winners(), g));
                assert forall|i: int| 0 <= i < children(n).len() implies self.winners()[#[trigger] children(
                    n,
                )[i] as int] is Some by {
                    assert(children(n)[i] < g);
                }
            }
        }
        id
    }

    /// Build the memo's group table from `plan`, without catalog access:
    /// `IndexScan` groups get only the one candidate the translator already
    /// picked.
    pub fn add_group_from_plan(&mut self, plan: &Rc<LogicalRelExpr>) -> (r: GroupId)
        requires
            old(self).wf(),
        ensures
            final(self).wf(),
            final(self).extends(old(self)),
            r == final(self).nodes().len() - 1,
            r == old(self).nodes().len() + plan_size(**plan) - 1,
            holds(final(self).nodes(), r as int, **plan),
            forall|g: int|
                old(self).nodes().len() <= g < final(self).nodes().len() ==> alt_right(
                    #[trigger] final(self).nodes()[g],
                    None,
                ),
    {
        self.add_group_inner(plan, None)
    }

    /// Same, but with catalog access so an `IndexScan` group can also carry
    /// the equivalent `Scan`+`Select` as a second candidate, letting a real
    /// cost model decide between them instead of the translator's rewrite
    /// rule being final.
    pub fn add_group_from_plan_with_catalog(
        &mut self,
        plan: &Rc<LogicalRelExpr>,
        catalog: &Catalog,
    ) -> (r: GroupId)
        requires
            old(self).wf(),
        ensures
            final(self).wf(),
            final(self).extends(old(self)),
            r == final(self).nodes().len() - 1,
            r == old(self).nodes().len() + plan_size(**plan) - 1,
            holds(final(self).nodes(), r as int, **plan),
            forall|g: int|
                old(self).nodes().len() <= g < final(self).nodes().len() ==> alt_right(
                    #[trigger] final(self).nodes()[g],
                    Some(catalog),
                ),
    {
        self.add_group_inner(plan, Some(catalog))
    }

    /// Both steps of adding a node above others.
    proof fn lemma_added(
        before: &Self,
        mid: &Self,
        after: &Self,
        node: LogicalNode,
        catalog: Option<&Catalog>,
    )
        requires
            before.wf(),
            mid.wf(),
            after.wf(),
            mid.extends(before),
            after.extends(mid),
            after.nodes() == mid.nodes().push(node),
            alt_right(node, catalog),
            forall|g: int|
                before.nodes().len() <= g < mid.nodes().len() ==> alt_right(
                    #[trigger] mid.nodes()[g],
                    catalog,
                ),
        ensures
            after.extends(before),
            forall|i: int| 0 <= i < mid.nodes().len() ==> #[trigger] after.nodes()[i] == mid.nodes()[i],
            forall|g: int|
                before.nodes().len() <= g < after.nodes().len() ==> alt_right(
                    #[trigger] after.nodes()[g],
                    catalog,
                ),
    {
        let b = before.nodes().len() as int;
        let m = mid.nodes().len() as int;
        assert(after.nodes().take(b) =~= mid.nodes().take(b));
        assert(after.winners().take(b) =~= mid.winners().take(b)) by {
            assert forall|g: int| 0 <= g < b implies after.winners()[g] == mid.winners()[g] by {
                assert(after.winners().take(m)[g] == mid.winners()[g]);
            }
        }
        assert forall|g: int| b <= g < after.nodes().len() implies #[trigger] after.winners()[g] is None by {
            if g < m {
                assert(after.winners().take(m)[g] == mid.winners()[g]);
            }
        }
        assert forall|g: int| b <= g < after.nodes().len() implies alt_right(
            #[trigger] after.nodes()[g],
            catalog,
        ) by {
            if g < m {
                assert(after.nodes()[g] == mid.nodes()[g]);
                assert(alt_right(mid.nodes()[g], catalog));
            }
        }
    }

    fn add_group_inner(&mut self, plan: &Rc<LogicalRelExpr>, catalog: Option<&Catalog>) -> (r: GroupId)
        requires
            old(self).wf(),
        ensures
            final(self).wf(),
            final(self).extends(old(self)),
            r == final(self).nodes().len() - 1,
            r == old(self).nodes().len() + plan_size(**plan) - 1,
            holds(final(self).nodes(), r as int, **plan),
            forall|g: int|
                old(self).nodes().len() <= g < final(self).nodes().len() ==> alt_right(
                    #[trigger] final(self).nodes()[g],
                    catalog,
                ),
        decreases **plan,
    {
        match &**plan {
            LogicalRelExpr::Scan { cid, table_name, column_names } => self.new_group(
                LogicalNode::Scan {
                    cid: *cid,
                    table_name: table_name.clone(),
                    column_names: column_names.clone(),
                },
            ),
            LogicalRelExpr::IndexScan { cid, table_name, column_names, index_id, key_values } => {
                let scan_select_alt = match catalog {
                    Some(c) => find_alt(c, *cid, *index_id, column_names, key_values),
                    None => None,
                };
                self.new_group(
                    LogicalNode::IndexScan {
                        cid: *cid,
                        table_name: table_name.clone(),
                        column_names: column_names.clone(),
                        index_id: *index_id,
                        key_values: key_values.clone(),
                        scan_select_alt,
                    },
                )
            },
            LogicalRelExpr::Select { src, predicates } => {
                let s: GroupId = self.add_group_inner(src, catalog);
                let ghost mid = *self;
                let node = LogicalNode::Select { src: s, predicates: predicates.clone() };
                let ghost n = node;
                let id: GroupId = self.new_group(node);
                proof {
                    Self::lemma_added(old(self), &mid, self, n, catalog);
                    lemma_holds_kept(mid.nodes(), self.nodes(), s as int, &**src);
                }
                id
            },
            LogicalRelExpr::Join { join_type, left, right, predicates } => {
                let l: GroupId = self.add_group_inner(left, catalog);
                let ghost first = *self;
                let r: GroupId = self.add_group_inner(right, catalog);
                let ghost mid = *self;
                let node = LogicalNode::Join {
                    join_type: *join_type,
                    left: l,
                    right: r,
                    predicates: predicates.clone(),
                };
                let ghost n = node;
                let id: GroupId = self.new_group(node);
                proof {
                    Self::lemma_two(old(self), &first, &mid, catalog);
                    Self::lemma_added(old(self), &mid, self, n, catalog);
                    lemma_holds_kept(first.nodes(), mid.nodes(), l as int, &**left);
                    lemma_holds_kept(mid.nodes(), self.nodes(), l as int, &**left);
                    lemma_holds_kept(mid.nodes(), self.nodes(), r as int, &**right);
                }
                id
            },
            LogicalRelExpr::Project { src, cols } => {
                let s: GroupId = self.add_group_inner(src, catalog);
                let ghost mid = *self;
                let node = LogicalNode::Project { src: s, cols: cols.clone() };
                let ghost n = node;
                let id: GroupId = self.new_group(node);
                proof {
                    Self::lemma_added(old(self), &mid, self, n, catalog);
                    lemma_holds_kept(mid.nodes(), self.nodes(), s as int, &**src);
                }
                id
            },
            LogicalRelExpr::OrderBy { src, cols } => {
                let s: GroupId = self.add_group_inner(src, catalog);
                let ghost mid = *self;
                let node = LogicalNode::OrderBy { src: s, cols: cols.clone() };
                let ghost n = node;
                let id: GroupId = self.new_group(node);
                proof {
                    Self::lemma_added(old(self), &mid, self, n, catalog);
                    lemma_holds_kept(mid.nodes(), self.nodes(), s as int, &**src);
                }
                id
            },
            LogicalRelExpr::Aggregate { src, group_by, aggrs } => {
                let s: GroupId = self.add_group_inner(src, catalog);
                let ghost mid = *self;
                let node = LogicalNode::Aggregate { src: s, group_by: group_by.clone(), aggrs: aggrs.clone() };
                let ghost n = node;
                let id: GroupId = self.new_group(node);
                proof {
                    Self::lemma_added(old(self), &mid, self, n, catalog);
                    lemma_holds_kept(mid.nodes(), self.nodes(), s as int, &**src);
                }
                id
            },
            LogicalRelExpr::Compute { input, exprs } => {
                let s: GroupId = self.add_group_inner(input, catalog);
                let ghost mid = *self;
                let node = LogicalNode::Compute { input: s, exprs: exprs.clone() };
                let ghost n = node;
                let id: GroupId = self.new_group(node);
                proof {
                    Self::lemma_added(old(self), &mid, self, n, catalog);
                    lemma_holds_kept(mid.nodes(), self.nodes(), s as int, &**input);
                }
                id
            },
            LogicalRelExpr::FlatMap { input, func } => {
                let l: GroupId = self.add_group_inner(input, catalog);
                let ghost first = *self;
                let r: GroupId = self.add_group_inner(func, catalog);
                let ghost mid = *self;
                let node = LogicalNode::FlatMap { input: l, func: r };
                let ghost n = node;
                let id: GroupId = self.new_group(node);
                proof {
                    Self::lemma_two(old(self), &first, &mid, catalog);
                    Self::lemma_added(old(self), &mid, self, n, catalog);
                    lemma_holds_kept(first.nodes(), mid.nodes(), l as int, &**input);
                    lemma_holds_kept(mid.nodes(), self.nodes(), l as int, &**input);
                    lemma_holds_kept(mid.nodes(), self.nodes(), r as int, &**func);
                }
                id
            },
            LogicalRelExpr::Rename { src, src_to_dest } => {
                let s: GroupId = self.add_group_inner(src, catalog);
                let ghost mid = *self;
                let node = LogicalNode::Rename { src: s, src_to_dest: src_to_dest.clone() };
                let ghost n = node;
                let id: GroupId = self.new_group(node);
                proof {
                    Self::lemma_added(old(self), &mid, self, n, catalog);
                    lemma_holds_kept(mid.nodes(), self.nodes(), s as int, &**src);
                }
                id
            },
            LogicalRelExpr::Delete { .. } | LogicalRelExpr::Update { .. } => self.new_group(
                LogicalNode::Opaque(plan.clone()),
            ),
        }
    }

    /// Two plans added one after the other.
    proof fn lemma_two(before: &Self, first: &Self, mid: &Self, catalog: Option<&Catalog>)
        requires
            before.wf(),
            first.wf(),
            mid.wf(),
            first.extends(before),
            mid.extends(first),
            forall|g: int|
                before.nodes().len() <= g < first.nodes().len() ==> alt_right(
                    #[trigger] first.nodes()[g],
                    catalog,
                ),
            forall|g: int|
                first.nodes().len() <= g < mid.nodes().len() ==> alt_right(
                    #[trigger] mid.nodes()[g],
                    catalog,
                ),
        ensures
            mid.extends(before),
            forall|i: int|
                0 <= i < first.nodes().len() ==> #[trigger] mid.nodes()[i] == first.nodes()[i],
            forall|g: int|
                before.nodes().len() <= g < mid.nodes().len() ==> alt_right(
                    #[trigger] mid.nodes()[g],
                    catalog,
                ),
    {
        let b = before.nodes().len() as int;
        let f = first.nodes().len() as int;
        assert forall|i: int| 0 <= i < f implies #[trigger] mid.nodes()[i] == first.nodes()[i] by {
            assert(mid.nodes().take(f)[i] == first.nodes()[i]);
        }
        assert forall|i: int| 0 <= i < f implies #[trigger] mid.winners()[i] == first.winners()[i] by {
            assert(mid.winners().take(f)[i] == first.winners()[i]);
        }
        assert(mid.nodes().take(b) =~= first.nodes().take(b));
        assert(mid.winners().take(b) =~= first.winners().take(b));
        assert forall|g: int| b <= g < mid.nodes().len() implies alt_right(
            #[trigger] mid.nodes()[g],
            catalog,
        ) by {
            if g < f {
                assert(alt_right(first.nodes()[g], catalog));
            }
        }
    }

    /// Rebuild the `LogicalRelExpr` a group stands for (inverse of
    /// `add_group_inner`). Only used by the no-cost-model path
    /// (`pretty_string`, `logical_to_physical`), which doesn't need per-group
    /// alternatives.
    pub fn reconstruct_logical(&self, gid: GroupId) -> (r: Rc<LogicalRelExpr>)
        requires
            self.wf(),
            gid < self.nodes().len(),
        ensures
            holds(self.nodes(), gid as int, *r),
        decreases gid,
    {
        let ghost n = self.nodes()[gid as int];
        assert(node_ok(n, gid as int));
        match &self.groups[gid].node {
            LogicalNode::Scan { cid, table_name, column_names } => Rc::new(
                LogicalRelExpr::Scan {
                    cid: *cid,
                    table_name: table_name.clone(),
                    column_names: column_names.clone(),
                },
            ),
            LogicalNode::IndexScan { cid, table_name, column_names, index_id, key_values, .. } => Rc::new(
                LogicalRelExpr::IndexScan {
                    cid: *cid,
                    table_name: table_name.clone(),
                    column_names: column_names.clone(),
                    index_id: *index_id,
                    key_values: key_values.clone(),
                },
            ),
            LogicalNode::Select { src, predicates } => {
                assert(children(self.nodes()[gid as int])[0] == *src);
                let s = self.reconstruct_logical(*src);
                Rc::new(LogicalRelExpr::Select { src: s, predicates: predicates.clone() })
            },
            LogicalNode::Join { join_type, left, right, predicates } => {
                assert(children(self.nodes()[gid as int])[0] == *left);
                assert(children(self.nodes()[gid as int])[1] == *right);
                let l = self.reconstruct_logical(*left);
                let r = self.reconstruct_logical(*right);
                Rc::new(
                    LogicalRelExpr::Join {
                        join_type: *join_type,
                        left: l,
                        right: r,
                        predicates: predicates.clone(),
                    },
                )
            },
            LogicalNode::Project { src, cols } => {
                assert(children(self.nodes()[gid as int])[0] == *src);
                let s = self.reconstruct_logical(*src);
                Rc::new(LogicalRelExpr::Project { src: s, cols: cols.clone() })
            },
            LogicalNode::OrderBy { src, cols } => {
                assert(children(self.nodes()[gid as int])[0] == *src);
                let s = self.reconstruct_logical(*src);
                Rc::new(LogicalRelExpr::OrderBy { src: s, cols: cols.clone() })
            },
            LogicalNode::Aggregate { src, group_by, aggrs } => {
                assert(children(self.nodes()[gid as int])[0] == *src);
                let s = self.reconstruct_logical(*src);
                Rc::new(LogicalRelExpr::Aggregate { src: s, group_by: group_by.clone(), aggrs: aggrs.clone() })
            },
            LogicalNode::Compute { input, exprs } => {
                assert(children(self.nodes()[gid as int])[0] == *input);
                let s = self.reconstruct_logical(*input);
                Rc::new(LogicalRelExpr::Compute { input: s, exprs: exprs.clone() })
            },
            LogicalNode::FlatMap { input, func } => {
                assert(children(self.nodes()[gid as int])[0] == *input);
                assert(children(self.nodes()[gid as int])[1] == *func);
                let s = self.reconstruct_logical(*input);
                let f = self.reconstruct_logical(*func);
                Rc::new(LogicalRelExpr::FlatMap { input: s, func: f })
            },
            LogicalNode::Rename { src, src_to_dest } => {
                assert(children(self.nodes()[gid as int])[0] == *src);
                let s = self.reconstruct_logical(*src);
                Rc::new(LogicalRelExpr::Rename { src: s, src_to_dest: src_to_dest.clone() })
            },
            LogicalNode::Opaque(plan) => plan.clone(),
        }
    }

    /// The plan that a group stands for, as text.
    pub fn pretty_string(&self, gid: GroupId) -> (r: String)
        requires
            self.wf(),
            gid < self.nodes().len(),
        ensures
            forall|p: LogicalRelExpr| #[trigger]
                holds(self.nodes(), gid as int, p) ==> r@ == pretty::plan_text(p, Seq::empty()),
            exists|p: LogicalRelExpr| #[trigger] holds(self.nodes(), gid as int, p),
    {
        let plan = self.reconstruct_logical(gid);
        proof {
            assert forall|p: LogicalRelExpr| #[trigger] holds(self.nodes(), gid as int, p) implies p
                == *plan by {
                lemma_holds_one(self.nodes(), gid as int, &p, &*plan);
            }
        }
        plan.pretty_string()
    }

    /// Resolve every group of a plan, from group `gid` down, to a physical plan
    /// using only structural rules (no cost model): the same join-algorithm
    /// rule `to_physical_plan()` applies, and, since this path never has
    /// catalog access, `IndexScan` groups stand as the translator already
    /// decided.
    pub fn logical_to_physical(&mut self, gid: GroupId)
        requires
            old(self).wf(),
            gid < old(self).nodes().len(),
        ensures
            final(self).wf(),
            translates(old(self), final(self), gid as int),
        decreases gid,
    {
        let ghost nodes = self.nodes();
        assert(node_ok(nodes[gid as int], gid as int));
        let (first, second): (Option<GroupId>, Option<GroupId>) = child_groups(
            &self.groups[gid].node,
        );
        if let Some(c) = first {
            assert(children(nodes[gid as int])[0] == c);
            self.logical_to_physical(c);
        }
        if let Some(c) = second {
            assert(children(nodes[gid as int])[1] == c);
            self.logical_to_physical(c);
        }
        let ghost before = self.winners();
        let logical = self.reconstruct_logical(gid);
        let phys = Rc::new(logical.to_physical_plan());
        let cost: C = C::default();
        self.groups[gid].winner = Some((phys, cost));
        proof {
            assert(self.nodes() =~= nodes);
            assert(self.winners() =~= before.update(gid as int, Some((phys, cost))));
            let kids = children(nodes[gid as int]);
            assert forall|i: int| 0 <= i < kids.len() implies before[#[trigger] kids[i] as int] is Some by {
                assert(under(nodes, kids[i] as int, kids[i] as int)) by {
                    assert(node_ok(nodes[kids[i] as int], kids[i] as int));
                }
            }
            lemma_resolved_one(nodes, before, self.winners(), gid as int, (phys, cost));
            assert forall|p: LogicalRelExpr| #[trigger] holds(nodes, gid as int, p) implies plan::plan_form(
                p,
                *phys,
            ) by {
                lemma_holds_one(nodes, gid as int, &p, &*logical);
            }
            assert forall|g: int| 0 <= g < nodes.len() implies if under(nodes, gid as int, g) {
                translated(nodes, g, #[trigger] self.winners()[g])
            } else {
                self.winners()[g] == old(self).winners()[g]
            } by {
                if g != gid {
                    assert(self.winners()[g] == before[g]);
                }
            }
        }
    }

    /// What the group was resolved to. The group must have been resolved
    /// (`logical_to_physical` or `resolve_costed`).
    pub fn get_best_group_binding(&self, gid: GroupId) -> (r: Rc<PhysicalRelExpr>)
        requires
            self.wf(),
            gid < self.nodes().len(),
            self.winners()[gid as int] is Some,
        ensures
            r == (self.winners()[gid as int]->0).0,
    {
        match &self.groups[gid].winner {
            Some((plan, _)) => plan.clone(),
            None => vstd::pervasive::unreached(),
        }
    }

    /// The real, cost-driven resolution: recursively resolve every child
    /// group first (memoized: each group is only priced once), generate
    /// every physical candidate for `gid`'s own node using those resolved
    /// children, cost each with `cost_model`, and keep the cheapest.
    pub fn resolve_costed<M: PlanCostEstimator<Cost = C>>(
        &mut self,
        gid: GroupId,
        cost_model: &M,
        env: &Environment,
    ) -> (r: (Rc<PhysicalRelExpr>, C))
        requires
            old(self).wf(),
            gid < old(self).nodes().len(),
        ensures
            final(self).wf(),
            final(self).nodes() == old(self).nodes(),
            final(self).winners()[gid as int] == Some(r),
            old(self).winners()[gid as int] matches Some(w) ==> r == w && *final(self) == *old(self),
            resolves(old(self).nodes(), old(self).winners(), final(self).winners(), cost_model, env),
            forall|g: int|
                gid < g < old(self).nodes().len() ==> #[trigger] final(self).winners()[g] == old(
                    self,
                ).winners()[g],
        decreases gid,
    {
        let ghost nodes = self.nodes();
        let ghost before = self.winners();
        let ghost n = nodes[gid as int];
        assert(node_ok(n, gid as int));
        if let Some((p, c)) = &self.groups[gid].winner {
            return (p.clone(), *c);
        }
        let node: LogicalNode = self.groups[gid].node.share();
        let ghost mut raw_preds: Seq<PhysicalExpr> = Seq::empty();
        // Each candidate carries an optional cost of its own, used only by
        // `IndexScan`, where the shape of the plan alone does not tell enough
        // to price it accurately. Every other candidate is priced by
        // `cost_model.cost_of`.
        let (child_costs, candidates): (Vec<C>, Vec<(Rc<PhysicalRelExpr>, Option<C>)>) = match &node {
            LogicalNode::Scan { cid, table_name, column_names } => {
                let cand = PhysicalRelExpr::Scan {
                    cid: *cid,
                    table_name: table_name.clone(),
                    column_names: column_names.clone(),
                    tree_hash: None,
                };
                (Vec::new(), vec![(Rc::new(cand), None)])
            },
            LogicalNode::IndexScan {
                cid,
                table_name,
                column_names,
                index_id,
                key_values,
                scan_select_alt,
            } => {
                let index_scan = PhysicalRelExpr::IndexScan {
                    cid: *cid,
                    table_name: table_name.clone(),
                    column_names: column_names.clone(),
                    index_id: *index_id,
                    key_values: Rc::new(plan::to_physical_expressions(key_values)),
                    tree_hash: None,
                };
                match scan_select_alt {
                    Some(alt) => {
                        let raw: Vec<PhysicalExpr> = plan::to_physical_expressions(
                            &alt.raw_predicates,
                        );
                        proof {
                            raw_preds = raw@;
                        }
                        let index_cost: C = cost_model.cost_of_index_probe(*cid, &raw, env);
                        let scan_cost: C = cost_model.cost_of_full_scan_with_filter(*cid, &raw);
                        let scan = PhysicalRelExpr::Scan {
                            cid: *cid,
                            table_name: table_name.clone(),
                            column_names: alt.plan_columns.clone(),
                            tree_hash: None,
                        };
                        let select = PhysicalRelExpr::Select {
                            src: Rc::new(scan),
                            predicates: Rc::new(
                                plan::to_physical_expressions(&alt.plan_predicates),
                            ),
                            tree_hash: None,
                        };
                        (
                            Vec::new(),
                            vec![
                                (Rc::new(index_scan), Some(index_cost)),
                                (Rc::new(select), Some(scan_cost)),
                            ],
                        )
                    },
                    None => (Vec::new(), vec![(Rc::new(index_scan), None)]),
                }
            },
            LogicalNode::Select { src, predicates } => {
                assert(children(n)[0] == *src);
                let (s, sc) = self.resolve_costed(*src, cost_model, env);
                let cand = PhysicalRelExpr::Select {
                    src: s,
                    predicates: Rc::new(plan::to_physical_expressions(predicates)),
                    tree_hash: None,
                };
                (vec![sc], vec![(Rc::new(cand), None)])
            },
            LogicalNode::Join { join_type, left, right, predicates } => {
                assert(children(n)[0] == *left);
                assert(children(n)[1] == *right);
                let (l, lc) = self.resolve_costed(*left, cost_model, env);
                let ghost mid = self.winners();
                let (r, rc) = self.resolve_costed(*right, cost_model, env);
                proof {
                    lemma_resolves_twice(nodes, before, mid, self.winners(), cost_model, env);
                }
                let combined: Rc<Vec<PhysicalExpr>> = Rc::new(plan::join_predicates(predicates));
                let nested = PhysicalRelExpr::NestedLoopJoin {
                    join_type: *join_type,
                    left: l.clone(),
                    right: r.clone(),
                    predicates: combined.clone(),
                    tree_hash: None,
                };
                let mut cands: Vec<(Rc<PhysicalRelExpr>, Option<C>)> = vec![(Rc::new(nested), None)];
                if *join_type == JoinType::Inner && plan::single_eq(&combined) {
                    let hash = PhysicalRelExpr::HashJoin {
                        join_type: *join_type,
                        left: l,
                        right: r,
                        predicates: combined,
                        tree_hash: None,
                    };
                    cands.push((Rc::new(hash), None));
                }
                (vec![lc, rc], cands)
            },
            LogicalNode::Project { src, cols } => {
                assert(children(n)[0] == *src);
                let (s, sc) = self.resolve_costed(*src, cost_model, env);
                let cand = PhysicalRelExpr::Project { src: s, cols: cols.clone(), tree_hash: None };
                (vec![sc], vec![(Rc::new(cand), None)])
            },
            LogicalNode::OrderBy { src, cols } => {
                assert(children(n)[0] == *src);
                let (s, sc) = self.resolve_costed(*src, cost_model, env);
                let cand = PhysicalRelExpr::Sort { src: s, cols: cols.clone(), tree_hash: None };
                (vec![sc], vec![(Rc::new(cand), None)])
            },
            LogicalNode::Aggregate { src, group_by, aggrs } => {
                assert(children(n)[0] == *src);
                let (s, sc) = self.resolve_costed(*src, cost_model, env);
                let cand = PhysicalRelExpr::HashAggregate {
                    src: s,
                    group_by: group_by.clone(),
                    aggrs: aggrs.clone(),
                    tree_hash: None,
                };
                (vec![sc], vec![(Rc::new(cand), None)])
            },
            LogicalNode::Compute { input, exprs } => {
                assert(children(n)[0] == *input);
                let (s, sc) = self.resolve_costed(*input, cost_model, env);
                let cand = PhysicalRelExpr::Compute {
                    input: s,
                    exprs: Rc::new(plan::to_physical_columns(exprs)),
                    tree_hash: None,
                };
                (vec![sc], vec![(Rc::new(cand), None)])
            },
            LogicalNode::FlatMap { input, func } => {
                assert(children(n)[0] == *input);
                assert(children(n)[1] == *func);
                let (s, sc) = self.resolve_costed(*input, cost_model, env);
                let ghost mid = self.winners();
                let (f, fc) = self.resolve_costed(*func, cost_model, env);
                proof {
                    lemma_resolves_twice(nodes, before, mid, self.winners(), cost_model, env);
                }
                let cand = PhysicalRelExpr::FlatMap { input: s, func: f, tree_hash: None };
                (vec![sc, fc], vec![(Rc::new(cand), None)])
            },
            LogicalNode::Rename { src, src_to_dest } => {
                assert(children(n)[0] == *src);
                let (s, sc) = self.resolve_costed(*src, cost_model, env);
                let cand = PhysicalRelExpr::Rename {
                    src: s,
                    src_to_dest: src_to_dest.clone(),
                    tree_hash: None,
                };
                (vec![sc], vec![(Rc::new(cand), None)])
            },
            LogicalNode::Opaque(plan) => (
                Vec::new(),
                vec![(Rc::new(plan.to_physical_plan()), None)],
            ),
        };
        let ghost mid = self.winners();
        let (best, cost) = pick_best(cost_model, env, &child_costs, &candidates);
        proof {
            reveal_with_fuel(cheapest, 3);
            let costs = candidate_costs(cost_model, env, child_costs@, candidates@);
            assert(costs.len() == candidates@.len());
            if costs.len() == 2 {
                assert(costs.drop_last().len() == 1);
            }
            match n {
                LogicalNode::Scan { .. } | LogicalNode::Opaque(_) => {
                    assert(child_costs@ =~= Seq::<C>::empty());
                },
                LogicalNode::IndexScan { scan_select_alt, .. } => {
                    assert(child_costs@ =~= Seq::<C>::empty());
                    if let Some(alt) = scan_select_alt {
                        assert(plan::exprs_form(alt.raw_predicates@, raw_preds));
                    }
                },
                LogicalNode::Select { src, .. }
                | LogicalNode::Project { src, .. }
                | LogicalNode::OrderBy { src, .. }
                | LogicalNode::Aggregate { src, .. }
                | LogicalNode::Rename { src, .. } => {
                    assert(child_costs@ =~= seq![(mid[src as int]->0).1]);
                },
                LogicalNode::Compute { input, .. } => {
                    assert(child_costs@ =~= seq![(mid[input as int]->0).1]);
                },
                LogicalNode::Join { left, right, .. } => {
                    assert(child_costs@ =~= seq![(mid[left as int]->0).1, (mid[right as int]->0).1]);
                },
                LogicalNode::FlatMap { input, func } => {
                    assert(child_costs@ =~= seq![(mid[input as int]->0).1, (mid[func as int]->0).1]);
                },
            }
            assert(picked(n, mid, cost_model, env, *best, cost));
        }
        self.groups[gid].winner = Some((best.clone(), cost));
        proof {
            let after = self.winners();
            assert(self.nodes() =~= nodes);
            assert(after =~= mid.update(gid as int, Some((best, cost))));
            lemma_resolves_one(nodes, mid, after, cost_model, env, gid as int, best, cost);
            assert(children_resolved(nodes, mid, gid as int));
            lemma_resolved_one(nodes, mid, after, gid as int, (best, cost));
            lemma_resolves_twice(nodes, before, mid, after, cost_model, env);
        }
        (best, cost)
    }
}

/// The cost of a chosen join is what the model says of it. Of the ways to join,
/// the hash join is chosen where it costs less, and the nested loops where it
/// does not.
pub proof fn lemma_join_is_priced<M: PlanCostEstimator>(
    m: &M,
    env: &Environment,
    join_type: JoinType,
    left: Rc<PhysicalRelExpr>,
    right: Rc<PhysicalRelExpr>,
    predicates: Rc<Vec<PhysicalExpr>>,
    child_costs: Seq<M::Cost>,
    p: PhysicalRelExpr,
    c: M::Cost,
)
    requires
        join_choice(m, env, join_type, left, right, predicates, child_costs, p, c),
    ensures
        c == m.price(p, child_costs, env),
        p is NestedLoopJoin || p is HashJoin,
        p is HashJoin ==> join_type == JoinType::Inner && plan::is_single_eq(predicates@) && c.less(
            m.price(
                PhysicalRelExpr::NestedLoopJoin {
                    join_type,
                    left,
                    right,
                    predicates,
                    tree_hash: None,
                },
                child_costs,
                env,
            ),
        ),
        p is NestedLoopJoin && join_type == JoinType::Inner && plan::is_single_eq(predicates@)
            ==> !m.price(
            PhysicalRelExpr::HashJoin { join_type, left, right, predicates, tree_hash: None },
            child_costs,
            env,
        ).less(c),
{
}

/// Of an index scan and the full scan in its place, the full scan is chosen
/// where it costs less, and the index scan where it does not. The cost is that
/// of the chosen one.
pub proof fn lemma_index_is_priced<M: PlanCostEstimator>(
    m: &M,
    env: &Environment,
    cid: ContainerId,
    table_name: Rc<String>,
    column_names: Rc<Vec<ColumnId>>,
    index_id: ContainerId,
    key_values: Seq<LogicalExpr>,
    alt: ScanSelectAlt,
    raw: Seq<PhysicalExpr>,
    p: PhysicalRelExpr,
    c: M::Cost,
)
    requires
        index_choice(
            m,
            env,
            cid,
            table_name,
            column_names,
            index_id,
            key_values,
            alt,
            raw,
            p,
            c,
        ),
    ensures
        p is IndexScan || p is Select,
        p is IndexScan ==> c == m.probe_price(cid, raw, env) && !m.scan_price(cid, raw).less(c),
        p is Select ==> c == m.scan_price(cid, raw) && c.less(m.probe_price(cid, raw, env)),
{
}

/// What a plan costs, and what its inputs cost.
pub struct Bill<C> {
    pub cost: C,
    pub parts: Seq<Bill<C>>,
    /// What is looked for, where an index scan and a full scan were weighed.
    pub looked_for: Option<Seq<PhysicalExpr>>,
}

/// The bill of an operator with one input.
pub open spec fn billed_one<M: PlanCostEstimator>(
    m: &M,
    env: &Environment,
    p: PhysicalRelExpr,
    bill: Bill<M::Cost>,
) -> bool {
    bill.parts.len() == 1 && bill.cost == m.price(p, seq![bill.parts[0].cost], env)
}

/// The bill of an operator with two inputs, the left one first.
pub open spec fn billed_two<M: PlanCostEstimator>(
    m: &M,
    env: &Environment,
    p: PhysicalRelExpr,
    bill: Bill<M::Cost>,
) -> bool {
    bill.parts.len() == 2 && bill.cost == m.price(
        p,
        seq![bill.parts[0].cost, bill.parts[1].cost],
        env,
    )
}

/// The cost is what the model says of the plan, given the costs of its inputs,
/// each of them what the model says of that input, and so on down. The scan of
/// an index and a full scan in its place may be priced by what is looked for.
pub open spec fn billed<M: PlanCostEstimator>(
    m: &M,
    env: &Environment,
    p: PhysicalRelExpr,
    bill: Bill<M::Cost>,
) -> bool
    decreases p,
{
    match p {
        PhysicalRelExpr::IndexScan { cid, .. } => match bill.looked_for {
            Some(raw) => bill.cost == m.probe_price(cid, raw, env),
            None => bill.cost == m.price(p, Seq::empty(), env),
        },
        PhysicalRelExpr::Select { src, .. } => match bill.looked_for {
            Some(raw) => *src matches PhysicalRelExpr::Scan { cid, .. } && bill.cost
                == m.scan_price(cid, raw),
            None => billed_one(m, env, p, bill) && billed(m, env, *src, bill.parts[0]),
        },
        PhysicalRelExpr::NestedLoopJoin { left, right, .. } => {
            &&& billed_two(m, env, p, bill)
            &&& billed(m, env, *left, bill.parts[0])
            &&& billed(m, env, *right, bill.parts[1])
        },
        PhysicalRelExpr::HashJoin { left, right, .. } => {
            &&& billed_two(m, env, p, bill)
            &&& billed(m, env, *left, bill.parts[0])
            &&& billed(m, env, *right, bill.parts[1])
        },
        PhysicalRelExpr::FlatMap { input, func, .. } => {
            &&& billed_two(m, env, p, bill)
            &&& billed(m, env, *input, bill.parts[0])
            &&& billed(m, env, *func, bill.parts[1])
        },
        PhysicalRelExpr::Project { src, .. } => billed_one(m, env, p, bill) && billed(
            m,
            env,
            *src,
            bill.parts[0],
        ),
        PhysicalRelExpr::Sort { src, .. } => billed_one(m, env, p, bill) && billed(
            m,
            env,
            *src,
            bill.parts[0],
        ),
        PhysicalRelExpr::HashAggregate { src, .. } => billed_one(m, env, p, bill) && billed(
            m,
            env,
            *src,
            bill.parts[0],
        ),
        PhysicalRelExpr::Compute { input, .. } => billed_one(m, env, p, bill) && billed(
            m,
            env,
            *input,
            bill.parts[0],
        ),
        PhysicalRelExpr::Rename { src, .. } => billed_one(m, env, p, bill) && billed(
            m,
            env,
            *src,
            bill.parts[0],
        ),
        // A scan has no inputs, and what is below a deletion or an update is
        // not priced on its own.
        _ => bill.cost == m.price(p, Seq::empty(), env),
    }
}

/// The cost that a group was resolved at is made up from the bottom: it is the
/// price of the chosen plan, given the prices of its inputs in their order.
pub proof fn lemma_resolved_is_billed<M: PlanCostEstimator>(
    nodes: Seq<LogicalNode>,
    won: Winners<M::Cost>,
    m: &M,
    env: &Environment,
    g: int,
) -> (bill: Bill<M::Cost>)
    requires
        nodes_ok(nodes),
        won.len() == nodes.len(),
        forall|i: int|
            0 <= i < nodes.len() && won[i] is Some ==> #[trigger] picked_at(nodes, won, m, env, i),
        0 <= g < nodes.len(),
        won[g] is Some,
    ensures
        bill.cost == (won[g]->0).1,
        billed(m, env, *(won[g]->0).0, bill),
    decreases g,
{
    let n = nodes[g];
    let cost = (won[g]->0).1;
    assert(picked_at(nodes, won, m, env, g));
    assert(node_ok(n, g));
    let kids = children(n);
    if kids.len() == 0 {
        let looked_for = match n {
            LogicalNode::IndexScan {
                cid,
                table_name,
                column_names,
                index_id,
                key_values,
                scan_select_alt: Some(alt),
            } => Some(
                choose|raw: Seq<PhysicalExpr>|
                    {
                        &&& #[trigger] plan::exprs_form(alt.raw_predicates@, raw)
                        &&& index_choice(
                            m,
                            env,
                            cid,
                            table_name,
                            column_names,
                            index_id,
                            key_values@,
                            alt,
                            raw,
                            *(won[g]->0).0,
                            cost,
                        )
                    },
            ),
            _ => None,
        };
        Bill { cost, parts: Seq::empty(), looked_for }
    } else if kids.len() == 1 {
        assert(won[kids[0] as int] is Some);
        let a = lemma_resolved_is_billed(nodes, won, m, env, kids[0] as int);
        Bill { cost, parts: seq![a], looked_for: None }
    } else {
        assert(won[kids[0] as int] is Some);
        assert(won[kids[1] as int] is Some);
        let a = lemma_resolved_is_billed(nodes, won, m, env, kids[0] as int);
        let b = lemma_resolved_is_billed(nodes, won, m, env, kids[1] as int);
        Bill { cost, parts: seq![a, b], looked_for: None }
    }
}

/// Where the catalog knows the index of a scan, a full scan is weighed against
/// it: the group of the scan is resolved to the one of them that costs less, and
/// to the index scan where the full scan does not. Both are priced by the
/// equalities of the key, one for each column of the index that has a key value,
/// on the columns of the table.
pub proof fn lemma_index_scan_is_weighed<M: PlanCostEstimator>(
    catalog: &Catalog,
    n: LogicalNode,
    won: Winners<M::Cost>,
    m: &M,
    env: &Environment,
    p: PhysicalRelExpr,
    c: M::Cost,
) -> (raw: Seq<PhysicalExpr>)
    requires
        n is IndexScan,
        alt_right(n, Some(catalog)),
        alternative_owed(
            catalog,
            n->IndexScan_cid,
            n->index_id,
            n->IndexScan_column_names@,
            n->key_values@,
        ),
        picked(n, won, m, env, p, c),
    ensures
        exists|k: int|
            {
                let info = #[trigger] catalog.indexes@[k];
                &&& 0 <= k < catalog.indexes@.len()
                &&& info.table_id == n->IndexScan_cid
                &&& info.index_id == n->index_id
                &&& info.columns@.len() <= n->key_values@.len() ==> raw.len() == info.columns@.len()
                &&& n->key_values@.len() <= info.columns@.len() ==> raw.len()
                    == n->key_values@.len()
                &&& forall|i: int|
                    0 <= i < raw.len() ==> {
                        &&& *(#[trigger] raw[i]) matches Expression::Binary {
                            op: BinaryOp::Eq,
                            left,
                            right,
                        }
                        &&& *left matches Expression::ColRef { id }
                        &&& id == info.columns@[i]
                        &&& plan::expr_form(*n->key_values@[i], *right)
                    }
            },
        p is IndexScan || p is Select,
        p is IndexScan ==> {
            &&& c == m.probe_price(n->IndexScan_cid, raw, env)
            &&& !m.scan_price(n->IndexScan_cid, raw).less(c)
        },
        p is Select ==> {
            &&& c == m.scan_price(n->IndexScan_cid, raw)
            &&& c.less(m.probe_price(n->IndexScan_cid, raw, env))
        },
{
    let cid = n->IndexScan_cid;
    let names = n->IndexScan_column_names;
    let key_values = n->key_values@;
    let on_table = catalog.indexes@.filter(table::indexes_table(cid));
    lemma_alternative_owed(catalog, cid, n->index_id, names@, key_values);
    let info = find_in(on_table, n->index_id)->0;
    let alt = n->scan_select_alt->0;
    assert(alt_for(alt, info, names, key_values));
    lemma_one_equality_per_key_value(alt, info, names, key_values);
    answers::lemma_found_index(catalog, cid, n->index_id);
    let raw = choose|raw: Seq<PhysicalExpr>|
        {
            &&& #[trigger] plan::exprs_form(alt.raw_predicates@, raw)
            &&& index_choice(
                m,
                env,
                cid,
                n->IndexScan_table_name,
                names,
                n->index_id,
                key_values,
                alt,
                raw,
                p,
                c,
            )
        };
    lemma_index_is_priced(
        m,
        env,
        cid,
        n->IndexScan_table_name,
        names,
        n->index_id,
        key_values,
        alt,
        raw,
        p,
        c,
    );
    let k = choose|k: int|
        0 <= k < catalog.indexes@.len() && #[trigger] catalog.indexes@[k] == info;
    assert forall|i: int| 0 <= i < raw.len() implies {
        &&& *(#[trigger] raw[i]) matches Expression::Binary { op: BinaryOp::Eq, left, right }
        &&& *left matches Expression::ColRef { id }
        &&& id == info.columns@[i]
        &&& plan::expr_form(*key_values[i], *right)
    } by {
        assert(says_equal(*alt.raw_predicates@[i], info.columns@[i], key_values[i]));
        assert(plan::expr_form(*alt.raw_predicates@[i], *raw[i]));
        reveal_with_fuel(plan::expr_form, 2);
    }
    assert(catalog.indexes@[k] == info);
    raw
}

/// Without a catalog no full scan is weighed: an index scan stays one.
pub proof fn lemma_index_scan_stays<M: PlanCostEstimator>(
    n: LogicalNode,
    won: Winners<M::Cost>,
    m: &M,
    env: &Environment,
    p: PhysicalRelExpr,
    c: M::Cost,
)
    requires
        n is IndexScan,
        alt_right(n, None),
        picked(n, won, m, env, p, c),
    ensures
        p is IndexScan,
        p->index_id == n->index_id,
        c == m.price(p, Seq::empty(), env),
{
}

/// The ways to join are weighed: for an inner join on one equality neither
/// nested loops nor a hash join of the sides that were chosen cost less than
/// what the group of the join is resolved to.
pub proof fn lemma_join_is_weighed<M: PlanCostEstimator>(
    n: LogicalNode,
    won: Winners<M::Cost>,
    m: &M,
    env: &Environment,
    p: PhysicalRelExpr,
    c: M::Cost,
) -> (preds: Rc<Vec<PhysicalExpr>>)
    requires
        costs_ordered::<M::Cost>(),
        n is Join,
        picked(n, won, m, env, p, c),
    ensures
        plan::joined_form(n->Join_predicates@, preds@),
        ({
            let join_type = n->join_type;
            let (left, a) = won[n->left as int]->0;
            let (right, b) = won[n->right as int]->0;
            let nested = PhysicalRelExpr::NestedLoopJoin {
                join_type,
                left,
                right,
                predicates: preds,
                tree_hash: None,
            };
            let hash = PhysicalRelExpr::HashJoin {
                join_type,
                left,
                right,
                predicates: preds,
                tree_hash: None,
            };
            &&& p == nested || p == hash
            &&& c == m.price(p, seq![a, b], env)
            &&& !m.price(nested, seq![a, b], env).less(c)
            &&& join_type == JoinType::Inner && plan::is_single_eq(preds@) ==> !m.price(
                hash,
                seq![a, b],
                env,
            ).less(c)
        }),
{
    let preds = join_predicates_of(p);
    let (left, a) = won[n->left as int]->0;
    let (right, b) = won[n->right as int]->0;
    lemma_join_is_priced(m, env, n->join_type, left, right, preds, seq![a, b], p, c);
    lemma_join_not_dearer(m, env, n->join_type, left, right, preds, seq![a, b], p, c);
    preds
}

/// Nothing in the plan deletes or updates.
pub open spec fn only_reads(l: LogicalRelExpr) -> bool
    decreases l,
{
    match l {
        LogicalRelExpr::Scan { .. } => true,
        LogicalRelExpr::IndexScan { .. } => true,
        LogicalRelExpr::Select { src, .. } => only_reads(*src),
        LogicalRelExpr::Join { left, right, .. } => only_reads(*left) && only_reads(*right),
        LogicalRelExpr::Project { src, .. } => only_reads(*src),
        LogicalRelExpr::OrderBy { src, .. } => only_reads(*src),
        LogicalRelExpr::Aggregate { src, .. } => only_reads(*src),
        LogicalRelExpr::Compute { input, .. } => only_reads(*input),
        LogicalRelExpr::FlatMap { input, func } => only_reads(*input) && only_reads(*func),
        LogicalRelExpr::Rename { src, .. } => only_reads(*src),
        LogicalRelExpr::Delete { .. } => false,
        LogicalRelExpr::Update { .. } => false,
    }
}

/// Every node of a plan that only reads gets a group of its own, those that are
/// alike too. A deletion or an update gets one group with all that is below it.
pub proof fn lemma_one_group_per_node(l: &LogicalRelExpr)
    ensures
        only_reads(*l) ==> plan_size(*l) == pretty::nodes(*l),
        *l is Delete || *l is Update ==> plan_size(*l) == 1,
        plan_size(*l) > 0,
    decreases *l,
{
    match l {
        LogicalRelExpr::Select { src, .. }
        | LogicalRelExpr::Project { src, .. }
        | LogicalRelExpr::OrderBy { src, .. }
        | LogicalRelExpr::Aggregate { src, .. }
        | LogicalRelExpr::Rename { src, .. } => {
            lemma_one_group_per_node(&*src);
        },
        LogicalRelExpr::Compute { input, .. } => {
            lemma_one_group_per_node(&*input);
        },
        LogicalRelExpr::Join { left, right, .. } => {
            lemma_one_group_per_node(&*left);
            lemma_one_group_per_node(&*right);
        },
        LogicalRelExpr::FlatMap { input, func } => {
            lemma_one_group_per_node(&*input);
            lemma_one_group_per_node(&*func);
        },
        _ => {},
    }
}

/// A group that was resolved keeps its plan and its cost, and one that is
/// resolved now gets what is picked for it.
pub proof fn lemma_resolved_stays<M: PlanCostEstimator>(
    nodes: Seq<LogicalNode>,
    before: Winners<M::Cost>,
    after: Winners<M::Cost>,
    m: &M,
    env: &Environment,
    g: int,
)
    requires
        resolves(nodes, before, after, m, env),
        0 <= g < nodes.len(),
    ensures
        before[g] is Some ==> after[g] == before[g],
        before[g] is None && after[g] is Some ==> picked(
            nodes[g],
            after,
            m,
            env,
            *(after[g]->0).0,
            (after[g]->0).1,
        ),
{
    if before[g] is None && after[g] is Some {
        assert(picked_at(nodes, after, m, env, g));
    }
}

} // verus!
