//! The cost-driven optimizer.
use crate::common::ids::{ColumnId, ContainerId};
use crate::common::plan;
use crate::common::plan::{JoinType, LogicalExpr, LogicalRelExpr, PhysicalExpr, PhysicalRelExpr};
use crate::common::table;
use crate::common::table::Catalog;
use crate::optimizer::answers;
use crate::optimizer::cost::{Cost, Environment, PlanCostEstimator};
use crate::optimizer::memo;
use crate::optimizer::memo::{Bill, LogicalNode, Memo, Winners};
use std::rc::Rc;
use vstd::prelude::*;

verus! {

/// A query: its logical plan, and where its columns come from.
pub struct Query {
    plan: Rc<LogicalRelExpr>,
    env: Environment,
}

impl Query {
    pub closed spec fn logical(&self) -> LogicalRelExpr {
        *self.plan
    }

    pub closed spec fn environment(&self) -> Environment {
        self.env
    }

    pub fn new(plan: Rc<LogicalRelExpr>, env: Environment) -> (r: Self)
        ensures
            r.logical() == *plan,
            r.environment() == env,
    {
        Query { plan, env }
    }

    pub fn get_plan(&self) -> (r: &Rc<LogicalRelExpr>)
        ensures
            **r == self.logical(),
    {
        &self.plan
    }

    pub fn get_environment(&self) -> (r: &Environment)
        ensures
            *r == self.environment(),
    {
        &self.env
    }
}

/// A real, cost-driven optimizer: instead of a straight structural
/// translation, it builds a `Memo` and picks each subplan's physical form by
/// estimated cost (join algorithm, and index-scan vs. full-scan).
pub struct CascadesOptimizer<M: PlanCostEstimator> {
    cost_model: M,
    /// Needed to look up which indexes exist on a table when weighing an
    /// `IndexScan` against a full scan.
    catalog: Catalog,
}

/// Group `g` of a memo stands for the plan and was resolved to `p`, and so was
/// every group below it, each to its cheapest candidate.
pub open spec fn chosen_in<M: PlanCostEstimator>(
    nodes: Seq<LogicalNode>,
    won: Winners<M::Cost>,
    g: int,
    m: &M,
    catalog: &Catalog,
    env: &Environment,
    l: LogicalRelExpr,
    p: PhysicalRelExpr,
) -> bool {
    &&& memo::holds(nodes, g, l)
    &&& memo::nodes_ok(nodes)
    &&& won.len() == nodes.len()
    &&& forall|i: int| 0 <= i < nodes.len() ==> memo::alt_right(#[trigger] nodes[i], Some(catalog))
    &&& forall|i: int|
        0 <= i < nodes.len() && won[i] is Some ==> #[trigger] memo::picked_at(nodes, won, m, env, i)
    &&& won[g] matches Some((w, _)) && *w == p
}

/// `p` is what choosing the cheapest candidate for every subplan gives for
/// `l`.
pub open spec fn chosen<M: PlanCostEstimator>(
    m: &M,
    catalog: &Catalog,
    env: &Environment,
    l: LogicalRelExpr,
    p: PhysicalRelExpr,
) -> bool {
    exists|nodes: Seq<LogicalNode>, won: Winners<M::Cost>, g: int| #[trigger]
        chosen_in(nodes, won, g, m, catalog, env, l, p)
}

impl<M: PlanCostEstimator> CascadesOptimizer<M> {
    pub closed spec fn model(&self) -> M {
        self.cost_model
    }

    pub closed spec fn known(&self) -> Catalog {
        self.catalog
    }

    pub fn new(cost_model: M, catalog: Catalog) -> (r: Self)
        ensures
            r.model() == cost_model,
            r.known() == catalog,
    {
        CascadesOptimizer { cost_model, catalog }
    }

    /// The physical plan whose every part is the cheapest of its candidates.
    pub fn optimize(&self, query: &Query) -> (r: Rc<PhysicalRelExpr>)
        ensures
            chosen(&self.model(), &self.known(), &query.environment(), query.logical(), *r),
            implements(&self.known(), query.logical(), *r),
            answers::answers_with(&self.known(), &query.logical(), &*r),
    {
        let mut memo: Memo<M::Cost> = Memo::new();
        let root = memo.add_group_from_plan_with_catalog(query.get_plan(), &self.catalog);
        let (plan, _cost) = memo.resolve_costed(root, &self.cost_model, query.get_environment());
        proof {
            assert(chosen_in(
                memo.nodes(),
                memo.winners(),
                root as int,
                &self.model(),
                &self.known(),
                &query.environment(),
                query.logical(),
                *plan,
            ));
            lemma_chosen_implements(
                &self.model(),
                &self.known(),
                &query.environment(),
                &query.logical(),
                &*plan,
            );
            answers::lemma_answers_with(&self.known(), &query.logical(), &*plan);
        }
        plan
    }
}

/// The predicates say that every keyed column of an index equals its key
/// value.
pub open spec fn equalities_form(
    catalog: &Catalog,
    cid: ContainerId,
    index_id: ContainerId,
    column_names: Seq<ColumnId>,
    key_values: Seq<LogicalExpr>,
    preds: Seq<PhysicalExpr>,
) -> bool {
    &&& memo::find_in(catalog.indexes@.filter(table::indexes_table(cid)), index_id) matches Some(info)
    &&& memo::columns_known(info, column_names, key_values)
    &&& preds.len() == memo::keyed(info, key_values)
    &&& forall|i: int|
        0 <= i < preds.len() ==> plan::expr_form(
            *memo::equality(column_names[info.columns@[i] as int], key_values[i]),
            *(#[trigger] preds[i]),
        )
}

/// `p` is one of the physical forms of `l`: it computes the same, by the same
/// operators over the same inputs, and differs only in the algorithm of a join
/// and in whether rows are looked up through an index or by a full scan with
/// the same equalities.
pub open spec fn implements(catalog: &Catalog, l: LogicalRelExpr, p: PhysicalRelExpr) -> bool
    decreases l,
{
    match l {
        LogicalRelExpr::Scan { cid, table_name, column_names } => p == (PhysicalRelExpr::Scan {
            cid,
            table_name,
            column_names,
            tree_hash: None,
        }),
        LogicalRelExpr::IndexScan { cid, table_name, column_names, index_id, key_values } => {
            ||| memo::is_index_scan(p, cid, table_name, column_names, index_id, key_values@)
            ||| {
                &&& p matches PhysicalRelExpr::Select { src, predicates, tree_hash }
                &&& tree_hash is None
                &&& *src == (PhysicalRelExpr::Scan {
                    cid,
                    table_name,
                    column_names,
                    tree_hash: None,
                })
                &&& equalities_form(
                    catalog,
                    cid,
                    index_id,
                    column_names@,
                    key_values@,
                    predicates@,
                )
            }
        },
        LogicalRelExpr::Select { src, predicates } => {
            &&& p matches PhysicalRelExpr::Select { src: s, predicates: ps, tree_hash }
            &&& tree_hash is None
            &&& implements(catalog, *src, *s)
            &&& plan::exprs_form(predicates@, ps@)
        },
        LogicalRelExpr::Join { join_type, left, right, predicates } => match p {
            PhysicalRelExpr::NestedLoopJoin {
                join_type: jt,
                left: pl,
                right: pr,
                predicates: ps,
                tree_hash,
            } => {
                &&& jt == join_type
                &&& tree_hash is None
                &&& implements(catalog, *left, *pl)
                &&& implements(catalog, *right, *pr)
                &&& plan::joined_form(predicates@, ps@)
            },
            PhysicalRelExpr::HashJoin {
                join_type: jt,
                left: pl,
                right: pr,
                predicates: ps,
                tree_hash,
            } => {
                &&& jt == join_type
                &&& tree_hash is None
                &&& implements(catalog, *left, *pl)
                &&& implements(catalog, *right, *pr)
                &&& plan::joined_form(predicates@, ps@)
                &&& join_type == JoinType::Inner && plan::is_single_eq(ps@)
            },
            _ => false,
        },
        LogicalRelExpr::Project { src, cols } => {
            &&& p matches PhysicalRelExpr::Project { src: s, cols: c, tree_hash }
            &&& tree_hash is None
            &&& implements(catalog, *src, *s)
            &&& c == cols
        },
        LogicalRelExpr::OrderBy { src, cols } => {
            &&& p matches PhysicalRelExpr::Sort { src: s, cols: c, tree_hash }
            &&& tree_hash is None
            &&& implements(catalog, *src, *s)
            &&& c == cols
        },
        LogicalRelExpr::Aggregate { src, group_by, aggrs } => {
            &&& p matches PhysicalRelExpr::HashAggregate { src: s, group_by: g, aggrs: a, tree_hash }
            &&& tree_hash is None
            &&& implements(catalog, *src, *s)
            &&& g == group_by
            &&& a == aggrs
        },
        LogicalRelExpr::Compute { input, exprs } => {
            &&& p matches PhysicalRelExpr::Compute { input: s, exprs: e, tree_hash }
            &&& tree_hash is None
            &&& implements(catalog, *input, *s)
            &&& plan::columns_form(exprs@, e@)
        },
        LogicalRelExpr::FlatMap { input, func } => {
            &&& p matches PhysicalRelExpr::FlatMap { input: s, func: f, tree_hash }
            &&& tree_hash is None
            &&& implements(catalog, *input, *s)
            &&& implements(catalog, *func, *f)
        },
        LogicalRelExpr::Rename { src, src_to_dest } => {
            &&& p matches PhysicalRelExpr::Rename { src: s, src_to_dest: d, tree_hash }
            &&& tree_hash is None
            &&& implements(catalog, *src, *s)
            &&& d == src_to_dest
        },
        LogicalRelExpr::Delete { cid, src } => {
            &&& p matches PhysicalRelExpr::Delete { cid: c, src: s, tree_hash }
            &&& tree_hash is None
            &&& c == cid
            &&& implements(catalog, *src, *s)
            &&& plan::plan_form(l, p)
        },
        LogicalRelExpr::Update { cid, src, assignments } => {
            &&& p matches PhysicalRelExpr::Update { cid: c, src: s, assignments: a, tree_hash }
            &&& tree_hash is None
            &&& c == cid
            &&& implements(catalog, *src, *s)
            &&& a == assignments
            &&& plan::plan_form(l, p)
        },
    }
}

/// What is chosen for a plan is one of its physical forms, whatever the cost
/// model says.
pub proof fn lemma_chosen_implements<M: PlanCostEstimator>(
    m: &M,
    catalog: &Catalog,
    env: &Environment,
    l: &LogicalRelExpr,
    p: &PhysicalRelExpr,
)
    requires
        chosen(m, catalog, env, *l, *p),
    ensures
        implements(catalog, *l, *p),
{
    let (nodes, won, g) = choose|nodes: Seq<LogicalNode>, won: Winners<M::Cost>, g: int| #[trigger]
        chosen_in(nodes, won, g, m, catalog, env, *l, *p);
    lemma_chosen_in_implements(nodes, won, g, m, catalog, env, l, p);
}

/// What is chosen for a group is one of the physical forms of its plan.
proof fn lemma_chosen_in_implements<M: PlanCostEstimator>(
    nodes: Seq<LogicalNode>,
    won: Winners<M::Cost>,
    g: int,
    m: &M,
    catalog: &Catalog,
    env: &Environment,
    l: &LogicalRelExpr,
    p: &PhysicalRelExpr,
)
    requires
        chosen_in(nodes, won, g, m, catalog, env, *l, *p),
    ensures
        implements(catalog, *l, *p),
    decreases *l,
{
    let n = nodes[g];
    assert(memo::node_ok(n, g));
    assert(memo::picked_at(nodes, won, m, env, g));
    assert(memo::alt_right(n, Some(catalog)));
    if memo::children(n).len() > 0 {
        assert(memo::children(n)[0] < g);
    }
    if memo::children(n).len() > 1 {
        assert(memo::children(n)[1] < g);
    }
    match l {
        LogicalRelExpr::IndexScan { cid, table_name, column_names, index_id, key_values } => {
            match n {
                LogicalNode::IndexScan { scan_select_alt: Some(alt), .. } => {
                    if memo::is_scan_select(*p, *cid, *table_name, alt) {
                        lemma_scan_select(catalog, n, p);
                    }
                },
                _ => {},
            }
        },
        LogicalRelExpr::Select { src, .. } => {
            let s = n->Select_src as int;
            assert(memo::picked_at(nodes, won, m, env, s));
            lemma_chosen_in_implements(nodes, won, s, m, catalog, env, &*src, &*(won[s]->0).0);
        },
        LogicalRelExpr::Join { left, right, .. } => {
            let a = n->left as int;
            let b = n->right as int;
            lemma_chosen_in_implements(nodes, won, a, m, catalog, env, &*left, &*(won[a]->0).0);
            lemma_chosen_in_implements(nodes, won, b, m, catalog, env, &*right, &*(won[b]->0).0);
        },
        LogicalRelExpr::Project { src, .. } => {
            let s = n->Project_src as int;
            lemma_chosen_in_implements(nodes, won, s, m, catalog, env, &*src, &*(won[s]->0).0);
        },
        LogicalRelExpr::OrderBy { src, .. } => {
            let s = n->OrderBy_src as int;
            lemma_chosen_in_implements(nodes, won, s, m, catalog, env, &*src, &*(won[s]->0).0);
        },
        LogicalRelExpr::Aggregate { src, .. } => {
            let s = n->Aggregate_src as int;
            lemma_chosen_in_implements(nodes, won, s, m, catalog, env, &*src, &*(won[s]->0).0);
        },
        LogicalRelExpr::Compute { input, .. } => {
            let s = n->Compute_input as int;
            lemma_chosen_in_implements(nodes, won, s, m, catalog, env, &*input, &*(won[s]->0).0);
        },
        LogicalRelExpr::FlatMap { input, func } => {
            let a = n->FlatMap_input as int;
            let b = n->func as int;
            lemma_chosen_in_implements(nodes, won, a, m, catalog, env, &*input, &*(won[a]->0).0);
            lemma_chosen_in_implements(nodes, won, b, m, catalog, env, &*func, &*(won[b]->0).0);
        },
        LogicalRelExpr::Rename { src, .. } => {
            let s = n->Rename_src as int;
            lemma_chosen_in_implements(nodes, won, s, m, catalog, env, &*src, &*(won[s]->0).0);
        },
        LogicalRelExpr::Delete { .. } => {
            lemma_translation_implements(catalog, l, p);
        },
        LogicalRelExpr::Update { .. } => {
            lemma_translation_implements(catalog, l, p);
        },
        _ => {},
    }
}

/// The scan and selection of an index scan has the equalities of its key.
proof fn lemma_scan_select(catalog: &Catalog, n: LogicalNode, p: &PhysicalRelExpr)
    requires
        memo::alt_right(n, Some(catalog)),
        n is IndexScan,
        n->scan_select_alt is Some,
        memo::is_scan_select(*p, n->IndexScan_cid, n->IndexScan_table_name, n->scan_select_alt->0),
    ensures
        equalities_form(
            catalog,
            n->IndexScan_cid,
            n->index_id,
            n->IndexScan_column_names@,
            n->key_values@,
            (p->Select_predicates)@,
        ),
{
    let alt = n->scan_select_alt->0;
    let preds = (p->Select_predicates)@;
    let column_names = n->IndexScan_column_names;
    let key_values = n->key_values@;
    let info = memo::find_in(
        catalog.indexes@.filter(table::indexes_table(n->IndexScan_cid)),
        n->index_id,
    )->0;
    assert(memo::alt_for(alt, info, column_names, key_values));
    assert forall|i: int| 0 <= i < preds.len() implies plan::expr_form(
        *memo::equality(column_names@[info.columns@[i] as int], key_values[i]),
        *(#[trigger] preds[i]),
    ) by {
        assert(plan::expr_form(*alt.plan_predicates@[i], *preds[i]));
    }
}

/// A join that is not an inner join on one equality has no alternative to the
/// nested loop.
pub proof fn lemma_other_joins_nest(catalog: &Catalog, l: LogicalRelExpr, p: PhysicalRelExpr)
    requires
        l is Join,
        implements(catalog, l, p),
        l->Join_join_type == JoinType::Inner ==> !plan::is_single_eq(
            memo::join_predicates_of(p)@,
        ),
    ensures
        p is NestedLoopJoin,
{
}

/// The structural translation of a plan is one of its physical forms too.
pub proof fn lemma_translation_implements(
    catalog: &Catalog,
    l: &LogicalRelExpr,
    p: &PhysicalRelExpr,
)
    requires
        plan::plan_form(*l, *p),
    ensures
        implements(catalog, *l, *p),
    decreases *l,
{
    match (l, p) {
        (LogicalRelExpr::Select { src, .. }, PhysicalRelExpr::Select { src: s, .. }) => {
            lemma_translation_implements(catalog, &*src, &*s);
        },
        (
            LogicalRelExpr::Join { left, right, .. },
            PhysicalRelExpr::HashJoin { left: pl, right: pr, .. },
        ) => {
            lemma_translation_implements(catalog, &*left, &*pl);
            lemma_translation_implements(catalog, &*right, &*pr);
        },
        (
            LogicalRelExpr::Join { left, right, .. },
            PhysicalRelExpr::NestedLoopJoin { left: pl, right: pr, .. },
        ) => {
            lemma_translation_implements(catalog, &*left, &*pl);
            lemma_translation_implements(catalog, &*right, &*pr);
        },
        (LogicalRelExpr::Project { src, .. }, PhysicalRelExpr::Project { src: s, .. }) => {
            lemma_translation_implements(catalog, &*src, &*s);
        },
        (LogicalRelExpr::OrderBy { src, .. }, PhysicalRelExpr::Sort { src: s, .. }) => {
            lemma_translation_implements(catalog, &*src, &*s);
        },
        (LogicalRelExpr::Aggregate { src, .. }, PhysicalRelExpr::HashAggregate { src: s, .. }) => {
            lemma_translation_implements(catalog, &*src, &*s);
        },
        (LogicalRelExpr::Compute { input, .. }, PhysicalRelExpr::Compute { input: s, .. }) => {
            lemma_translation_implements(catalog, &*input, &*s);
        },
        (
            LogicalRelExpr::FlatMap { input, func },
            PhysicalRelExpr::FlatMap { input: s, func: f, .. },
        ) => {
            lemma_translation_implements(catalog, &*input, &*s);
            lemma_translation_implements(catalog, &*func, &*f);
        },
        (LogicalRelExpr::Rename { src, .. }, PhysicalRelExpr::Rename { src: s, .. }) => {
            lemma_translation_implements(catalog, &*src, &*s);
        },
        (LogicalRelExpr::Delete { src, .. }, PhysicalRelExpr::Delete { src: s, .. }) => {
            lemma_translation_implements(catalog, &*src, &*s);
        },
        (LogicalRelExpr::Update { src, .. }, PhysicalRelExpr::Update { src: s, .. }) => {
            lemma_translation_implements(catalog, &*src, &*s);
        },
        _ => {},
    }
}

/// What is chosen for a plan was priced from the bottom up: the price of each of
/// its parts is the one that the model gives it, given the prices of what is
/// below.
pub proof fn lemma_chosen_is_billed<M: PlanCostEstimator>(
    m: &M,
    catalog: &Catalog,
    env: &Environment,
    l: &LogicalRelExpr,
    p: &PhysicalRelExpr,
) -> (bill: Bill<M::Cost>)
    requires
        chosen(m, catalog, env, *l, *p),
    ensures
        memo::billed(m, env, *p, bill),
{
    let (nodes, won, g) = choose|nodes: Seq<LogicalNode>, won: Winners<M::Cost>, g: int| #[trigger]
        chosen_in(nodes, won, g, m, catalog, env, *l, *p);
    memo::lemma_resolved_is_billed(nodes, won, m, env, g)
}

} // verus!
