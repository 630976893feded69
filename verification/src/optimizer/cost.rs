//! What the optimizer needs from a cost model.
use crate::common::ids::{ColumnId, ContainerId};
use crate::common::plan::{PhysicalExpr, PhysicalRelExpr};
use std::collections::HashMap;
use vstd::prelude::*;

verus! {

/// A cost that can be held against another one. What `less` means is left to
/// each kind of cost.
pub trait Cost: Copy + Default {
    /// This cost is less than the other.
    open spec fn less(self, other: Self) -> bool {
        arbitrary()
    }

    /// Whether this cost is less than the other.
    fn is_less(&self, other: &Self) -> (r: bool)
        ensures
            r == self.less(*other),
    ;
}

/// Where a column comes from.
#[derive(Clone, Copy, Debug, PartialEq, Eq, Structural)]
pub enum OriginExpression {
    /// A column of a plan, by its id.
    DerivedColRef { col_id: ColumnId },
    /// A column of a base table, by its position.
    BaseCidAndIndex { cid: ContainerId, index: ColumnId },
}

/// What is known of the columns of a query: where they come from.
pub struct Environment {
    origins: HashMap<ColumnId, OriginExpression>,
}

impl View for Environment {
    type V = Map<ColumnId, OriginExpression>;

    closed spec fn view(&self) -> Map<ColumnId, OriginExpression> {
        self.origins@
    }
}

impl Environment {
    /// Nothing is known.
    pub fn new() -> (r: Self)
        ensures
            r@ == Map::<ColumnId, OriginExpression>::empty(),
    {
        Environment { origins: HashMap::new() }
    }

    /// Records where a column comes from.
    pub fn set_origin(&mut self, col_id: ColumnId, origin: OriginExpression)
        ensures
            final(self)@ == old(self)@.insert(col_id, origin),
    {
        broadcast use vstd::std_specs::hash::group_hash_axioms;

        self.origins.insert(col_id, origin);
    }

    /// Where a column comes from; the column itself where that is not known.
    pub fn get_origin(&self, expr: &OriginExpression) -> (r: OriginExpression)
        ensures
            r == origin_in(self@, *expr),
    {
        broadcast use vstd::std_specs::hash::group_hash_axioms;

        match expr {
            OriginExpression::DerivedColRef { col_id } => match self.origins.get(col_id) {
                Some(origin) => *origin,
                None => *expr,
            },
            OriginExpression::BaseCidAndIndex { .. } => *expr,
        }
    }
}

/// Where a column comes from; the column itself where that is not known.
pub open spec fn origin_in(
    origins: Map<ColumnId, OriginExpression>,
    expr: OriginExpression,
) -> OriginExpression {
    match expr {
        OriginExpression::DerivedColRef { col_id } => if origins.contains_key(col_id) {
            origins[col_id]
        } else {
            expr
        },
        OriginExpression::BaseCidAndIndex { .. } => expr,
    }
}

/// What `Memo`/`CascadesOptimizer` need from a cost model: given a candidate
/// physical implementation of a node and the already-computed costs of its
/// children, produce this node's own cost. A model prices the same plan the
/// same way every time; how it does so is left to each model.
pub trait PlanCostEstimator: Sized {
    type Cost: Cost;

    /// What `cost_of` answers.
    open spec fn price(
        &self,
        node: PhysicalRelExpr,
        child_costs: Seq<Self::Cost>,
        env: &Environment,
    ) -> Self::Cost {
        arbitrary()
    }

    /// What `cost_of_index_probe` answers.
    open spec fn probe_price(
        &self,
        cid: ContainerId,
        predicates: Seq<PhysicalExpr>,
        env: &Environment,
    ) -> Self::Cost {
        arbitrary()
    }

    /// What `cost_of_full_scan_with_filter` answers.
    open spec fn scan_price(
        &self,
        cid: ContainerId,
        raw_predicates: Seq<PhysicalExpr>,
    ) -> Self::Cost {
        arbitrary()
    }

    /// The cost of a candidate, given the costs of its children. `env`
    /// resolves a plan's (possibly renamed) column ids back to the base table
    /// column they originated from.
    fn cost_of(
        &self,
        node: &PhysicalRelExpr,
        child_costs: &[Self::Cost],
        env: &Environment,
    ) -> (r: Self::Cost)
        ensures
            r == self.price(*node, child_costs@, env),
    ;

    /// Cost of probing an index on `cid` for rows matching `predicates` (the
    /// equality conditions rebuilt from the catalog's `IndexInfo`), used to
    /// price an `IndexScan` candidate.
    fn cost_of_index_probe(
        &self,
        cid: ContainerId,
        predicates: &[PhysicalExpr],
        env: &Environment,
    ) -> (r: Self::Cost)
        ensures
            r == self.probe_price(cid, predicates@, env),
    ;

    /// Cost of a full scan of `cid` followed by filtering on `predicates`
    /// (already raw-indexed, like those of `cost_of_index_probe`): the other
    /// side of the comparison of an index scan and a full scan.
    fn cost_of_full_scan_with_filter(
        &self,
        cid: ContainerId,
        raw_predicates: &[PhysicalExpr],
    ) -> (r: Self::Cost)
        ensures
            r == self.scan_price(cid, raw_predicates@),
    ;
}

/// The origin that was recorded for a column is found, and those of other
/// columns stay as they were. A column without one is its own origin, and so is
/// a column of a base table.
pub proof fn lemma_recorded_is_found(
    origins: Map<ColumnId, OriginExpression>,
    c: ColumnId,
    d: ColumnId,
    origin: OriginExpression,
    cid: ContainerId,
)
    ensures
        origin_in(origins.insert(c, origin), OriginExpression::DerivedColRef { col_id: c })
            == origin,
        d != c ==> origin_in(
            origins.insert(c, origin),
            OriginExpression::DerivedColRef { col_id: d },
        ) == origin_in(origins, OriginExpression::DerivedColRef { col_id: d }),
        !origins.contains_key(c) ==> origin_in(
            origins,
            OriginExpression::DerivedColRef { col_id: c },
        ) == (OriginExpression::DerivedColRef { col_id: c }),
        origin_in(origins, OriginExpression::BaseCidAndIndex { cid, index: c })
            == (OriginExpression::BaseCidAndIndex { cid, index: c }),
{
}

} // verus!
