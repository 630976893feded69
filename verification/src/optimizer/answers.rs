//! What optimized plans answer: the rows of the query, whichever candidates
//! were cheapest.
use crate::common::expr::{BinaryOp, Expression};
use crate::common::field::FieldView;
use crate::common::ids::{ColumnId, ContainerId};
use crate::common::meaning;
use crate::common::meaning::{Row, World};
use crate::common::plan;
use crate::common::plan::{LogicalExpr, LogicalRelExpr, PhysicalExpr, PhysicalRelExpr};
use crate::common::table;
use crate::common::table::{Catalog, IndexInfo};
use crate::optimizer::cascades_optimizer;
use crate::optimizer::memo;
use vstd::prelude::*;

verus! {

/// The world has the indexes of the catalog, each with its key columns.
pub open spec fn has_indexes(w: World, catalog: &Catalog) -> bool {
    forall|i: int|
        0 <= i < catalog.indexes@.len() ==> (w.key_columns)(
            (#[trigger] catalog.indexes@[i]).index_id,
        ) == catalog.indexes@[i].columns@
}

/// Every index scan of a plan has one key value for each column of its index,
/// and names each of its columns once.
pub open spec fn fully_keyed(w: World, l: LogicalRelExpr) -> bool
    decreases l,
{
    match l {
        LogicalRelExpr::Scan { .. } => true,
        LogicalRelExpr::IndexScan { column_names, index_id, key_values, .. } => {
            &&& column_names@.no_duplicates()
            &&& key_values@.len() == (w.key_columns)(index_id).len()
        },
        LogicalRelExpr::Select { src, .. } => fully_keyed(w, *src),
        LogicalRelExpr::Join { left, right, .. } => fully_keyed(w, *left) && fully_keyed(w, *right),
        LogicalRelExpr::Project { src, .. } => fully_keyed(w, *src),
        LogicalRelExpr::OrderBy { src, .. } => fully_keyed(w, *src),
        LogicalRelExpr::Aggregate { src, .. } => fully_keyed(w, *src),
        LogicalRelExpr::Compute { input, .. } => fully_keyed(w, *input),
        LogicalRelExpr::FlatMap { input, func } => fully_keyed(w, *input) && fully_keyed(w, *func),
        LogicalRelExpr::Rename { src, .. } => fully_keyed(w, *src),
        LogicalRelExpr::Delete { .. } => true,
        LogicalRelExpr::Update { .. } => true,
    }
}

/// An index that is found is one of the table's in the catalog, and has the id.
pub proof fn lemma_found_index(catalog: &Catalog, cid: ContainerId, index_id: ContainerId)
    requires
        memo::find_in(catalog.indexes@.filter(table::indexes_table(cid)), index_id) is Some,
    ensures
        ({
            let info = memo::find_in(
                catalog.indexes@.filter(table::indexes_table(cid)),
                index_id,
            )->0;
            &&& catalog.indexes@.contains(info)
            &&& info.table_id == cid
            &&& info.index_id == index_id
        }),
{
    let on_table = catalog.indexes@.filter(table::indexes_table(cid));
    lemma_first_found(on_table, index_id);
    let info = memo::find_in(on_table, index_id)->0;
    let k = choose|k: int| 0 <= k < on_table.len() && #[trigger] on_table[k] == info;
    catalog.indexes@.lemma_filter_contains_rev(table::indexes_table(cid), info);
}

/// Of the indexes with an id the first one is found, and one is found if there
/// is any.
pub proof fn lemma_first_found(infos: Seq<IndexInfo>, index_id: ContainerId)
    ensures
        memo::find_in(infos, index_id) is None <==> forall|i: int|
            0 <= i < infos.len() ==> (#[trigger] infos[i]).index_id != index_id,
        memo::find_in(infos, index_id) matches Some(info) ==> exists|k: int|
            {
                &&& 0 <= k < infos.len()
                &&& #[trigger] infos[k] == info
                &&& info.index_id == index_id
                &&& forall|i: int| 0 <= i < k ==> (#[trigger] infos[i]).index_id != index_id
            },
    decreases infos.len(),
{
    if infos.len() > 0 && infos[0].index_id != index_id {
        let rest = infos.drop_first();
        lemma_first_found(rest, index_id);
        assert forall|i: int| 0 <= i < rest.len() implies rest[i] == #[trigger] infos[i + 1] by {}
        if memo::find_in(rest, index_id) is None {
            assert forall|i: int| 0 <= i < infos.len() implies (#[trigger] infos[i]).index_id
                != index_id by {
                if i > 0 {
                    assert(rest[i - 1].index_id != index_id);
                }
            }
        } else {
            let k = choose|k: int|
                {
                    &&& 0 <= k < rest.len()
                    &&& #[trigger] rest[k] == memo::find_in(rest, index_id)->0
                    &&& forall|i: int| 0 <= i < k ==> (#[trigger] rest[i]).index_id != index_id
                };
            assert forall|i: int| 0 <= i < k + 1 implies (#[trigger] infos[i]).index_id
                != index_id by {
                if i > 0 {
                    assert(rest[i - 1].index_id != index_id);
                }
            }
            assert(infos[k + 1] == memo::find_in(infos, index_id)->0);
        }
    }
}

/// Among the indexes of a table the first one with the id is found.
pub proof fn lemma_first_of_table_found(
    infos: Seq<IndexInfo>,
    cid: ContainerId,
    index_id: ContainerId,
    k: int,
)
    requires
        0 <= k < infos.len(),
        infos[k].table_id == cid,
        infos[k].index_id == index_id,
        forall|j: int|
            0 <= j < k ==> (#[trigger] infos[j]).table_id != cid || infos[j].index_id != index_id,
    ensures
        memo::find_in(infos.filter(table::indexes_table(cid)), index_id) == Some(infos[k]),
    decreases infos.len(),
{
    reveal(Seq::filter);
    let on_table = table::indexes_table(cid);
    let rest = infos.drop_last();
    let kept = rest.filter(on_table);
    if k == infos.len() - 1 {
        if memo::find_in(kept, index_id) is Some {
            lemma_first_found(kept, index_id);
            let info = memo::find_in(kept, index_id)->0;
            let i = choose|i: int| 0 <= i < kept.len() && #[trigger] kept[i] == info;
            rest.lemma_filter_pred(on_table, i);
            rest.lemma_filter_contains_rev(on_table, info);
            let j = choose|j: int| 0 <= j < rest.len() && rest[j] == info;
            assert(infos[j].table_id != cid || infos[j].index_id != index_id);
        }
        lemma_found_behind(kept, infos[k], index_id);
    } else {
        assert forall|j: int| 0 <= j < k implies (#[trigger] rest[j]).table_id != cid
            || rest[j].index_id != index_id by {
            assert(infos[j] == rest[j]);
        }
        lemma_first_of_table_found(rest, cid, index_id, k);
        lemma_found_behind(kept, infos.last(), index_id);
    }
}

/// One index more is found only where none was found before it.
proof fn lemma_found_behind(infos: Seq<IndexInfo>, last: IndexInfo, index_id: ContainerId)
    ensures
        memo::find_in(infos.push(last), index_id) == (match memo::find_in(infos, index_id) {
            Some(info) => Some(info),
            None => if last.index_id == index_id {
                Some(last)
            } else {
                None
            },
        }),
    decreases infos.len(),
{
    reveal_with_fuel(memo::find_in, 2);
    if infos.len() == 0 {
        assert(infos.push(last).drop_first() =~= infos);
    } else {
        lemma_found_behind(infos.drop_first(), last, index_id);
        assert(infos.push(last).drop_first() =~= infos.drop_first().push(last));
    }
}

/// The full scan that replaces an index scan filters by one equality for every
/// column of the index that has a key value, in the order of the columns: the
/// equality of that column of the scan with that key value.
pub proof fn lemma_filters_by_the_key(
    catalog: &Catalog,
    cid: ContainerId,
    index_id: ContainerId,
    column_names: Seq<ColumnId>,
    key_values: Seq<LogicalExpr>,
    preds: Seq<PhysicalExpr>,
) -> (info: IndexInfo)
    requires
        cascades_optimizer::equalities_form(
            catalog,
            cid,
            index_id,
            column_names,
            key_values,
            preds,
        ),
    ensures
        catalog.indexes@.contains(info),
        info.table_id == cid,
        info.index_id == index_id,
        preds.len() <= info.columns@.len(),
        preds.len() <= key_values.len(),
        preds.len() == info.columns@.len() || preds.len() == key_values.len(),
        forall|i: int|
            #![trigger preds[i]]
            0 <= i < preds.len() ==> {
                &&& info.columns@[i] < column_names.len()
                &&& *preds[i] matches Expression::Binary { op: BinaryOp::Eq, left, right }
                &&& *left matches Expression::ColRef { id }
                &&& id == column_names[info.columns@[i] as int]
                &&& plan::expr_form(*key_values[i], *right)
            },
{
    lemma_found_index(catalog, cid, index_id);
    let info = memo::find_in(catalog.indexes@.filter(table::indexes_table(cid)), index_id)->0;
    assert forall|i: int|
        #![trigger preds[i]]
        0 <= i < preds.len() implies {
        &&& info.columns@[i] < column_names.len()
        &&& *preds[i] matches Expression::Binary { op: BinaryOp::Eq, left, right }
        &&& *left matches Expression::ColRef { id }
        &&& id == column_names[info.columns@[i] as int]
        &&& plan::expr_form(*key_values[i], *right)
    } by {
        let e = memo::equality(column_names[info.columns@[i] as int], key_values[i]);
        reveal_with_fuel(plan::expr_form, 2);
        assert(plan::expr_form(*e, *preds[i]));
    }
    info
}

/// A stored row under the column names of a scan has its fields under them.
pub proof fn lemma_named(columns: Seq<ColumnId>, fields: Seq<FieldView>, i: int)
    requires
        columns.no_duplicates(),
        0 <= i < columns.len(),
    ensures
        meaning::named(columns, fields).contains_key(columns[i]),
        meaning::named(columns, fields)[columns[i]] == fields[i],
{
    assert(columns.contains(columns[i]));
    assert(columns[columns.index_of(columns[i])] == columns[i]);
}

/// The rows that pass the filter in place of an index scan are those whose
/// index key equals the key values.
pub proof fn lemma_filter_is_the_key(
    w: World,
    catalog: &Catalog,
    cid: ContainerId,
    index_id: ContainerId,
    column_names: Seq<ColumnId>,
    key_values: Seq<LogicalExpr>,
    preds: Seq<PhysicalExpr>,
    fields: Seq<FieldView>,
    outer: Row,
)
    requires
        cascades_optimizer::equalities_form(
            catalog,
            cid,
            index_id,
            column_names,
            key_values,
            preds,
        ),
        has_indexes(w, catalog),
        column_names.no_duplicates(),
        key_values.len() == (w.key_columns)(index_id).len(),
        meaning::and_tells(w),
        meaning::eq_tells(w),
    ensures
        meaning::phys_all_true(
            w,
            preds,
            meaning::seen(outer, meaning::named(column_names, fields)),
        ) <==> forall|i: int|
            0 <= i < key_values.len() ==> fields[(w.key_columns)(index_id)[i] as int]
                == meaning::value(
                w,
                *(#[trigger] key_values[i]),
                meaning::seen(outer, meaning::named(column_names, fields)),
            ),
{
    let on = meaning::seen(outer, meaning::named(column_names, fields));
    let key = (w.key_columns)(index_id);
    let info = lemma_filters_by_the_key(
        catalog,
        cid,
        index_id,
        column_names,
        key_values,
        preds,
    );
    let k = choose|k: int|
        0 <= k < catalog.indexes@.len() && #[trigger] catalog.indexes@[k] == info;
    assert(key == info.columns@);
    assert forall|i: int| 0 <= i < preds.len() implies (w.truth)(
        meaning::phys_value(w, *(#[trigger] preds[i]), on),
    ) == (fields[key[i] as int] == meaning::value(w, *key_values[i], on)) by {
        lemma_named(column_names, fields, info.columns@[i] as int);
        lemma_equality_value(w, &*preds[i], &*key_values[i], on);
    }
    if meaning::phys_all_true(w, preds, on) {
        assert forall|i: int| 0 <= i < key_values.len() implies fields[key[i] as int]
            == meaning::value(w, *(#[trigger] key_values[i]), on) by {
            assert((w.truth)(meaning::phys_value(w, *preds[i], on)));
        }
    }
    if forall|i: int|
        0 <= i < key_values.len() ==> fields[key[i] as int] == meaning::value(
            w,
            *(#[trigger] key_values[i]),
            on,
        ) {
        assert forall|i: int| 0 <= i < preds.len() implies (w.truth)(
            meaning::phys_value(w, *(#[trigger] preds[i]), on),
        ) by {
            assert(fields[key[i] as int] == meaning::value(w, *key_values[i], on));
        }
    }
}

/// The equality of a column with a key value is true where the column has that
/// value.
proof fn lemma_equality_value(
    w: World,
    p: &Expression<PhysicalRelExpr>,
    key: &Expression<LogicalRelExpr>,
    on: Row,
)
    requires
        ({
            &&& *p matches Expression::Binary { op: BinaryOp::Eq, left, right }
            &&& *left is ColRef
            &&& plan::expr_form(*key, *right)
        }),
        meaning::and_tells(w),
        meaning::eq_tells(w),
    ensures
        (w.truth)(meaning::phys_value(w, *p, on)) == (on[(*p->left)->id] == meaning::value(
            w,
            *key,
            on,
        )),
{
    reveal_with_fuel(meaning::phys_value, 2);
    if let Expression::Binary { right, .. } = p {
        meaning::lemma_same_value(w, key, &*right, on);
    }
}

/// The full scan that replaces an index scan gives its rows.
proof fn lemma_scan_finds(
    w: World,
    catalog: &Catalog,
    cid: ContainerId,
    index_id: ContainerId,
    column_names: Seq<ColumnId>,
    key_values: Seq<LogicalExpr>,
    preds: Seq<PhysicalExpr>,
    stored: Seq<Seq<FieldView>>,
    outer: Row,
)
    requires
        cascades_optimizer::equalities_form(
            catalog,
            cid,
            index_id,
            column_names,
            key_values,
            preds,
        ),
        has_indexes(w, catalog),
        column_names.no_duplicates(),
        key_values.len() == (w.key_columns)(index_id).len(),
        meaning::and_tells(w),
        meaning::eq_tells(w),
    ensures
        meaning::phys_true_on(
            w,
            preds,
            stored.map_values(|f: Seq<FieldView>| meaning::named(column_names, f)),
            outer,
        ) == meaning::key_on(w, index_id, key_values, column_names, stored, outer),
    decreases stored.len(),
{
    let rs = stored.map_values(|f: Seq<FieldView>| meaning::named(column_names, f));
    if stored.len() > 0 {
        let rest = stored.drop_last();
        lemma_scan_finds(
            w,
            catalog,
            cid,
            index_id,
            column_names,
            key_values,
            preds,
            rest,
            outer,
        );
        lemma_filter_is_the_key(
            w,
            catalog,
            cid,
            index_id,
            column_names,
            key_values,
            preds,
            stored.last(),
            outer,
        );
        assert(rs.drop_last() =~= rest.map_values(
            |f: Seq<FieldView>| meaning::named(column_names, f),
        ));
        assert(rs.last() == meaning::named(column_names, stored.last()));
        assert(meaning::phys_all_true(w, preds, meaning::seen(outer, rs.last()))
            == meaning::has_key(
            w,
            index_id,
            key_values,
            column_names,
            stored.last(),
            outer,
        ));
    }
}

/// An optimized plan gives the rows of its query, the same ones in the same
/// order, whatever is stored and whatever the operators do: which algorithm
/// joins, and whether rows are looked up in an index or by a full scan, makes
/// no difference to the answer.
pub proof fn lemma_optimized_answers(
    w: World,
    catalog: &Catalog,
    l: &LogicalRelExpr,
    p: &PhysicalRelExpr,
    outer: Row,
)
    requires
        cascades_optimizer::implements(catalog, *l, *p),
        has_indexes(w, catalog),
        fully_keyed(w, *l),
        meaning::and_tells(w),
        meaning::eq_tells(w),
    ensures
        meaning::phys_rows(w, p, outer) == meaning::rows(w, l, outer),
    decreases *l, 0int,
{
    match l {
        LogicalRelExpr::IndexScan { cid, table_name, column_names, index_id, key_values } => {
            match p {
                PhysicalRelExpr::Select { src, predicates, .. } => {
                    lemma_scan_finds(
                        w,
                        catalog,
                        *cid,
                        *index_id,
                        column_names@,
                        key_values@,
                        predicates@,
                        (w.stored)(*cid, table_name@),
                        outer,
                    );
                    assert(meaning::phys_rows(w, &**src, outer) == meaning::scanned(
                        w,
                        *cid,
                        table_name@,
                        column_names@,
                    ));
                },
                _ => {
                    meaning::lemma_same_rows(w, l, p, outer);
                },
            }
        },
        LogicalRelExpr::Select { src, predicates } => {
            if let PhysicalRelExpr::Select { src: s, predicates: ps, .. } = p {
                lemma_optimized_answers(w, catalog, &*src, &*s, outer);
                meaning::lemma_same_true_on(
                    w,
                    predicates@,
                    ps@,
                    meaning::rows(w, &**src, outer),
                    outer,
                );
            }
        },
        LogicalRelExpr::Join { left, right, predicates, .. } => {
            let rs = meaning::pairs(
                meaning::rows(w, &**left, outer),
                meaning::rows(w, &**right, outer),
            );
            match p {
                PhysicalRelExpr::HashJoin { left: pl, right: pr, predicates: ps, .. } => {
                    lemma_optimized_answers(w, catalog, &*left, &*pl, outer);
                    lemma_optimized_answers(w, catalog, &*right, &*pr, outer);
                    meaning::lemma_same_condition(w, predicates@, ps@, rs, outer);
                },
                PhysicalRelExpr::NestedLoopJoin { left: pl, right: pr, predicates: ps, .. } => {
                    lemma_optimized_answers(w, catalog, &*left, &*pl, outer);
                    lemma_optimized_answers(w, catalog, &*right, &*pr, outer);
                    meaning::lemma_same_condition(w, predicates@, ps@, rs, outer);
                },
                _ => {},
            }
        },
        LogicalRelExpr::Project { src, .. } => {
            lemma_optimized_answers(w, catalog, &*src, &*p->Project_src, outer);
        },
        LogicalRelExpr::OrderBy { src, .. } => {
            lemma_optimized_answers(w, catalog, &*src, &*p->Sort_src, outer);
        },
        LogicalRelExpr::Aggregate { src, .. } => {
            lemma_optimized_answers(w, catalog, &*src, &*p->HashAggregate_src, outer);
        },
        LogicalRelExpr::Compute { input, exprs } => {
            if let PhysicalRelExpr::Compute { input: s, exprs: es, .. } = p {
                lemma_optimized_answers(w, catalog, &*input, &*s, outer);
                meaning::lemma_same_computed(
                    w,
                    exprs@,
                    es@,
                    meaning::rows(w, &**input, outer),
                    outer,
                );
            }
        },
        LogicalRelExpr::FlatMap { input, func } => {
            if let PhysicalRelExpr::FlatMap { input: s, func: f, .. } = p {
                lemma_optimized_answers(w, catalog, &*input, &*s, outer);
                lemma_optimized_flat(
                    w,
                    catalog,
                    &*func,
                    &*f,
                    meaning::rows(w, &**input, outer),
                    outer,
                );
            }
        },
        LogicalRelExpr::Rename { src, .. } => {
            lemma_optimized_answers(w, catalog, &*src, &*p->Rename_src, outer);
        },
        _ => {
            meaning::lemma_same_rows(w, l, p, outer);
        },
    }
}

/// A physical plan answers a logical one, given the indexes of a catalog: it
/// gives its rows in every world that has these indexes.
pub open spec fn answers_with(
    catalog: &Catalog,
    l: &LogicalRelExpr,
    p: &PhysicalRelExpr,
) -> bool {
    forall|w: World, outer: Row|
        has_indexes(w, catalog) && fully_keyed(w, *l) && meaning::and_tells(w) && meaning::eq_tells(
            w,
        ) ==> #[trigger] meaning::phys_rows(w, p, outer) == meaning::rows(w, l, outer)
}

/// Every physical form of a plan answers it.
pub proof fn lemma_answers_with(catalog: &Catalog, l: &LogicalRelExpr, p: &PhysicalRelExpr)
    requires
        cascades_optimizer::implements(catalog, *l, *p),
    ensures
        answers_with(catalog, l, p),
{
    assert forall|w: World, outer: Row|
        has_indexes(w, catalog) && fully_keyed(w, *l) && meaning::and_tells(w) && meaning::eq_tells(
            w,
        ) implies #[trigger] meaning::phys_rows(w, p, outer) == meaning::rows(w, l, outer) by {
        lemma_optimized_answers(w, catalog, l, p, outer);
    }
}

/// Within every row, an optimized plan gives the rows of its query.
proof fn lemma_optimized_flat(
    w: World,
    catalog: &Catalog,
    l: &LogicalRelExpr,
    p: &PhysicalRelExpr,
    rs: Seq<Row>,
    outer: Row,
)
    requires
        cascades_optimizer::implements(catalog, *l, *p),
        has_indexes(w, catalog),
        fully_keyed(w, *l),
        meaning::and_tells(w),
        meaning::eq_tells(w),
    ensures
        meaning::phys_flat(w, p, rs, outer) == meaning::flat(w, l, rs, outer),
    decreases *l, rs.len() + 1,
{
    if rs.len() > 0 {
        lemma_optimized_flat(w, catalog, l, p, rs.drop_last(), outer);
        lemma_optimized_answers(w, catalog, l, p, meaning::seen(outer, rs.last()));
    }
}

} // verus!
