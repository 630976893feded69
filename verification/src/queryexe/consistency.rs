//! What holds between a table and its indexes: an index has one entry for
//! every row of its table and no other, whatever is inserted, updated or
//! deleted, so that a lookup finds exactly the rows that a scan would.
use crate::common::error::CrustyError;
use crate::common::field::{Field, FieldView};
use crate::common::ids::{ColumnId, ContainerId, TransactionId, ValueId};
use crate::common::record;
use crate::common::table::IndexInfo;
use crate::common::tuple;
use crate::common::tuple::TupleView;
use crate::heapstore::buffer_pool::BufferPool;
use crate::heapstore::heap_file;
use crate::heapstore::page;
use crate::heapstore::page::PageView;
use crate::index::codec;
use crate::index::index_manager;
use crate::index::index_manager::IndexId;
use crate::index::node;
use crate::index::node::Item;
use crate::queryexe::delete;
use crate::queryexe::index_scan;
use crate::queryexe::index_scan::IndexScan;
use crate::queryexe::maintenance;
use crate::queryexe::managers;
use crate::queryexe::managers::Managers;
use crate::queryexe::op_iterator::OpIterator;
use crate::queryexe::update;
use vstd::multiset::Multiset;
use vstd::prelude::*;

verus! {

/// The rows of a table, in the order in which a scan meets them.
pub open spec fn rows_of(bp: &BufferPool, table_id: ContainerId) -> Seq<(Seq<u8>, ValueId)> {
    heap_file::values_from(table_id, bp.pages(table_id), 1, 0)
}

/// Every row has the given columns.
pub open spec fn all_keyed(rows: Seq<(Seq<u8>, ValueId)>, columns: Seq<ColumnId>) -> bool {
    forall|i: int|
        0 <= i < rows.len() ==> index_manager::row_key((#[trigger] rows[i]).0, columns) is Some
}

/// The index is live and has one entry for every row of the table, under the
/// key and the id of the row, and no other entry.
pub open spec fn mirrors(m: &Managers, info: IndexInfo) -> bool {
    let rows = rows_of(&m.bp, info.table_id);
    &&& m.im.has(info.index_id)
    &&& all_keyed(rows, info.columns@)
    &&& m.im.entries(&m.bp, info.index_id) == index_manager::row_items(
        rows,
        info.columns@,
        rows.len() as int,
    )
}

/// The id names a row of the table that is stored as `bytes`.
pub open spec fn stored_row(
    bp: &BufferPool,
    table_id: ContainerId,
    id: ValueId,
    bytes: Seq<u8>,
) -> bool {
    heap_file::names_value(table_id, bp.pages(table_id), 1, 0, (bytes, id))
}

/// A row of the table stands under the id and has the key.
pub open spec fn row_has_key(
    bp: &BufferPool,
    table_id: ContainerId,
    columns: Seq<ColumnId>,
    item: Item,
) -> bool {
    match managers::stored_at(bp, item.1) {
        Some(bytes) => {
            &&& stored_row(bp, table_id, item.1, bytes)
            &&& index_manager::row_key(bytes, columns) == Some(item.0)
        },
        None => false,
    }
}

/// Every stored row has the given columns.
spec fn all_stored_keyed(bp: &BufferPool, table_id: ContainerId, columns: Seq<ColumnId>) -> bool {
    forall|id: ValueId, bytes: Seq<u8>| #[trigger]
        stored_row(bp, table_id, id, bytes) ==> index_manager::row_key(bytes, columns) is Some
}

/// Each item counts once where a row has its key, else not at all.
spec fn counts(
    bp: &BufferPool,
    table_id: ContainerId,
    columns: Seq<ColumnId>,
    entries: Multiset<Item>,
) -> bool {
    forall|item: Item| #[trigger]
        entries.count(item) == (if row_has_key(bp, table_id, columns, item) {
            1nat
        } else {
            0nat
        })
}

/// Some of the first `k` rows has the item's key and id.
spec fn among(rows: Seq<(Seq<u8>, ValueId)>, columns: Seq<ColumnId>, k: int, item: Item) -> bool {
    exists|i: int|
        0 <= i < k && (#[trigger] rows[i]).1 == item.1 && index_manager::row_key(rows[i].0, columns)->0
            == item.0
}

/// Rows with distinct ids give each of their items once.
proof fn lemma_row_items_count(
    rows: Seq<(Seq<u8>, ValueId)>,
    columns: Seq<ColumnId>,
    k: int,
    item: Item,
)
    requires
        0 <= k <= rows.len(),
        forall|i: int, j: int|
            0 <= i < j < rows.len() ==> #[trigger] heap_file::ids_ascend(rows[i].1, rows[j].1),
    ensures
        index_manager::row_items(rows, columns, k).count(item) == (if among(rows, columns, k, item) {
            1nat
        } else {
            0nat
        }),
    decreases k,
{
    if k > 0 {
        lemma_row_items_count(rows, columns, k - 1, item);
        let last: Item = (index_manager::row_key(rows[k - 1].0, columns)->0, rows[k - 1].1);
        if last == item {
            assert(among(rows, columns, k, item));
            if among(rows, columns, k - 1, item) {
                let i = choose|i: int|
                    0 <= i < k - 1 && (#[trigger] rows[i]).1 == item.1 && index_manager::row_key(
                        rows[i].0,
                        columns,
                    )->0 == item.0;
                assert(heap_file::ids_ascend(rows[i].1, rows[k - 1].1));
            }
        } else if among(rows, columns, k, item) {
            let i = choose|i: int|
                0 <= i < k && (#[trigger] rows[i]).1 == item.1 && index_manager::row_key(
                    rows[i].0,
                    columns,
                )->0 == item.0;
            assert(i < k - 1);
        }
    }
}

/// A mirror, told by what is stored where.
proof fn lemma_mirror_counts(m: &Managers, info: IndexInfo)
    requires
        m.bp.wf(),
    ensures
        mirrors(m, info) <==> {
            &&& m.im.has(info.index_id)
            &&& all_stored_keyed(&m.bp, info.table_id, info.columns@)
            &&& counts(
                &m.bp,
                info.table_id,
                info.columns@,
                m.im.entries(&m.bp, info.index_id),
            )
        },
{
    let t = info.table_id;
    let columns = info.columns@;
    let pages = m.bp.pages(t);
    let rows = rows_of(&m.bp, t);
    m.bp.lemma_limits(t);
    heap_file::lemma_walk(t, pages, 1, 0);
    let items = index_manager::row_items(rows, columns, rows.len() as int);
    if all_keyed(rows, columns) {
        assert forall|id: ValueId, bytes: Seq<u8>| #[trigger]
            stored_row(&m.bp, t, id, bytes) implies index_manager::row_key(bytes, columns) is Some by {
            let i = choose|i: int| 0 <= i < rows.len() && rows[i] == (bytes, id);
            assert(index_manager::row_key(rows[i].0, columns) is Some);
        }
    }
    if all_stored_keyed(&m.bp, t, columns) {
        assert forall|i: int| 0 <= i < rows.len() implies index_manager::row_key(
            (#[trigger] rows[i]).0,
            columns,
        ) is Some by {
            assert(stored_row(&m.bp, t, rows[i].1, rows[i].0));
        }
    }
    if all_keyed(rows, columns) {
        assert forall|item: Item| #[trigger] items.count(item) == (if row_has_key(
            &m.bp,
            t,
            columns,
            item,
        ) {
            1nat
        } else {
            0nat
        }) by {
            lemma_row_items_count(rows, columns, rows.len() as int, item);
            if among(rows, columns, rows.len() as int, item) {
                let i = choose|i: int|
                    0 <= i < rows.len() && (#[trigger] rows[i]).1 == item.1
                        && index_manager::row_key(rows[i].0, columns)->0 == item.0;
                assert(stored_row(&m.bp, t, rows[i].1, rows[i].0));
            }
            if row_has_key(&m.bp, t, columns, item) {
                let bytes = managers::stored_at(&m.bp, item.1)->0;
                assert(heap_file::names_value(t, pages, 1, 0, (bytes, item.1)));
                let i = choose|i: int| 0 <= i < rows.len() && rows[i] == (bytes, item.1);
                assert(rows[i].1 == item.1);
            }
        }
        let entries = m.im.entries(&m.bp, info.index_id);
        if counts(&m.bp, t, columns, entries) {
            assert forall|item: Item| #[trigger] entries.count(item) == items.count(item) by {}
            assert(entries =~= items);
        }
    }
}

/// A lookup finds exactly the rows of the table that have the key, and each
/// of them once: what comes through the index is what a full scan with the
/// same equality would keep.
pub proof fn lemma_lookup_finds_the_rows(
    m: &Managers,
    info: IndexInfo,
    key: Seq<FieldView>,
    ids: Seq<ValueId>,
)
    requires
        m.wf(),
        mirrors(m, info),
        index_scan::found_in(m, info.index_id, key, ids),
    ensures
        ids.no_duplicates(),
        forall|id: ValueId| #[trigger]
            ids.contains(id) <==> row_has_key(&m.bp, info.table_id, info.columns@, (key, id)),
{
    lemma_mirror_counts(m, info);
    broadcast use vstd::seq_lib::group_to_multiset_ensures;

    assert forall|id: ValueId| #[trigger]
        ids.contains(id) <==> row_has_key(&m.bp, info.table_id, info.columns@, (key, id)) by {
        assert(ids.to_multiset().count(id) == m.im.entries(&m.bp, info.index_id).count((key, id)));
    }
    assert forall|i: int, j: int| 0 <= i < j < ids.len() implies ids[i] != ids[j] by {
        if ids[i] == ids[j] {
            lemma_two_count_twice(ids, i, j);
            assert(ids.to_multiset().count(ids[i]) == m.im.entries(&m.bp, info.index_id).count(
                (key, ids[i]),
            ));
        }
    }
}

/// A lookup finds the rows of the table whose fields at the columns of the index
/// are those of the key: the id of every such row, and no other id, each once.
pub proof fn lemma_lookup_finds_the_fields(
    m: &Managers,
    info: IndexInfo,
    key: Seq<FieldView>,
    ids: Seq<ValueId>,
)
    requires
        m.wf(),
        mirrors(m, info),
        index_scan::found_in(m, info.index_id, key, ids),
    ensures
        ids.no_duplicates(),
        forall|row: TupleView| #[trigger]
            is_row_of(&m.bp, info.table_id, row) ==> (ids.contains(row.value_id->0)
                <==> tuple::fields_match(row.fields, info.columns@, key)),
        forall|id: ValueId|
            ids.contains(id) ==> exists|row: TupleView|
                row.value_id == Some(id) && #[trigger] is_row_of(&m.bp, info.table_id, row),
{
    lemma_lookup_finds_the_rows(m, info, key, ids);
    lemma_mirror_counts(m, info);
    assert forall|row: TupleView| #[trigger] is_row_of(&m.bp, info.table_id, row) implies (
    ids.contains(row.value_id->0) <==> tuple::fields_match(row.fields, info.columns@, key)) by {
        let id = row.value_id->0;
        let bytes = managers::stored_at(&m.bp, id)->0;
        assert(stored_row(&m.bp, info.table_id, id, bytes));
        assert(index_manager::row_key(bytes, info.columns@) is Some);
        tuple::lemma_key_fields(row.fields, info.columns@, key);
    }
    assert forall|id: ValueId| ids.contains(id) implies exists|row: TupleView|
        row.value_id == Some(id) && #[trigger] is_row_of(&m.bp, info.table_id, row) by {
        let bytes = managers::stored_at(&m.bp, id)->0;
        assert(row_has_key(&m.bp, info.table_id, info.columns@, (key, id)));
        let row = TupleView { value_id: Some(id), fields: tuple::tuple_of(bytes)->0 };
        assert(is_row_of(&m.bp, info.table_id, row));
    }
}

/// An index scan gives the rows of the table whose fields at the columns of the
/// index are those of its key: every such row and no other, each once.
pub proof fn lemma_index_scan_gives_the_rows(
    m: &Managers,
    info: IndexInfo,
    scan: &IndexScan,
    rows: Seq<TupleView>,
)
    requires
        m.wf(),
        mirrors(m, info),
        scan.index() == info.index_id,
        scan.opens_with(m, rows),
    ensures
        rows.no_duplicates(),
        forall|row: TupleView| #[trigger]
            rows.contains(row) <==> {
                &&& is_row_of(&m.bp, info.table_id, row)
                &&& tuple::fields_match(row.fields, info.columns@, scan.lookup_key())
            },
{
    let key = scan.lookup_key();
    let ids = choose|ids: Seq<ValueId>|
        {
            &&& rows == #[trigger] index_scan::rows_at(m, ids)
            &&& index_scan::found_in(m, scan.index(), key, ids)
        };
    lemma_lookup_finds_the_fields(m, info, key, ids);
    lemma_lookup_finds_the_rows(m, info, key, ids);
    assert forall|i: int| 0 <= i < ids.len() implies is_row_of(
        &m.bp,
        info.table_id,
        #[trigger] rows[i],
    ) by {
        assert(ids.contains(ids[i]));
        assert(row_has_key(&m.bp, info.table_id, info.columns@, (key, ids[i])));
    }
    assert forall|row: TupleView| #[trigger] rows.contains(row) <==> {
        &&& is_row_of(&m.bp, info.table_id, row)
        &&& tuple::fields_match(row.fields, info.columns@, key)
    } by {
        if rows.contains(row) {
            let i = choose|i: int| 0 <= i < rows.len() && rows[i] == row;
            assert(is_row_of(&m.bp, info.table_id, rows[i]));
            assert(ids.contains(ids[i]));
        }
        if is_row_of(&m.bp, info.table_id, row) && tuple::fields_match(
            row.fields,
            info.columns@,
            key,
        ) {
            let id = row.value_id->0;
            assert(ids.contains(id));
            let i = choose|i: int| 0 <= i < ids.len() && ids[i] == id;
            assert(rows[i] == row);
        }
    }
    assert forall|i: int, j: int| 0 <= i < j < rows.len() implies rows[i] != rows[j] by {
        assert(ids[i] != ids[j]);
        assert(rows[i].value_id == Some(ids[i]));
        assert(rows[j].value_id == Some(ids[j]));
    }
}

/// A deleted row is gone: nothing is stored under its id any more.
pub proof fn lemma_delete_removes_the_row(
    before: &Managers,
    after: &Managers,
    infos: Seq<IndexInfo>,
    row: TupleView,
)
    requires
        delete::row_deleted(before, after, infos, row),
    ensures
        row.value_id is Some,
        managers::stored_at(&before.bp, row.value_id->0) is Some,
        managers::stored_at(&after.bp, row.value_id->0) is None,
        forall|other: TupleView|
            other.value_id == row.value_id ==> !#[trigger] is_row_of(
                &after.bp,
                (row.value_id->0).container_id,
                other,
            ),
{
    let id = row.value_id->0;
    managers::lemma_deleted_is_gone(
        before.bp.pages(id.container_id),
        id.page_id->0,
        id.slot_id->0,
    );
}

/// An updated row is stored with the assigned values: what is read back under
/// the id that it has now holds, in every field that some assignment names, the
/// value of the last assignment that names it, and in every other field the old
/// value. Where the row moved, nothing is stored under its old id any more.
pub proof fn lemma_update_stores_the_values(
    before: &Managers,
    after: &Managers,
    infos: Seq<IndexInfo>,
    assignments: Seq<(usize, Field)>,
    row: TupleView,
    tid: TransactionId,
    new_id: ValueId,
) -> (stored: TupleView)
    requires
        before.wf(),
        update::row_updated(before, after, infos, assignments, row, tid, new_id),
        is_row_of(&before.bp, (row.value_id->0).container_id, row),
    ensures
        stored.value_id == Some(new_id),
        is_row_of(&after.bp, (row.value_id->0).container_id, stored),
        update::takes(
            row,
            TupleView { value_id: row.value_id, fields: stored.fields },
            assignments,
        ),
        Some(new_id) != row.value_id ==> managers::stored_at(&after.bp, row.value_id->0) is None,
{
    let id = row.value_id->0;
    let t = id.container_id;
    let new_fields = update::assigned_row(row, assignments).fields;
    let bytes = record::cbor_bytes(tuple::tuple_record(new_fields));
    assert(!before.im.has(t));
    managers::lemma_updated_is_read(&before.bp, id, bytes, new_id, after.bp.pages(t));
    update::lemma_last_assignment_holds(row, assignments);
    let stored = TupleView { value_id: Some(new_id), fields: new_fields };
    assert(stored_row(&after.bp, t, new_id, bytes));
    stored
}

/// What stands in two places counts twice.
proof fn lemma_two_count_twice(ids: Seq<ValueId>, i: int, j: int)
    requires
        0 <= i < j < ids.len(),
        ids[i] == ids[j],
    ensures
        ids.to_multiset().count(ids[i]) >= 2,
{
    broadcast use vstd::seq_lib::group_to_multiset_ensures;

    let rest = ids.remove(j);
    assert(rest[i] == ids[i]);
    assert(rest.contains(ids[i]));
    assert(rest.to_multiset().count(ids[i]) > 0);
    assert(ids.to_multiset().remove(ids[j]) =~= rest.to_multiset());
}

/// No other of the indexes is index `k` again.
pub open spec fn listed_once(infos: Seq<IndexInfo>, k: int) -> bool {
    &&& 0 <= k < infos.len()
    &&& forall|j: int|
        0 <= j < infos.len() && j != k ==> (#[trigger] infos[j]).index_id != infos[k].index_id
}

/// The index is none of these.
pub open spec fn unlisted(infos: Seq<IndexInfo>, index_id: IndexId) -> bool {
    forall|j: int| 0 <= j < infos.len() ==> (#[trigger] infos[j]).index_id != index_id
}

/// The row is the one that is stored in the table under its id.
pub open spec fn is_row_of(bp: &BufferPool, table_id: ContainerId, row: TupleView) -> bool {
    &&& row.value_id matches Some(id)
    &&& managers::stored_at(bp, id) matches Some(bytes)
    &&& stored_row(bp, table_id, id, bytes)
    &&& tuple::tuple_of(bytes) == Some(row.fields)
}

/// An index that is listed once drops a row once, one that is not listed
/// drops nothing.
proof fn lemma_removals(
    entries: Multiset<Item>,
    i: IndexId,
    infos: Seq<IndexInfo>,
    n: int,
    fields: Seq<FieldView>,
    id: ValueId,
)
    requires
        0 <= n <= infos.len(),
    ensures
        unlisted(infos.take(n), i) ==> maintenance::after_removals(entries, i, infos, n, fields, id)
            == entries,
        forall|k: int|
            0 <= k < n && (#[trigger] infos[k]).index_id == i && listed_once(infos, k)
                ==> maintenance::after_removals(entries, i, infos, n, fields, id) == entries.remove(
                maintenance::item_of(infos[k], fields, id),
            ),
    decreases n,
{
    if n > 0 {
        lemma_removals(entries, i, infos, n - 1, fields, id);
        if unlisted(infos.take(n), i) {
            assert(infos.take(n)[n - 1] == infos[n - 1]);
            assert forall|j: int| 0 <= j < n - 1 implies (#[trigger] infos.take(n - 1)[j]).index_id
                != i by {
                assert(infos.take(n)[j] == infos[j]);
            }
        }
        assert forall|k: int|
            0 <= k < n && (#[trigger] infos[k]).index_id == i && listed_once(infos, k) implies
            maintenance::after_removals(entries, i, infos, n, fields, id) == entries.remove(
            maintenance::item_of(infos[k], fields, id),
        ) by {
            if k == n - 1 {
                assert forall|j: int| 0 <= j < n - 1 implies (#[trigger] infos.take(
                    n - 1,
                )[j]).index_id != i by {
                    assert(infos[j].index_id != i);
                }
            } else {
                assert(infos[n - 1].index_id != i);
            }
        }
    }
}

/// An index that is listed once replaces a row once, one that is not listed
/// replaces nothing.
proof fn lemma_replacements(
    entries: Multiset<Item>,
    i: IndexId,
    infos: Seq<IndexInfo>,
    n: int,
    fields: Seq<FieldView>,
    id: ValueId,
    new_fields: Seq<FieldView>,
    new_id: ValueId,
)
    requires
        0 <= n <= infos.len(),
    ensures
        unlisted(infos.take(n), i) ==> maintenance::after_replacements(
            entries,
            i,
            infos,
            n,
            fields,
            id,
            new_fields,
            new_id,
        ) == entries,
        forall|k: int|
            0 <= k < n && (#[trigger] infos[k]).index_id == i && listed_once(infos, k)
                ==> maintenance::after_replacements(
                entries,
                i,
                infos,
                n,
                fields,
                id,
                new_fields,
                new_id,
            ) == entries.remove(maintenance::item_of(infos[k], fields, id)).insert(
                maintenance::item_of(infos[k], new_fields, new_id),
            ),
    decreases n,
{
    if n > 0 {
        lemma_replacements(entries, i, infos, n - 1, fields, id, new_fields, new_id);
        if unlisted(infos.take(n), i) {
            assert(infos.take(n)[n - 1] == infos[n - 1]);
            assert forall|j: int| 0 <= j < n - 1 implies (#[trigger] infos.take(n - 1)[j]).index_id
                != i by {
                assert(infos.take(n)[j] == infos[j]);
            }
        }
        assert forall|k: int|
            0 <= k < n && (#[trigger] infos[k]).index_id == i && listed_once(infos, k) implies
            maintenance::after_replacements(entries, i, infos, n, fields, id, new_fields, new_id)
            == entries.remove(maintenance::item_of(infos[k], fields, id)).insert(
            maintenance::item_of(infos[k], new_fields, new_id),
        ) by {
            if k == n - 1 {
                assert forall|j: int| 0 <= j < n - 1 implies (#[trigger] infos.take(
                    n - 1,
                )[j]).index_id != i by {
                    assert(infos[j].index_id != i);
                }
            } else {
                assert(infos[n - 1].index_id != i);
            }
        }
    }
}

/// A row is stored in a data page under the id, and its fields at the columns
/// are those of the key.
pub open spec fn stored_with_key(
    table_id: ContainerId,
    pages: Seq<PageView>,
    columns: Seq<ColumnId>,
    key: Seq<FieldView>,
    id: ValueId,
) -> bool {
    &&& id matches ValueId { container_id, page_id: Some(p), slot_id: Some(s) }
    &&& container_id == table_id
    &&& p > 0
    &&& heap_file::value_at(pages, p, s) matches Some(bytes)
    &&& tuple::tuple_of(bytes) matches Some(fields)
    &&& tuple::fields_match(fields, columns, key)
}

/// The items are those of the rows of a table: one for every stored row, under
/// its fields at the columns and its id, and no other.
pub open spec fn items_of_rows(
    table_id: ContainerId,
    pages: Seq<PageView>,
    columns: Seq<ColumnId>,
    items: Multiset<Item>,
) -> bool {
    forall|key: Seq<FieldView>, id: ValueId| #[trigger]
        items.count((key, id)) == (if stored_with_key(table_id, pages, columns, key, id) {
            1nat
        } else {
            0nat
        })
}

/// The items that the rows of a walk through all data pages give are those of
/// the rows of the table.
pub proof fn lemma_walk_gives_items(
    table_id: ContainerId,
    pages: Seq<PageView>,
    columns: Seq<ColumnId>,
    rows: Seq<(Seq<u8>, ValueId)>,
)
    requires
        heap_file::countable(pages),
        rows == heap_file::values_from(table_id, pages, 1, 0),
        all_keyed(rows, columns),
    ensures
        items_of_rows(
            table_id,
            pages,
            columns,
            index_manager::row_items(rows, columns, rows.len() as int),
        ),
{
    heap_file::lemma_walk(table_id, pages, 1, 0);
    let items = index_manager::row_items(rows, columns, rows.len() as int);
    assert forall|key: Seq<FieldView>, id: ValueId| #[trigger]
        items.count((key, id)) == (if stored_with_key(table_id, pages, columns, key, id) {
            1nat
        } else {
            0nat
        }) by {
        let item: Item = (key, id);
        lemma_row_items_count(rows, columns, rows.len() as int, item);
        if among(rows, columns, rows.len() as int, item) {
            let i = choose|i: int|
                0 <= i < rows.len() && (#[trigger] rows[i]).1 == item.1 && index_manager::row_key(
                    rows[i].0,
                    columns,
                )->0 == item.0;
            assert(heap_file::names_value(table_id, pages, 1, 0, rows[i]));
            assert(index_manager::row_key(rows[i].0, columns) is Some);
            tuple::lemma_key_fields(tuple::tuple_of(rows[i].0)->0, columns, key);
        }
        if stored_with_key(table_id, pages, columns, key, id) {
            let bytes = heap_file::value_at(pages, id.page_id->0, id.slot_id->0)->0;
            assert(heap_file::names_value(table_id, pages, 1, 0, (bytes, id)));
            let i = choose|i: int| 0 <= i < rows.len() && rows[i] == (bytes, id);
            assert(index_manager::row_key(rows[i].0, columns) is Some);
            tuple::lemma_key_fields(tuple::tuple_of(bytes)->0, columns, key);
            assert(rows[i].1 == item.1);
        }
    }
}

/// A new index mirrors its table from the start: it has an entry for every row
/// that the table had when the index was created.
pub proof fn lemma_create_makes_mirror(before: &Managers, after: &Managers, info: IndexInfo)
    requires
        info.index_id != info.table_id,
        after.bp.same_but(&before.bp, info.index_id),
        after.im.ids() == before.im.ids().insert(info.index_id, info.index_id),
        forall|i: int|
            0 <= i < rows_of(&before.bp, info.table_id).len() ==> index_manager::row_fits(
                (#[trigger] rows_of(&before.bp, info.table_id)[i]).0,
                info.columns@,
            ),
        after.im.entries(&after.bp, info.index_id) == index_manager::row_items(
            rows_of(&before.bp, info.table_id),
            info.columns@,
            rows_of(&before.bp, info.table_id).len() as int,
        ),
    ensures
        mirrors(after, info),
{
    assert(after.bp.pages(info.table_id) == before.bp.pages(info.table_id));
    let rows = rows_of(&before.bp, info.table_id);
    assert forall|i: int| 0 <= i < rows.len() implies index_manager::row_key(
        (#[trigger] rows[i]).0,
        info.columns@,
    ) is Some by {
        assert(index_manager::row_fits(rows[i].0, info.columns@));
    }
}

/// An index that mirrors its table still does after a row was added to the
/// table and its item to the index.
pub proof fn lemma_insert_keeps_mirror(
    before: &Managers,
    after: &Managers,
    info: IndexInfo,
    bytes: Seq<u8>,
    key: Seq<FieldView>,
    id: ValueId,
)
    requires
        before.wf(),
        after.wf(),
        mirrors(before, info),
        after.im == before.im,
        before.bp.pages(info.table_id).len() > 0,
        bytes.len() > 0,
        index_manager::row_key(bytes, info.columns@) == Some(key),
        heap_file::add_outcome(
            before.bp.pages(info.table_id),
            info.table_id,
            bytes,
            Ok(id),
            after.bp.pages(info.table_id),
        ),
        after.im.entries(&after.bp, info.index_id) == before.im.entries(
            &before.bp,
            info.index_id,
        ).insert((key, id)),
    ensures
        mirrors(after, info),
{
    let t = info.table_id;
    let columns = info.columns@;
    lemma_mirror_counts(before, info);
    lemma_mirror_counts(after, info);
    before.bp.lemma_limits(t);
    heap_file::lemma_added_is_read(before.bp.pages(t), t, bytes);
    let (p, s) = (id.page_id->0, id.slot_id->0);
    assert forall|x: ValueId, b: Seq<u8>| #[trigger]
        stored_row(&after.bp, t, x, b) implies index_manager::row_key(b, columns) is Some by {
        if x != id {
            assert(stored_row(&before.bp, t, x, b));
        }
    }
    assert forall|item: Item| #[trigger]
        after.im.entries(&after.bp, info.index_id).count(item) == (if row_has_key(
            &after.bp,
            t,
            columns,
            item,
        ) {
            1nat
        } else {
            0nat
        }) by {
        assert(before.im.entries(&before.bp, info.index_id).count(item) == (if row_has_key(
            &before.bp,
            t,
            columns,
            item,
        ) {
            1nat
        } else {
            0nat
        }));
        assert(item.1 != id ==> row_has_key(&after.bp, t, columns, item) == row_has_key(
            &before.bp,
            t,
            columns,
            item,
        ));
    }
}

/// An index that mirrors its table still does after a row of the table was
/// deleted.
pub proof fn lemma_delete_keeps_mirror(
    before: &Managers,
    after: &Managers,
    infos: Seq<IndexInfo>,
    k: int,
    row: TupleView,
)
    requires
        before.wf(),
        after.wf(),
        listed_once(infos, k),
        mirrors(before, infos[k]),
        is_row_of(&before.bp, infos[k].table_id, row),
        delete::row_deleted(before, after, infos, row),
    ensures
        mirrors(after, infos[k]),
{
    let info = infos[k];
    let t = info.table_id;
    let columns = info.columns@;
    let id = row.value_id->0;
    let entries = before.im.entries(&before.bp, info.index_id);
    let (p, s) = (id.page_id->0, id.slot_id->0);
    lemma_mirror_counts(before, info);
    lemma_mirror_counts(after, info);
    lemma_removals(entries, info.index_id, infos, infos.len() as int, row.fields, id);
    managers::lemma_deleted_is_gone(before.bp.pages(t), p, s);
    let gone = maintenance::item_of(info, row.fields, id);
    assert(after.im.entries(&after.bp, info.index_id) == entries.remove(gone));
    assert(row_has_key(&before.bp, t, columns, gone));
    assert forall|x: ValueId, b: Seq<u8>| #[trigger]
        stored_row(&after.bp, t, x, b) implies index_manager::row_key(b, columns) is Some by {
        assert(x != id);
        assert(stored_row(&before.bp, t, x, b));
    }
    assert forall|item: Item| #[trigger]
        after.im.entries(&after.bp, info.index_id).count(item) == (if row_has_key(
            &after.bp,
            t,
            columns,
            item,
        ) {
            1nat
        } else {
            0nat
        }) by {
        assert(entries.count(item) == (if row_has_key(&before.bp, t, columns, item) {
            1nat
        } else {
            0nat
        }));
        assert(item.1 != id ==> row_has_key(&after.bp, t, columns, item) == row_has_key(
            &before.bp,
            t,
            columns,
            item,
        ));
    }
}

/// An index that mirrors its table still does after a row of the table was
/// updated, also where the row has moved.
pub proof fn lemma_update_keeps_mirror(
    before: &Managers,
    after: &Managers,
    infos: Seq<IndexInfo>,
    k: int,
    assignments: Seq<(usize, Field)>,
    row: TupleView,
    tid: TransactionId,
)
    requires
        before.wf(),
        after.wf(),
        listed_once(infos, k),
        mirrors(before, infos[k]),
        is_row_of(&before.bp, infos[k].table_id, row),
        update::row_updated_somewhere(before, after, infos, assignments, row, tid),
    ensures
        mirrors(after, infos[k]),
{
    let new_id = choose|new_id: ValueId| #[trigger]
        update::row_updated(before, after, infos, assignments, row, tid, new_id);
    let info = infos[k];
    let t = info.table_id;
    let columns = info.columns@;
    let id = row.value_id->0;
    let entries = before.im.entries(&before.bp, info.index_id);
    let new_fields = update::assigned_row(row, assignments).fields;
    let bytes = record::cbor_bytes(tuple::tuple_record(new_fields));
    lemma_mirror_counts(before, info);
    lemma_mirror_counts(after, info);
    lemma_replacements(
        entries,
        info.index_id,
        infos,
        infos.len() as int,
        row.fields,
        id,
        new_fields,
        new_id,
    );
    update::lemma_assigned_len(row.fields, assignments, assignments.len() as int);
    assert(!before.im.has(t));
    managers::lemma_updated_is_read(&before.bp, id, bytes, new_id, after.bp.pages(t));
    let gone = maintenance::item_of(info, row.fields, id);
    let come = maintenance::item_of(info, new_fields, new_id);
    assert(after.im.entries(&after.bp, info.index_id) == entries.remove(gone).insert(come));
    assert(maintenance::maintainable(&before.im, infos[k], row.fields.len()));
    assert(index_manager::row_key(bytes, columns) == Some(come.0));
    assert(row_has_key(&before.bp, t, columns, gone));
    assert(row_has_key(&after.bp, t, columns, come));
    assert forall|x: ValueId, b: Seq<u8>| #[trigger]
        stored_row(&after.bp, t, x, b) implies index_manager::row_key(b, columns) is Some by {
        if x != new_id {
            assert(x != id);
            assert(stored_row(&before.bp, t, x, b));
        }
    }
    assert forall|item: Item| #[trigger]
        after.im.entries(&after.bp, info.index_id).count(item) == (if row_has_key(
            &after.bp,
            t,
            columns,
            item,
        ) {
            1nat
        } else {
            0nat
        }) by {
        assert(entries.count(item) == (if row_has_key(&before.bp, t, columns, item) {
            1nat
        } else {
            0nat
        }));
        if item.1 != id && item.1 != new_id {
            assert(row_has_key(&after.bp, t, columns, item) == row_has_key(
                &before.bp,
                t,
                columns,
                item,
            ));
        }
    }
}

/// Deleting a row leaves the mirrors of other tables as they are.
pub proof fn lemma_delete_keeps_other_mirrors(
    before: &Managers,
    after: &Managers,
    infos: Seq<IndexInfo>,
    other: IndexInfo,
    row: TupleView,
)
    requires
        mirrors(before, other),
        unlisted(infos, other.index_id),
        !before.im.has(other.table_id),
        other.table_id != (row.value_id->0).container_id,
        delete::row_deleted(before, after, infos, row),
    ensures
        mirrors(after, other),
{
    assert(infos.take(infos.len() as int) =~= infos);
    lemma_removals(
        before.im.entries(&before.bp, other.index_id),
        other.index_id,
        infos,
        infos.len() as int,
        row.fields,
        row.value_id->0,
    );
    assert(after.bp.pages(other.table_id) == before.bp.pages(other.table_id));
    assert(after.im.entries(&after.bp, other.index_id) == before.im.entries(
        &before.bp,
        other.index_id,
    ));
}

/// Updating a row leaves the mirrors of other tables as they are.
pub proof fn lemma_update_keeps_other_mirrors(
    before: &Managers,
    after: &Managers,
    infos: Seq<IndexInfo>,
    other: IndexInfo,
    assignments: Seq<(usize, Field)>,
    row: TupleView,
    tid: TransactionId,
)
    requires
        mirrors(before, other),
        unlisted(infos, other.index_id),
        !before.im.has(other.table_id),
        other.table_id != (row.value_id->0).container_id,
        update::row_updated_somewhere(before, after, infos, assignments, row, tid),
    ensures
        mirrors(after, other),
{
    let new_id = choose|new_id: ValueId| #[trigger]
        update::row_updated(before, after, infos, assignments, row, tid, new_id);
    assert(infos.take(infos.len() as int) =~= infos);
    lemma_replacements(
        before.im.entries(&before.bp, other.index_id),
        other.index_id,
        infos,
        infos.len() as int,
        row.fields,
        row.value_id->0,
        update::assigned_row(row, assignments).fields,
        new_id,
    );
    assert(after.bp.pages(other.table_id) == before.bp.pages(other.table_id));
    assert(after.im.entries(&after.bp, other.index_id) == before.im.entries(
        &before.bp,
        other.index_id,
    ));
}

/// Deleting a row leaves every other row of its table where it is.
pub proof fn lemma_delete_keeps_other_rows(
    before: &Managers,
    after: &Managers,
    infos: Seq<IndexInfo>,
    row: TupleView,
    other: TupleView,
)
    requires
        delete::row_deleted(before, after, infos, row),
        is_row_of(&before.bp, (row.value_id->0).container_id, other),
        other.value_id != row.value_id,
    ensures
        is_row_of(&after.bp, (row.value_id->0).container_id, other),
{
    let id = row.value_id->0;
    let pages = before.bp.pages(id.container_id);
    let (p, s) = (id.page_id->0, id.slot_id->0);
    managers::lemma_deleted_is_gone(pages, p, s);
    let x = other.value_id->0;
    assert(heap_file::value_at(
        managers::without_value(pages, p, s),
        x.page_id->0,
        x.slot_id->0,
    ) == heap_file::value_at(pages, x.page_id->0, x.slot_id->0));
}

/// Updating a row leaves every other row of its table where it is.
pub proof fn lemma_update_keeps_other_rows(
    before: &Managers,
    after: &Managers,
    infos: Seq<IndexInfo>,
    assignments: Seq<(usize, Field)>,
    row: TupleView,
    tid: TransactionId,
    other: TupleView,
)
    requires
        before.wf(),
        update::row_updated_somewhere(before, after, infos, assignments, row, tid),
        is_row_of(&before.bp, (row.value_id->0).container_id, other),
        other.value_id != row.value_id,
    ensures
        is_row_of(&after.bp, (row.value_id->0).container_id, other),
{
    let new_id = choose|new_id: ValueId| #[trigger]
        update::row_updated(before, after, infos, assignments, row, tid, new_id);
    let id = row.value_id->0;
    let t = id.container_id;
    let bytes = record::cbor_bytes(
        tuple::tuple_record(update::assigned_row(row, assignments).fields),
    );
    assert(!before.im.has(t));
    managers::lemma_updated_is_read(&before.bp, id, bytes, new_id, after.bp.pages(t));
    let x = other.value_id->0;
    assert(heap_file::value_at(after.bp.pages(t), x.page_id->0, x.slot_id->0)
        == heap_file::value_at(before.bp.pages(t), x.page_id->0, x.slot_id->0));
}

/// Each row is one of the table, and no two of them have the same id.
pub open spec fn rows_apart(bp: &BufferPool, table_id: ContainerId, rows: Seq<TupleView>) -> bool {
    &&& forall|i: int| 0 <= i < rows.len() ==> is_row_of(bp, table_id, #[trigger] rows[i])
    &&& forall|i: int, j: int|
        0 <= i < j < rows.len() ==> (#[trigger] rows[i]).value_id != (#[trigger] rows[j]).value_id
}

/// From each state to the next one, the next row was deleted.
pub open spec fn rows_deleted(
    states: Seq<Managers>,
    infos: Seq<IndexInfo>,
    rows: Seq<TupleView>,
) -> bool {
    &&& states.len() == rows.len() + 1
    &&& forall|i: int| 0 <= i < states.len() ==> (#[trigger] states[i]).wf()
    &&& forall|i: int|
        0 <= i < rows.len() ==> delete::row_deleted(
            &states[i],
            &states[i + 1],
            infos,
            #[trigger] rows[i],
        )
}

/// From each state to the next one, the next row was updated.
pub open spec fn rows_updated(
    states: Seq<Managers>,
    infos: Seq<IndexInfo>,
    assignments: Seq<(usize, Field)>,
    rows: Seq<TupleView>,
    tid: TransactionId,
) -> bool {
    &&& states.len() == rows.len() + 1
    &&& forall|i: int| 0 <= i < states.len() ==> (#[trigger] states[i]).wf()
    &&& forall|i: int|
        0 <= i < rows.len() ==> update::row_updated_somewhere(
            &states[i],
            &states[i + 1],
            infos,
            assignments,
            #[trigger] rows[i],
            tid,
        )
}

/// An index that mirrors its table still does after any number of rows of the
/// table were deleted.
pub proof fn lemma_deletes_keep_mirror(
    states: Seq<Managers>,
    infos: Seq<IndexInfo>,
    k: int,
    rows: Seq<TupleView>,
)
    requires
        listed_once(infos, k),
        rows_deleted(states, infos, rows),
        mirrors(&states[0], infos[k]),
        rows_apart(&states[0].bp, infos[k].table_id, rows),
    ensures
        mirrors(&states.last(), infos[k]),
    decreases rows.len(),
{
    if rows.len() > 0 {
        let t = infos[k].table_id;
        let first = rows[0];
        let rest = rows.drop_first();
        let later = states.drop_first();
        assert(delete::row_deleted(&states[0], &states[1], infos, rows[0]));
        assert(states[1].wf());
        lemma_delete_keeps_mirror(&states[0], &states[1], infos, k, first);
        assert forall|i: int| 0 <= i < rest.len() implies is_row_of(
            &states[1].bp,
            t,
            #[trigger] rest[i],
        ) by {
            assert(rest[i] == rows[i + 1]);
            assert(rows[0].value_id != rows[i + 1].value_id);
            lemma_delete_keeps_other_rows(&states[0], &states[1], infos, first, rest[i]);
        }
        assert forall|i: int, j: int| 0 <= i < j < rest.len() implies (#[trigger] rest[i]).value_id != (
        #[trigger] rest[j]).value_id by {
            assert(rows[i + 1].value_id != rows[j + 1].value_id);
        }
        assert forall|i: int| 0 <= i < later.len() implies (#[trigger] later[i]).wf() by {
            assert(states[i + 1].wf());
        }
        assert forall|i: int| 0 <= i < rest.len() implies delete::row_deleted(
            &later[i],
            &later[i + 1],
            infos,
            #[trigger] rest[i],
        ) by {
            assert(delete::row_deleted(&states[i + 1], &states[i + 2], infos, rows[i + 1]));
        }
        lemma_deletes_keep_mirror(later, infos, k, rest);
    }
}

/// An index that mirrors its table still does after any number of rows of the
/// table were updated, also where rows have moved.
pub proof fn lemma_updates_keep_mirror(
    states: Seq<Managers>,
    infos: Seq<IndexInfo>,
    k: int,
    assignments: Seq<(usize, Field)>,
    rows: Seq<TupleView>,
    tid: TransactionId,
)
    requires
        listed_once(infos, k),
        rows_updated(states, infos, assignments, rows, tid),
        mirrors(&states[0], infos[k]),
        rows_apart(&states[0].bp, infos[k].table_id, rows),
    ensures
        mirrors(&states.last(), infos[k]),
    decreases rows.len(),
{
    if rows.len() > 0 {
        let t = infos[k].table_id;
        let first = rows[0];
        let rest = rows.drop_first();
        let later = states.drop_first();
        assert(update::row_updated_somewhere(
            &states[0],
            &states[1],
            infos,
            assignments,
            rows[0],
            tid,
        ));
        assert(states[1].wf());
        lemma_update_keeps_mirror(&states[0], &states[1], infos, k, assignments, first, tid);
        assert forall|i: int| 0 <= i < rest.len() implies is_row_of(
            &states[1].bp,
            t,
            #[trigger] rest[i],
        ) by {
            assert(rest[i] == rows[i + 1]);
            assert(rows[0].value_id != rows[i + 1].value_id);
            lemma_update_keeps_other_rows(
                &states[0],
                &states[1],
                infos,
                assignments,
                first,
                tid,
                rest[i],
            );
        }
        assert forall|i: int, j: int| 0 <= i < j < rest.len() implies (#[trigger] rest[i]).value_id != (
        #[trigger] rest[j]).value_id by {
            assert(rows[i + 1].value_id != rows[j + 1].value_id);
        }
        assert forall|i: int| 0 <= i < later.len() implies (#[trigger] later[i]).wf() by {
            assert(states[i + 1].wf());
        }
        assert forall|i: int| 0 <= i < rest.len() implies update::row_updated_somewhere(
            &later[i],
            &later[i + 1],
            infos,
            assignments,
            #[trigger] rest[i],
            tid,
        ) by {
            assert(update::row_updated_somewhere(
                &states[i + 1],
                &states[i + 2],
                infos,
                assignments,
                rows[i + 1],
                tid,
            ));
        }
        lemma_updates_keep_mirror(later, infos, k, assignments, rest, tid);
    }
}

/// The indexes are live, and a row of `n` fields has the columns of each.
pub open spec fn can_follow(m: &Managers, infos: Seq<IndexInfo>, n: nat) -> bool {
    forall|j: int|
        0 <= j < infos.len() ==> {
            &&& m.im.has((#[trigger] infos[j]).index_id)
            &&& forall|i: int|
                0 <= i < infos[j].columns@.len() ==> (#[trigger] infos[j].columns@[i]) < n
        }
}

/// A stored row of a table is deleted, and never refused, where the indexes of
/// the table are live and the row has their columns.
pub proof fn lemma_stored_row_is_deleted(
    before: &Managers,
    after: &Managers,
    infos: Seq<IndexInfo>,
    row: TupleView,
    message: Seq<char>,
)
    requires
        row.value_id is Some,
        managers::stored_at(&before.bp, row.value_id->0) is Some,
        !before.im.has((row.value_id->0).container_id),
        can_follow(before, infos, row.fields.len()),
    ensures
        !delete::delete_refused(before, after, infos, row, message),
{
    let id = row.value_id->0;
    if delete::delete_refused(before, after, infos, row, message) {
        if maintenance::removal_stopped(before, after, infos, row.fields, id, message) {
            let k = choose|k: int| #[trigger]
                maintenance::removal_stopped_at(
                    before,
                    after,
                    infos,
                    k,
                    row.fields,
                    id,
                    message,
                );
            assert(before.im.has(infos[k].index_id));
        }
    }
}

/// What refuses a deletion changes no stored row: only entries of indexes can be
/// gone by then. A row without an id is refused before anything changes.
pub proof fn lemma_refused_deletion_keeps_rows(
    before: &Managers,
    after: &Managers,
    infos: Seq<IndexInfo>,
    row: TupleView,
    message: Seq<char>,
    c: ContainerId,
)
    requires
        delete::delete_refused(before, after, infos, row, message),
        !before.im.has(c),
    ensures
        after.bp.pages(c) == before.bp.pages(c),
        after.stats@ == before.stats@,
        after.im == before.im,
        row.value_id is None ==> *after == *before,
{
}

/// The update of a stored row is refused only where page ids have run out, if
/// the row has the assigned fields, the new row fits beside the others of its
/// page, and the indexes of the table are live and can take its new keys.
pub proof fn lemma_stored_row_is_updated(
    before: &Managers,
    after: &Managers,
    infos: Seq<IndexInfo>,
    assignments: Seq<(usize, Field)>,
    row: TupleView,
    e: CrustyError,
)
    requires
        before.wf(),
        update::update_refused(before, after, infos, assignments, row, e),
        row.value_id is Some,
        managers::stored_at(&before.bp, row.value_id->0) is Some,
        !before.im.has((row.value_id->0).container_id),
        can_follow(before, infos, row.fields.len()),
        forall|i: int|
            0 <= i < assignments.len() ==> (#[trigger] assignments[i]).0 < row.fields.len(),
        ({
            let id = row.value_id->0;
            let here = before.bp.pages(id.container_id)[(id.page_id->0) as int];
            let bytes = record::cbor_bytes(
                tuple::tuple_record(update::assigned_row(row, assignments).fields),
            );
            &&& here.ready
            &&& 24 + 4 * here.slots.len() + page::total_len(here.slots) - (managers::stored_at(
                &before.bp,
                id,
            )->0).len() + bytes.len() <= 4096
        }),
        forall|j: int|
            0 <= j < infos.len() ==> codec::key_len(
                tuple::key_of(
                    update::assigned_row(row, assignments).fields,
                    (#[trigger] infos[j]).columns@,
                ),
            ) <= node::MAX_KEY_LEN,
    ensures
        e.message() == "Out of page ids"@,
{
    let id = row.value_id->0;
    let new_fields = update::assigned_row(row, assignments).fields;
    let bytes = record::cbor_bytes(tuple::tuple_record(new_fields));
    assert(update::assignments_fit(assignments, row.fields.len()));
    if managers::update_outcome(
        &before.bp,
        false,
        id,
        bytes,
        Err(e),
        after.bp.pages(id.container_id),
    ) {
        managers::lemma_fitting_update_stays(
            &before.bp,
            false,
            id,
            bytes,
            Err(e),
            after.bp.pages(id.container_id),
        );
    }
    let new_id = choose|new_id: ValueId| #[trigger]
        update::stored_but_stopped_at(
            before,
            after,
            infos,
            row.fields,
            id,
            new_fields,
            new_id,
            e.message(),
        );
    let k = choose|k: int| #[trigger]
        maintenance::replacement_stopped_at(
            before,
            after,
            infos,
            k,
            row.fields,
            id,
            new_fields,
            new_id,
            e.message(),
        );
    assert(before.im.has(infos[k].index_id));
    assert(maintenance::maintainable(&before.im, infos[k], row.fields.len()));
}

/// An update that is refused for want of an id, or of a field that it assigns,
/// changes nothing.
pub proof fn lemma_refused_update_changes_nothing(
    before: &Managers,
    after: &Managers,
    infos: Seq<IndexInfo>,
    assignments: Seq<(usize, Field)>,
    row: TupleView,
    e: CrustyError,
)
    requires
        update::update_refused(before, after, infos, assignments, row, e),
        row.value_id is None || exists|i: int|
            0 <= i < assignments.len() && (#[trigger] assignments[i]).0 >= row.fields.len(),
    ensures
        *after == *before,
{
}

/// The scan of an index that mirrors its table is not refused, and gives all its
/// rows without an error.
pub proof fn lemma_index_scan_does_not_stop(
    m: &Managers,
    info: IndexInfo,
    scan: &IndexScan,
    e: CrustyError,
)
    requires
        m.wf(),
        mirrors(m, info),
        scan.index() == info.index_id,
    ensures
        !scan.refuses(m, e),
        index_scan::found_in(m, info.index_id, scan.lookup_key(), scan.found()) ==> !scan.stops(
            m,
            e,
        ),
{
    if index_scan::found_in(m, info.index_id, scan.lookup_key(), scan.found()) && scan.stops(m, e) {
        let ids = scan.found();
        let id = ids[scan.position()];
        lemma_lookup_finds_the_rows(m, info, scan.lookup_key(), ids);
        scan.lemma_position();
        assert(ids.contains(id));
    }
}

} // verus!
