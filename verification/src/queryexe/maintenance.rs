//! How indexes follow the rows of their tables.
use crate::common::error::CrustyError;
use crate::common::field::FieldView;
use crate::common::ids::{ContainerId, ValueId};
use crate::common::table::IndexInfo;
use crate::common::tuple;
use crate::common::tuple::Tuple;
use crate::index::codec;
use crate::index::index_manager;
use crate::index::index_manager::{IndexId, IndexManager};
use crate::index::node::{Item, MAX_KEY_LEN};
use crate::queryexe::managers::Managers;
use vstd::multiset::Multiset;
use vstd::prelude::*;

verus! {

/// The index is live, and rows of `n` fields have its columns.
pub open spec fn maintainable(im: &IndexManager, info: IndexInfo, n: nat) -> bool {
    &&& tuple::columns_fit(n, info.columns@)
    &&& im.has(info.index_id)
}

/// The item of a row in an index.
pub open spec fn item_of(info: IndexInfo, fields: Seq<FieldView>, id: ValueId) -> Item {
    (tuple::key_of(fields, info.columns@), id)
}

/// The first `k` indexes can follow a row of `n` fields.
pub open spec fn first_maintainable(
    im: &IndexManager,
    infos: Seq<IndexInfo>,
    n: nat,
    k: int,
) -> bool {
    forall|j: int| 0 <= j < k ==> maintainable(im, #[trigger] infos[j], n)
}

/// Index `k` is the first one that cannot follow a row of `n` fields, and what
/// is said of it.
pub open spec fn unmaintainable_at(
    im: &IndexManager,
    infos: Seq<IndexInfo>,
    n: nat,
    k: int,
    message: Seq<char>,
) -> bool {
    &&& 0 <= k < infos.len()
    &&& first_maintainable(im, infos, n, k)
    &&& !maintainable(im, infos[k], n)
    &&& message == if tuple::columns_fit(n, infos[k].columns@) {
        index_manager::not_found(infos[k].index_id)
    } else {
        "index column out of range"@
    }
}

/// The items of index `i` after the first `k` indexes dropped a row.
pub open spec fn after_removals(
    entries: Multiset<Item>,
    i: IndexId,
    infos: Seq<IndexInfo>,
    k: int,
    fields: Seq<FieldView>,
    id: ValueId,
) -> Multiset<Item>
    decreases k,
{
    if k <= 0 {
        entries
    } else {
        let before = after_removals(entries, i, infos, k - 1, fields, id);
        if infos[k - 1].index_id == i {
            before.remove(item_of(infos[k - 1], fields, id))
        } else {
            before
        }
    }
}

/// The items of index `i` after the first `k` indexes replaced a row.
pub open spec fn after_replacements(
    entries: Multiset<Item>,
    i: IndexId,
    infos: Seq<IndexInfo>,
    k: int,
    old_fields: Seq<FieldView>,
    id: ValueId,
    new_fields: Seq<FieldView>,
    new_id: ValueId,
) -> Multiset<Item>
    decreases k,
{
    if k <= 0 {
        entries
    } else {
        let before = after_replacements(
            entries,
            i,
            infos,
            k - 1,
            old_fields,
            id,
            new_fields,
            new_id,
        );
        if infos[k - 1].index_id == i {
            before.remove(item_of(infos[k - 1], old_fields, id)).insert(
                item_of(infos[k - 1], new_fields, new_id),
            )
        } else {
            before
        }
    }
}

/// Only the pages of live indexes differ.
pub open spec fn only_indexes_differ(before: &Managers, after: &Managers) -> bool {
    &&& after.im == before.im
    &&& after.stats == before.stats
    &&& forall|c: ContainerId| !before.im.has(c) ==> #[trigger] after.bp.pages(c) == before.bp.pages(c)
}

/// The first `k` indexes have dropped a row, and no other index has changed.
pub open spec fn removed(
    before: &Managers,
    after: &Managers,
    infos: Seq<IndexInfo>,
    k: int,
    fields: Seq<FieldView>,
    id: ValueId,
) -> bool {
    forall|i: IndexId|
        before.im.has(i) ==> #[trigger] after.im.entries(&after.bp, i) == after_removals(
            before.im.entries(&before.bp, i),
            i,
            infos,
            k,
            fields,
            id,
        )
}

/// Index `k` could not drop a row; those before it have.
pub open spec fn removal_stopped_at(
    before: &Managers,
    after: &Managers,
    infos: Seq<IndexInfo>,
    k: int,
    fields: Seq<FieldView>,
    id: ValueId,
    message: Seq<char>,
) -> bool {
    &&& unmaintainable_at(&before.im, infos, fields.len(), k, message)
    &&& removed(before, after, infos, k, fields, id)
}

/// Some index could not drop a row; those before it have.
pub open spec fn removal_stopped(
    before: &Managers,
    after: &Managers,
    infos: Seq<IndexInfo>,
    fields: Seq<FieldView>,
    id: ValueId,
    message: Seq<char>,
) -> bool {
    exists|k: int| #[trigger] removal_stopped_at(before, after, infos, k, fields, id, message)
}

/// The first `k` indexes have replaced a row, and no other index has changed.
pub open spec fn replaced(
    before: &Managers,
    after: &Managers,
    infos: Seq<IndexInfo>,
    k: int,
    old_fields: Seq<FieldView>,
    id: ValueId,
    new_fields: Seq<FieldView>,
    new_id: ValueId,
) -> bool {
    forall|i: IndexId|
        before.im.has(i) ==> #[trigger] after.im.entries(&after.bp, i) == after_replacements(
            before.im.entries(&before.bp, i),
            i,
            infos,
            k,
            old_fields,
            id,
            new_fields,
            new_id,
        )
}

/// The first `k` indexes have replaced a row, and index `k` has only dropped
/// it.
pub open spec fn half_replaced(
    before: &Managers,
    after: &Managers,
    infos: Seq<IndexInfo>,
    k: int,
    old_fields: Seq<FieldView>,
    id: ValueId,
    new_fields: Seq<FieldView>,
    new_id: ValueId,
) -> bool {
    forall|i: IndexId|
        before.im.has(i) ==> #[trigger] after.im.entries(&after.bp, i) == {
            let full = after_replacements(
                before.im.entries(&before.bp, i),
                i,
                infos,
                k,
                old_fields,
                id,
                new_fields,
                new_id,
            );
            if infos[k].index_id == i {
                full.remove(item_of(infos[k], old_fields, id))
            } else {
                full
            }
        }
}

/// The key of a row fits in the index.
pub open spec fn key_fits(info: IndexInfo, fields: Seq<FieldView>) -> bool {
    codec::key_len(tuple::key_of(fields, info.columns@)) <= MAX_KEY_LEN
}

/// The key of a row fits in each of the first `k` indexes.
pub open spec fn first_keys_fit(infos: Seq<IndexInfo>, fields: Seq<FieldView>, k: int) -> bool {
    forall|j: int| 0 <= j < k ==> key_fits(#[trigger] infos[j], fields)
}

/// Index `k` could not replace a row, those before it have, and what is said
/// of it: the index is not there or the row has not its columns, the new key
/// is too large, or there are not enough page ids left.
pub open spec fn replacement_stopped_at(
    before: &Managers,
    after: &Managers,
    infos: Seq<IndexInfo>,
    k: int,
    old_fields: Seq<FieldView>,
    id: ValueId,
    new_fields: Seq<FieldView>,
    new_id: ValueId,
    message: Seq<char>,
) -> bool {
    &&& 0 <= k < infos.len()
    &&& first_maintainable(&before.im, infos, old_fields.len(), k)
    &&& first_keys_fit(infos, new_fields, k)
    &&& if !maintainable(&before.im, infos[k], old_fields.len()) {
        &&& unmaintainable_at(&before.im, infos, old_fields.len(), k, message)
        &&& replaced(before, after, infos, k, old_fields, id, new_fields, new_id)
    } else {
        &&& half_replaced(before, after, infos, k, old_fields, id, new_fields, new_id)
        &&& if !key_fits(infos[k], new_fields) {
            message == "index key too large"@
        } else {
            &&& message == "Out of page ids"@
            &&& !IndexManager::tree(infos[k].index_id).can_grow(
                &after.bp,
                (tuple::key_of(new_fields, infos[k].columns@), new_id),
            )
        }
    }
}

/// Some index could not replace a row; those before it have.
pub open spec fn replacement_stopped(
    before: &Managers,
    after: &Managers,
    infos: Seq<IndexInfo>,
    old_fields: Seq<FieldView>,
    id: ValueId,
    new_fields: Seq<FieldView>,
    new_id: ValueId,
    message: Seq<char>,
) -> bool {
    exists|k: int| #[trigger]
        replacement_stopped_at(
            before,
            after,
            infos,
            k,
            old_fields,
            id,
            new_fields,
            new_id,
            message,
        )
}

/// Removes the entry of a row from every index.
pub fn remove_entries(m: &mut Managers, infos: &Vec<IndexInfo>, row: &Tuple, id: ValueId) -> (r:
    Result<(), CrustyError>)
    requires
        old(m).wf(),
    ensures
        final(m).wf(),
        only_indexes_differ(old(m), final(m)),
        match r {
            Ok(_) => {
                &&& first_maintainable(
                    &old(m).im,
                    infos@,
                    row@.fields.len(),
                    infos@.len() as int,
                )
                &&& removed(old(m), final(m), infos@, infos@.len() as int, row@.fields, id)
            },
            Err(e) => removal_stopped(old(m), final(m), infos@, row@.fields, id, e.message()),
        },
{
    let ghost n = row@.fields.len();
    let mut k: usize = 0;
    while k < infos.len()
        invariant
            k <= infos@.len(),
            n == row@.fields.len(),
            m.wf(),
            only_indexes_differ(old(m), m),
            first_maintainable(&old(m).im, infos@, n, k as int),
            removed(old(m), m, infos@, k as int, row@.fields, id),
        decreases infos@.len() - k,
    {
        let info = &infos[k];
        let ghost before = *m;
        let key = match row.extract_key(&info.columns) {
            Ok(key) => key,
            Err(e) => {
                assert(removal_stopped_at(old(m), m, infos@, k as int, row@.fields, id, e.message()));
                return Err(e);
            },
        };
        match m.im.delete_entry(&mut m.bp, info.index_id, &key, id) {
            Ok(_) => {},
            Err(e) => {
                proof {
                    lemma_pages_kept(&before, m, info.index_id);
                    assert(removal_stopped_at(
                        old(m),
                        m,
                        infos@,
                        k as int,
                        row@.fields,
                        id,
                        e.message(),
                    ));
                }
                return Err(e);
            },
        }
        proof {
            assert forall|c: ContainerId| !old(m).im.has(c) implies #[trigger] m.bp.pages(c) == old(
                m,
            ).bp.pages(c) by {
                assert(before.bp.pages(c) == old(m).bp.pages(c));
            }
            assert forall|i: IndexId| old(m).im.has(i) implies #[trigger] m.im.entries(&m.bp, i)
                == after_removals(
                old(m).im.entries(&old(m).bp, i),
                i,
                infos@,
                k + 1,
                row@.fields,
                id,
            ) by {
                assert(before.im.entries(&before.bp, i) == after_removals(
                    old(m).im.entries(&old(m).bp, i),
                    i,
                    infos@,
                    k as int,
                    row@.fields,
                    id,
                ));
                if i != info.index_id {
                    assert(m.bp.pages(i) == before.bp.pages(i));
                }
            }
        }
        k = k + 1;
    }
    Ok(())
}

/// Where all pages stay, so do the entries of every index.
proof fn lemma_pages_kept(before: &Managers, after: &Managers, index_id: IndexId)
    requires
        after.im == before.im,
        after.bp.same_but(&before.bp, index_id),
        after.bp.pages(index_id) == before.bp.pages(index_id),
    ensures
        forall|c: ContainerId| #[trigger] after.bp.pages(c) == before.bp.pages(c),
        forall|i: IndexId| #[trigger]
            after.im.entries(&after.bp, i) == before.im.entries(&before.bp, i),
{
    assert forall|c: ContainerId| #[trigger] after.bp.pages(c) == before.bp.pages(c) by {
        if c != index_id {
            assert(after.bp.pages(c) == before.bp.pages(c));
        }
    }
}

/// Replaces the entry of a row in every index: the one of its old key and
/// place goes, the one of its new key and place comes. Every index is touched,
/// not only those whose columns changed, because the row may have moved.
pub fn replace_entries(
    m: &mut Managers,
    infos: &Vec<IndexInfo>,
    old_row: &Tuple,
    id: ValueId,
    new_row: &Tuple,
    new_id: ValueId,
) -> (r: Result<(), CrustyError>)
    requires
        old(m).wf(),
        old_row@.fields.len() == new_row@.fields.len(),
    ensures
        final(m).wf(),
        only_indexes_differ(old(m), final(m)),
        match r {
            Ok(_) => {
                &&& first_maintainable(
                    &old(m).im,
                    infos@,
                    old_row@.fields.len(),
                    infos@.len() as int,
                )
                &&& first_keys_fit(infos@, new_row@.fields, infos@.len() as int)
                &&& replaced(
                    old(m),
                    final(m),
                    infos@,
                    infos@.len() as int,
                    old_row@.fields,
                    id,
                    new_row@.fields,
                    new_id,
                )
            },
            Err(e) => replacement_stopped(
                old(m),
                final(m),
                infos@,
                old_row@.fields,
                id,
                new_row@.fields,
                new_id,
                e.message(),
            ),
        },
{
    let ghost n = old_row@.fields.len();
    let mut k: usize = 0;
    while k < infos.len()
        invariant
            k <= infos@.len(),
            n == old_row@.fields.len(),
            n == new_row@.fields.len(),
            m.wf(),
            only_indexes_differ(old(m), m),
            first_maintainable(&old(m).im, infos@, n, k as int),
            first_keys_fit(infos@, new_row@.fields, k as int),
            replaced(
                old(m),
                m,
                infos@,
                k as int,
                old_row@.fields,
                id,
                new_row@.fields,
                new_id,
            ),
        decreases infos@.len() - k,
    {
        let info = &infos[k];
        let ghost before = *m;
        let old_key = match old_row.extract_key(&info.columns) {
            Ok(key) => key,
            Err(e) => {
                assert(replacement_stopped_at(
                    old(m),
                    m,
                    infos@,
                    k as int,
                    old_row@.fields,
                    id,
                    new_row@.fields,
                    new_id,
                    e.message(),
                ));
                return Err(e);
            },
        };
        let new_key = match new_row.extract_key(&info.columns) {
            Ok(key) => key,
            Err(e) => {
                return Err(e);
            },
        };
        match m.im.delete_entry(&mut m.bp, info.index_id, &old_key, id) {
            Ok(_) => {},
            Err(e) => {
                proof {
                    lemma_pages_kept(&before, m, info.index_id);
                    assert(replacement_stopped_at(
                        old(m),
                        m,
                        infos@,
                        k as int,
                        old_row@.fields,
                        id,
                        new_row@.fields,
                        new_id,
                        e.message(),
                    ));
                }
                return Err(e);
            },
        }
        let ghost mid = *m;
        let inserted = m.im.insert_entry(&mut m.bp, info.index_id, new_key, new_id);
        proof {
            assert forall|c: ContainerId| !old(m).im.has(c) implies #[trigger] m.bp.pages(c) == old(
                m,
            ).bp.pages(c) by {
                assert(before.bp.pages(c) == old(m).bp.pages(c));
                assert(mid.bp.pages(c) == before.bp.pages(c));
            }
            assert forall|i: IndexId| old(m).im.has(i) implies {
                &&& #[trigger] before.im.entries(&before.bp, i) == after_replacements(
                    old(m).im.entries(&old(m).bp, i),
                    i,
                    infos@,
                    k as int,
                    old_row@.fields,
                    id,
                    new_row@.fields,
                    new_id,
                )
                &&& i != info.index_id ==> {
                    &&& mid.im.entries(&mid.bp, i) == before.im.entries(&before.bp, i)
                    &&& m.im.entries(&m.bp, i) == before.im.entries(&before.bp, i)
                }
            } by {
                if i != info.index_id {
                    assert(mid.bp.pages(i) == before.bp.pages(i));
                    assert(m.bp.pages(i) == mid.bp.pages(i));
                }
            }
        }
        match inserted {
            Ok(_) => {},
            Err(e) => {
                proof {
                    lemma_pages_kept(&mid, m, info.index_id);
                    assert forall|i: IndexId| old(m).im.has(i) implies #[trigger] m.im.entries(&m.bp, i)
                        == {
                        let full = after_replacements(
                            old(m).im.entries(&old(m).bp, i),
                            i,
                            infos@,
                            k as int,
                            old_row@.fields,
                            id,
                            new_row@.fields,
                            new_id,
                        );
                        if infos@[k as int].index_id == i {
                            full.remove(item_of(infos@[k as int], old_row@.fields, id))
                        } else {
                            full
                        }
                    } by {
                        assert(before.im.entries(&before.bp, i) == after_replacements(
                            old(m).im.entries(&old(m).bp, i),
                            i,
                            infos@,
                            k as int,
                            old_row@.fields,
                            id,
                            new_row@.fields,
                            new_id,
                        ));
                        assert(m.im.entries(&m.bp, i) == mid.im.entries(&mid.bp, i));
                    }
                    assert(replacement_stopped_at(
                        old(m),
                        m,
                        infos@,
                        k as int,
                        old_row@.fields,
                        id,
                        new_row@.fields,
                        new_id,
                        e.message(),
                    ));
                }
                return Err(e);
            },
        }
        proof {
            assert forall|i: IndexId| old(m).im.has(i) implies #[trigger] m.im.entries(&m.bp, i)
                == after_replacements(
                old(m).im.entries(&old(m).bp, i),
                i,
                infos@,
                k + 1,
                old_row@.fields,
                id,
                new_row@.fields,
                new_id,
            ) by {
                assert(before.im.entries(&before.bp, i) == after_replacements(
                    old(m).im.entries(&old(m).bp, i),
                    i,
                    infos@,
                    k as int,
                    old_row@.fields,
                    id,
                    new_row@.fields,
                    new_id,
                ));
            }
        }
        k = k + 1;
    }
    Ok(())
}

} // verus!
