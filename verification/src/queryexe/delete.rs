//! Deletion of rows.
use crate::common::error::{c_err, CrustyError};
use crate::common::ids::TransactionId;
use crate::common::table::{AttributeView, IndexInfo, TableSchema};
use crate::common::tuple;
use crate::common::tuple::{Tuple, TupleView};
use crate::index::index_manager::IndexId;
use crate::queryexe::maintenance;
use crate::queryexe::maintenance::remove_entries;
use crate::queryexe::managers;
use crate::queryexe::managers::Managers;
use crate::queryexe::op_iterator;
use crate::queryexe::op_iterator::OpIterator;
use std::collections::VecDeque;
use vstd::prelude::*;

verus! {

/// Delete operator: consumes every tuple its child produces, deletes the
/// underlying storage record for each, and removes the corresponding entry
/// from every index defined on the table. Yields the deleted tuples (so the
/// caller can report a row count).
pub struct Delete<Child: OpIterator> {
    schema: TableSchema,
    open: bool,
    tid: TransactionId,
    indexes: Vec<IndexInfo>,
    child: Child,
    /// The child's rows, drained fully in `open()` before any deletes are
    /// issued.
    pending: VecDeque<Tuple>,
}

/// Everything that stands in the way of deleting a row, and what is said of
/// it. What stands in the way stops the deletion where it is: the indexes that
/// have dropped the row by then stay without it.
pub open spec fn delete_refused(
    before: &Managers,
    after: &Managers,
    infos: Seq<IndexInfo>,
    row: TupleView,
    message: Seq<char>,
) -> bool {
    match row.value_id {
        None => {
            &&& message == "No value id set for record. Cannot delete"@
            &&& *after == *before
        },
        Some(id) => {
            &&& maintenance::only_indexes_differ(before, after)
            &&& {
                ||| maintenance::removal_stopped(before, after, infos, row.fields, id, message)
                ||| {
                    &&& maintenance::first_maintainable(
                        &before.im,
                        infos,
                        row.fields.len(),
                        infos.len() as int,
                    )
                    &&& maintenance::removed(
                        before,
                        after,
                        infos,
                        infos.len() as int,
                        row.fields,
                        id,
                    )
                    &&& before.im.has(id.container_id) || managers::stored_at(&before.bp, id) is None
                    &&& message == if managers::stored_at(&after.bp, id) is None {
                        managers::no_value(&after.bp, id, "Value not found or already deleted"@)
                    } else {
                        "Container holds an index"@
                    }
                }
            }
        },
    }
}

/// A row was deleted: its value is gone, and so is its entry in every index.
pub open spec fn row_deleted(
    before: &Managers,
    after: &Managers,
    infos: Seq<IndexInfo>,
    row: TupleView,
) -> bool {
    &&& row.value_id matches Some(id)
    &&& !before.im.has(id.container_id)
    &&& managers::stored_at(&before.bp, id) is Some
    &&& maintenance::first_maintainable(&before.im, infos, row.fields.len(), infos.len() as int)
    &&& after.im == before.im
    &&& after.stats == before.stats
    &&& after.bp.pages(id.container_id) == managers::without_value(
        before.bp.pages(id.container_id),
        id.page_id->0,
        id.slot_id->0,
    )
    &&& forall|c: u16|
        c != id.container_id && !before.im.has(c) ==> #[trigger] after.bp.pages(c)
            == before.bp.pages(c)
    &&& maintenance::removed(before, after, infos, infos.len() as int, row.fields, id)
}

impl<Child: OpIterator> Delete<Child> {
    /// The operator that the rows come from.
    pub closed spec fn source(&self) -> Child {
        self.child
    }

    /// The indexes of the table.
    pub closed spec fn infos(&self) -> Seq<IndexInfo> {
        self.indexes@
    }

    /// The rows that wait to be deleted.
    pub closed spec fn waiting(&self) -> Seq<TupleView> {
        tuple::tuple_views(self.pending@)
    }

    pub fn new(tid: TransactionId, indexes: Vec<IndexInfo>, child: Child) -> (r: Self)
        ensures
            !r.is_open(),
            r.columns() == child.columns(),
            r.infos() == indexes@,
            r.source() == child,
            r.waiting().len() == 0,
    {
        Delete {
            schema: child.get_schema().duplicate(),
            open: false,
            tid,
            indexes,
            child,
            pending: VecDeque::new(),
        }
    }
}

impl<Child: OpIterator> OpIterator for Delete<Child> {
    closed spec fn is_open(&self) -> bool {
        self.open
    }

    open spec fn rows(&self, m: &Managers) -> Seq<TupleView> {
        self.waiting()
    }

    open spec fn read_only(&self) -> bool {
        false
    }

    closed spec fn columns(&self) -> Seq<AttributeView> {
        self.schema@
    }

    open spec fn opens_with(&self, m: &Managers, rows: Seq<TupleView>) -> bool {
        exists|given: Seq<TupleView>|
            {
                &&& #[trigger] op_iterator::gives_rows(&self.source(), m, given)
                &&& rows.len() == given.len()
                &&& self.source().read_only() ==> rows == given
            }
    }

    open spec fn refuses(&self, m: &Managers, e: CrustyError) -> bool {
        !self.is_open() && op_iterator::drains_to_error(&self.source(), m, e)
    }

    open spec fn stops(&self, m: &Managers, e: CrustyError) -> bool {
        &&& self.waiting().len() > 0
        &&& exists|after: Managers| #[trigger]
            delete_refused(m, &after, self.infos(), self.waiting()[0], e.message())
    }

    open spec fn configures_to(&self, will_rewind: bool, after: &Self) -> bool {
        &&& self.source().configures_to(will_rewind, &after.source())
        &&& after.infos() == self.infos()
        &&& after.waiting() == self.waiting()
    }

    open spec fn closes_to(&self, after: &Self, r: Result<(), CrustyError>) -> bool {
        &&& self.source().closes_to(&after.source(), r)
        &&& after.infos() == self.infos()
        &&& match r {
            Ok(_) => after.waiting().len() == 0 && !after.is_open(),
            Err(_) => after.waiting() == self.waiting() && after.is_open() == self.is_open(),
        }
    }

    /// What is said goes to the operator that the rows come from.
    fn configure(&mut self, will_rewind: bool)
        ensures
            old(self).source().configures_to(will_rewind, &final(self).source()),
            final(self).infos() == old(self).infos(),
            final(self).waiting() == old(self).waiting(),
    {
        self.child.configure(will_rewind);
        proof {
            assert forall|m: Managers, rows: Seq<TupleView>| #[trigger]
                self.opens_with(&m, rows) == old(self).opens_with(&m, rows) by {
                op_iterator::lemma_same_rows(&old(self).source(), &self.source(), &m);
            }
        }
    }

    fn open(&mut self, m: &mut Managers) -> (r: Result<(), CrustyError>)
        ensures
            final(self).infos() == old(self).infos(),
            old(self).source().read_only() ==> *final(m) == *old(m),
            r is Err ==> final(self).waiting() == old(self).waiting() && !final(self).is_open(),
            !old(self).is_open() && r is Ok && old(self).source().read_only()
                ==> op_iterator::gives_rows(
                &old(self).source(),
                old(m),
                final(self).waiting(),
            ),
    {
        if !self.open {
            match self.child.open(m) {
                Ok(_) => {},
                Err(e) => {
                    return Err(e);
                },
            }
            let ghost all = self.child.rows(m);
            let mut rows: VecDeque<Tuple> = VecDeque::new();
            assert(tuple::tuple_views(rows@) + all =~= all);
            loop
                invariant
                    m.wf(),
                    self.child.is_open(),
                    self.child.read_only() == old(self).child.read_only(),
                    self.child.columns() == old(self).child.columns(),
                    op_iterator::gives_rows(&old(self).child, old(m), all),
                    rows@.len() + self.child.rows(m).len() == all.len(),
                    self.child.read_only() ==> {
                        &&& *m == *old(m)
                        &&& tuple::tuple_views(rows@) + self.child.rows(m) == all
                    },
                    self.schema == old(self).schema,
                    !self.open,
                    !old(self).open,
                    self.tid == old(self).tid,
                    self.indexes == old(self).indexes,
                    self.pending == old(self).pending,
                ensures
                    rows@.len() == all.len(),
                    self.child.read_only() ==> tuple::tuple_views(rows@) == all,
                decreases self.child.rows(m).len(),
            {
                let ghost got = rows@;
                let ghost rest = self.child.rows(m);
                let ghost now = self.child;
                let ghost n = *m;
                match self.child.next(m) {
                    Ok(Some(t)) => {
                        rows.push_back(t);
                        proof {
                            assert(tuple::tuple_views(rows@) =~= tuple::tuple_views(got).push(t@));
                            if self.child.read_only() {
                                assert(tuple::tuple_views(rows@) + rest.drop_first() =~= all);
                            }
                        }
                    },
                    Ok(None) => {
                        proof {
                            assert(tuple::tuple_views(rows@) + rest =~= tuple::tuple_views(rows@));
                        }
                        break;
                    },
                    Err(e) => {
                        proof {
                            assert(all.skip(got.len() as int).len() == rest.len());
                            if now.read_only() {
                                assert(all.skip(got.len() as int) =~= rest);
                            }
                            assert(op_iterator::comes_to(&old(self).child, old(m), &now, &n));
                        }
                        return Err(e);
                    },
                }
            }
            self.pending = rows;
            proof {
                assert(op_iterator::gives_rows(&old(self).source(), old(m), all));
                assert(self.waiting().len() == all.len());
                assert(old(self).opens_with(old(m), self.waiting()));
            }
        }
        self.open = true;
        Ok(())
    }

    fn next(&mut self, m: &mut Managers) -> (r: Result<Option<Tuple>, CrustyError>)
        ensures
            final(self).infos() == old(self).infos(),
            old(self).waiting().len() > 0 ==> {
                let row = old(self).waiting()[0];
                &&& final(self).waiting() == old(self).waiting().drop_first()
                &&& match r {
                    Ok(given) => {
                        &&& row_deleted(old(m), final(m), old(self).infos(), row)
                        &&& given matches Some(t) && t@ == row
                    },
                    Err(e) => delete_refused(old(m), final(m), old(self).infos(), row, e.message()),
                }
            },
    {
        let ghost waiting = self.waiting();
        let row = match self.pending.pop_front() {
            Some(row) => row,
            None => {
                return Ok(None);
            },
        };
        proof {
            assert(self.waiting() =~= waiting.drop_first());
        }
        let id = match row.value_id {
            Some(id) => id,
            None => {
                let e = c_err("No value id set for record. Cannot delete");
                assert(delete_refused(
                    old(m),
                    m,
                    old(self).infos(),
                    old(self).waiting()[0],
                    e.message(),
                ));
                assert(old(self).stops(old(m), e));
                return Err(e);
            },
        };
        match remove_entries(m, &self.indexes, &row, id) {
            Ok(_) => {},
            Err(e) => {
                assert(delete_refused(
                    old(m),
                    m,
                    old(self).infos(),
                    old(self).waiting()[0],
                    e.message(),
                ));
                assert(old(self).stops(old(m), e));
                return Err(e);
            },
        }
        let ghost cleared = *m;
        match m.delete_value(id) {
            Ok(_) => {},
            Err(e) => {
                proof {
                    assert forall|c: u16| #[trigger] m.bp.pages(c) == cleared.bp.pages(c) by {
                        if c != id.container_id {
                            assert(m.bp.pages(c) == cleared.bp.pages(c));
                        }
                    }
                    assert forall|i: IndexId| old(m).im.has(i) implies #[trigger] m.im.entries(
                        &m.bp,
                        i,
                    ) == cleared.im.entries(&cleared.bp, i) by {
                        assert(m.bp.pages(i) == cleared.bp.pages(i));
                    }
                }
                assert(delete_refused(
                    old(m),
                    m,
                    old(self).infos(),
                    old(self).waiting()[0],
                    e.message(),
                ));
                assert(old(self).stops(old(m), e));
                return Err(e);
            },
        }
        proof {
            assert forall|i: IndexId| old(m).im.has(i) implies #[trigger] m.im.entries(&m.bp, i)
                == cleared.im.entries(&cleared.bp, i) by {
                assert(m.bp.pages(i) == cleared.bp.pages(i));
            }
        }
        Ok(Some(row))
    }

    /// Closes the operator that the rows come from, and then this one. Where
    /// the first cannot be closed, its error comes back and nothing else
    /// changes.
    fn close(&mut self) -> (r: Result<(), CrustyError>)
        ensures
            old(self).source().closes_to(&final(self).source(), r),
            final(self).infos() == old(self).infos(),
            r is Ok ==> final(self).waiting().len() == 0,
            r is Err ==> {
                &&& final(self).waiting() == old(self).waiting()
                &&& final(self).is_open() == old(self).is_open()
            },
    {
        let answer = self.child.close();
        if answer.is_ok() {
            self.pending = VecDeque::new();
            self.open = false;
        }
        answer
    }

    /// What was deleted cannot be deleted again.
    fn rewind(&mut self) -> (r: Result<(), CrustyError>)
        ensures
            r matches Err(e) && e.message() == "rewind is not supported"@,
            *final(self) == *old(self),
    {
        Err(c_err("rewind is not supported"))
    }

    fn get_schema(&self) -> (r: &TableSchema) {
        &self.schema
    }
}

/// A deletion takes all the rows that its source gives, and gives them back in
/// the same order.
pub proof fn lemma_deletes_all_rows<Child: OpIterator>(
    op: &Delete<Child>,
    m: &Managers,
    rows: Seq<TupleView>,
)
    requires
        op.opens_with(m, rows),
    ensures
        op.source().read_only() ==> op_iterator::gives_rows(&op.source(), m, rows),
        exists|given: Seq<TupleView>|
            #[trigger] op_iterator::gives_rows(&op.source(), m, given) && given.len() == rows.len(),
{
}

} // verus!
