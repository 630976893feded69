//! Point lookups through an index.
use crate::common::error::CrustyError;
use crate::common::field;
use crate::common::field::{Field, FieldView};
use crate::common::ids::{ContainerId, TransactionId, ValueId};
use crate::common::table::{AttributeView, TableSchema};
use crate::common::tuple;
use crate::common::tuple::{Tuple, TupleView};
use crate::index::index_manager;
use crate::index::index_manager::IndexManager;
use crate::queryexe::managers;
use crate::queryexe::managers::Managers;
use crate::queryexe::op_iterator::OpIterator;
use vstd::prelude::*;

verus! {

/// Index scan operator: a point lookup via a B+Tree index, in place of a full
/// scan. Used instead of a scan and a selection when every column of some
/// index on the table has an equality predicate in the query.
pub struct IndexScan {
    schema: TableSchema,
    index_id: ContainerId,
    transaction_id: TransactionId,
    key: Vec<Field>,
    open: bool,
    matches: Vec<ValueId>,
    next_idx: usize,
}

/// The fields of the row stored under an id; `None` where no row is stored
/// there.
pub open spec fn row_at(m: &Managers, id: ValueId) -> Option<Seq<FieldView>> {
    match managers::stored_at(&m.bp, id) {
        Some(bytes) => tuple::tuple_of(bytes),
        None => None,
    }
}

/// The rows stored under the given ids.
pub open spec fn rows_at(m: &Managers, ids: Seq<ValueId>) -> Seq<TupleView> {
    Seq::new(
        ids.len(),
        |i: int| TupleView { value_id: Some(ids[i]), fields: row_at(m, ids[i])->0 },
    )
}

/// The ids are those that the index holds under the key, each as often.
pub open spec fn found_in(
    m: &Managers,
    index_id: ContainerId,
    key: Seq<FieldView>,
    ids: Seq<ValueId>,
) -> bool {
    forall|id: ValueId| #[trigger]
        ids.to_multiset().count(id) == m.im.entries(&m.bp, index_id).count((key, id))
}

impl IndexScan {
    /// The index that is asked.
    pub closed spec fn index(&self) -> ContainerId {
        self.index_id
    }

    /// The key that is looked up.
    pub closed spec fn lookup_key(&self) -> Seq<FieldView> {
        field::views(self.key@)
    }

    /// What the index gave for the key.
    pub closed spec fn found(&self) -> Seq<ValueId> {
        self.matches@
    }

    /// How many of the matches have been asked for.
    pub closed spec fn position(&self) -> int {
        if self.next_idx < self.matches@.len() {
            self.next_idx as int
        } else {
            self.matches@.len() as int
        }
    }

    /// As many matches have been asked for as there are, or fewer.
    pub proof fn lemma_position(&self)
        ensures
            0 <= self.position() <= self.found().len(),
    {
    }

    pub fn new(
        schema: &TableSchema,
        index_id: ContainerId,
        tid: TransactionId,
        key: Vec<Field>,
    ) -> (r: Self)
        ensures
            !r.is_open(),
            r.columns() == schema@,
            r.index() == index_id,
            r.lookup_key() == field::views(key@),
            r.found().len() == 0,
            r.position() == 0,
    {
        IndexScan {
            schema: schema.duplicate(),
            index_id,
            transaction_id: tid,
            key,
            open: false,
            matches: Vec::new(),
            next_idx: 0,
        }
    }
}

impl OpIterator for IndexScan {
    closed spec fn is_open(&self) -> bool {
        self.open
    }

    open spec fn rows(&self, m: &Managers) -> Seq<TupleView> {
        rows_at(m, self.found().skip(self.position()))
    }

    open spec fn read_only(&self) -> bool {
        true
    }

    open spec fn opens_with(&self, m: &Managers, rows: Seq<TupleView>) -> bool {
        &&& m.im.has(self.index())
        &&& exists|ids: Seq<ValueId>|
            {
                &&& rows == #[trigger] rows_at(m, ids)
                &&& found_in(m, self.index(), self.lookup_key(), ids)
            }
    }

    closed spec fn columns(&self) -> Seq<AttributeView> {
        self.schema@
    }

    open spec fn refuses(&self, m: &Managers, e: CrustyError) -> bool {
        &&& !self.is_open()
        &&& !m.im.has(self.index())
        &&& e.message() == index_manager::not_found(self.index())
    }

    open spec fn stops(&self, m: &Managers, e: CrustyError) -> bool {
        let id = self.found()[self.position()];
        &&& self.position() < self.found().len()
        &&& row_at(m, id) is None
        &&& e.message() == match managers::stored_at(&m.bp, id) {
            None => managers::no_value(&m.bp, id, "Value not found"@),
            Some(_) => "tuple decode error"@,
        }
    }

    open spec fn configures_to(&self, will_rewind: bool, after: &Self) -> bool {
        *after == *self
    }

    open spec fn closes_to(&self, after: &Self, r: Result<(), CrustyError>) -> bool {
        &&& r is Ok
        &&& !after.is_open()
        &&& after.index() == self.index()
        &&& after.lookup_key() == self.lookup_key()
        &&& after.columns() == self.columns()
        &&& after.found().len() == 0
        &&& after.position() == 0
    }

    fn configure(&mut self, _will_rewind: bool)
        ensures
            *final(self) == *old(self),
    {
        // no children
    }

    fn open(&mut self, m: &mut Managers) -> (r: Result<(), CrustyError>)
        ensures
            final(self).index() == old(self).index(),
            final(self).lookup_key() == old(self).lookup_key(),
            !old(self).is_open() ==> match r {
                Ok(_) => {
                    &&& old(m).im.has(old(self).index())
                    &&& final(self).position() == 0
                    &&& found_in(
                        old(m),
                        old(self).index(),
                        old(self).lookup_key(),
                        final(self).found(),
                    )
                    &&& final(self).found() == IndexManager::tree(old(self).index()).ids_of(
                        &old(m).bp,
                        old(self).lookup_key(),
                    )
                },
                Err(e) => {
                    &&& !old(m).im.has(old(self).index())
                    &&& e.message() == index_manager::not_found(old(self).index())
                    &&& *final(self) == *old(self)
                },
            },
    {
        if !self.open {
            match m.im.search(&m.bp, self.index_id, &self.key) {
                Ok(matches) => {
                    self.matches = matches;
                },
                Err(e) => {
                    return Err(e);
                },
            }
            self.next_idx = 0;
            proof {
                assert(self.found().skip(0) =~= self.found());
                assert(found_in(m, self.index(), self.lookup_key(), self.found()));
                assert(self.rows(m) == rows_at(m, self.found()));
            }
        }
        self.open = true;
        Ok(())
    }

    fn next(&mut self, m: &mut Managers) -> (r: Result<Option<Tuple>, CrustyError>)
        ensures
            final(self).index() == old(self).index(),
            final(self).lookup_key() == old(self).lookup_key(),
            final(self).found() == old(self).found(),
            ({
                let at = old(self).position();
                if at == old(self).found().len() {
                    r matches Ok(None) && final(self).position() == at
                } else {
                    let id = old(self).found()[at];
                    &&& final(self).position() == at + 1
                    &&& r is Ok <==> row_at(old(m), id) is Some
                    &&& r matches Err(e) ==> e.message() == match managers::stored_at(&old(m).bp, id) {
                        None => managers::no_value(&old(m).bp, id, "Value not found"@),
                        Some(_) => "tuple decode error"@,
                    }
                }
            }),
    {
        if self.next_idx >= self.matches.len() {
            return Ok(None);
        }
        let ghost before = self.found().skip(self.position());
        let id: ValueId = self.matches[self.next_idx];
        self.next_idx = self.next_idx + 1;
        proof {
            assert(before[0] == id);
            assert(self.found().skip(self.position()) =~= before.drop_first());
        }
        let bytes = match m.get_value(id) {
            Ok(bytes) => bytes,
            Err(e) => {
                return Err(e);
            },
        };
        let mut row = match Tuple::from_bytes(&bytes) {
            Ok(row) => row,
            Err(e) => {
                return Err(e);
            },
        };
        row.value_id = Some(id);
        proof {
            assert(self.rows(m) =~= old(self).rows(old(m)).drop_first());
            assert(row@ =~= old(self).rows(old(m))[0]);
        }
        Ok(Some(row))
    }

    fn close(&mut self) -> (r: Result<(), CrustyError>)
        ensures
            r is Ok,
            final(self).index() == old(self).index(),
            final(self).lookup_key() == old(self).lookup_key(),
            final(self).found().len() == 0,
            final(self).position() == 0,
    {
        self.matches.clear();
        self.next_idx = 0;
        self.open = false;
        Ok(())
    }

    fn rewind(&mut self) -> (r: Result<(), CrustyError>)
        ensures
            r is Ok,
            final(self).index() == old(self).index(),
            final(self).lookup_key() == old(self).lookup_key(),
            final(self).found() == old(self).found(),
            final(self).position() == 0,
    {
        self.next_idx = 0;
        Ok(())
    }

    fn get_schema(&self) -> (r: &TableSchema) {
        &self.schema
    }
}

} // verus!
