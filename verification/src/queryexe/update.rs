//! Update of rows.
use crate::common::error::{c_err, CrustyError};
use crate::common::field::{Field, FieldView};
use crate::common::ids::{ContainerId, TransactionId, ValueId};
use crate::common::record;
use crate::common::table::{AttributeView, IndexInfo, TableSchema};
use crate::common::tuple;
use crate::common::tuple::{Tuple, TupleView};
use crate::index::index_manager::IndexId;
use crate::queryexe::maintenance;
use crate::queryexe::maintenance::replace_entries;
use crate::queryexe::managers;
use crate::queryexe::managers::Managers;
use crate::queryexe::op_iterator;
use crate::queryexe::op_iterator::OpIterator;
use std::collections::VecDeque;
use vstd::prelude::*;

verus! {

/// New values for fields, by position.
pub type TupleAssignments = Vec<(usize, Field)>;

/// Update operator
pub struct Update<Child: OpIterator> {
    schema: TableSchema,
    open: bool,
    _container_id: ContainerId,
    tid: TransactionId,
    assignments: TupleAssignments,
    /// Every index defined on this table, pre-resolved by the planner
    /// (raw, 0-based column offsets per index) so maintenance doesn't need
    /// its own catalog access.
    indexes: Vec<IndexInfo>,
    child: Child,
    count: usize,
    /// The child's rows, drained fully in `open()` before any updates are
    /// issued.
    pending: VecDeque<Tuple>,
}

/// The fields after the first `k` assignments, one after the other.
pub open spec fn assigned(
    fields: Seq<FieldView>,
    assignments: Seq<(usize, Field)>,
    k: int,
) -> Seq<FieldView>
    decreases k,
{
    if k <= 0 {
        fields
    } else {
        assigned(fields, assignments, k - 1).update(
            assignments[k - 1].0 as int,
            assignments[k - 1].1@,
        )
    }
}

/// A row after all assignments.
pub open spec fn assigned_row(row: TupleView, assignments: Seq<(usize, Field)>) -> TupleView {
    TupleView {
        value_id: row.value_id,
        fields: assigned(row.fields, assignments, assignments.len() as int),
    }
}

/// Rows after all assignments.
pub open spec fn assigned_rows(rows: Seq<TupleView>, assignments: Seq<(usize, Field)>) -> Seq<
    TupleView,
> {
    Seq::new(rows.len(), |i: int| assigned_row(rows[i], assignments))
}

/// Every assignment goes to one of `n` fields.
pub open spec fn assignments_fit(assignments: Seq<(usize, Field)>, n: nat) -> bool {
    forall|i: int| 0 <= i < assignments.len() ==> (#[trigger] assignments[i]).0 < n
}

/// Assignments keep the number of fields.
pub proof fn lemma_assigned_len(fields: Seq<FieldView>, assignments: Seq<(usize, Field)>, k: int)
    requires
        assignments_fit(assignments, fields.len()),
        k <= assignments.len(),
    ensures
        assigned(fields, assignments, k).len() == fields.len(),
    decreases k,
{
    if k > 0 {
        lemma_assigned_len(fields, assignments, k - 1);
    }
}

/// A row after assignments: every field that some assignment names has the
/// value of the last assignment that names it, and every other field keeps its
/// value. There are as many fields as before, under the same id.
pub open spec fn takes(
    before: TupleView,
    after: TupleView,
    assignments: Seq<(usize, Field)>,
) -> bool {
    &&& after.value_id == before.value_id
    &&& after.fields.len() == before.fields.len()
    &&& forall|p: int, i: int|
        #![trigger after.fields[p], assignments[i]]
        {
            &&& 0 <= i < assignments.len()
            &&& assignments[i].0 == p
            &&& forall|j: int| i < j < assignments.len() ==> (#[trigger] assignments[j]).0 != p
        } ==> after.fields[p] == assignments[i].1@
    &&& forall|p: int|
        #![trigger after.fields[p]]
        {
            &&& 0 <= p < before.fields.len()
            &&& forall|j: int| 0 <= j < assignments.len() ==> (#[trigger] assignments[j]).0 != p
        } ==> after.fields[p] == before.fields[p]
}

/// After an update every field that some assignment names holds the value of
/// the last assignment that names it, and every other field keeps its value.
pub proof fn lemma_last_assignment_holds(row: TupleView, assignments: Seq<(usize, Field)>)
    requires
        assignments_fit(assignments, row.fields.len()),
    ensures
        takes(row, assigned_row(row, assignments), assignments),
{
    let n = assignments.len() as int;
    lemma_assigned_len(row.fields, assignments, n);
    assert forall|p: int, i: int|
        #![trigger assigned_row(row, assignments).fields[p], assignments[i]]
        {
            &&& 0 <= i < assignments.len()
            &&& assignments[i].0 == p
            &&& forall|j: int| i < j < assignments.len() ==> (#[trigger] assignments[j]).0 != p
        } implies assigned_row(row, assignments).fields[p] == assignments[i].1@ by {
        assert(assignments[i].0 < row.fields.len());
        lemma_assigned_len(row.fields, assignments, i);
        lemma_kept_since(row.fields, assignments, i + 1, n, p);
    }
    assert forall|p: int|
        #![trigger assigned_row(row, assignments).fields[p]]
        {
            &&& 0 <= p < row.fields.len()
            &&& forall|j: int| 0 <= j < assignments.len() ==> (#[trigger] assignments[j]).0 != p
        } implies assigned_row(row, assignments).fields[p] == row.fields[p] by {
        lemma_kept_since(row.fields, assignments, 0, n, p);
    }
}

/// A field that assignments `from..to` do not name keeps its value in them.
proof fn lemma_kept_since(
    fields: Seq<FieldView>,
    assignments: Seq<(usize, Field)>,
    from: int,
    to: int,
    p: int,
)
    requires
        assignments_fit(assignments, fields.len()),
        0 <= from <= to <= assignments.len(),
        0 <= p < fields.len(),
        forall|j: int| from <= j < to ==> (#[trigger] assignments[j]).0 != p,
    ensures
        assigned(fields, assignments, to)[p] == assigned(fields, assignments, from)[p],
    decreases to - from,
{
    if from < to {
        lemma_kept_since(fields, assignments, from, to - 1, p);
        lemma_assigned_len(fields, assignments, to - 1);
        assert(assignments[to - 1].0 < fields.len());
    }
}

/// Applies assignments to a row.
fn assign(row: &mut Tuple, assignments: &TupleAssignments)
    requires
        assignments_fit(assignments@, old(row)@.fields.len()),
    ensures
        final(row)@ == assigned_row(old(row)@, assignments@),
        takes(old(row)@, final(row)@, assignments@),
{
    proof {
        lemma_last_assignment_holds(row@, assignments@);
    }
    let ghost before = row@;
    let mut k: usize = 0;
    while k < assignments.len()
        invariant
            k <= assignments@.len(),
            assignments_fit(assignments@, before.fields.len()),
            row@.value_id == before.value_id,
            row@.fields == assigned(before.fields, assignments@, k as int),
            row@.fields.len() == before.fields.len(),
        decreases assignments@.len() - k,
    {
        let field_idx: usize = assignments[k].0;
        row.set_field(field_idx, assignments[k].1.duplicate());
        k = k + 1;
    }
}

fn fits(assignments: &TupleAssignments, n: usize) -> (r: bool)
    ensures
        r == assignments_fit(assignments@, n as nat),
        r <==> forall|i: int| 0 <= i < assignments@.len() ==> (#[trigger] assignments@[i]).0 < n,
{
    let mut k: usize = 0;
    while k < assignments.len()
        invariant
            k <= assignments@.len(),
            forall|i: int| 0 <= i < k ==> (#[trigger] assignments@[i]).0 < n,
        decreases assignments@.len() - k,
    {
        if assignments[k].0 >= n {
            return false;
        }
        k = k + 1;
    }
    true
}

/// A row was stored anew under `new_id`, but some index could not follow.
pub open spec fn stored_but_stopped_at(
    before: &Managers,
    after: &Managers,
    infos: Seq<IndexInfo>,
    old_fields: Seq<FieldView>,
    id: ValueId,
    new_fields: Seq<FieldView>,
    new_id: ValueId,
    message: Seq<char>,
) -> bool {
    &&& managers::update_outcome(
        &before.bp,
        before.im.has(id.container_id),
        id,
        record::cbor_bytes(tuple::tuple_record(new_fields)),
        Ok(new_id),
        after.bp.pages(id.container_id),
    )
    &&& after.im == before.im
    &&& after.stats == before.stats
    &&& forall|c: u16|
        c != id.container_id && !before.im.has(c) ==> #[trigger] after.bp.pages(c)
            == before.bp.pages(c)
    &&& maintenance::replacement_stopped(
        before,
        after,
        infos,
        old_fields,
        id,
        new_fields,
        new_id,
        message,
    )
}

/// A row was stored anew somewhere, but some index could not follow.
pub open spec fn stored_but_stopped(
    before: &Managers,
    after: &Managers,
    infos: Seq<IndexInfo>,
    old_fields: Seq<FieldView>,
    id: ValueId,
    new_fields: Seq<FieldView>,
    message: Seq<char>,
) -> bool {
    exists|new_id: ValueId| #[trigger]
        stored_but_stopped_at(before, after, infos, old_fields, id, new_fields, new_id, message)
}

/// Everything that stands in the way of updating a row, and what is said of
/// it. Once the row is stored anew, only an index can stand in the way.
pub open spec fn update_refused(
    before: &Managers,
    after: &Managers,
    infos: Seq<IndexInfo>,
    assignments: Seq<(usize, Field)>,
    row: TupleView,
    e: CrustyError,
) -> bool {
    let new_fields = assigned_row(row, assignments).fields;
    match row.value_id {
        None => {
            &&& e.message() == "No value id set for record. Cannot update"@
            &&& *after == *before
        },
        Some(id) => if !assignments_fit(assignments, row.fields.len()) {
            &&& e.message() == "assignment column out of range"@
            &&& *after == *before
        } else {
            ||| {
                &&& managers::update_outcome(
                    &before.bp,
                    before.im.has(id.container_id),
                    id,
                    record::cbor_bytes(tuple::tuple_record(new_fields)),
                    Err(e),
                    after.bp.pages(id.container_id),
                )
                &&& after.im == before.im
                &&& after.stats == before.stats
                &&& after.bp.same_but(&before.bp, id.container_id)
            }
            ||| stored_but_stopped(before, after, infos, row.fields, id, new_fields, e.message())
        },
    }
}

/// A row was stored anew under `new_id`, and every index follows.
pub open spec fn row_updated(
    before: &Managers,
    after: &Managers,
    infos: Seq<IndexInfo>,
    assignments: Seq<(usize, Field)>,
    row: TupleView,
    tid: TransactionId,
    new_id: ValueId,
) -> bool {
    let new_fields = assigned_row(row, assignments).fields;
    &&& row.value_id matches Some(id)
    &&& assignments_fit(assignments, row.fields.len())
    &&& managers::update_outcome(
        &before.bp,
        before.im.has(id.container_id),
        id,
        record::cbor_bytes(tuple::tuple_record(new_fields)),
        Ok(new_id),
        after.bp.pages(id.container_id),
    )
    &&& maintenance::first_maintainable(&before.im, infos, row.fields.len(), infos.len() as int)
    &&& maintenance::first_keys_fit(infos, new_fields, infos.len() as int)
    &&& tuple::tuple_of(record::cbor_bytes(tuple::tuple_record(new_fields))) == Some(new_fields)
    &&& record::cbor_bytes(tuple::tuple_record(new_fields)).len() > 0
    &&& after.im == before.im
    &&& after.stats@ == before.stats@.insert(new_id.container_id, tid.tid)
    &&& forall|c: u16|
        c != id.container_id && !before.im.has(c) ==> #[trigger] after.bp.pages(c)
            == before.bp.pages(c)
    &&& maintenance::replaced(
        before,
        after,
        infos,
        infos.len() as int,
        row.fields,
        id,
        new_fields,
        new_id,
    )
}

/// A row was stored anew somewhere, and every index follows.
pub open spec fn row_updated_somewhere(
    before: &Managers,
    after: &Managers,
    infos: Seq<IndexInfo>,
    assignments: Seq<(usize, Field)>,
    row: TupleView,
    tid: TransactionId,
) -> bool {
    exists|new_id: ValueId| #[trigger]
        row_updated(before, after, infos, assignments, row, tid, new_id)
}

/// Where the indexes stopped is told from what they held before the row was
/// stored anew.
proof fn lemma_stopped(
    before: &Managers,
    stored: &Managers,
    after: &Managers,
    infos: Seq<IndexInfo>,
    old_fields: Seq<FieldView>,
    id: ValueId,
    new_fields: Seq<FieldView>,
    new_id: ValueId,
    message: Seq<char>,
)
    requires
        stored.im == before.im,
        forall|i: IndexId|
            before.im.has(i) ==> #[trigger] stored.im.entries(&stored.bp, i) == before.im.entries(
                &before.bp,
                i,
            ),
        maintenance::replacement_stopped(
            stored,
            after,
            infos,
            old_fields,
            id,
            new_fields,
            new_id,
            message,
        ),
    ensures
        maintenance::replacement_stopped(
            before,
            after,
            infos,
            old_fields,
            id,
            new_fields,
            new_id,
            message,
        ),
{
    let k = choose|k: int| #[trigger]
        maintenance::replacement_stopped_at(
            stored,
            after,
            infos,
            k,
            old_fields,
            id,
            new_fields,
            new_id,
            message,
        );
    assert(maintenance::replacement_stopped_at(
        before,
        after,
        infos,
        k,
        old_fields,
        id,
        new_fields,
        new_id,
        message,
    ));
}

impl<Child: OpIterator> Update<Child> {
    /// The operator that the rows come from.
    pub closed spec fn source(&self) -> Child {
        self.child
    }

    /// The indexes of the table.
    pub closed spec fn infos(&self) -> Seq<IndexInfo> {
        self.indexes@
    }

    /// The new values.
    pub closed spec fn new_values(&self) -> Seq<(usize, Field)> {
        self.assignments@
    }

    /// The transaction that updates.
    pub closed spec fn transaction(&self) -> TransactionId {
        self.tid
    }

    /// The rows that wait to be updated.
    pub closed spec fn waiting(&self) -> Seq<TupleView> {
        tuple::tuple_views(self.pending@)
    }

    /// How many rows were updated; the count stops at the greatest number.
    pub closed spec fn updated(&self) -> nat {
        self.count as nat
    }

    /// What was given to the operator stays.
    pub open spec fn same_task(&self, other: &Self) -> bool {
        &&& self.infos() == other.infos()
        &&& self.new_values() == other.new_values()
        &&& self.transaction() == other.transaction()
    }

    pub fn new(
        container_id: &ContainerId,
        tid: TransactionId,
        assignments: TupleAssignments,
        indexes: Vec<IndexInfo>,
        child: Child,
    ) -> (r: Self)
        ensures
            !r.is_open(),
            r.columns() == child.columns(),
            r.infos() == indexes@,
            r.new_values() == assignments@,
            r.transaction() == tid,
            r.source() == child,
            r.waiting().len() == 0,
            r.updated() == 0,
    {
        Update {
            schema: child.get_schema().duplicate(),
            open: false,
            _container_id: *container_id,
            tid,
            assignments,
            indexes,
            child,
            count: 0,
            pending: VecDeque::new(),
        }
    }
}

impl<Child: OpIterator> OpIterator for Update<Child> {
    closed spec fn is_open(&self) -> bool {
        self.open
    }

    open spec fn rows(&self, m: &Managers) -> Seq<TupleView> {
        assigned_rows(self.waiting(), self.new_values())
    }

    open spec fn read_only(&self) -> bool {
        false
    }

    closed spec fn columns(&self) -> Seq<AttributeView> {
        self.schema@
    }

    open spec fn opens_with(&self, m: &Managers, rows: Seq<TupleView>) -> bool {
        exists|base: Seq<TupleView>, given: Seq<TupleView>|
            {
                &&& rows == #[trigger] assigned_rows(base, self.new_values())
                &&& #[trigger] op_iterator::gives_rows(&self.source(), m, given)
                &&& base.len() == given.len()
                &&& self.source().read_only() ==> base == given
            }
    }

    open spec fn refuses(&self, m: &Managers, e: CrustyError) -> bool {
        !self.is_open() && op_iterator::drains_to_error(&self.source(), m, e)
    }

    open spec fn stops(&self, m: &Managers, e: CrustyError) -> bool {
        &&& self.waiting().len() > 0
        &&& exists|after: Managers| #[trigger]
            update_refused(m, &after, self.infos(), self.new_values(), self.waiting()[0], e)
    }

    open spec fn configures_to(&self, will_rewind: bool, after: &Self) -> bool {
        &&& self.source().configures_to(will_rewind, &after.source())
        &&& after.same_task(self)
        &&& after.updated() == self.updated()
        &&& after.waiting() == self.waiting()
    }

    open spec fn closes_to(&self, after: &Self, r: Result<(), CrustyError>) -> bool {
        &&& self.source().closes_to(&after.source(), r)
        &&& after.same_task(self)
        &&& after.updated() == self.updated()
        &&& match r {
            Ok(_) => after.waiting().len() == 0 && !after.is_open(),
            Err(_) => after.waiting() == self.waiting() && after.is_open() == self.is_open(),
        }
    }

    /// What is said goes to the operator that the rows come from.
    fn configure(&mut self, will_rewind: bool)
        ensures
            old(self).source().configures_to(will_rewind, &final(self).source()),
            final(self).waiting() == old(self).waiting(),
            final(self).same_task(old(self)),
            final(self).updated() == old(self).updated(),
    {
        self.child.configure(will_rewind);
        proof {
            assert forall|m: Managers, rows: Seq<TupleView>| #[trigger]
                self.opens_with(&m, rows) == old(self).opens_with(&m, rows) by {
                op_iterator::lemma_same_rows(&old(self).source(), &self.source(), &m);
                assert(self.new_values() == old(self).new_values());
            }
        }
    }

    fn open(&mut self, m: &mut Managers) -> (r: Result<(), CrustyError>)
        ensures
            final(self).same_task(old(self)),
            final(self).updated() == old(self).updated(),
            old(self).source().read_only() ==> *final(m) == *old(m),
            r is Err ==> final(self).waiting() == old(self).waiting() && !final(self).is_open(),
            !old(self).is_open() && r is Ok && old(self).source().read_only()
                ==> op_iterator::gives_rows(
                &old(self).source(),
                old(m),
                final(self).waiting(),
            ),
    {
        if !self.open {
            match self.child.open(m) {
                Ok(_) => {},
                Err(e) => {
                    return Err(e);
                },
            }
            let ghost all = self.child.rows(m);
            let mut rows: VecDeque<Tuple> = VecDeque::new();
            assert(tuple::tuple_views(rows@) + all =~= all);
            loop
                invariant
                    m.wf(),
                    self.child.is_open(),
                    self.child.read_only() == old(self).child.read_only(),
                    self.child.columns() == old(self).child.columns(),
                    op_iterator::gives_rows(&old(self).child, old(m), all),
                    rows@.len() + self.child.rows(m).len() == all.len(),
                    self.child.read_only() ==> {
                        &&& *m == *old(m)
                        &&& tuple::tuple_views(rows@) + self.child.rows(m) == all
                    },
                    self.schema == old(self).schema,
                    !self.open,
                    !old(self).open,
                    self.tid == old(self).tid,
                    self.assignments == old(self).assignments,
                    self.indexes == old(self).indexes,
                    self.count == old(self).count,
                    self.pending == old(self).pending,
                ensures
                    rows@.len() == all.len(),
                    self.child.read_only() ==> tuple::tuple_views(rows@) == all,
                decreases self.child.rows(m).len(),
            {
                let ghost got = rows@;
                let ghost rest = self.child.rows(m);
                let ghost now = self.child;
                let ghost n = *m;
                match self.child.next(m) {
                    Ok(Some(t)) => {
                        rows.push_back(t);
                        proof {
                            assert(tuple::tuple_views(rows@) =~= tuple::tuple_views(got).push(t@));
                            if self.child.read_only() {
                                assert(tuple::tuple_views(rows@) + rest.drop_first() =~= all);
                            }
                        }
                    },
                    Ok(None) => {
                        proof {
                            assert(tuple::tuple_views(rows@) + rest =~= tuple::tuple_views(rows@));
                        }
                        break;
                    },
                    Err(e) => {
                        proof {
                            assert(all.skip(got.len() as int).len() == rest.len());
                            if now.read_only() {
                                assert(all.skip(got.len() as int) =~= rest);
                            }
                            assert(op_iterator::comes_to(&old(self).child, old(m), &now, &n));
                        }
                        return Err(e);
                    },
                }
            }
            self.pending = rows;
            proof {
                assert(op_iterator::gives_rows(&old(self).source(), old(m), all));
                assert(self.waiting().len() == all.len());
                assert(old(self).opens_with(
                    old(m),
                    assigned_rows(self.waiting(), old(self).new_values()),
                ));
            }
        }
        self.open = true;
        Ok(())
    }

    fn next(&mut self, m: &mut Managers) -> (r: Result<Option<Tuple>, CrustyError>)
        ensures
            final(self).same_task(old(self)),
            final(self).updated() == (if r matches Ok(Some(_)) && old(self).updated() < usize::MAX {
                old(self).updated() + 1
            } else {
                old(self).updated()
            }),
            old(self).waiting().len() > 0 ==> {
                let row = old(self).waiting()[0];
                &&& final(self).waiting() == old(self).waiting().drop_first()
                &&& match r {
                    Ok(given) => {
                        &&& row_updated_somewhere(
                            old(m),
                            final(m),
                            old(self).infos(),
                            old(self).new_values(),
                            row,
                            old(self).transaction(),
                        )
                        &&& given matches Some(t) && takes(row, t@, old(self).new_values())
                    },
                    Err(e) => update_refused(
                        old(m),
                        final(m),
                        old(self).infos(),
                        old(self).new_values(),
                        row,
                        e,
                    ),
                }
                &&& row.value_id is None ==> r is Err
            },
    {
        let ghost waiting = self.waiting();
        let mut row = match self.pending.pop_front() {
            Some(row) => row,
            None => {
                return Ok(None);
            },
        };
        let ghost first = row@;
        proof {
            assert(self.waiting() =~= waiting.drop_first());
        }
        let id = match row.value_id {
            Some(id) => id,
            None => {
                let e = c_err("No value id set for record. Cannot update");
                assert(update_refused(
                    old(m),
                    m,
                    old(self).infos(),
                    old(self).new_values(),
                    old(self).waiting()[0],
                    e,
                ));
                assert(old(self).stops(old(m), e));
                return Err(e);
            },
        };
        // Field values before the assignments are applied, needed to compute
        // each index's *old* key so its stale entry can be removed.
        let old_row = row.duplicate();
        if !fits(&self.assignments, row.fields.len()) {
            let e = c_err("assignment column out of range");
            assert(update_refused(
                old(m),
                m,
                old(self).infos(),
                old(self).new_values(),
                old(self).waiting()[0],
                e,
            ));
            assert(old(self).stops(old(m), e));
            return Err(e);
        }
        assign(&mut row, &self.assignments);
        proof {
            lemma_assigned_len(first.fields, self.assignments@, self.assignments@.len() as int);
        }
        // Persist change
        let bytes: Vec<u8> = row.to_bytes();
        let new_id = match m.update_value(&bytes, id) {
            Ok(new_id) => new_id,
            Err(e) => {
                assert(update_refused(
                    old(m),
                    m,
                    old(self).infos(),
                    old(self).new_values(),
                    old(self).waiting()[0],
                    e,
                ));
                assert(old(self).stops(old(m), e));
                return Err(e);
            },
        };
        let ghost stored = *m;
        proof {
            assert forall|i: IndexId| old(m).im.has(i) implies #[trigger] stored.im.entries(
                &stored.bp,
                i,
            ) == old(m).im.entries(&old(m).bp, i) by {
                assert(stored.bp.pages(i) == old(m).bp.pages(i));
            }
        }
        match replace_entries(m, &self.indexes, &old_row, id, &row, new_id) {
            Ok(_) => {},
            Err(e) => {
                proof {
                    lemma_stopped(
                        old(m),
                        &stored,
                        m,
                        self.indexes@,
                        first.fields,
                        id,
                        row@.fields,
                        new_id,
                        e.message(),
                    );
                    assert(stored_but_stopped_at(
                        old(m),
                        m,
                        self.indexes@,
                        first.fields,
                        id,
                        row@.fields,
                        new_id,
                        e.message(),
                    ));
                }
                assert(update_refused(
                    old(m),
                    m,
                    old(self).infos(),
                    old(self).new_values(),
                    old(self).waiting()[0],
                    e,
                ));
                assert(old(self).stops(old(m), e));
                return Err(e);
            },
        }
        if self.count < usize::MAX {
            self.count = self.count + 1;
        }
        // Update state tracker
        m.stats.set_ts(new_id.container_id, self.tid.id());
        proof {
            assert(row_updated(
                old(m),
                m,
                self.indexes@,
                self.assignments@,
                first,
                self.tid,
                new_id,
            ));
        }
        Ok(Some(row))
    }

    /// Closes the operator that the rows come from, and then this one. Where
    /// the first cannot be closed, its error comes back and nothing else
    /// changes.
    fn close(&mut self) -> (r: Result<(), CrustyError>)
        ensures
            old(self).source().closes_to(&final(self).source(), r),
            final(self).same_task(old(self)),
            final(self).updated() == old(self).updated(),
            r is Ok ==> final(self).waiting().len() == 0,
            r is Err ==> {
                &&& final(self).waiting() == old(self).waiting()
                &&& final(self).is_open() == old(self).is_open()
            },
    {
        let answer = self.child.close();
        if answer.is_ok() {
            self.pending = VecDeque::new();
            self.open = false;
        }
        answer
    }

    /// What was updated cannot be updated again.
    fn rewind(&mut self) -> (r: Result<(), CrustyError>)
        ensures
            r matches Err(e) && e.message() == "rewind is not supported"@,
            *final(self) == *old(self),
    {
        Err(c_err("rewind is not supported"))
    }

    fn get_schema(&self) -> (r: &TableSchema) {
        &self.schema
    }
}

/// An update gives every row back, in the same order, with its assigned values.
pub proof fn lemma_rows_take(rows: Seq<TupleView>, assignments: Seq<(usize, Field)>, i: int)
    requires
        0 <= i < rows.len(),
        assignments_fit(assignments, rows[i].fields.len()),
    ensures
        assigned_rows(rows, assignments).len() == rows.len(),
        takes(rows[i], assigned_rows(rows, assignments)[i], assignments),
{
    lemma_last_assignment_holds(rows[i], assignments);
}

/// An updated container has the time of the transaction that updated it, and all
/// others keep theirs.
pub proof fn lemma_update_stamps(
    before: &Managers,
    after: &Managers,
    infos: Seq<IndexInfo>,
    assignments: Seq<(usize, Field)>,
    row: TupleView,
    tid: TransactionId,
    new_id: ValueId,
)
    requires
        before.wf(),
        row_updated(before, after, infos, assignments, row, tid, new_id),
    ensures
        row.value_id is Some,
        after.stats@.contains_key((row.value_id->0).container_id),
        after.stats@[(row.value_id->0).container_id] == tid.tid,
        forall|c: ContainerId|
            c != (row.value_id->0).container_id ==> {
                &&& #[trigger] after.stats@.contains_key(c) == before.stats@.contains_key(c)
                &&& after.stats@[c] == before.stats@[c]
            },
{
    let id = row.value_id->0;
    let bytes = record::cbor_bytes(
        tuple::tuple_record(assigned_row(row, assignments).fields),
    );
    managers::lemma_updated_is_read(
        &before.bp,
        id,
        bytes,
        new_id,
        after.bp.pages(id.container_id),
    );
}

/// An update takes all the rows that its source gives, and gives each of them
/// back with its assigned values, in the same order.
pub proof fn lemma_updates_all_rows<Child: OpIterator>(
    op: &Update<Child>,
    m: &Managers,
    rows: Seq<TupleView>,
) -> (given: Seq<TupleView>)
    requires
        op.opens_with(m, rows),
    ensures
        op_iterator::gives_rows(&op.source(), m, given),
        given.len() == rows.len(),
        op.source().read_only() ==> forall|i: int|
            0 <= i < rows.len() && assignments_fit(op.new_values(), given[i].fields.len())
                ==> takes(given[i], #[trigger] rows[i], op.new_values()),
{
    let (base, given) = choose|base: Seq<TupleView>, given: Seq<TupleView>|
        {
            &&& rows == #[trigger] assigned_rows(base, op.new_values())
            &&& #[trigger] op_iterator::gives_rows(&op.source(), m, given)
            &&& base.len() == given.len()
            &&& op.source().read_only() ==> base == given
        };
    assert forall|i: int|
        {
            &&& 0 <= i < rows.len()
            &&& base == given
            &&& assignments_fit(op.new_values(), given[i].fields.len())
        } implies takes(given[i], #[trigger] rows[i], op.new_values()) by {
        lemma_rows_take(base, op.new_values(), i);
    }
    given
}

} // verus!
