use crustydb::common::error::CrustyError;
use crustydb::common::field::Field;
use crustydb::common::ids::{TransactionId, ValueId};
use crustydb::common::table::{DataType, IndexInfo, TableSchema};
use crustydb::common::tuple::Tuple;
use crustydb::heapstore::heap_file::HeapFile;
use crustydb::queryexe::delete::Delete;
use crustydb::queryexe::index_scan::IndexScan;
use crustydb::queryexe::managers::{Managers, StateTracker};
use crustydb::queryexe::op_iterator::OpIterator;
use crustydb::queryexe::update::Update;

const T: u16 = 1;
const IDX: u16 = 2;
const TID: TransactionId = TransactionId { tid: 42 };

fn schema(names: &[&str]) -> TableSchema {
    TableSchema::from_vecs(names.to_vec(), names.iter().map(|_| DataType::BigInt).collect())
}

/// Rows that are given one after the other.
struct Given {
    schema: TableSchema,
    rows: Vec<Tuple>,
    at: usize,
    open: bool,
}

impl OpIterator for Given {
    fn configure(&mut self, _will_rewind: bool) {}

    fn open(&mut self, _m: &mut Managers) -> Result<(), CrustyError> {
        self.open = true;
        Ok(())
    }

    fn next(&mut self, _m: &mut Managers) -> Result<Option<Tuple>, CrustyError> {
        if self.at == self.rows.len() {
            return Ok(None);
        }
        self.at += 1;
        Ok(Some(self.rows[self.at - 1].duplicate()))
    }

    fn close(&mut self) -> Result<(), CrustyError> {
        self.open = false;
        Ok(())
    }

    fn rewind(&mut self) -> Result<(), CrustyError> {
        self.at = 0;
        Ok(())
    }

    fn get_schema(&self) -> &TableSchema {
        &self.schema
    }
}

fn row(values: &[i64]) -> Tuple {
    Tuple::new(values.iter().map(|v| Field::BigInt(*v)).collect())
}

fn create_table() -> Managers {
    let mut m = Managers::new();
    HeapFile::new(T, &mut m.bp).unwrap();
    m
}

/// Stores rows, and adds the entry of each one to the given indexes.
fn insert(m: &mut Managers, infos: &[IndexInfo], rows: &[&[i64]]) {
    for values in rows {
        let t = row(values);
        let id = HeapFile { c_id: T }.add_val(&mut m.bp, &t.to_bytes()).unwrap();
        for info in infos {
            let key = t.extract_key(&info.columns).unwrap();
            m.im.insert_entry(&mut m.bp, info.index_id, key, id).unwrap();
        }
    }
}

fn create_index(m: &mut Managers, columns: &[usize]) -> IndexInfo {
    m.im.create_index(&mut m.bp, IDX, T, columns, TID).unwrap();
    IndexInfo::new(IDX, "idx".to_string(), T, columns.to_vec(), false)
}

fn matches(t: &Tuple, column: usize, value: i64) -> bool {
    t.get_field(column) == Some(&Field::BigInt(value))
}

/// The rows of the table, each with its id.
fn all_rows(m: &Managers) -> Vec<Tuple> {
    let mut it = HeapFile { c_id: T }.iter();
    let mut rows = Vec::new();
    while let Some((bytes, id)) = it.next(&m.bp) {
        let mut t = Tuple::from_bytes(&bytes).unwrap();
        t.value_id = Some(id);
        rows.push(t);
    }
    rows
}

/// The rows whose column has the value.
fn scan(m: &Managers, column: usize, value: i64) -> Given {
    let rows = all_rows(m).into_iter().filter(|t| matches(t, column, value)).collect();
    Given { schema: schema(&["a", "b"]), rows, at: 0, open: false }
}

fn drain<O: OpIterator>(op: &mut O, m: &mut Managers) -> Vec<Tuple> {
    op.configure(false);
    op.open(m).unwrap();
    let mut rows = Vec::new();
    while let Some(t) = op.next(m).unwrap() {
        rows.push(t);
    }
    assert!(op.next(m).unwrap().is_none());
    op.close().unwrap();
    rows
}

fn lookup(m: &mut Managers, key: &[i64]) -> Vec<Tuple> {
    let fields = key.iter().map(|v| Field::BigInt(*v)).collect();
    drain(&mut IndexScan::new(&schema(&["a", "b"]), IDX, TID, fields), m)
}

#[test]
fn create_index_on_existing_rows_then_lookup() {
    let mut m = create_table();
    for i in 0..1000 {
        insert(&mut m, &[], &[&[i, (i * 7) % 1000]]);
    }
    create_index(&mut m, &[1]);
    let via_index = lookup(&mut m, &[5]).len();
    assert_eq!(via_index, 1);
    assert_eq!(lookup(&mut m, &[999999]).len(), 0);
}

#[test]
fn index_maintained_on_insert() {
    let mut m = create_table();
    let info = create_index(&mut m, &[1]);
    insert(&mut m, &[info], &[&[1, 100], &[2, 200], &[3, 300]]);
    assert_eq!(lookup(&mut m, &[200]).len(), 1);
    assert_eq!(lookup(&mut m, &[400]).len(), 0);
}

#[test]
fn index_maintained_on_delete() {
    let mut m = create_table();
    insert(&mut m, &[], &[&[1, 100], &[2, 200], &[3, 300]]);
    let info = create_index(&mut m, &[1]);
    assert_eq!(lookup(&mut m, &[200]).len(), 1);
    let child = scan(&m, 0, 2);
    assert_eq!(drain(&mut Delete::new(TID, vec![info], child), &mut m).len(), 1);
    assert_eq!(lookup(&mut m, &[200]).len(), 0);
    // Untouched rows still findable.
    assert_eq!(lookup(&mut m, &[100]).len(), 1);
    assert_eq!(lookup(&mut m, &[300]).len(), 1);
    assert_eq!(all_rows(&m).len(), 2);
}

#[test]
fn index_maintained_on_update() {
    let mut m = create_table();
    insert(&mut m, &[], &[&[1, 100], &[2, 200], &[3, 300]]);
    let info = create_index(&mut m, &[1]);
    let child = scan(&m, 0, 2);
    let mut update = Update::new(&T, TID, vec![(1, Field::BigInt(999))], vec![info], child);
    assert_eq!(drain(&mut update, &mut m)[0].fields, row(&[2, 999]).fields);
    // Old key no longer resolves, new key does.
    assert_eq!(lookup(&mut m, &[200]).len(), 0);
    assert_eq!(lookup(&mut m, &[999]).len(), 1);
}

#[test]
fn non_unique_secondary_index_returns_all_matches() {
    let mut m = create_table();
    insert(&mut m, &[], &[&[1, 7], &[2, 7], &[3, 7], &[4, 8]]);
    create_index(&mut m, &[1]);
    assert_eq!(lookup(&mut m, &[7]).len(), 3);
    assert_eq!(lookup(&mut m, &[8]).len(), 1);
}

#[test]
fn composite_index_lookup() {
    let mut m = create_table();
    insert(&mut m, &[], &[&[1, 1, 10], &[2, 1, 20], &[3, 2, 10]]);
    create_index(&mut m, &[1, 2]);
    // Full composite match uses the index; a partial (b-only) predicate falls
    // back to a normal scan and filter, both must be correct.
    assert_eq!(lookup(&mut m, &[1, 10]).len(), 1);
    assert_eq!(scan(&m, 1, 1).rows.len(), 2);
}

#[test]
fn lookup_finds_what_a_scan_finds() {
    let mut m = create_table();
    for i in 0..300 {
        insert(&mut m, &[], &[&[i, i % 17]]);
    }
    create_index(&mut m, &[1]);
    for v in 0..20 {
        let mut found = lookup(&mut m, &[v]);
        found.sort_by_key(|t| t.value_id.map(|id| (id.page_id, id.slot_id)));
        assert_eq!(found, scan(&m, 1, v).rows);
    }
}

#[test]
fn every_index_follows_a_row_that_moves() {
    let mut m = create_table();
    let file = HeapFile { c_id: T };
    let text = |n: usize| Field::String("x".repeat(n));
    for i in 0..3 {
        let t = Tuple::new(vec![Field::BigInt(i), text(1200)]);
        file.add_val(&mut m.bp, &t.to_bytes()).unwrap();
    }
    let info = create_index(&mut m, &[0]);
    let child = scan(&m, 0, 1);
    let before = child.rows[0].value_id;
    let mut update = Update::new(&T, TID, vec![(1, text(3000))], vec![info], child);
    assert_eq!(drain(&mut update, &mut m).len(), 1);
    let found = lookup(&mut m, &[1]);
    assert_eq!(found.len(), 1);
    assert_ne!(found[0].value_id, before);
    assert_eq!(found[0].fields[1], text(3000));
    assert_eq!(lookup(&mut m, &[0]).len(), 1);
    assert_eq!(all_rows(&m).len(), 3);
}

#[test]
fn update_records_when_the_table_was_written() {
    let mut m = create_table();
    insert(&mut m, &[], &[&[1, 100]]);
    assert_eq!(m.stats.get_ts(T), None);
    let child = scan(&m, 0, 1);
    let mut update = Update::new(&T, TID, vec![(1, Field::BigInt(5))], vec![], child);
    drain(&mut update, &mut m);
    assert_eq!(m.stats.get_ts(T), Some(42));
    let mut tracker = StateTracker::new();
    tracker.set_ts(3, 8);
    tracker.set_ts(3, 9);
    assert_eq!((tracker.get_ts(3), tracker.get_ts(4)), (Some(9), None));
}

#[test]
fn later_assignments_win() {
    let mut m = create_table();
    insert(&mut m, &[], &[&[1, 100]]);
    let child = scan(&m, 0, 1);
    let assignments = vec![(1, Field::BigInt(5)), (0, Field::BigInt(8)), (1, Field::BigInt(6))];
    let mut update = Update::new(&T, TID, assignments, vec![], child);
    assert_eq!(drain(&mut update, &mut m)[0].fields, row(&[8, 6]).fields);
    assert_eq!(all_rows(&m)[0].fields, row(&[8, 6]).fields);
}

#[test]
fn update_does_not_meet_its_own_rows() {
    // Every row is moved to where a scan would still come by.
    let mut m = create_table();
    for i in 0..5 {
        insert(&mut m, &[], &[&[i, 0]]);
    }
    let child = scan(&m, 1, 0);
    let mut update = Update::new(&T, TID, vec![(0, Field::BigInt(9))], vec![], child);
    assert_eq!(drain(&mut update, &mut m).len(), 5);
    assert_eq!(all_rows(&m).len(), 5);
}

fn next_error<O: OpIterator>(op: &mut O, m: &mut Managers) -> String {
    op.open(m).unwrap();
    op.next(m).unwrap_err().text().to_string()
}

#[test]
fn rows_without_a_place_are_refused() {
    let mut m = create_table();
    let given = || Given { schema: schema(&["a"]), rows: vec![row(&[1])], at: 0, open: false };
    assert_eq!(
        next_error(&mut Delete::new(TID, vec![], given()), &mut m),
        "No value id set for record. Cannot delete"
    );
    assert_eq!(
        next_error(&mut Update::new(&T, TID, vec![], vec![], given()), &mut m),
        "No value id set for record. Cannot update"
    );
}

#[test]
fn rows_that_are_not_stored_are_refused() {
    let mut m = create_table();
    let mut t = row(&[1]);
    t.value_id = Some(ValueId::new_slot(T, 4, 0));
    let given = |t: &Tuple| Given {
        schema: schema(&["a"]),
        rows: vec![t.duplicate()],
        at: 0,
        open: false,
    };
    assert_eq!(next_error(&mut Delete::new(TID, vec![], given(&t)), &mut m), "Page not found");
    assert_eq!(
        next_error(&mut Update::new(&T, TID, vec![], vec![], given(&t)), &mut m),
        "Page not found"
    );
    t.value_id = Some(ValueId::new_slot(T, 0, 0));
    assert_eq!(
        next_error(&mut Delete::new(TID, vec![], given(&t)), &mut m),
        "Value not found or already deleted"
    );
    t.value_id = Some(ValueId { container_id: T, page_id: None, slot_id: Some(1) });
    assert_eq!(
        next_error(&mut Delete::new(TID, vec![], given(&t)), &mut m),
        "Value id without page or slot"
    );
}

#[test]
fn pages_of_an_index_hold_no_rows() {
    let mut m = create_table();
    insert(&mut m, &[], &[&[1, 2]]);
    create_index(&mut m, &[0]);
    let id = ValueId::new_slot(IDX, 1, 0);
    assert_eq!(m.delete_value(id).unwrap_err().text(), "Container holds an index");
    assert_eq!(m.update_value(&[1], id).unwrap_err().text(), "Container holds an index");
    // Where nothing is stored there is nothing to protect.
    let id = ValueId::new_slot(IDX, 1, 9);
    assert_eq!(m.delete_value(id).unwrap_err().text(), "Value not found or already deleted");
    assert_eq!(m.update_value(&[1], id).unwrap_err().text(), "Update failed: slot not found");
}

#[test]
fn values_are_stored_under_their_ids() {
    let mut m = create_table();
    let id = HeapFile { c_id: T }.add_val(&mut m.bp, &[1, 2, 3]).unwrap();
    assert_eq!(m.get_value(id).unwrap(), vec![1, 2, 3]);
    assert_eq!(m.update_value(&[4, 5], id).unwrap(), id);
    assert_eq!(m.get_value(id).unwrap(), vec![4, 5]);
    m.delete_value(id).unwrap();
    assert_eq!(m.get_value(id).unwrap_err().text(), "Value not found");
}

#[test]
fn index_that_is_not_there_stops_a_row() {
    let mut m = create_table();
    insert(&mut m, &[], &[&[1, 2]]);
    let info = IndexInfo::new(9, "gone".to_string(), T, vec![0], false);
    let child = scan(&m, 0, 1);
    assert_eq!(
        next_error(&mut Delete::new(TID, vec![info.clone()], child), &mut m),
        "Index 9 not found"
    );
    // The row stays: its entries go first.
    assert_eq!(all_rows(&m).len(), 1);
    let child = scan(&m, 0, 1);
    assert_eq!(
        next_error(&mut Update::new(&T, TID, vec![], vec![info], child), &mut m),
        "Index 9 not found"
    );
    let scan_of_nothing = &mut IndexScan::new(&schema(&["a"]), 9, TID, vec![]);
    assert_eq!(scan_of_nothing.open(&mut m).unwrap_err().text(), "Index 9 not found");
}

#[test]
fn columns_and_assignments_are_held_to_the_row() {
    let mut m = create_table();
    insert(&mut m, &[], &[&[1, 2]]);
    let mut info = create_index(&mut m, &[0]);
    info.columns = vec![7];
    let child = scan(&m, 0, 1);
    assert_eq!(
        next_error(&mut Delete::new(TID, vec![info], child), &mut m),
        "index column out of range"
    );
    let child = scan(&m, 0, 1);
    let mut update = Update::new(&T, TID, vec![(2, Field::Null)], vec![], child);
    assert_eq!(next_error(&mut update, &mut m), "assignment column out of range");
}

#[test]
fn new_key_that_is_too_large_is_refused() {
    let mut m = create_table();
    insert(&mut m, &[], &[&[1, 2]]);
    let info = create_index(&mut m, &[0]);
    let child = scan(&m, 0, 1);
    let large = Field::String("x".repeat(4010));
    let mut update = Update::new(&T, TID, vec![(0, large)], vec![info], child);
    assert_eq!(next_error(&mut update, &mut m), "index key too large");
}

#[test]
fn scan_of_an_index_can_start_over() {
    let mut m = create_table();
    insert(&mut m, &[], &[&[1, 7], &[2, 7]]);
    create_index(&mut m, &[1]);
    let mut op = IndexScan::new(&schema(&["a", "b"]), IDX, TID, vec![Field::BigInt(7)]);
    op.open(&mut m).unwrap();
    let first = op.next(&mut m).unwrap().unwrap();
    op.rewind().unwrap();
    assert_eq!(op.next(&mut m).unwrap().unwrap(), first);
    op.open(&mut m).unwrap();
    assert_ne!(op.next(&mut m).unwrap().unwrap(), first);
    assert!(op.next(&mut m).unwrap().is_none());
    assert_eq!(op.get_schema().size(), 2);
}

#[test]
fn scan_of_an_index_tells_of_lost_rows() {
    let mut m = create_table();
    insert(&mut m, &[], &[&[1, 7], &[2, 8]]);
    create_index(&mut m, &[1]);
    HeapFile { c_id: T }.delete_val(&mut m.bp, 1, 0).unwrap();
    let mut op = IndexScan::new(&schema(&["a", "b"]), IDX, TID, vec![Field::BigInt(7)]);
    assert_eq!(next_error(&mut op, &mut m), "Value not found");
    HeapFile { c_id: T }.update_val(&mut m.bp, 1, 1, &[0xff]).unwrap();
    let mut op = IndexScan::new(&schema(&["a", "b"]), IDX, TID, vec![Field::BigInt(8)]);
    assert_eq!(next_error(&mut op, &mut m), "tuple decode error");
}

#[test]
fn changes_cannot_be_rewound() {
    let mut m = create_table();
    let child = || Given { schema: schema(&["a"]), rows: vec![], at: 0, open: false };
    let mut delete = Delete::new(TID, vec![], child());
    delete.open(&mut m).unwrap();
    assert_eq!(delete.rewind().unwrap_err().text(), "rewind is not supported");
    let mut update = Update::new(&T, TID, vec![], vec![], child());
    update.open(&mut m).unwrap();
    assert_eq!(update.rewind().unwrap_err().text(), "rewind is not supported");
    assert_eq!(update.get_schema().size(), 1);
    assert_eq!(delete.get_schema().size(), 1);
}

#[test]
fn deletion_of_other_tables_leaves_an_index_alone() {
    let mut m = create_table();
    insert(&mut m, &[], &[&[1, 7]]);
    create_index(&mut m, &[1]);
    let other = HeapFile::new(5, &mut m.bp).unwrap();
    let id = other.add_val(&mut m.bp, &row(&[1, 7]).to_bytes()).unwrap();
    let mut t = row(&[1, 7]);
    t.value_id = Some(id);
    let child = Given { schema: schema(&["a", "b"]), rows: vec![t], at: 0, open: false };
    assert_eq!(drain(&mut Delete::new(TID, vec![], child), &mut m).len(), 1);
    assert_eq!(lookup(&mut m, &[7]).len(), 1);
    assert!(m.get_value(id).is_err());
}

#[test]
fn many_changes_keep_an_index_in_step() {
    let mut m = create_table();
    let info = create_index(&mut m, &[1]);
    for i in 0..200i64 {
        insert(&mut m, &[info.clone()], &[&[i, (i * 31) % 13]]);
    }
    for round in 0..6i64 {
        let child = scan(&m, 1, round);
        let to = Field::BigInt((round * 5) % 13);
        drain(&mut Update::new(&T, TID, vec![(1, to)], vec![info.clone()], child), &mut m);
        let child = scan(&m, 1, 12 - round);
        drain(&mut Delete::new(TID, vec![info.clone()], child), &mut m);
        insert(&mut m, &[info.clone()], &[&[1000 + round, round]]);
        for v in 0..14 {
            let mut found = lookup(&mut m, &[v]);
            found.sort_by_key(|t| t.value_id.map(|id| (id.page_id, id.slot_id)));
            assert_eq!(found, scan(&m, 1, v).rows);
        }
    }
}

/// An operator that cannot be opened, or stops after some rows.
struct Failing {
    rows: Given,
    refuses: bool,
}

impl OpIterator for Failing {
    fn configure(&mut self, _will_rewind: bool) {}

    fn open(&mut self, m: &mut Managers) -> Result<(), CrustyError> {
        if self.refuses {
            return Err(CrustyError::CrustyError("cannot open".to_string()));
        }
        self.rows.open(m)
    }

    fn next(&mut self, m: &mut Managers) -> Result<Option<Tuple>, CrustyError> {
        match self.rows.next(m)? {
            Some(t) => Ok(Some(t)),
            None => Err(CrustyError::CrustyError("cannot go on".to_string())),
        }
    }

    fn close(&mut self) -> Result<(), CrustyError> {
        Err(CrustyError::CrustyError("cannot close".to_string()))
    }

    fn rewind(&mut self) -> Result<(), CrustyError> {
        Ok(())
    }

    fn get_schema(&self) -> &TableSchema {
        self.rows.get_schema()
    }
}

#[test]
fn failures_of_the_child_are_handed_on() {
    let mut m = create_table();
    insert(&mut m, &[], &[&[1, 7], &[2, 7]]);
    for (refuses, text) in [(true, "cannot open"), (false, "cannot go on")] {
        let child = Failing { rows: scan(&m, 1, 7), refuses };
        let mut delete = Delete::new(TID, vec![], child);
        assert_eq!(delete.open(&mut m).unwrap_err().text(), text);
        assert_eq!(delete.close().unwrap_err().text(), "cannot close");
        let child = Failing { rows: scan(&m, 1, 7), refuses };
        let mut update = Update::new(&T, TID, vec![(0, Field::BigInt(9))], vec![], child);
        assert_eq!(update.open(&mut m).unwrap_err().text(), text);
    }
    // Nothing was changed on the way.
    assert_eq!(all_rows(&m).len(), 2);
    assert_eq!(scan(&m, 0, 9).rows.len(), 0);
}

#[test]
fn child_that_is_open_gives_the_rest_of_its_rows() {
    let mut m = create_table();
    insert(&mut m, &[], &[&[1, 7], &[2, 7], &[3, 7]]);
    create_index(&mut m, &[1]);
    let mut child = IndexScan::new(&schema(&["a", "b"]), IDX, TID, vec![Field::BigInt(7)]);
    child.open(&mut m).unwrap();
    let first = child.next(&mut m).unwrap().unwrap();
    let mut op = Delete::new(TID, vec![], child);
    op.open(&mut m).unwrap();
    let mut n = 0;
    while op.next(&mut m).unwrap().is_some() {
        n += 1;
    }
    assert_eq!(n, 2);
    assert_eq!(all_rows(&m), vec![first]);
}

#[test]
fn every_row_of_a_child_that_changes_rows_waits() {
    let mut m = create_table();
    insert(&mut m, &[], &[&[1, 7], &[2, 7], &[3, 8]]);
    let update = Update::new(&T, TID, vec![(0, Field::BigInt(9))], vec![], scan(&m, 1, 7));
    let mut op = Delete::new(TID, vec![], update);
    op.open(&mut m).unwrap();
    // The child has done its work by now.
    assert_eq!(scan(&m, 0, 9).rows.len(), 2);
    let mut n = 0;
    while op.next(&mut m).unwrap().is_some() {
        n += 1;
    }
    assert_eq!(n, 2);
    assert_eq!(all_rows(&m).len(), 1);
}
