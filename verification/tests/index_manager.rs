use crustydb::common::field::Field;
use crustydb::common::ids::{TransactionId, ValueId};
use crustydb::common::tuple::Tuple;
use crustydb::heapstore::buffer_pool::BufferPool;
use crustydb::heapstore::heap_file::HeapFile;
use crustydb::index::index_manager::IndexManager;

const TABLE: u16 = 1;
const INDEX: u16 = 2;
const TID: TransactionId = TransactionId { tid: 1 };

fn k(v: i64) -> Vec<Field> {
    vec![Field::BigInt(v)]
}

fn table(rows: &[(i64, i64)]) -> (BufferPool, Vec<ValueId>) {
    let mut bp = BufferPool::new();
    let file = HeapFile::new(TABLE, &mut bp).unwrap();
    let vals = rows
        .iter()
        .map(|(a, b)| Tuple::new(vec![Field::BigInt(*a), Field::BigInt(*b)]).to_bytes())
        .collect();
    let ids = file.add_vals(&mut bp, &vals).unwrap();
    (bp, ids)
}

#[test]
fn new_index_has_every_row() {
    let (mut bp, ids) = table(&[(1, 10), (2, 20), (3, 10)]);
    let mut im = IndexManager::new();
    assert!(!im.has_index(INDEX));
    im.create_index(&mut bp, INDEX, TABLE, &[1], TID).unwrap();
    assert!(im.has_index(INDEX));
    assert_eq!(im.search(&bp, INDEX, &k(20)).unwrap(), vec![ids[1]]);
    let mut both = im.search(&bp, INDEX, &k(10)).unwrap();
    both.sort_by_key(|id| id.slot_id);
    assert_eq!(both, vec![ids[0], ids[2]]);
    assert!(im.search(&bp, INDEX, &k(30)).unwrap().is_empty());
}

#[test]
fn row_without_the_columns_stops_the_build() {
    let (mut bp, _) = table(&[(1, 10)]);
    let mut im = IndexManager::new();
    let e = im.create_index(&mut bp, INDEX, TABLE, &[2], TID).unwrap_err();
    assert_eq!(e.text(), "index column out of range");
    assert!(!im.has_index(INDEX));
}

#[test]
fn value_that_is_no_row_stops_the_build() {
    let (mut bp, _) = table(&[(1, 10)]);
    HeapFile { c_id: TABLE }.add_val(&mut bp, &[0xff, 0]).unwrap();
    let mut im = IndexManager::new();
    let e = im.create_index(&mut bp, INDEX, TABLE, &[0], TID).unwrap_err();
    assert_eq!(e.text(), "tuple decode error");
    assert!(!im.has_index(INDEX));
}

#[test]
fn row_with_a_large_key_stops_the_build() {
    let (mut bp, _) = table(&[]);
    let row = Tuple::new(vec![Field::String("x".repeat(4010))]);
    HeapFile { c_id: TABLE }.add_val(&mut bp, &row.to_bytes()).unwrap();
    let mut im = IndexManager::new();
    let e = im.create_index(&mut bp, INDEX, TABLE, &[0], TID).unwrap_err();
    assert_eq!(e.text(), "index key too large");
}

#[test]
fn entries_come_and_go() {
    let (mut bp, _) = table(&[]);
    let mut im = IndexManager::new();
    im.create_index(&mut bp, INDEX, TABLE, &[0], TID).unwrap();
    let rid = ValueId::new_slot(TABLE, 1, 0);
    im.insert_entry(&mut bp, INDEX, k(1), rid).unwrap();
    assert_eq!(im.search(&bp, INDEX, &k(1)).unwrap(), vec![rid]);
    im.delete_entry(&mut bp, INDEX, &k(1), rid).unwrap();
    assert!(im.search(&bp, INDEX, &k(1)).unwrap().is_empty());
    let large = vec![Field::String("x".repeat(4010))];
    let e = im.insert_entry(&mut bp, INDEX, large, rid).unwrap_err();
    assert_eq!(e.text(), "index key too large");
}

#[test]
fn missing_index_is_told() {
    let (mut bp, _) = table(&[]);
    let im = IndexManager::new();
    let rid = ValueId::new_slot(TABLE, 1, 0);
    let said = "Index 307 not found";
    assert_eq!(im.search(&bp, 307, &k(1)).unwrap_err().text(), said);
    assert_eq!(im.insert_entry(&mut bp, 307, k(1), rid).unwrap_err().text(), said);
    assert_eq!(im.delete_entry(&mut bp, 307, &k(1), rid).unwrap_err().text(), said);
}

#[test]
fn reset_drops_every_handle() {
    let (mut bp, _) = table(&[(1, 2)]);
    let mut im = IndexManager::new();
    im.create_index(&mut bp, INDEX, TABLE, &[0], TID).unwrap();
    im.create_index(&mut bp, 3, TABLE, &[1], TID).unwrap();
    im.shutdown().unwrap();
    assert!(im.has_index(INDEX) && im.has_index(3));
    im.reset().unwrap();
    assert!(!im.has_index(INDEX) && !im.has_index(3));
    assert_eq!(bp.num_pages(INDEX), 2);
}

#[test]
fn index_of_large_keys_stays_within_its_pages() {
    let mut bp = BufferPool::new();
    let file = HeapFile::new(TABLE, &mut bp).unwrap();
    let n = 60u32;
    for i in 0..n {
        let text = format!("{}{:02}", "x".repeat(3800), (i * 37) % n);
        let row = Tuple::new(vec![Field::String(text)]);
        file.add_val(&mut bp, &row.to_bytes()).unwrap();
    }
    let mut im = IndexManager::new();
    im.create_index(&mut bp, INDEX, TABLE, &[0], TID).unwrap();
    assert!(bp.num_pages(INDEX) <= 2 + n * (2 * n + 3));
    // No two of the rows share a leaf.
    assert!(bp.num_pages(INDEX) > n);
    let key = vec![Field::String(format!("{}{:02}", "x".repeat(3800), 41))];
    assert_eq!(im.search(&bp, INDEX, &key).unwrap().len(), 1);
}
