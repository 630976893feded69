use crustydb::common::ids::ValueId;
use crustydb::heapstore::buffer_pool::{BufferPool, PageFrameId};
use crustydb::heapstore::heap_file::HeapFile;

fn new_file(c_id: u16) -> (BufferPool, HeapFile) {
    let mut bp = BufferPool::new();
    let file = HeapFile::new(c_id, &mut bp).unwrap();
    (bp, file)
}

fn walk(file: &HeapFile, bp: &BufferPool) -> Vec<(Vec<u8>, ValueId)> {
    let mut it = file.iter();
    let mut all = Vec::new();
    while let Some(x) = it.next(bp) {
        all.push(x);
    }
    assert!(it.next(bp).is_none());
    all
}

#[test]
fn header_page_holds_no_values() {
    let (mut bp, file) = new_file(2);
    assert_eq!(file.num_pages(&bp), 1);
    let id = file.add_val(&mut bp, &[1, 2]).unwrap();
    assert_eq!(id, ValueId::new_slot(2, 1, 0));
    assert_eq!(file.num_pages(&bp), 2);
    assert_eq!(file.get_val(&bp, 0, 0).unwrap_err().text(), "Value not found");
}

#[test]
fn added_values_come_back_under_their_ids() {
    let (mut bp, file) = new_file(2);
    let vals: Vec<Vec<u8>> = (0..200u8).map(|i| vec![i; 100]).collect();
    let ids = file.add_vals(&mut bp, &vals).unwrap();
    assert_eq!(ids.len(), 200);
    for (id, val) in ids.iter().zip(vals.iter()) {
        let got = file.get_val(&bp, id.page_id.unwrap(), id.slot_id.unwrap()).unwrap();
        assert_eq!(&got, val);
    }
    // (4096 - 24) / 104 values to a page.
    assert_eq!(file.num_pages(&bp), 1 + 200u32.div_ceil(39));
}

#[test]
fn first_page_with_room_takes_a_value() {
    let (mut bp, file) = new_file(2);
    for i in 0..3u8 {
        file.add_val(&mut bp, &[i; 3000]).unwrap();
    }
    assert_eq!(file.num_pages(&bp), 4);
    let id = file.add_val(&mut bp, &[9; 1000]).unwrap();
    assert_eq!(id, ValueId::new_slot(2, 1, 1));
    let id = file.add_val(&mut bp, &[9; 1000]).unwrap();
    assert_eq!(id, ValueId::new_slot(2, 2, 1));
}

#[test]
fn value_that_no_page_holds_is_refused() {
    let (mut bp, file) = new_file(2);
    let e = file.add_val(&mut bp, &[0; 4069]).unwrap_err();
    assert_eq!(e.text(), "Value too large to fit in a single page");
    assert_eq!(file.add_val(&mut bp, &[0; 4068]).unwrap(), ValueId::new_slot(2, 1, 0));
}

#[test]
fn values_behind_a_refused_one_are_not_added() {
    let (mut bp, file) = new_file(2);
    let e = file
        .add_vals(&mut bp, &vec![vec![1; 10], vec![2; 5000], vec![3; 10]])
        .unwrap_err();
    assert_eq!(e.text(), "Value too large to fit in a single page");
    assert_eq!(walk(&file, &bp), vec![(vec![1; 10], ValueId::new_slot(2, 1, 0))]);
}

#[test]
fn deleted_value_is_gone() {
    let (mut bp, file) = new_file(2);
    file.add_vals(&mut bp, &vec![vec![1; 10], vec![2; 10], vec![3; 10]]).unwrap();
    file.delete_val(&mut bp, 1, 1).unwrap();
    assert_eq!(file.get_val(&bp, 1, 1).unwrap_err().text(), "Value not found");
    assert_eq!(
        file.delete_val(&mut bp, 1, 1).unwrap_err().text(),
        "Value not found or already deleted"
    );
    assert_eq!(file.delete_val(&mut bp, 5, 0).unwrap_err().text(), "Page not found");
    assert_eq!(file.get_val(&bp, 5, 0).unwrap_err().text(), "Page not found");
    assert_eq!(file.get_val(&bp, 1, 0).unwrap(), vec![1; 10]);
    assert_eq!(file.get_val(&bp, 1, 2).unwrap(), vec![3; 10]);
}

#[test]
fn value_that_fits_is_updated_in_place() {
    let (mut bp, file) = new_file(2);
    file.add_vals(&mut bp, &vec![vec![1; 10], vec![2; 10]]).unwrap();
    let id = file.update_val(&mut bp, 1, 0, &[5; 2000]).unwrap();
    assert_eq!(id, ValueId::new_slot(2, 1, 0));
    assert_eq!(file.get_val(&bp, 1, 0).unwrap(), vec![5; 2000]);
    assert_eq!(file.get_val(&bp, 1, 1).unwrap(), vec![2; 10]);
}

#[test]
fn value_that_outgrows_its_page_moves() {
    let (mut bp, file) = new_file(2);
    file.add_vals(&mut bp, &vec![vec![1; 10], vec![2; 3000]]).unwrap();
    let id = file.update_val(&mut bp, 1, 0, &[5; 3500]).unwrap();
    assert_eq!(id, ValueId::new_slot(2, 2, 0));
    assert_eq!(file.get_val(&bp, 1, 0).unwrap_err().text(), "Value not found");
    assert_eq!(file.get_val(&bp, 2, 0).unwrap(), vec![5; 3500]);
    assert_eq!(file.get_val(&bp, 1, 1).unwrap(), vec![2; 3000]);
}

#[test]
fn update_of_nothing_is_refused() {
    let (mut bp, file) = new_file(2);
    file.add_val(&mut bp, &[1]).unwrap();
    assert_eq!(
        file.update_val(&mut bp, 1, 4, &[2]).unwrap_err().text(),
        "Update failed: slot not found"
    );
    assert_eq!(file.update_val(&mut bp, 9, 0, &[2]).unwrap_err().text(), "Page not found");
    assert_eq!(
        file.update_val(&mut bp, 1, 0, &[2; 5000]).unwrap_err().text(),
        "Value too large to fit in a single page"
    );
}

#[test]
fn walk_meets_every_value_once_in_order() {
    let (mut bp, file) = new_file(2);
    let vals: Vec<Vec<u8>> = (0..120u8).map(|i| vec![i; 100]).collect();
    let ids = file.add_vals(&mut bp, &vals).unwrap();
    file.delete_val(&mut bp, 1, 0).unwrap();
    for s in 0..39 {
        file.delete_val(&mut bp, 2, s).unwrap();
    }
    let expected: Vec<(Vec<u8>, ValueId)> = vals
        .into_iter()
        .zip(ids)
        .filter(|(_, id)| {
            !(id.page_id == Some(2) || id.page_id == Some(1) && id.slot_id == Some(0))
        })
        .collect();
    assert_eq!(walk(&file, &bp), expected);
}

#[test]
fn walk_can_start_anywhere() {
    let (mut bp, file) = new_file(2);
    file.add_vals(&mut bp, &(0..100u8).map(|i| vec![i; 100]).collect()).unwrap();
    let mut it = file.iter_from(2, 5);
    assert_eq!(it.next(&bp).unwrap(), (vec![44; 100], ValueId::new_slot(2, 2, 5)));
    let mut it = file.iter_from(7, 0);
    assert!(it.next(&bp).is_none());
}

#[test]
fn files_of_one_pool_do_not_touch() {
    let (mut bp, a) = new_file(2);
    let b = HeapFile::new(3, &mut bp).unwrap();
    a.add_val(&mut bp, &[1]).unwrap();
    b.add_val(&mut bp, &[2]).unwrap();
    a.delete_val(&mut bp, 1, 0).unwrap();
    assert_eq!(b.get_val(&bp, 1, 0).unwrap(), vec![2]);
}

#[test]
fn loading_a_file_leaves_its_pages() {
    let (mut bp, file) = new_file(2);
    file.add_val(&mut bp, &[1]).unwrap();
    let again = HeapFile::load(2, &bp).unwrap();
    assert_eq!(again.num_pages(&bp), 2);
    assert_eq!(again.get_val(&bp, 1, 0).unwrap(), vec![1]);
}

#[test]
fn pool_knows_its_pages() {
    let mut bp = BufferPool::new();
    assert_eq!(bp.get_max_page_id(4), None);
    assert_eq!(bp.create_new_page_for_write(4).unwrap(), 0);
    assert_eq!(bp.create_new_page_for_write(4).unwrap(), 1);
    assert_eq!(bp.get_max_page_id(4), Some(2));
    assert_eq!(bp.num_pages(4), 2);
    assert_eq!(bp.get_page_for_read(PageFrameId::new(4, 1)).unwrap().get_page_id(), 1);
    assert!(bp.get_page_for_read(PageFrameId::new(4, 2)).is_err());
    assert!(bp.get_page_for_write(PageFrameId::new(5, 0)).is_err());
}

#[test]
fn pages_carry_their_ids() {
    let (mut bp, file) = new_file(2);
    for i in 0..5u8 {
        file.add_val(&mut bp, &[i; 3000]).unwrap();
    }
    file.delete_val(&mut bp, 3, 0).unwrap();
    file.update_val(&mut bp, 2, 0, &[7; 3500]).unwrap();
    for id in 0..file.num_pages(&bp) {
        let page = bp.get_page_for_read(PageFrameId::new(2, id)).unwrap();
        assert_eq!(page.get_page_id(), id);
    }
}
