use crustydb::common::{fits_in_type, PAGE_SIZE};
use crustydb::heapstore::heap_page::HeapPage;
use crustydb::heapstore::page::Page;

fn heap_page() -> Page {
    let mut p = Page::new(7);
    p.init_heap_page();
    p
}

#[test]
fn page_keeps_its_id() {
    let mut p = Page::new(70_001);
    assert_eq!(p.get_page_id(), 70_001);
    p.init_heap_page();
    p.add_value(&[1, 2, 3]).unwrap();
    assert_eq!(p.get_page_id(), 70_001);
}

#[test]
fn fresh_page_has_nothing() {
    let p = Page::new(1);
    assert_eq!(p.get_num_slots(), 0);
    assert_eq!(p.get_free_space_ptr(), 0);
    assert_eq!(p.get_free_space(), 0);
    assert!(p.get_value(0).is_none());
}

#[test]
fn initialised_page_has_all_space_behind_its_header() {
    let p = heap_page();
    assert_eq!(p.get_header_size(), 24);
    assert_eq!(p.get_free_space(), PAGE_SIZE - 24);
    assert_eq!(p.get_free_space_ptr() as usize, PAGE_SIZE);
}

#[test]
fn added_value_is_read_back() {
    let mut p = heap_page();
    let a = p.add_value(&[1, 2, 3]).unwrap();
    let b = p.add_value(&[4; 100]).unwrap();
    assert_eq!((a, b), (0, 1));
    assert_eq!(p.get_value(a).unwrap(), &[1, 2, 3]);
    assert_eq!(p.get_value(b).unwrap(), &[4; 100]);
    assert_eq!(p.get_free_space(), PAGE_SIZE - 24 - 2 * 4 - 103);
    assert_eq!(p.get_header_size(), 24 + 2 * 4);
    assert!(p.get_value(2).is_none());
}

#[test]
fn deleted_slot_is_used_again() {
    let mut p = heap_page();
    for i in 0..4u8 {
        p.add_value(&[i; 10]).unwrap();
    }
    let free = p.get_free_space();
    assert!(p.delete_value(1).is_some());
    assert!(p.delete_value(1).is_none());
    assert!(p.delete_value(9).is_none());
    assert!(p.get_value(1).is_none());
    assert_eq!(p.get_free_space(), free + 10);
    assert_eq!(p.get_num_slots(), 4);
    assert_eq!(p.add_value(&[9; 10]), Some(1));
    assert_eq!(p.get_value(1).unwrap(), &[9; 10]);
    assert_eq!(p.get_free_space(), free);
    assert_eq!(p.get_value(0).unwrap(), &[0; 10]);
    assert_eq!(p.get_value(2).unwrap(), &[2; 10]);
    assert_eq!(p.get_value(3).unwrap(), &[3; 10]);
}

#[test]
fn lowest_vacancy_comes_first() {
    let mut p = heap_page();
    for i in 0..5u8 {
        p.add_value(&[i]).unwrap();
    }
    p.delete_value(3).unwrap();
    p.delete_value(1).unwrap();
    assert_eq!(p.add_value(&[7]), Some(1));
    assert_eq!(p.add_value(&[7]), Some(3));
    assert_eq!(p.add_value(&[7]), Some(5));
}

#[test]
fn dead_bytes_are_reclaimed() {
    let mut p = heap_page();
    for i in 0..4u8 {
        p.add_value(&[i; 1000]).unwrap();
    }
    // Two holes that are not next to each other: no gap takes 1800 bytes.
    p.delete_value(0).unwrap();
    p.delete_value(2).unwrap();
    assert_eq!(p.add_value(&[8; 1800]), Some(0));
    assert_eq!(p.get_value(0).unwrap(), &[8; 1800][..]);
    assert_eq!(p.get_value(1).unwrap(), &[1; 1000][..]);
    assert_eq!(p.get_value(3).unwrap(), &[3; 1000][..]);
}

#[test]
fn full_page_refuses_a_value() {
    let mut p = heap_page();
    assert_eq!(p.add_value(&vec![1; PAGE_SIZE]), None);
    let room = p.get_free_space() - 4;
    assert_eq!(p.add_value(&vec![1; room + 1]), None);
    assert_eq!(p.add_value(&vec![1; room]), Some(0));
    assert_eq!(p.get_free_space(), 0);
    assert_eq!(p.add_value(&[1]), None);
    assert_eq!(p.get_value(0).unwrap().len(), room);
}

#[test]
fn updated_value_is_read_back() {
    let mut p = heap_page();
    p.add_value(&[1; 50]).unwrap();
    p.add_value(&[2; 50]).unwrap();
    let free = p.get_free_space();
    assert!(p.update_value(0, &[3; 20]).is_some());
    assert_eq!(p.get_value(0).unwrap(), &[3; 20]);
    assert_eq!(p.get_free_space(), free + 30);
    assert!(p.update_value(0, &[4; 90]).is_some());
    assert_eq!(p.get_value(0).unwrap(), &[4; 90]);
    assert_eq!(p.get_value(1).unwrap(), &[2; 50]);
    assert_eq!(p.get_free_space(), free - 40);
    assert!(p.update_value(0, &vec![5; PAGE_SIZE]).is_none());
    assert_eq!(p.get_value(0).unwrap(), &[4; 90]);
    assert!(p.update_value(2, &[1]).is_none());
}

#[test]
fn iterator_passes_over_deleted_slots() {
    let mut p = heap_page();
    for i in 0..4u8 {
        p.add_value(&[i; 3]).unwrap();
    }
    p.delete_value(0).unwrap();
    p.delete_value(2).unwrap();
    let mut it = p.iter();
    assert_eq!(it.next(), Some((&[1u8, 1, 1][..], 1)));
    assert_eq!(it.next(), Some((&[3u8, 3, 3][..], 3)));
    assert_eq!(it.next(), None);
    assert_eq!(it.next(), None);
}

#[test]
fn empty_value_is_no_value() {
    let mut p = heap_page();
    let s = p.add_value(&[]).unwrap();
    assert!(p.get_value(s).is_none());
    assert_eq!(p.add_value(&[5]), Some(s));
}

#[test]
fn next_free_slot_is_the_lowest_vacancy() {
    let mut p = heap_page();
    assert_eq!(p.find_next_free_slot(), 24);
    p.add_value(&[1]).unwrap();
    assert_eq!(p.find_next_free_slot(), 28);
    p.delete_value(0).unwrap();
    assert_eq!(p.find_next_free_slot(), 24);
}

#[test]
fn types_are_held_against_each_other_by_size() {
    assert!(fits_in_type::<u32, u16>(&1));
    assert!(fits_in_type::<u32, u32>(&1));
    assert!(!fits_in_type::<u16, u32>(&1));
}
