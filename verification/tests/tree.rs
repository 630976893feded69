use crustydb::common::field::Field;
use crustydb::common::ids::ValueId;
use crustydb::heapstore::buffer_pool::{BufferPool, PageFrameId};
use crustydb::heapstore::heap_page::HeapPage;
use crustydb::index::node::{read_internal_entries, read_is_leaf, read_leaf_entries};
use crustydb::index::tree::TreeIndex;

fn new_test_tree() -> (BufferPool, TreeIndex) {
    let mut bp = BufferPool::new();
    let tree = TreeIndex::new(1, &mut bp).unwrap();
    (bp, tree)
}

fn k(v: i64) -> Vec<Field> {
    vec![Field::BigInt(v)]
}

fn long_key(n: usize, last: &str) -> Vec<Field> {
    let mut s = "x".repeat(n);
    s.push_str(last);
    vec![Field::String(s)]
}

#[test]
fn insert_and_search_single_key() {
    let (mut bp, tree) = new_test_tree();
    tree.insert(&mut bp, k(5), ValueId::new_slot(1, 1, 0)).unwrap();
    let res = tree.search(&bp, &k(5)).unwrap();
    assert_eq!(res, vec![ValueId::new_slot(1, 1, 0)]);
    assert!(tree.search(&bp, &k(6)).unwrap().is_empty());
}

#[test]
fn insert_many_forces_splits_and_all_are_findable() {
    let (mut bp, tree) = new_test_tree();
    let n = 2000;
    for i in 0..n {
        tree.insert(&mut bp, k(i), ValueId::new_slot(1, (i % 500) as u32, (i % 100) as u16))
            .unwrap();
    }
    for i in 0..n {
        let res = tree.search(&bp, &k(i)).unwrap();
        assert_eq!(res.len(), 1, "missing key {}", i);
        assert_eq!(res[0], ValueId::new_slot(1, (i % 500) as u32, (i % 100) as u16));
    }
    assert!(tree.search(&bp, &k(n + 1)).unwrap().is_empty());
}

#[test]
fn non_unique_secondary_index_duplicates() {
    let (mut bp, tree) = new_test_tree();
    // Many rows share the same key, as in a non-unique secondary index.
    for i in 0..300 {
        tree.insert(&mut bp, k(42), ValueId::new_slot(1, i, 0)).unwrap();
    }
    let res = tree.search(&bp, &k(42)).unwrap();
    assert_eq!(res.len(), 300);
}

#[test]
fn many_distinct_duplicate_runs_interleaved() {
    // Rows for several distinct keys, each with several duplicates, inserted
    // in an interleaved (round-robin) order so runs are more likely to end up
    // split across non-adjacent-looking leaves.
    let (mut bp, tree) = new_test_tree();
    let keys = [1i64, 2, 3, 4, 5];
    let per_key = 150;
    for round in 0..per_key {
        for &key in &keys {
            tree.insert(
                &mut bp,
                k(key),
                ValueId::new_slot(1, (key * 10000 + round) as u32, 0),
            )
            .unwrap();
        }
    }
    for &key in &keys {
        let res = tree.search(&bp, &k(key)).unwrap();
        assert_eq!(res.len(), per_key as usize, "key {} count mismatch", key);
    }
}

#[test]
fn delete_removes_entry() {
    let (mut bp, tree) = new_test_tree();
    for i in 0..500 {
        tree.insert(&mut bp, k(i), ValueId::new_slot(1, i as u32, 0)).unwrap();
    }
    tree.delete(&mut bp, &k(250), ValueId::new_slot(1, 250, 0)).unwrap();
    assert!(tree.search(&bp, &k(250)).unwrap().is_empty());
    // Neighbors untouched.
    assert_eq!(tree.search(&bp, &k(249)).unwrap().len(), 1);
    assert_eq!(tree.search(&bp, &k(251)).unwrap().len(), 1);
}

#[test]
fn delete_one_of_many_duplicates() {
    let (mut bp, tree) = new_test_tree();
    let rids: Vec<ValueId> = (0..300).map(|i| ValueId::new_slot(1, i, 0)).collect();
    for &rid in &rids {
        tree.insert(&mut bp, k(42), rid).unwrap();
    }
    tree.delete(&mut bp, &k(42), rids[150]).unwrap();
    let res = tree.search(&bp, &k(42)).unwrap();
    assert_eq!(res.len(), 299);
    assert!(!res.contains(&rids[150]));
}

#[test]
fn composite_key_lexicographic_ordering() {
    let (mut bp, tree) = new_test_tree();
    let key_a = vec![Field::BigInt(1), Field::String("a".to_string())];
    let key_b = vec![Field::BigInt(1), Field::String("b".to_string())];
    let key_c = vec![Field::BigInt(2), Field::String("a".to_string())];
    tree.insert(&mut bp, key_a.clone(), ValueId::new_slot(1, 1, 0)).unwrap();
    tree.insert(&mut bp, key_b.clone(), ValueId::new_slot(1, 2, 0)).unwrap();
    tree.insert(&mut bp, key_c.clone(), ValueId::new_slot(1, 3, 0)).unwrap();
    assert_eq!(tree.search(&bp, &key_a).unwrap(), vec![ValueId::new_slot(1, 1, 0)]);
    assert_eq!(tree.search(&bp, &key_b).unwrap(), vec![ValueId::new_slot(1, 2, 0)]);
    assert_eq!(tree.search(&bp, &key_c).unwrap(), vec![ValueId::new_slot(1, 3, 0)]);
}

#[test]
fn keys_in_descending_order_are_findable() {
    let (mut bp, tree) = new_test_tree();
    for i in (0..1500i64).rev() {
        tree.insert(&mut bp, k(i), ValueId::new_slot(1, i as u32, 3)).unwrap();
    }
    for i in 0..1500i64 {
        assert_eq!(tree.search(&bp, &k(i)).unwrap(), vec![ValueId::new_slot(1, i as u32, 3)]);
    }
}

#[test]
fn long_keys_make_a_deep_tree() {
    let (mut bp, tree) = new_test_tree();
    for i in 0..200u32 {
        let last = format!("{:04}", (i * 7919) % 200);
        tree.insert(&mut bp, long_key(1500, &last), ValueId::new_slot(1, i, 0)).unwrap();
    }
    for i in 0..200u32 {
        let last = format!("{:04}", (i * 7919) % 200);
        assert_eq!(
            tree.search(&bp, &long_key(1500, &last)).unwrap(),
            vec![ValueId::new_slot(1, i, 0)]
        );
    }
}

#[test]
fn largest_and_smallest_entries_share_pages() {
    let (mut bp, tree) = new_test_tree();
    for i in 0..40u32 {
        let n = if i % 2 == 0 { 3980 } else { 1 };
        let last = format!("{:03}", i);
        tree.insert(&mut bp, long_key(n, &last), ValueId::new_slot(1, i, 0)).unwrap();
    }
    for i in 0..40u32 {
        let n = if i % 2 == 0 { 3980 } else { 1 };
        let last = format!("{:03}", i);
        assert_eq!(
            tree.search(&bp, &long_key(n, &last)).unwrap(),
            vec![ValueId::new_slot(1, i, 0)]
        );
    }
}

#[test]
fn key_that_no_page_holds_is_refused() {
    let (mut bp, tree) = new_test_tree();
    let pages = bp.num_pages(1);
    let e = tree
        .insert(&mut bp, long_key(5000, ""), ValueId::new_slot(1, 1, 0))
        .unwrap_err();
    assert_eq!(e.text(), "index key too large");
    assert_eq!(bp.num_pages(1), pages);
    assert!(tree.search(&bp, &long_key(5000, "")).unwrap().is_empty());
}

#[test]
fn delete_of_what_is_not_there_changes_nothing() {
    let (mut bp, tree) = new_test_tree();
    tree.insert(&mut bp, k(1), ValueId::new_slot(1, 1, 0)).unwrap();
    tree.delete(&mut bp, &k(2), ValueId::new_slot(1, 1, 0)).unwrap();
    tree.delete(&mut bp, &k(1), ValueId::new_slot(1, 2, 0)).unwrap();
    assert_eq!(tree.search(&bp, &k(1)).unwrap(), vec![ValueId::new_slot(1, 1, 0)]);
}

#[test]
fn delete_undoes_insert() {
    let (mut bp, tree) = new_test_tree();
    for i in 0..300 {
        tree.insert(&mut bp, k(i % 3), ValueId::new_slot(1, i as u32, 0)).unwrap();
    }
    tree.insert(&mut bp, k(1), ValueId::new_slot(9, 9, 9)).unwrap();
    assert!(tree.search(&bp, &k(1)).unwrap().contains(&ValueId::new_slot(9, 9, 9)));
    tree.delete(&mut bp, &k(1), ValueId::new_slot(9, 9, 9)).unwrap();
    assert_eq!(tree.search(&bp, &k(0)).unwrap().len(), 100);
    assert_eq!(tree.search(&bp, &k(1)).unwrap().len(), 100);
    assert_eq!(tree.search(&bp, &k(2)).unwrap().len(), 100);
}

#[test]
fn one_item_may_be_there_twice() {
    let (mut bp, tree) = new_test_tree();
    let rid = ValueId::new_slot(1, 1, 1);
    tree.insert(&mut bp, k(3), rid).unwrap();
    tree.insert(&mut bp, k(3), rid).unwrap();
    assert_eq!(tree.search(&bp, &k(3)).unwrap(), vec![rid, rid]);
    tree.delete(&mut bp, &k(3), rid).unwrap();
    assert_eq!(tree.search(&bp, &k(3)).unwrap(), vec![rid]);
}

#[test]
fn emptied_leaves_are_walked_over() {
    let (mut bp, tree) = new_test_tree();
    // One run over many leaves, emptied in its middle.
    for i in 0..600 {
        tree.insert(&mut bp, k(42), ValueId::new_slot(1, i, 0)).unwrap();
    }
    for i in 100..500 {
        tree.delete(&mut bp, &k(42), ValueId::new_slot(1, i, 0)).unwrap();
    }
    let mut res = tree.search(&bp, &k(42)).unwrap();
    res.sort_by_key(|id| id.page_id);
    let expected: Vec<ValueId> =
        (0..100).chain(500..600).map(|i| ValueId::new_slot(1, i, 0)).collect();
    assert_eq!(res, expected);
    for i in (0..100).chain(500..600) {
        tree.delete(&mut bp, &k(42), ValueId::new_slot(1, i, 0)).unwrap();
    }
    assert!(tree.search(&bp, &k(42)).unwrap().is_empty());
    tree.insert(&mut bp, k(42), ValueId::new_slot(1, 7, 7)).unwrap();
    assert_eq!(tree.search(&bp, &k(42)).unwrap(), vec![ValueId::new_slot(1, 7, 7)]);
}

#[test]
fn kinds_of_fields_stand_in_order() {
    let (mut bp, tree) = new_test_tree();
    let keys = vec![
        vec![Field::Null],
        vec![Field::BigInt(-4)],
        vec![Field::Decimal(15, 1)],
        vec![Field::String("z".to_string())],
        vec![Field::BigInt(1), Field::Null],
        vec![Field::BigInt(1)],
    ];
    for (i, key) in keys.iter().enumerate() {
        tree.insert(&mut bp, key.clone(), ValueId::new_slot(1, i as u32, 0)).unwrap();
    }
    for (i, key) in keys.iter().enumerate() {
        assert_eq!(tree.search(&bp, key).unwrap(), vec![ValueId::new_slot(1, i as u32, 0)]);
    }
}

#[test]
fn loaded_index_is_the_one_that_was_made() {
    let (mut bp, tree) = new_test_tree();
    tree.insert(&mut bp, k(8), ValueId::new_slot(1, 2, 3)).unwrap();
    let again = TreeIndex::load(1);
    assert_eq!(again.search(&bp, &k(8)).unwrap(), vec![ValueId::new_slot(1, 2, 3)]);
}

#[test]
fn indexes_of_one_pool_do_not_touch() {
    let mut bp = BufferPool::new();
    let a = TreeIndex::new(3, &mut bp).unwrap();
    let b = TreeIndex::new(4, &mut bp).unwrap();
    for i in 0..400 {
        a.insert(&mut bp, k(i), ValueId::new_slot(1, i as u32, 0)).unwrap();
    }
    assert_eq!(bp.num_pages(4), 2);
    assert!(b.search(&bp, &k(5)).unwrap().is_empty());
}

#[test]
fn leaves_form_a_chain_in_key_order() {
    let (mut bp, tree) = new_test_tree();
    for i in 0..1200i64 {
        tree.insert(&mut bp, k((i * 7919) % 400), ValueId::new_slot(1, i as u32, 0)).unwrap();
    }
    let mut current = None;
    let mut leaves = 0;
    for id in 1..bp.num_pages(1) {
        let page = bp.get_page_for_read(PageFrameId::new(1, id)).unwrap();
        if read_is_leaf(page).unwrap() {
            leaves += 1;
            if read_leaf_entries(page).unwrap().0.is_none() {
                assert_eq!(current, None);
                current = Some(id);
            }
        }
    }
    let mut met = 0;
    let mut keys = Vec::new();
    let mut before = None;
    while let Some(id) = current {
        let page = bp.get_page_for_read(PageFrameId::new(1, id)).unwrap();
        let (left, right, entries) = read_leaf_entries(page).unwrap();
        assert_eq!(left, before);
        for e in entries {
            match e.key[0] {
                Field::BigInt(v) => keys.push(v),
                _ => panic!(),
            }
        }
        met += 1;
        before = current;
        current = right;
    }
    assert_eq!(met, leaves);
    assert!(leaves > 1);
    let expected: Vec<i64> = (0..400).flat_map(|v| [v, v, v]).collect();
    assert_eq!(keys, expected);
}

/// The one node that no other leads to.
fn root_id(bp: &BufferPool) -> u32 {
    let mut below = Vec::new();
    for id in 1..bp.num_pages(1) {
        let page = bp.get_page_for_read(PageFrameId::new(1, id)).unwrap();
        if !read_is_leaf(page).unwrap() {
            below.extend(read_internal_entries(page).unwrap().iter().map(|e| e.child));
        }
    }
    let tops: Vec<u32> = (1..bp.num_pages(1)).filter(|id| !below.contains(id)).collect();
    assert_eq!(tops.len(), 1);
    tops[0]
}

/// How deep each leaf below a node stands.
fn depths(bp: &BufferPool, id: u32, above: usize, found: &mut Vec<usize>) {
    let page = bp.get_page_for_read(PageFrameId::new(1, id)).unwrap();
    if read_is_leaf(page).unwrap() {
        found.push(above + 1);
    } else {
        for e in read_internal_entries(page).unwrap() {
            depths(bp, e.child, above + 1, found);
        }
    }
}

#[test]
fn full_leaf_is_cut_in_the_middle() {
    let (mut bp, tree) = new_test_tree();
    let mut n = 0i64;
    while bp.num_pages(1) == 2 {
        tree.insert(&mut bp, k(n), ValueId::new_slot(1, n as u32, 0)).unwrap();
        n += 1;
    }
    // One new leaf beside the first one, and a root above both.
    assert_eq!(bp.num_pages(1), 4);
    let root = bp.get_page_for_read(PageFrameId::new(1, root_id(&bp))).unwrap();
    let pointers = read_internal_entries(root).unwrap();
    assert_eq!(pointers.len(), 2);
    assert!(pointers[0].key.is_none());
    assert_eq!(pointers[1].key, Some(k(n / 2)));
    let leaf = |i: usize| {
        let frame = PageFrameId::new(1, pointers[i].child);
        read_leaf_entries(bp.get_page_for_read(frame).unwrap()).unwrap()
    };
    let (left, right) = (leaf(0), leaf(1));
    assert_eq!(left.2.len() as i64, n / 2);
    assert_eq!(right.2.len() as i64, n - n / 2);
    assert_eq!(right.2[0].key, k(n / 2));
    assert_eq!((left.0, left.1), (None, Some(pointers[1].child)));
    assert_eq!((right.0, right.1), (Some(pointers[0].child), None));
}

#[test]
fn large_entry_between_small_ones_stands_alone() {
    let (mut bp, tree) = new_test_tree();
    // Two halves of a leaf, with an entry between them that nearly fills a page.
    let small = |n: u32| long_key(1800, if n == 0 { "a" } else { "c" });
    tree.insert(&mut bp, small(0), ValueId::new_slot(1, 0, 0)).unwrap();
    tree.insert(&mut bp, small(1), ValueId::new_slot(1, 1, 0)).unwrap();
    assert_eq!(bp.num_pages(1), 2);
    let mut text = "x".repeat(1800);
    text.push('b');
    text.push_str(&"y".repeat(2100));
    let large = vec![Field::String(text)];
    tree.insert(&mut bp, large.clone(), ValueId::new_slot(1, 2, 0)).unwrap();
    let mut leaves = Vec::new();
    for id in 1..bp.num_pages(1) {
        let page = bp.get_page_for_read(PageFrameId::new(1, id)).unwrap();
        if read_is_leaf(page).unwrap() {
            leaves.push(read_leaf_entries(page).unwrap().2.len());
        }
    }
    assert_eq!(leaves, vec![1, 1, 1]);
    assert_eq!(tree.search(&bp, &large).unwrap(), vec![ValueId::new_slot(1, 2, 0)]);
    assert_eq!(tree.search(&bp, &small(1)).unwrap(), vec![ValueId::new_slot(1, 1, 0)]);
}

#[test]
fn leaves_stand_at_one_depth() {
    let (mut bp, tree) = new_test_tree();
    let mut height = 1;
    for i in 0..300u32 {
        let n = [3900, 1500, 20][(i % 3) as usize];
        let last = format!("{:04}", (i * 7919) % 300);
        let pages = bp.num_pages(1);
        tree.insert(&mut bp, long_key(n, &last), ValueId::new_slot(1, i, 0)).unwrap();
        assert!(bp.num_pages(1) as usize <= pages as usize + 2 * height + 3);
        let mut found = Vec::new();
        depths(&bp, root_id(&bp), 0, &mut found);
        assert!(found.iter().all(|d| *d == found[0]));
        assert!(height <= found[0] && found[0] <= height + 2);
        height = found[0];
    }
    assert!(height > 2);
}

#[test]
fn leaf_is_filled_to_the_last_byte() {
    let (mut bp, tree) = new_test_tree();
    // An entry takes eighteen bytes and its text; a leaf has 4045 for entries.
    tree.insert(&mut bp, long_key(2000, ""), ValueId::new_slot(1, 0, 0)).unwrap();
    tree.insert(&mut bp, long_key(2009, ""), ValueId::new_slot(1, 1, 0)).unwrap();
    assert_eq!(bp.num_pages(1), 2);
    let page = bp.get_page_for_read(PageFrameId::new(1, 1)).unwrap();
    assert_eq!(page.get_free_space(), 0);
    let (mut bp, tree) = new_test_tree();
    tree.insert(&mut bp, long_key(2000, ""), ValueId::new_slot(1, 0, 0)).unwrap();
    tree.insert(&mut bp, long_key(2010, ""), ValueId::new_slot(1, 1, 0)).unwrap();
    assert_eq!(bp.num_pages(1), 4);
}

#[test]
fn leaf_without_room_is_split_though_its_slots_are_vacant() {
    let (mut bp, tree) = new_test_tree();
    for i in 0..101i64 {
        tree.insert(&mut bp, k(i), ValueId::new_slot(1, i as u32, 0)).unwrap();
    }
    for i in 0..100i64 {
        tree.delete(&mut bp, &k(i), ValueId::new_slot(1, i as u32, 0)).unwrap();
    }
    assert_eq!(bp.num_pages(1), 2);
    // The slots of the header take what is missing.
    tree.insert(&mut bp, long_key(3700, ""), ValueId::new_slot(1, 7, 0)).unwrap();
    assert_eq!(bp.num_pages(1), 4);
    assert_eq!(tree.search(&bp, &k(100)).unwrap().len(), 1);
    assert_eq!(tree.search(&bp, &long_key(3700, "")).unwrap().len(), 1);
}

#[test]
fn longest_key_is_taken() {
    let (mut bp, tree) = new_test_tree();
    for i in 0..20u32 {
        let key = long_key(4000, &format!("{:04}", (i * 7) % 20));
        tree.insert(&mut bp, key, ValueId::new_slot(1, i, 0)).unwrap();
    }
    for i in 0..20u32 {
        let key = long_key(4000, &format!("{:04}", (i * 7) % 20));
        assert_eq!(tree.search(&bp, &key).unwrap(), vec![ValueId::new_slot(1, i, 0)]);
    }
    let e = tree.insert(&mut bp, long_key(4005, ""), ValueId::new_slot(1, 0, 0)).unwrap_err();
    assert_eq!(e.text(), "index key too large");
}

#[test]
fn entry_that_an_emptied_leaf_has_no_room_for_goes_to_a_new_one() {
    let (mut bp, tree) = new_test_tree();
    for i in 0..100i64 {
        tree.insert(&mut bp, k(i), ValueId::new_slot(1, i as u32, 0)).unwrap();
    }
    for i in 0..100i64 {
        tree.delete(&mut bp, &k(i), ValueId::new_slot(1, i as u32, 0)).unwrap();
    }
    tree.insert(&mut bp, long_key(3700, ""), ValueId::new_slot(1, 7, 0)).unwrap();
    assert_eq!(bp.num_pages(1), 4);
    let entries = |id: u32| {
        read_leaf_entries(bp.get_page_for_read(PageFrameId::new(1, id)).unwrap()).unwrap()
    };
    assert_eq!(entries(1).2.len(), 0);
    assert_eq!(entries(2).2.len(), 1);
    assert_eq!((entries(1).1, entries(2).0), (Some(2), Some(1)));
    assert_eq!(tree.search(&bp, &long_key(3700, "")).unwrap().len(), 1);
    assert!(tree.search(&bp, &k(5)).unwrap().is_empty());
}
