use crustydb::common::field::Field;
use crustydb::common::ids::{PageId, ValueId};
use crustydb::common::order::Standing;
use crustydb::common::record::Record;
use crustydb::common::text::decimal_text;
use crustydb::common::tuple::Tuple;
use crustydb::index::codec::{decode, encode, stored_key_len, NodeEntry};

fn text(s: &str) -> Field {
    Field::String(s.to_string())
}

#[test]
fn tuple_is_read_back_from_its_bytes() {
    let t = Tuple::new(vec![
        Field::BigInt(-7),
        Field::Null,
        text("h\u{e9}llo"),
        Field::Decimal(1234, 2),
        Field::BigInt(i64::MAX),
        Field::BigInt(i64::MIN),
    ]);
    let bytes = t.to_bytes();
    assert_eq!(Tuple::from_bytes(&bytes).unwrap(), t);
    // An array of the tag, no numbers and one field of kind one.
    assert_eq!(
        Tuple::new(vec![Field::BigInt(5)]).to_bytes(),
        vec![0x83, 4, 0x80, 0x81, 0x84, 1, 5, 0, 0x60]
    );
}

#[test]
fn bytes_that_store_no_tuple_are_refused() {
    for bytes in [vec![], vec![0xff], vec![1, 2, 3], encode(&NodeEntry::Internal { key: None, child: 1 }).unwrap()] {
        assert_eq!(Tuple::from_bytes(&bytes).unwrap_err().text(), "tuple decode error");
    }
}

#[test]
fn place_of_a_tuple_is_not_stored() {
    let mut t = Tuple::new(vec![Field::BigInt(5)]);
    t.value_id = Some(ValueId::new_slot(1, 2, 3));
    assert_eq!(Tuple::from_bytes(&t.to_bytes()).unwrap().value_id, None);
    assert_eq!(t.duplicate(), t);
}

#[test]
fn key_has_the_columns_in_their_order() {
    let t = Tuple::new(vec![Field::BigInt(1), text("b"), Field::Null]);
    assert_eq!(t.extract_key(&[1, 0]).unwrap(), vec![text("b"), Field::BigInt(1)]);
    assert_eq!(t.extract_key(&[]).unwrap(), vec![]);
    assert_eq!(t.extract_key(&[0, 3]).unwrap_err().text(), "index column out of range");
    assert_eq!(t.get_field(2), Some(&Field::Null));
    assert_eq!(t.get_field(3), None);
}

#[test]
fn field_can_be_set() {
    let mut t = Tuple::new(vec![Field::BigInt(1), text("b")]);
    t.set_field(1, Field::BigInt(9));
    assert_eq!(t.fields, vec![Field::BigInt(1), Field::BigInt(9)]);
}

fn round_trip(e: &NodeEntry) -> String {
    format!("{:?}", decode(&encode(e).unwrap()).unwrap())
}

#[test]
fn entries_are_read_back() {
    let entries = vec![
        NodeEntry::Meta { is_leaf: true, left_sibling: None, right_sibling: Some(0) },
        NodeEntry::Meta { is_leaf: false, left_sibling: Some(PageId::MAX), right_sibling: None },
        NodeEntry::Internal { key: None, child: 17 },
        NodeEntry::Internal { key: Some(vec![text("k"), Field::Null]), child: 0 },
        NodeEntry::Leaf { key: vec![Field::BigInt(3)], rid: ValueId::new_slot(5, 6, 7) },
        NodeEntry::Leaf {
            key: vec![],
            rid: ValueId { container_id: 65535, page_id: None, slot_id: Some(65535) },
        },
    ];
    for e in &entries {
        assert_eq!(round_trip(e), format!("{:?}", e));
    }
}

#[test]
fn bytes_that_store_no_entry_are_refused() {
    // What cannot be read comes with the cause.
    for bytes in [vec![], vec![0x00], vec![0xff, 1]] {
        let cause = serde_cbor::from_slice::<Record>(&bytes).unwrap_err();
        assert_eq!(
            decode(&bytes).unwrap_err().text(),
            format!("index entry decode error: {:?}", cause)
        );
    }
    let row = Tuple::new(vec![]).to_bytes();
    assert_eq!(
        decode(&row).unwrap_err().text(),
        "index entry decode error: no entry of a node"
    );
}

#[test]
fn entries_keep_their_length_wherever_they_lead() {
    let len = |e: &NodeEntry| encode(e).unwrap().len();
    for link in [None, Some(0), Some(1 << 20), Some(PageId::MAX)] {
        let meta = NodeEntry::Meta { is_leaf: true, left_sibling: link, right_sibling: None };
        assert_eq!(len(&meta), 23);
    }
    for child in [0, 300, PageId::MAX] {
        assert_eq!(len(&NodeEntry::Internal { key: None, child }), 13);
        let key = vec![text("abc")];
        assert_eq!(len(&NodeEntry::Internal { key: Some(key), child }), 12 + 9);
    }
}

#[test]
fn length_of_a_stored_key() {
    assert_eq!(stored_key_len(&[]), 1);
    assert_eq!(stored_key_len(&[Field::BigInt(5)]), 6);
    assert_eq!(stored_key_len(&[Field::BigInt(-24)]), 6);
    assert_eq!(stored_key_len(&[Field::BigInt(-25)]), 7);
    assert_eq!(stored_key_len(&[Field::BigInt(1000)]), 8);
    assert_eq!(stored_key_len(&[Field::BigInt(1 << 40)]), 14);
    assert_eq!(stored_key_len(&[text("abc")]), 9);
    assert_eq!(stored_key_len(&[text(&"x".repeat(300))]), 6 + 2 + 300);
    assert_eq!(stored_key_len(&[Field::Decimal(1, 2), Field::Null]), 11);
}

#[test]
fn fields_stand_in_order() {
    assert_eq!(Field::BigInt(1).standing(&Field::BigInt(2)), Standing::Below);
    assert_eq!(Field::BigInt(2).standing(&Field::BigInt(2)), Standing::Same);
    assert_eq!(Field::BigInt(-1).standing(&Field::BigInt(-2)), Standing::Above);
    assert_eq!(text("a").standing(&text("ab")), Standing::Below);
    assert_eq!(text("b").standing(&text("ab")), Standing::Above);
    assert_eq!(text("").standing(&text("")), Standing::Same);
    assert_eq!(Field::Null.standing(&Field::BigInt(i64::MIN)), Standing::Below);
    assert_eq!(text("").standing(&Field::Decimal(9, 9)), Standing::Above);
    assert_eq!(Field::Decimal(1, 2).standing(&Field::Decimal(1, 3)), Standing::Below);
}

#[test]
fn numbers_in_decimal() {
    for n in [0u64, 7, 10, 99, 100, 65535, u64::MAX] {
        assert_eq!(decimal_text(n), n.to_string());
    }
}
