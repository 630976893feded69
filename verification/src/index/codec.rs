//! The entries of a B+Tree node and their stored form.
use crate::common::error::{c_err, CrustyError};
use crate::common::field;
use crate::common::field::{Field, FieldView};
use crate::common::ids::{PageId, ValueId};
use crate::common::record;
use crate::common::record::{Record, RecordView};
use vstd::prelude::*;

verus! {

/// A key is a (possibly composite) tuple of field values, compared
/// lexicographically.
pub type IndexKey = Vec<Field>;

/// What a key holds.
pub type Key = Seq<FieldView>;

/// One entry of a node.
#[derive(Debug)]
pub enum NodeEntry {
    /// Says what kind of node the page holds and, for a leaf, its neighbours.
    Meta { is_leaf: bool, left_sibling: Option<PageId>, right_sibling: Option<PageId> },
    /// `key: None` marks the leftmost child pointer of an internal node.
    Internal { key: Option<IndexKey>, child: PageId },
    Leaf { key: IndexKey, rid: ValueId },
}

/// What an entry of a node holds.
pub enum EntryView {
    Meta { is_leaf: bool, left_sibling: Option<PageId>, right_sibling: Option<PageId> },
    Internal { key: Option<Key>, child: PageId },
    Leaf { key: Key, rid: ValueId },
}

impl View for NodeEntry {
    type V = EntryView;

    open spec fn view(&self) -> EntryView {
        match self {
            NodeEntry::Meta { is_leaf, left_sibling, right_sibling } => EntryView::Meta {
                is_leaf: *is_leaf,
                left_sibling: *left_sibling,
                right_sibling: *right_sibling,
            },
            NodeEntry::Internal { key, child } => EntryView::Internal {
                key: match key {
                    Some(k) => Some(field::views(k@)),
                    None => None,
                },
                child: *child,
            },
            NodeEntry::Leaf { key, rid } => EntryView::Leaf { key: field::views(key@), rid: *rid },
        }
    }
}

/// What page ids that lead from one node to another are counted from. The
/// numbers are so large that all of them have the same length: an entry keeps
/// its length when it comes to lead elsewhere.
pub const LINK_BASE: u64 = 0x1_0000_0000;

/// A sibling that may be missing, as a number.
pub open spec fn link_num(p: Option<PageId>) -> u64 {
    match p {
        Some(id) => (LINK_BASE + id + 1) as u64,
        None => LINK_BASE,
    }
}

/// The sibling that a number stands for.
pub open spec fn num_link(n: u64) -> Option<PageId> {
    if n == LINK_BASE {
        None
    } else {
        Some((n - LINK_BASE - 1) as PageId)
    }
}

/// A number stands for a sibling.
pub open spec fn is_link(n: u64) -> bool {
    LINK_BASE <= n <= 0x2_0000_0000
}

/// A number stands for a child.
pub open spec fn is_child(n: u64) -> bool {
    LINK_BASE <= n <= 0x1_ffff_ffff
}

/// The page of a value id, which may be missing, as a number.
pub open spec fn page_num(p: Option<PageId>) -> u64 {
    match p {
        Some(id) => (id + 1) as u64,
        None => 0,
    }
}

/// The page of a value id that a number stands for.
pub open spec fn num_page(n: u64) -> Option<PageId> {
    if n == 0 {
        None
    } else {
        Some((n - 1) as PageId)
    }
}

/// The stored form of an entry.
pub open spec fn entry_record(e: EntryView) -> RecordView {
    match e {
        EntryView::Meta { is_leaf, left_sibling, right_sibling } => (
            0u8,
            seq![
                if is_leaf {
                    1u64
                } else {
                    0u64
                },
                link_num(left_sibling),
                link_num(right_sibling),
            ],
            Seq::empty(),
        ),
        EntryView::Internal { key: None, child } => (
            1u8,
            seq![(LINK_BASE + child) as u64],
            Seq::empty(),
        ),
        EntryView::Internal { key: Some(k), child } => (
            2u8,
            seq![(LINK_BASE + child) as u64],
            record::all_to_plain(k),
        ),
        EntryView::Leaf { key, rid } => (
            3u8,
            seq![
                rid.container_id as u64,
                page_num(rid.page_id),
                match rid.slot_id {
                    Some(s) => (s + 1) as u64,
                    None => 0u64,
                },
            ],
            record::all_to_plain(key),
        ),
    }
}

/// The entry that a record stores.
pub open spec fn record_entry(r: RecordView) -> Option<EntryView> {
    let nums = r.1;
    if r.0 == 0 && nums.len() == 3 && nums[0] <= 1 && is_link(nums[1]) && is_link(nums[2]) {
        Some(
            EntryView::Meta {
                is_leaf: nums[0] == 1,
                left_sibling: num_link(nums[1]),
                right_sibling: num_link(nums[2]),
            },
        )
    } else if r.0 == 1 && nums.len() == 1 && is_child(nums[0]) {
        Some(EntryView::Internal { key: None, child: (nums[0] - LINK_BASE) as PageId })
    } else if r.0 == 2 && nums.len() == 1 && is_child(nums[0]) {
        match record::all_from_plain(r.2) {
            Some(k) => Some(
                EntryView::Internal { key: Some(k), child: (nums[0] - LINK_BASE) as PageId },
            ),
            None => None,
        }
    } else if r.0 == 3 && nums.len() == 3 && nums[0] <= 0xffff && nums[1] <= 0x1_0000_0000 && nums[2]
        <= 0x1_0000 {
        match record::all_from_plain(r.2) {
            Some(k) => Some(
                EntryView::Leaf {
                    key: k,
                    rid: ValueId {
                        container_id: nums[0] as u16,
                        page_id: num_page(nums[1]),
                        slot_id: if nums[2] == 0 {
                            None
                        } else {
                            Some((nums[2] - 1) as u16)
                        },
                    },
                },
            ),
            None => None,
        }
    } else {
        None
    }
}

/// The entry that the given bytes store.
pub open spec fn entry_of(bytes: Seq<u8>) -> Option<EntryView> {
    match record::cbor_read(bytes) {
        Ok(r) => record_entry(r),
        Err(_) => None,
    }
}

/// What is said of bytes that store no entry, with the cause.
pub open spec fn decode_failure(bytes: Seq<u8>) -> Seq<char> {
    "index entry decode error: "@ + match record::cbor_read(bytes) {
        Ok(_) => "no entry of a node"@,
        Err(text) => text,
    }
}

/// Bytes that an entry takes.
pub open spec fn entry_len(e: EntryView) -> nat {
    record::record_len(entry_record(e))
}

/// Bytes that a key takes within an entry.
pub open spec fn key_len(k: Key) -> nat {
    record::head_len(k.len() as int) + record::plain_fields_len(record::all_to_plain(k))
}

/// Every entry is read back from its stored form.
pub proof fn lemma_entry_round_trip(e: EntryView)
    ensures
        record_entry(entry_record(e)) == Some(e),
{
    match e {
        EntryView::Internal { key: Some(k), child } => {
            record::lemma_plain_round_trip(k);
        },
        EntryView::Leaf { key, rid } => {
            record::lemma_plain_round_trip(key);
        },
        _ => {},
    }
}

/// How long entries are. What a `Meta` entry and an entry of an internal node
/// lead to does not matter.
pub proof fn lemma_entry_len(e: EntryView)
    ensures
        entry_len(e) > 0,
        match e {
            EntryView::Meta { is_leaf, left_sibling, right_sibling } => entry_len(e) == 23,
            EntryView::Internal { key: None, child } => entry_len(e) == 13,
            EntryView::Internal { key: Some(k), child } => entry_len(e) == 12 + key_len(k),
            EntryView::Leaf { key, rid } => entry_len(e) <= 20 + key_len(key),
        },
{
    let nums = entry_record(e).1;
    reveal_with_fuel(record::nums_len, 4);
    if nums.len() == 3 {
        assert(nums.drop_last().drop_last().drop_last() =~= Seq::<u64>::empty());
    } else {
        assert(nums.drop_last() =~= Seq::<u64>::empty());
    }
}

fn num_of_link(p: Option<PageId>) -> (r: u64)
    ensures
        r == link_num(p),
{
    match p {
        Some(id) => LINK_BASE + id as u64 + 1,
        None => LINK_BASE,
    }
}

fn link_of_num(n: u64) -> (r: Option<PageId>)
    requires
        is_link(n),
    ensures
        r == num_link(n),
{
    if n == LINK_BASE {
        None
    } else {
        Some((n - LINK_BASE - 1) as PageId)
    }
}

/// The error for bytes that store no entry.
fn no_entry(cause: &str) -> (e: CrustyError)
    ensures
        e.message() == "index entry decode error: "@ + cause@,
{
    let mut text: String = "index entry decode error: ".to_owned();
    text.append(cause);
    c_err(text.as_str())
}

/// The stored form of an entry.
pub fn encode(entry: &NodeEntry) -> (r: Result<Vec<u8>, CrustyError>)
    ensures
        r is Ok,
        r->Ok_0@ == record::cbor_bytes(entry_record(entry@)),
        entry_of(r->Ok_0@) == Some(entry@),
        r->Ok_0@.len() == entry_len(entry@),
{
    let rec: Record = match entry {
        NodeEntry::Meta { is_leaf, left_sibling, right_sibling } => {
            let flag: u64 = if *is_leaf {
                1
            } else {
                0
            };
            (0, vec![flag, num_of_link(*left_sibling), num_of_link(*right_sibling)], Vec::new())
        },
        NodeEntry::Internal { key: None, child } => (
            1,
            vec![LINK_BASE + *child as u64],
            Vec::new(),
        ),
        NodeEntry::Internal { key: Some(k), child } => (
            2,
            vec![LINK_BASE + *child as u64],
            record::fields_to_plain(k),
        ),
        NodeEntry::Leaf { key, rid } => {
            let page: u64 = match rid.page_id {
                Some(p) => p as u64 + 1,
                None => 0,
            };
            let slot: u64 = match rid.slot_id {
                Some(s) => s as u64 + 1,
                None => 0,
            };
            (
                3,
                vec![rid.container_id as u64, page, slot],
                record::fields_to_plain(key),
            )
        },
    };
    proof {
        assert(record::record_view(rec).1 =~= entry_record(entry@).1);
        assert(record::record_view(rec).2 =~= entry_record(entry@).2);
        lemma_entry_round_trip(entry@);
    }
    match record::cbor_to_vec(&rec) {
        Ok(b) => Ok(b),
        Err(_) => Err(c_err("index entry encode error")),
    }
}

/// The entry that the given bytes store.
pub fn decode(bytes: &[u8]) -> (r: Result<NodeEntry, CrustyError>)
    ensures
        match r {
            Ok(e) => entry_of(bytes@) == Some(e@),
            Err(e) => {
                &&& entry_of(bytes@) is None
                &&& e.message() == decode_failure(bytes@)
            },
        },
{
    let (tag, nums, plain) = match record::cbor_from_slice(bytes) {
        Ok(rec) => rec,
        Err(text) => {
            return Err(no_entry(text.as_str()));
        },
    };
    if tag == 0 && nums.len() == 3 && nums[0] <= 1 && LINK_BASE <= nums[1] && nums[1]
        <= 0x2_0000_0000 && LINK_BASE <= nums[2] && nums[2] <= 0x2_0000_0000 {
        Ok(
            NodeEntry::Meta {
                is_leaf: nums[0] == 1,
                left_sibling: link_of_num(nums[1]),
                right_sibling: link_of_num(nums[2]),
            },
        )
    } else if tag == 1 && nums.len() == 1 && LINK_BASE <= nums[0] && nums[0] <= 0x1_ffff_ffff {
        Ok(NodeEntry::Internal { key: None, child: (nums[0] - LINK_BASE) as PageId })
    } else if tag == 2 && nums.len() == 1 && LINK_BASE <= nums[0] && nums[0] <= 0x1_ffff_ffff {
        match record::fields_from_plain(plain) {
            Some(key) => Ok(
                NodeEntry::Internal { key: Some(key), child: (nums[0] - LINK_BASE) as PageId },
            ),
            None => Err(no_entry("no entry of a node")),
        }
    } else if tag == 3 && nums.len() == 3 && nums[0] <= 0xffff && nums[1] <= 0x1_0000_0000 && nums[2]
        <= 0x1_0000 {
        match record::fields_from_plain(plain) {
            Some(key) => {
                let page_id: Option<PageId> = if nums[1] == 0 {
                    None
                } else {
                    Some((nums[1] - 1) as PageId)
                };
                let slot_id: Option<u16> = if nums[2] == 0 {
                    None
                } else {
                    Some((nums[2] - 1) as u16)
                };
                Ok(
                    NodeEntry::Leaf {
                        key,
                        rid: ValueId {
                            container_id: nums[0] as u16,
                            page_id,
                            slot_id,
                        },
                    },
                )
            },
            None => Err(no_entry("no entry of a node")),
        }
    } else {
        Err(no_entry("no entry of a node"))
    }
}

/// Bytes that a key takes within an entry.
pub fn stored_key_len(key: &[Field]) -> (r: usize)
    ensures
        r == key_len(field::views(key@)),
{
    let entry = NodeEntry::Internal { key: Some(field::duplicate_fields(key)), child: 0 };
    proof {
        let nums = entry_record(entry@).1;
        reveal_with_fuel(record::nums_len, 2);
        assert(nums.drop_last() =~= Seq::<u64>::empty());
        assert(entry_len(entry@) == key_len(field::views(key@)) + 12);
    }
    match encode(&entry) {
        Ok(b) => b.len() - 12,
        Err(_) => 0,
    }
}

} // verus!
