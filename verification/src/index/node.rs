//! The nodes of a B+Tree, each one a slotted page.
//!
//! Slot zero of a node holds its `Meta` entry. The entries of a leaf stand in
//! any slots, in any order: they are sorted when they are read. The entries of
//! an internal node stand in key order behind the `Meta` entry, with no slot
//! vacant.
use crate::common::error::{c_err, CrustyError};
use crate::common::field;
use crate::common::field::Field;
use crate::common::ids::{ContainerId, PageId, SlotId, ValueId};
use crate::common::order::Standing;
use crate::heapstore::heap_page::HeapPage;
use crate::heapstore::page;
use crate::heapstore::page::{Page, PageView};
use crate::index::codec;
use crate::index::codec::{decode, encode, EntryView, IndexKey, Key, NodeEntry};
use vstd::multiset::Multiset;
use vstd::prelude::*;

verus! {

/// What an index holds under one entry: a key and the value that it leads to.
pub type Item = (Key, ValueId);

/// The slots of a page.
pub type Slots = Seq<Option<Seq<u8>>>;

/// The longest key that an index takes, in stored bytes.
///
/// An internal node has room for such a key beside its leftmost entry.
pub const MAX_KEY_LEN: usize = 4012;

/// The stored length of a `Meta` entry.
pub const META_LEN: usize = 23;

/// Space that a node has for entries other than its `Meta` entry.
pub const NODE_ROOM: usize = 4045;

/// Space that the leftmost entry of an internal node takes.
pub const FIRST_ENTRY_ROOM: usize = 17;

/// The longest stored form of an entry of a leaf.
pub const MAX_LEAF_ENTRY: usize = 4032;

/// The longest stored form of an entry of an internal node.
pub const MAX_CHILD_ENTRY: usize = 4024;

/// The most slots that a page can have.
pub const MAX_SLOTS: usize = 1018;

/// The rank of a page id that may be missing.
pub open spec fn page_rank(p: Option<PageId>) -> int {
    match p {
        Some(id) => id + 1,
        None => 0,
    }
}

/// The rank of a slot id that may be missing.
pub open spec fn slot_rank(s: Option<SlotId>) -> int {
    match s {
        Some(id) => id + 1,
        None => 0,
    }
}

/// The order of value ids: by container, page and slot, what is missing first.
pub open spec fn rid_before(a: ValueId, b: ValueId) -> bool {
    ||| a.container_id < b.container_id
    ||| a.container_id == b.container_id && page_rank(a.page_id) < page_rank(b.page_id)
    ||| a.container_id == b.container_id && a.page_id == b.page_id && slot_rank(a.slot_id)
        < slot_rank(b.slot_id)
}

/// The order of items: by key, then by value id.
pub open spec fn item_upto(a: Item, b: Item) -> bool {
    field::key_before(a.0, b.0) || (a.0 == b.0 && !rid_before(b.1, a.1))
}

/// Items stand in order.
pub open spec fn sorted(items: Seq<Item>) -> bool {
    forall|i: int, j: int|
        0 <= i <= j < items.len() ==> #[trigger] item_upto(items[i], items[j])
}

/// The entry that slot `i` stores.
pub open spec fn entry_at(slots: Slots, i: int) -> Option<EntryView> {
    match slots[i] {
        Some(b) => codec::entry_of(b),
        None => None,
    }
}

/// The items that one slot of a leaf holds.
pub open spec fn slot_bag(s: Option<Seq<u8>>) -> Multiset<Item> {
    match s {
        Some(b) => match codec::entry_of(b) {
            Some(EntryView::Leaf { key, rid }) => Multiset::singleton((key, rid)),
            _ => Multiset::empty(),
        },
        None => Multiset::empty(),
    }
}

/// The items that the slots of a leaf hold.
pub open spec fn bag(slots: Slots) -> Multiset<Item>
    decreases slots.len(),
{
    if slots.len() == 0 {
        Multiset::empty()
    } else {
        bag(slots.drop_last()).add(slot_bag(slots.last()))
    }
}

/// The siblings that the last `Meta` entry of the slots names.
pub open spec fn links(slots: Slots) -> (Option<PageId>, Option<PageId>)
    decreases slots.len(),
{
    if slots.len() == 0 {
        (None, None)
    } else {
        match entry_at(slots, slots.len() - 1) {
            Some(EntryView::Meta { is_leaf, left_sibling, right_sibling }) => (
                left_sibling,
                right_sibling,
            ),
            _ => links(slots.drop_last()),
        }
    }
}

/// The child pointers that the slots hold, in slot order.
pub open spec fn child_entries(slots: Slots) -> Seq<(Option<Key>, PageId)>
    decreases slots.len(),
{
    if slots.len() == 0 {
        Seq::empty()
    } else {
        match entry_at(slots, slots.len() - 1) {
            Some(EntryView::Internal { key, child }) => child_entries(slots.drop_last()).push(
                (key, child),
            ),
            _ => child_entries(slots.drop_last()),
        }
    }
}

/// Slot `i` holds something that is no entry.
pub open spec fn unreadable_at(slots: Slots, i: int) -> bool {
    slots[i] is Some && entry_at(slots, i) is None
}

/// Slot `i` is the first one that holds something that is no entry.
pub open spec fn first_unreadable_slot(slots: Slots, i: int) -> bool {
    &&& 0 <= i < slots.len()
    &&& unreadable_at(slots, i)
    &&& forall|j: int| 0 <= j < i ==> !#[trigger] unreadable_at(slots, j)
}

/// Slot `i` holds something that has no place in a leaf.
pub open spec fn no_leaf_slot(slots: Slots, i: int) -> bool {
    slots[i] is Some && (entry_at(slots, i) is None || entry_at(slots, i)->0 is Internal)
}

/// Slot `i` is the first one that has no place in a leaf.
pub open spec fn first_no_leaf_slot(slots: Slots, i: int) -> bool {
    &&& 0 <= i < slots.len()
    &&& no_leaf_slot(slots, i)
    &&& forall|j: int| 0 <= j < i ==> !#[trigger] no_leaf_slot(slots, j)
}

/// Slot `i` is the first one whose `Meta` entry, or unreadable content, tells
/// what kind of node the page is.
pub open spec fn first_telling_slot(slots: Slots, i: int) -> bool {
    &&& 0 <= i < slots.len()
    &&& telling_slot(slots, i)
    &&& forall|j: int| 0 <= j < i ==> !#[trigger] telling_slot(slots, j)
}

/// Slot `i` holds a `Meta` entry, or something that is no entry.
pub open spec fn telling_slot(slots: Slots, i: int) -> bool {
    slots[i] is Some && (entry_at(slots, i) is None || entry_at(slots, i)->0 is Meta)
}

/// The stored length of an entry of a leaf.
pub open spec fn leaf_len(x: Item) -> nat {
    codec::entry_len(EntryView::Leaf { key: x.0, rid: x.1 })
}

/// The stored length of an entry of an internal node.
pub open spec fn child_len(key: Option<Key>) -> nat {
    match key {
        Some(k) => 12 + codec::key_len(k),
        None => 13,
    }
}

/// The page holds a leaf.
#[verifier::opaque]
pub open spec fn leaf_page(p: PageView) -> bool {
    &&& p.ready
    &&& p.slots.len() >= 1
    &&& entry_at(p.slots, 0) matches Some(EntryView::Meta { is_leaf, .. }) && is_leaf
    &&& forall|i: int|
        1 <= i < p.slots.len() && #[trigger] p.slots[i] is Some ==> {
            &&& entry_at(p.slots, i) matches Some(EntryView::Leaf { key, .. })
            &&& codec::key_len(key) <= MAX_KEY_LEN
            &&& 0 < page::value_len(p.slots[i]) <= MAX_LEAF_ENTRY
            &&& page::value_len(p.slots[i]) == codec::entry_len(entry_at(p.slots, i)->0)
        }
    &&& page::value_len(p.slots[0]) == META_LEN
    &&& p.free_space() >= 0
}

/// What the entries of a leaf take in its page, but for its `Meta` entry.
pub open spec fn leaf_load(slots: Slots) -> nat
    decreases slots.len(),
{
    if slots.len() == 0 {
        0
    } else {
        leaf_load(slots.drop_last()) + match entry_at(slots, slots.len() - 1) {
            Some(EntryView::Leaf { key, rid }) => page::value_len(slots.last()) + 4,
            _ => 0,
        }
    }
}

/// What the entries of an internal node take in its page, but for its `Meta`
/// entry and its first child pointer.
pub open spec fn node_load(slots: Slots) -> nat
    decreases slots.len(),
{
    if slots.len() <= 2 {
        0
    } else {
        node_load(slots.drop_last()) + page::value_len(slots.last()) + 4
    }
}

/// The left sibling of a leaf.
pub open spec fn left_of(p: PageView) -> Option<PageId> {
    match entry_at(p.slots, 0) {
        Some(EntryView::Meta { left_sibling, .. }) => left_sibling,
        _ => None,
    }
}

/// The right sibling of a leaf.
pub open spec fn right_of(p: PageView) -> Option<PageId> {
    match entry_at(p.slots, 0) {
        Some(EntryView::Meta { right_sibling, .. }) => right_sibling,
        _ => None,
    }
}

/// The page holds an internal node with the given separators and children.
#[verifier::opaque]
pub open spec fn node_page(p: PageView, seps: Seq<Key>, kids: Seq<PageId>) -> bool {
    &&& p.ready
    &&& kids.len() == seps.len() + 1
    &&& p.slots.len() == kids.len() + 1
    &&& entry_at(p.slots, 0) matches Some(EntryView::Meta { is_leaf, .. }) && !is_leaf
    &&& entry_at(p.slots, 1) == Some(EntryView::Internal { key: None, child: kids[0] })
    &&& page::value_len(p.slots[1]) == child_len(None)
    &&& FIRST_ENTRY_ROOM + node_load(p.slots) <= NODE_ROOM
    &&& forall|i: int|
        0 <= i < seps.len() ==> {
            &&& page::value_len(p.slots[i + 2]) == child_len(Some(seps[i]))
            &&& entry_at(p.slots, i + 2) == Some(
                EntryView::Internal { key: Some(#[trigger] seps[i]), child: kids[i + 1] },
            )
            &&& codec::key_len(seps[i]) <= MAX_KEY_LEN
        }
}

/// Some slot holds exactly these bytes.
pub open spec fn stored(slots: Slots, bytes: Seq<u8>) -> bool {
    exists|i: int| 0 <= i < slots.len() && #[trigger] slots[i] == Some(bytes)
}

/// A projection of a value id that can be ordered.
pub fn rid_key(v: &ValueId) -> (r: (ContainerId, Option<PageId>, Option<SlotId>))
    ensures
        r == (v.container_id, v.page_id, v.slot_id),
{
    (v.container_id, v.page_id, v.slot_id)
}

fn page_num(p: Option<PageId>) -> (r: u64)
    ensures
        r == page_rank(p),
{
    match p {
        Some(id) => id as u64 + 1,
        None => 0,
    }
}

fn slot_num(s: Option<SlotId>) -> (r: u64)
    ensures
        r == slot_rank(s),
{
    match s {
        Some(id) => id as u64 + 1,
        None => 0,
    }
}

fn is_rid_before(a: &ValueId, b: &ValueId) -> (r: bool)
    ensures
        r == rid_before(*a, *b),
{
    let (ac, ap, aslot) = rid_key(a);
    let (bc, bp, bslot) = rid_key(b);
    let (an, bn): (u64, u64) = (page_num(ap), page_num(bp));
    ac < bc || (ac == bc && (an < bn || (an == bn && slot_num(aslot) < slot_num(bslot))))
}

/// Replacing one slot replaces its items.
pub proof fn lemma_bag_update(s: Slots, i: int, v: Option<Seq<u8>>)
    requires
        0 <= i < s.len(),
    ensures
        bag(s.update(i, v)).add(slot_bag(s[i])) == bag(s).add(slot_bag(v)),
    decreases s.len(),
{
    let u = s.update(i, v);
    if i == s.len() - 1 {
        assert(u.drop_last() =~= s.drop_last());
    } else {
        assert(u.drop_last() =~= s.drop_last().update(i, v));
        lemma_bag_update(s.drop_last(), i, v);
    }
    let after = bag(u).add(slot_bag(s[i]));
    let before = bag(s).add(slot_bag(v));
    assert forall|x: Item| after.count(x) == before.count(x) by {
        if i < s.len() - 1 {
            let t = s.drop_last();
            assert(bag(t.update(i, v)).add(slot_bag(t[i])).count(x) == bag(t).add(slot_bag(v)).count(x));
        }
    }
    assert(after =~= before);
}

/// A new slot adds its items.
pub proof fn lemma_bag_push(s: Slots, v: Option<Seq<u8>>)
    ensures
        bag(s.push(v)) == bag(s).add(slot_bag(v)),
{
    assert(s.push(v).drop_last() =~= s);
}

/// An item is in the bag exactly when some slot stores it.
pub proof fn lemma_bag_has(s: Slots, item: Item)
    ensures
        bag(s).count(item) > 0 <==> exists|i: int|
            0 <= i < s.len() && #[trigger] entry_at(s, i) == Some(
                EntryView::Leaf { key: item.0, rid: item.1 },
            ),
    decreases s.len(),
{
    if s.len() > 0 {
        let t = s.drop_last();
        lemma_bag_has(t, item);
        let want = Some(EntryView::Leaf { key: item.0, rid: item.1 });
        let n = s.len() - 1;
        assert forall|i: int| 0 <= i < n implies #[trigger] entry_at(s, i) == entry_at(t, i) by {}
        assert forall|i: int| 0 <= i < n implies #[trigger] entry_at(t, i) == entry_at(s, i) by {}
        if bag(s).count(item) > 0 {
            if bag(t).count(item) > 0 {
                let i = choose|i: int| 0 <= i < t.len() && #[trigger] entry_at(t, i) == want;
                assert(entry_at(s, i) == want);
            } else {
                assert(entry_at(s, n) == want);
            }
        }
        if exists|i: int| 0 <= i < s.len() && #[trigger] entry_at(s, i) == want {
            let i = choose|i: int| 0 <= i < s.len() && #[trigger] entry_at(s, i) == want;
            if i < n {
                assert(entry_at(t, i) == want);
            } else {
                assert(slot_bag(s.last()).count(item) == 1);
            }
        }
    }
}

/// An entry of a leaf, with its stored form.
#[derive(Debug)]
pub struct LeafEntry {
    pub key: IndexKey,
    pub rid: ValueId,
    pub raw: Vec<u8>,
}

impl LeafEntry {
    /// What the entry holds.
    pub open spec fn item(self) -> Item {
        (field::views(self.key@), self.rid)
    }

    /// The stored form stores the entry.
    pub open spec fn wf(self) -> bool {
        codec::entry_of(self.raw@) == Some(
            EntryView::Leaf { key: field::views(self.key@), rid: self.rid },
        )
    }
}

/// What the entries of a leaf hold.
pub open spec fn items(entries: Seq<LeafEntry>) -> Seq<Item> {
    Seq::new(entries.len(), |i: int| entries[i].item())
}

/// An entry of an internal node, with its stored form.
#[derive(Debug)]
pub struct ChildEntry {
    /// The least key below the child; `None` for the leftmost child.
    pub key: Option<IndexKey>,
    pub child: PageId,
    pub raw: Vec<u8>,
}

impl ChildEntry {
    /// What the entry holds.
    pub open spec fn pointer(self) -> (Option<Key>, PageId) {
        (
            match self.key {
                Some(k) => Some(field::views(k@)),
                None => None,
            },
            self.child,
        )
    }

    /// The stored form stores the entry.
    pub open spec fn wf(self) -> bool {
        codec::entry_of(self.raw@) == Some(
            EntryView::Internal { key: self.pointer().0, child: self.child },
        )
    }
}

/// What the entries of an internal node hold.
pub open spec fn pointers(entries: Seq<ChildEntry>) -> Seq<(Option<Key>, PageId)> {
    Seq::new(entries.len(), |i: int| entries[i].pointer())
}

/// Whether the page holds a leaf, as its first `Meta` entry says.
pub fn read_is_leaf(page: &Page) -> (r: Result<bool, CrustyError>)
    requires
        page.wf(),
    ensures
        match r {
            Ok(b) => exists|i: int|
                {
                    &&& #[trigger] first_telling_slot(page@.slots, i)
                    &&& entry_at(page@.slots, i) matches Some(EntryView::Meta { is_leaf, .. })
                    &&& is_leaf == b
                },
            Err(e) => {
                ||| {
                    exists|i: int|
                        {
                            &&& #[trigger] first_telling_slot(page@.slots, i)
                            &&& unreadable_at(page@.slots, i)
                            &&& e.message() == codec::decode_failure(page@.slots[i]->0)
                        }
                }
                ||| {
                    &&& e.message() == "index node missing meta entry"@
                    &&& forall|i: int|
                        0 <= i < page@.slots.len() ==> !#[trigger] telling_slot(page@.slots, i)
                }
            },
        },
{
    let n: u16 = page.get_num_slots();
    let mut s: u16 = 0;
    while s < n
        invariant
            page.wf(),
            n == page@.slots.len(),
            s <= n,
            forall|j: int| 0 <= j < s ==> !#[trigger] telling_slot(page@.slots, j),
        decreases n - s,
    {
        if let Some(bytes) = page.get_value(s) {
            match decode(bytes) {
                Err(e) => {
                    assert(first_telling_slot(page@.slots, s as int));
                    return Err(e);
                },
                Ok(NodeEntry::Meta { is_leaf, .. }) => {
                    assert(first_telling_slot(page@.slots, s as int));
                    return Ok(is_leaf);
                },
                Ok(_) => {},
            }
        }
        s = s + 1;
    }
    Err(c_err("index node missing meta entry"))
}

/// The stored forms of the child pointers that the slots hold, in slot order.
pub open spec fn child_raws(slots: Slots) -> Seq<Seq<u8>>
    decreases slots.len(),
{
    if slots.len() == 0 {
        Seq::empty()
    } else {
        match entry_at(slots, slots.len() - 1) {
            Some(EntryView::Internal { key, child }) => child_raws(slots.drop_last()).push(
                slots.last()->0,
            ),
            _ => child_raws(slots.drop_last()),
        }
    }
}

/// The stored forms of entries.
pub open spec fn raws(entries: Seq<ChildEntry>) -> Seq<Seq<u8>> {
    Seq::new(entries.len(), |i: int| entries[i].raw@)
}

/// These are the child pointers that the slots hold, in slot order.
pub open spec fn lists(slots: Slots, entries: Seq<ChildEntry>) -> bool {
    &&& pointers(entries) == child_entries(slots)
    &&& raws(entries) == child_raws(slots)
}

/// The order of the keys of child pointers: the leftmost one has none.
pub open spec fn pointer_upto(a: Option<Key>, b: Option<Key>) -> bool {
    match (a, b) {
        (None, _) => true,
        (Some(_), None) => false,
        (Some(x), Some(y)) => field::key_upto(x, y),
    }
}

/// Where a child pointer goes behind all those that do not come after it,
/// among the first `k`.
pub open spec fn place_of(entries: Seq<ChildEntry>, e: ChildEntry, k: int) -> int
    decreases k,
{
    if k <= 0 || pointer_upto(entries[k - 1].pointer().0, e.pointer().0) {
        k
    } else {
        place_of(entries, e, k - 1)
    }
}

/// The child pointers in key order, those of one key as they came.
pub open spec fn by_key(entries: Seq<ChildEntry>) -> Seq<ChildEntry>
    decreases entries.len(),
{
    if entries.len() == 0 {
        Seq::empty()
    } else {
        let before = by_key(entries.drop_last());
        before.insert(place_of(before, entries.last(), before.len() as int), entries.last())
    }
}

/// Child pointers stand in key order.
pub open spec fn key_sorted(entries: Seq<ChildEntry>) -> bool {
    forall|i: int, j: int|
        0 <= i <= j < entries.len() ==> pointer_upto(
            #[trigger] entries[i].pointer().0,
            #[trigger] entries[j].pointer().0,
        )
}

proof fn lemma_place_of(entries: Seq<ChildEntry>, e: ChildEntry, k: int)
    requires
        0 <= k <= entries.len(),
    ensures
        0 <= place_of(entries, e, k) <= k,
        place_of(entries, e, k) > 0 ==> pointer_upto(
            entries[place_of(entries, e, k) - 1].pointer().0,
            e.pointer().0,
        ),
        forall|i: int|
            place_of(entries, e, k) <= i < k ==> !pointer_upto(
                #[trigger] entries[i].pointer().0,
                e.pointer().0,
            ),
    decreases k,
{
    if k > 0 && !pointer_upto(entries[k - 1].pointer().0, e.pointer().0) {
        lemma_place_of(entries, e, k - 1);
    }
}

/// Putting child pointers in key order keeps them all, and leaves those that
/// are in key order as they are.
pub proof fn lemma_by_key(entries: Seq<ChildEntry>)
    ensures
        key_sorted(by_key(entries)),
        by_key(entries).len() == entries.len(),
        by_key(entries).to_multiset() == entries.to_multiset(),
        key_sorted(entries) ==> by_key(entries) == entries,
    decreases entries.len(),
{
    broadcast use vstd::seq_lib::group_to_multiset_ensures;

    if entries.len() > 0 {
        let init = entries.drop_last();
        let e = entries.last();
        let before = by_key(init);
        lemma_by_key(init);
        lemma_place_of(before, e, before.len() as int);
        let at = place_of(before, e, before.len() as int);
        let after = before.insert(at, e);
        field::lemma_key_order();
        assert forall|i: int, j: int| 0 <= i <= j < after.len() implies pointer_upto(
            #[trigger] after[i].pointer().0,
            #[trigger] after[j].pointer().0,
        ) by {
            let a = if i < at {
                i
            } else {
                i - 1
            };
            let b = if j < at {
                j
            } else {
                j - 1
            };
            if i == at && j > at {
                assert(!pointer_upto(before[b].pointer().0, e.pointer().0));
            } else if i < at && j == at {
                assert(pointer_upto(before[i].pointer().0, before[at - 1].pointer().0));
            } else if i != at && j != at {
                assert(pointer_upto(before[a].pointer().0, before[b].pointer().0));
            }
        }
        vstd::seq_lib::to_multiset_insert(before, at, e);
        assert(entries =~= init.push(e));
        vstd::seq_lib::to_multiset_build(init, e);
        if key_sorted(entries) {
            assert forall|i: int, j: int| 0 <= i <= j < init.len() implies pointer_upto(
                #[trigger] init[i].pointer().0,
                #[trigger] init[j].pointer().0,
            ) by {
                assert(entries[i] == init[i] && entries[j] == init[j]);
            }
            if init.len() > 0 {
                let n = init.len() as int;
                assert(pointer_upto(entries[n - 1].pointer().0, entries[n].pointer().0));
            }
            assert(after =~= entries);
        }
    }
}

/// Whether the key of the first child pointer does not come after that of the
/// second.
fn is_pointer_upto(a: &ChildEntry, b: &ChildEntry) -> (r: bool)
    ensures
        r == pointer_upto(a.pointer().0, b.pointer().0),
{
    proof {
        field::lemma_key_order();
    }
    match (&a.key, &b.key) {
        (None, _) => true,
        (Some(_), None) => false,
        (Some(x), Some(y)) => match field::standing_of_keys(x, y) {
            Standing::Above => false,
            _ => true,
        },
    }
}

/// The child pointers of an internal node, in key order, those of one key in
/// slot order.
pub fn read_internal_entries(page: &Page) -> (r: Result<Vec<ChildEntry>, CrustyError>)
    requires
        page.wf(),
    ensures
        match r {
            Ok(v) => {
                &&& forall|i: int| 0 <= i < page@.slots.len() ==> !#[trigger] unreadable_at(page@.slots, i)
                &&& key_sorted(v@)
                &&& exists|list: Seq<ChildEntry>| #[trigger] lists(page@.slots, list) && v@ == by_key(list)
                &&& v@.len() <= MAX_SLOTS
                &&& forall|i: int|
                    0 <= i < v@.len() ==> {
                        &&& (#[trigger] v@[i]).wf()
                        &&& stored(page@.slots, v@[i].raw@)
                    }
            },
            Err(e) => {
                exists|i: int|
                    {
                        &&& #[trigger] first_unreadable_slot(page@.slots, i)
                        &&& e.message() == codec::decode_failure(page@.slots[i]->0)
                    }
            },
        },
{
    let mut v: Vec<ChildEntry> = match list_internal_entries(page) {
        Ok(v) => v,
        Err(e) => {
            return Err(e);
        },
    };
    let ghost list = v@;
    let n: usize = v.len();
    let mut i: usize = 0;
    proof {
        assert(by_key(list.take(0)) + list.skip(0) =~= list);
    }
    while i < n
        invariant
            i <= n,
            n == list.len(),
            v@ == by_key(list.take(i as int)) + list.skip(i as int),
            by_key(list.take(i as int)).len() == i,
        decreases n - i,
    {
        let ghost before = by_key(list.take(i as int));
        let ghost e = list[i as int];
        let mut at: usize = i;
        assert(v@[i as int] == e);
        while at > 0 && !is_pointer_upto(&v[at - 1], &v[i])
            invariant
                at <= i < n,
                n == list.len(),
                before.len() == i,
                v@ == before + list.skip(i as int),
                v@[i as int] == e,
                place_of(before, e, i as int) == place_of(before, e, at as int),
            decreases at,
        {
            assert(v@[at - 1] == before[at - 1]);
            at = at - 1;
        }
        proof {
            if at > 0 {
                assert(v@[at - 1] == before[at - 1]);
            }
            assert(at == place_of(before, e, i as int));
            lemma_by_key(list.take(i + 1));
            assert(list.take(i + 1).drop_last() =~= list.take(i as int));
        }
        if at < i {
            let entry = v.remove(i);
            v.insert(at, entry);
        }
        assert(v@ =~= before.insert(at as int, e) + list.skip(i + 1));
        i = i + 1;
    }
    proof {
        lemma_by_key(list);
        assert(list.take(n as int) =~= list);
        assert(v@ =~= by_key(list));
        assert forall|k: int| 0 <= k < v@.len() implies {
            &&& (#[trigger] v@[k]).wf()
            &&& stored(page@.slots, v@[k].raw@)
        } by {
            vstd::seq_lib::to_multiset_contains(v@, v@[k]);
            vstd::seq_lib::to_multiset_contains(list, v@[k]);
            assert(v@.contains(v@[k]));
            let m = choose|m: int| 0 <= m < list.len() && list[m] == v@[k];
            assert(list[m].wf());
        }
    }
    Ok(v)
}

/// The child pointers of an internal node, in slot order.
fn list_internal_entries(page: &Page) -> (r: Result<Vec<ChildEntry>, CrustyError>)
    requires
        page.wf(),
    ensures
        match r {
            Ok(v) => {
                &&& forall|i: int| 0 <= i < page@.slots.len() ==> !#[trigger] unreadable_at(page@.slots, i)
                &&& lists(page@.slots, v@)
                &&& v@.len() <= MAX_SLOTS
                &&& forall|i: int|
                    0 <= i < v@.len() ==> {
                        &&& (#[trigger] v@[i]).wf()
                        &&& stored(page@.slots, v@[i].raw@)
                    }
            },
            Err(e) => {
                exists|i: int|
                    {
                        &&& #[trigger] first_unreadable_slot(page@.slots, i)
                        &&& e.message() == codec::decode_failure(page@.slots[i]->0)
                    }
            },
        },
{
    let n: u16 = page.get_num_slots();
    let mut out: Vec<ChildEntry> = Vec::new();
    let mut s: u16 = 0;
    let ghost slots = page@.slots;
    assert(slots.take(0) =~= Seq::<Option<Seq<u8>>>::empty());
    while s < n
        invariant
            page.wf(),
            slots == page@.slots,
            n == slots.len(),
            s <= n,
            forall|j: int| 0 <= j < s ==> !#[trigger] unreadable_at(slots, j),
            out@.len() <= s,
            pointers(out@) =~= child_entries(slots.take(s as int)),
            raws(out@) =~= child_raws(slots.take(s as int)),
            forall|i: int|
                0 <= i < out@.len() ==> (#[trigger] out@[i]).wf() && stored(slots, out@[i].raw@),
        decreases n - s,
    {
        let ghost next = slots.take(s + 1);
        let ghost before = out@;
        assert(next.drop_last() =~= slots.take(s as int));
        assert(entry_at(next, s as int) == entry_at(slots, s as int));
        if let Some(bytes) = page.get_value(s) {
            match decode(bytes) {
                Err(e) => {
                    assert(first_unreadable_slot(slots, s as int));
                    return Err(e);
                },
                Ok(NodeEntry::Internal { key, child }) => {
                    let raw: Vec<u8> = vstd::slice::slice_to_vec(bytes);
                    assert(slots[s as int] == Some(raw@));
                    let entry = ChildEntry { key, child, raw };
                    out.push(entry);
                    assert(pointers(out@) =~= pointers(before).push(entry.pointer()));
                    assert(raws(out@) =~= raws(before).push(entry.raw@));
                },
                Ok(_) => {},
            }
        }
        s = s + 1;
    }
    proof {
        assert(slots.take(n as int) =~= slots);
        page.lemma_slot_count();
    }
    Ok(out)
}

/// Whether `a` may stand before `b`.
fn entry_upto(a: &LeafEntry, b: &LeafEntry) -> (r: bool)
    ensures
        r == item_upto(a.item(), b.item()),
{
    proof {
        field::lemma_key_order();
    }
    match field::standing_of_keys(&a.key, &b.key) {
        Standing::Below => true,
        Standing::Same => !is_rid_before(&b.rid, &a.rid),
        Standing::Above => false,
    }
}

/// Items are ordered, one way or the other, and the order is transitive.
pub proof fn lemma_item_order()
    ensures
        forall|a: Item| #[trigger] item_upto(a, a),
        forall|a: Item, b: Item, c: Item|
            #[trigger] item_upto(a, b) && #[trigger] item_upto(b, c) ==> item_upto(a, c),
        forall|a: Item, b: Item| #[trigger] item_upto(a, b) || item_upto(b, a),
{
    field::lemma_key_order();
}

/// The order of items.
pub open spec fn item_order() -> spec_fn(Item, Item) -> bool {
    |a: Item, b: Item| item_upto(a, b)
}

/// The items that one slot of a leaf holds, one or none.
pub open spec fn slot_items(s: Option<Seq<u8>>) -> Seq<Item> {
    match s {
        Some(b) => match codec::entry_of(b) {
            Some(EntryView::Leaf { key, rid }) => seq![(key, rid)],
            _ => Seq::empty(),
        },
        None => Seq::empty(),
    }
}

/// The items that the slots of a leaf hold, slot by slot.
pub open spec fn listed(slots: Slots) -> Seq<Item>
    decreases slots.len(),
{
    if slots.len() == 0 {
        Seq::empty()
    } else {
        listed(slots.drop_last()) + slot_items(slots.last())
    }
}

/// The items of a leaf in order.
pub open spec fn in_order(slots: Slots) -> Seq<Item> {
    listed(slots).sort_by(item_order())
}

proof fn lemma_listed(slots: Slots)
    ensures
        listed(slots).to_multiset() == bag(slots),
    decreases slots.len(),
{
    broadcast use vstd::seq_lib::group_to_multiset_ensures;

    if slots.len() == 0 {
        assert(listed(slots).to_multiset() =~= Multiset::empty());
    } else {
        let before = listed(slots.drop_last());
        lemma_listed(slots.drop_last());
        match slots.last() {
            Some(b) => match codec::entry_of(b) {
                Some(EntryView::Leaf { key, rid }) => {
                    assert(listed(slots) =~= before.push((key, rid)));
                    vstd::seq_lib::to_multiset_build(before, (key, rid));
                    assert(listed(slots).to_multiset() =~= bag(slots));
                },
                _ => {
                    assert(listed(slots) =~= before);
                    assert(bag(slots) =~= bag(slots.drop_last()));
                },
            },
            None => {
                assert(listed(slots) =~= before);
                assert(bag(slots) =~= bag(slots.drop_last()));
            },
        }
    }
}

/// The items of a leaf in order are its items, and there is one order.
pub proof fn lemma_in_order(slots: Slots)
    ensures
        in_order(slots).to_multiset() == bag(slots),
        forall|s: Seq<Item>| #[trigger] sorted(s) && s.to_multiset() == bag(slots) ==> s == in_order(slots),
{
    let leq = item_order();
    lemma_item_order();
    lemma_listed(slots);
    assert(vstd::relations::total_ordering(leq)) by {
        field::lemma_key_order();
    }
    listed(slots).lemma_sort_by_ensures(leq);
    assert forall|s: Seq<Item>| #[trigger] sorted(s) && s.to_multiset() == bag(slots) implies s == in_order(
        slots,
    ) by {
        assert forall|i: int, j: int| 0 <= i < j < s.len() implies #[trigger] leq(s[i], s[j]) by {
            assert(item_upto(s[i], s[j]));
        }
        vstd::seq_lib::lemma_sorted_unique(s, in_order(slots), leq);
    }
}

/// The items of a leaf, in order, with one more among them.
pub open spec fn in_order_with(slots: Slots, x: Item) -> Seq<Item> {
    listed(slots).push(x).sort_by(item_order())
}

/// A leaf with one more item has one order.
pub proof fn lemma_in_order_with(slots: Slots, x: Item, s: Seq<Item>)
    requires
        sorted(s),
        s.to_multiset() == bag(slots).insert(x),
    ensures
        s == in_order_with(slots, x),
{
    let leq = item_order();
    lemma_item_order();
    lemma_listed(slots);
    vstd::seq_lib::to_multiset_build(listed(slots), x);
    assert(vstd::relations::total_ordering(leq)) by {
        field::lemma_key_order();
    }
    listed(slots).push(x).lemma_sort_by_ensures(leq);
    assert forall|i: int, j: int| 0 <= i < j < s.len() implies #[trigger] leq(s[i], s[j]) by {
        assert(item_upto(s[i], s[j]));
    }
    vstd::seq_lib::lemma_sorted_unique(s, in_order_with(slots, x), leq);
}

/// What entries take in a page.
pub open spec fn load(entries: Seq<LeafEntry>) -> nat
    decreases entries.len(),
{
    if entries.len() == 0 {
        0
    } else {
        load(entries.drop_last()) + entries.last().raw@.len() + 4
    }
}

/// One more entry adds what it takes.
pub proof fn lemma_load_insert(entries: Seq<LeafEntry>, at: int, e: LeafEntry)
    requires
        0 <= at <= entries.len(),
    ensures
        load(entries.insert(at, e)) == load(entries) + e.raw@.len() + 4,
    decreases entries.len(),
{
    let more = entries.insert(at, e);
    if at == entries.len() {
        assert(more.drop_last() =~= entries);
    } else {
        assert(more.drop_last() =~= entries.drop_last().insert(at, e));
        lemma_load_insert(entries.drop_last(), at, e);
    }
}

/// The entries of a leaf leave room for its `Meta` entry.
pub proof fn lemma_leaf_load(p: PageView)
    requires
        leaf_page(p),
    ensures
        leaf_load(p.slots) <= NODE_ROOM,
{
    reveal(leaf_page);
    lemma_leaf_load_upto(p.slots, p.slots.len() as int);
    assert(p.slots.take(p.slots.len() as int) =~= p.slots);
}

proof fn lemma_leaf_load_upto(slots: Slots, k: int)
    requires
        1 <= k <= slots.len(),
        entry_at(slots, 0) matches Some(EntryView::Meta { .. }),
    ensures
        leaf_load(slots.take(k)) + page::value_len(slots[0]) <= page::total_len(slots.take(k)) + 4 * (k
            - 1),
    decreases k,
{
    let t = slots.take(k);
    assert(t.drop_last() =~= slots.take(k - 1));
    assert(entry_at(t, k - 1) == entry_at(slots, k - 1));
    if k > 1 {
        lemma_leaf_load_upto(slots, k - 1);
    } else {
        reveal_with_fuel(leaf_load, 2);
        reveal_with_fuel(page::total_len, 2);
        assert(t.drop_last() =~= Seq::<Option<Seq<u8>>>::empty());
    }
}

/// Puts an entry into its place.
pub fn insert_sorted(entries: &mut Vec<LeafEntry>, e: LeafEntry)
    requires
        sorted(items(old(entries)@)),
        old(entries)@.len() < usize::MAX,
    ensures
        sorted(items(final(entries)@)),
        exists|at: int|
            {
                &&& 0 <= at <= old(entries)@.len()
                &&& final(entries)@ == #[trigger] old(entries)@.insert(at, e)
            },
{
    let mut at: usize = entries.len();
    let ghost old_items = items(entries@);
    while at > 0 && !entry_upto(&entries[at - 1], &e)
        invariant
            at <= entries@.len(),
            old_items == items(entries@),
            entries@ == old(entries)@,
            forall|i: int| at <= i < entries@.len() ==> !item_upto(#[trigger] old_items[i], e.item()),
        decreases at,
    {
        at = at - 1;
        assert(old_items[at as int] == entries@[at as int].item());
    }
    entries.insert(at, e);
    proof {
        lemma_item_order();
        let a = at as int;
        assert(items(entries@) =~= old_items.insert(a, e.item()));
        let new_items = items(entries@);
        assert forall|i: int, j: int| 0 <= i <= j < new_items.len() implies #[trigger] item_upto(
            new_items[i],
            new_items[j],
        ) by {
            if a > 0 {
                assert(item_upto(old_items[a - 1], e.item()));
            }
            if i < a && j == a {
                assert(item_upto(old_items[i], old_items[a - 1]));
            } else if i == a && j > a {
                assert(!item_upto(old_items[j - 1], e.item()));
            } else if i != a && j != a {
                let i0 = if i < a {
                    i
                } else {
                    i - 1
                };
                let j0 = if j < a {
                    j
                } else {
                    j - 1
                };
                assert(item_upto(old_items[i0], old_items[j0]));
            }
        }
        assert(entries@ == old(entries)@.insert(a, e));
    }
}

/// The left sibling, the right sibling and the sorted entries of a leaf.
pub fn read_leaf_entries(page: &Page) -> (r: Result<
    (Option<PageId>, Option<PageId>, Vec<LeafEntry>),
    CrustyError,
>)
    requires
        page.wf(),
    ensures
        match r {
            Ok((left, right, v)) => {
                &&& forall|i: int| 0 <= i < page@.slots.len() ==> !#[trigger] no_leaf_slot(page@.slots, i)
                &&& (left, right) == links(page@.slots)
                &&& sorted(items(v@))
                &&& items(v@).to_multiset() == bag(page@.slots)
                &&& load(v@) == leaf_load(page@.slots)
                &&& v@.len() <= MAX_SLOTS
                &&& forall|i: int|
                    0 <= i < v@.len() ==> {
                        &&& (#[trigger] v@[i]).wf()
                        &&& stored(page@.slots, v@[i].raw@)
                    }
            },
            Err(e) => exists|i: int|
                {
                    &&& #[trigger] first_no_leaf_slot(page@.slots, i)
                    &&& e.message() == if entry_at(page@.slots, i) is None {
                        codec::decode_failure(page@.slots[i]->0)
                    } else {
                        "expected leaf node"@
                    }
                },
        },
{
    let n: u16 = page.get_num_slots();
    let mut out: Vec<LeafEntry> = Vec::new();
    let mut left: Option<PageId> = None;
    let mut right: Option<PageId> = None;
    let mut s: u16 = 0;
    let ghost slots = page@.slots;
    proof {
        assert(slots.take(0) =~= Seq::<Option<Seq<u8>>>::empty());
        assert(items(out@) =~= Seq::<Item>::empty());
        broadcast use vstd::seq_lib::group_to_multiset_ensures;
        assert(items(out@).to_multiset() =~= Multiset::<Item>::empty());
    }
    while s < n
        invariant
            page.wf(),
            slots == page@.slots,
            n == slots.len(),
            s <= n,
            out@.len() <= s,
            forall|j: int| 0 <= j < s ==> !#[trigger] no_leaf_slot(slots, j),
            (left, right) == links(slots.take(s as int)),
            sorted(items(out@)),
            items(out@).to_multiset() == bag(slots.take(s as int)),
            load(out@) == leaf_load(slots.take(s as int)),
            forall|i: int|
                0 <= i < out@.len() ==> (#[trigger] out@[i]).wf() && stored(slots, out@[i].raw@),
        decreases n - s,
    {
        let ghost next = slots.take(s + 1);
        let ghost before = out@;
        assert(next.drop_last() =~= slots.take(s as int));
        assert(entry_at(next, s as int) == entry_at(slots, s as int));
        if let Some(bytes) = page.get_value(s) {
            match decode(bytes) {
                Err(e) => {
                    assert(first_no_leaf_slot(slots, s as int));
                    return Err(e);
                },
                Ok(NodeEntry::Meta { left_sibling, right_sibling, .. }) => {
                    left = left_sibling;
                    right = right_sibling;
                    assert(bag(next) =~= bag(next.drop_last()));
                },
                Ok(NodeEntry::Leaf { key, rid }) => {
                    let raw: Vec<u8> = vstd::slice::slice_to_vec(bytes);
                    assert(slots[s as int] == Some(raw@));
                    let entry = LeafEntry { key, rid, raw };
                    insert_sorted(&mut out, entry);
                    proof {
                        let at = choose|at: int|
                            0 <= at <= before.len() && out@ == #[trigger] before.insert(at, entry);
                        assert(items(out@) =~= items(before).insert(at, entry.item()));
                        vstd::seq_lib::to_multiset_insert(items(before), at, entry.item());
                        assert(items(out@).to_multiset() =~= bag(next));
                        lemma_load_insert(before, at, entry);
                        assert forall|i: int| 0 <= i < out@.len() implies (#[trigger] out@[i]).wf() && stored(
                            slots,
                            out@[i].raw@,
                        ) by {
                            if i < at {
                                assert(out@[i] == before[i]);
                            } else if i > at {
                                assert(out@[i] == before[i - 1]);
                            }
                        }
                    }
                },
                Ok(NodeEntry::Internal { .. }) => {
                    assert(first_no_leaf_slot(slots, s as int));
                    return Err(c_err("expected leaf node"));
                },
            }
        } else {
            assert(bag(next) =~= bag(next.drop_last()));
        }
        s = s + 1;
    }
    proof {
        assert(slots.take(n as int) =~= slots);
        page.lemma_slot_count();
    }
    Ok((left, right, out))
}

/// The position of the child pointer to follow for `key`: the last one of
/// those that come, in order, before the first separator that is greater.
pub fn find_child(entries: &Vec<ChildEntry>, key: &[Field]) -> (r: usize)
    requires
        entries@.len() > 0,
    ensures
        r < entries@.len(),
        forall|i: int|
            1 <= i <= r ==> (#[trigger] entries@[i].pointer().0 matches Some(k) ==> field::key_upto(
                k,
                field::views(key@),
            )),
        r + 1 < entries@.len() ==> {
            &&& entries@[r + 1].pointer().0 matches Some(k)
            &&& field::key_before(field::views(key@), k)
        },
{
    let mut i: usize = 1;
    while i < entries.len()
        invariant
            1 <= i <= entries@.len(),
            forall|j: int|
                1 <= j < i ==> (#[trigger] entries@[j].pointer().0 matches Some(k) ==> field::key_upto(
                    k,
                    field::views(key@),
                )),
        decreases entries@.len() - i,
    {
        if let Some(k) = &entries[i].key {
            match field::standing_of_keys(k, key) {
                Standing::Above => {
                    return i - 1;
                },
                _ => {},
            }
        }
        i = i + 1;
    }
    entries.len() - 1
}

/// A leaf reads as one.
pub proof fn lemma_leaf_page(p: PageView)
    requires
        leaf_page(p),
    ensures
        forall|i: int| 0 <= i < p.slots.len() ==> !#[trigger] no_leaf_slot(p.slots, i),
        forall|i: int| #[trigger] first_telling_slot(p.slots, i) ==> i == 0,
        first_telling_slot(p.slots, 0),
        entry_at(p.slots, 0) matches Some(EntryView::Meta { is_leaf, .. }) && is_leaf,
        links(p.slots) == (left_of(p), right_of(p)),
        forall|x: Item| bag(p.slots).count(x) > 0 ==> codec::key_len(#[trigger] x.0) <= MAX_KEY_LEN,
{
    reveal(leaf_page);
    let slots = p.slots;
    assert forall|i: int| 0 <= i < slots.len() implies !#[trigger] no_leaf_slot(slots, i) by {
        if i > 0 {
            let _ = slots[i];
        }
    }
    assert(telling_slot(slots, 0));
    lemma_leaf_links(p, slots.len() as int);
    assert(slots.take(slots.len() as int) =~= slots);
    assert forall|x: Item| bag(slots).count(x) > 0 implies codec::key_len(#[trigger] x.0)
        <= MAX_KEY_LEN by {
        lemma_bag_has(slots, x);
        let i = choose|i: int|
            0 <= i < slots.len() && #[trigger] entry_at(slots, i) == Some(
                EntryView::Leaf { key: x.0, rid: x.1 },
            );
        let _ = slots[i];
    }
}

proof fn lemma_leaf_links(p: PageView, k: int)
    requires
        leaf_page(p),
        1 <= k <= p.slots.len(),
    ensures
        links(p.slots.take(k)) == (left_of(p), right_of(p)),
    decreases k,
{
    reveal(leaf_page);
    let t = p.slots.take(k);
    assert(entry_at(t, k - 1) == entry_at(p.slots, k - 1));
    if k > 1 {
        let _ = p.slots[k - 1];
        assert(t.drop_last() =~= p.slots.take(k - 1));
        lemma_leaf_links(p, k - 1);
    }
}

/// A leaf is no internal node.
pub proof fn lemma_one_kind(p: PageView, seps: Seq<Key>, kids: Seq<PageId>)
    requires
        node_page(p, seps, kids),
    ensures
        !leaf_page(p),
{
    reveal(leaf_page);
    reveal(node_page);
}

/// The page of a node holds one list of separators and children.
pub proof fn lemma_node_page_one(
    p: PageView,
    s1: Seq<Key>,
    k1: Seq<PageId>,
    s2: Seq<Key>,
    k2: Seq<PageId>,
)
    requires
        node_page(p, s1, k1),
        node_page(p, s2, k2),
    ensures
        s1 == s2,
        k1 == k2,
{
    reveal(node_page);
    assert forall|i: int| 0 <= i < s1.len() implies s1[i] == s2[i] by {
        let _ = s1[i];
        let _ = s2[i];
    }
    assert forall|i: int| 0 <= i < k1.len() implies k1[i] == k2[i] by {
        if i > 0 {
            let _ = s1[i - 1];
            let _ = s2[i - 1];
        }
    }
    assert(s1 =~= s2);
    assert(k1 =~= k2);
}

/// What the child pointers of an internal node read as.
pub open spec fn node_pointers(seps: Seq<Key>, kids: Seq<PageId>) -> Seq<(Option<Key>, PageId)> {
    Seq::new(
        kids.len(),
        |i: int|
            (
                if i == 0 {
                    None
                } else {
                    Some(seps[i - 1])
                },
                kids[i],
            ),
    )
}

/// An internal node reads as one.
pub proof fn lemma_node_page(p: PageView, seps: Seq<Key>, kids: Seq<PageId>)
    requires
        node_page(p, seps, kids),
    ensures
        forall|i: int| 0 <= i < p.slots.len() ==> !#[trigger] unreadable_at(p.slots, i),
        forall|i: int| #[trigger] first_telling_slot(p.slots, i) ==> i == 0,
        first_telling_slot(p.slots, 0),
        entry_at(p.slots, 0) matches Some(EntryView::Meta { is_leaf, .. }) && !is_leaf,
        child_entries(p.slots) == node_pointers(seps, kids),
{
    reveal(node_page);
    let slots = p.slots;
    assert forall|i: int| 0 <= i < slots.len() implies !#[trigger] unreadable_at(slots, i) by {
        if i > 1 {
            let _ = seps[i - 2];
        }
    }
    assert(telling_slot(slots, 0));
    lemma_node_pointers(p, seps, kids, slots.len() as int);
    assert(slots.take(slots.len() as int) =~= slots);
    assert(node_pointers(seps, kids).take(kids.len() as int) =~= node_pointers(seps, kids));
}

proof fn lemma_node_pointers(p: PageView, seps: Seq<Key>, kids: Seq<PageId>, k: int)
    requires
        node_page(p, seps, kids),
        1 <= k <= p.slots.len(),
    ensures
        child_entries(p.slots.take(k)) == node_pointers(seps, kids).take(k - 1),
    decreases k,
{
    reveal(node_page);
    let t = p.slots.take(k);
    let want = node_pointers(seps, kids);
    assert(entry_at(t, k - 1) == entry_at(p.slots, k - 1));
    if k > 1 {
        assert(t.drop_last() =~= p.slots.take(k - 1));
        lemma_node_pointers(p, seps, kids, k - 1);
        if k > 2 {
            let _ = seps[k - 3];
        }
        assert(child_entries(t) =~= want.take(k - 2).push(want[k - 2]));
        assert(want.take(k - 2).push(want[k - 2]) =~= want.take(k - 1));
    } else {
        reveal_with_fuel(child_entries, 2);
        assert(t.drop_last() =~= Seq::<Option<Seq<u8>>>::empty());
        assert(child_entries(t) =~= want.take(0));
    }
}

/// The sum of the weights from `a` up to `b`.
pub open spec fn span(ws: Seq<usize>, a: int, b: int) -> nat
    decreases b - a,
{
    if a >= b {
        0
    } else {
        span(ws, a, b - 1) + ws[b - 1] as nat
    }
}

/// Room that the entries from `a` up to `b` take in a node of their own. The
/// first entry of an internal node loses its key: `lead` is what it takes
/// then.
pub open spec fn group_room(ws: Seq<usize>, a: int, b: int, lead: Option<usize>) -> nat {
    match lead {
        Some(h) => h as nat + span(ws, a + 1, b),
        None => span(ws, a, b),
    }
}

/// Where group `g` starts, given the cuts between the groups.
pub open spec fn boundary(cuts: Seq<usize>, n: int, g: int) -> int {
    if g <= 0 {
        0
    } else if g <= cuts.len() {
        cuts[g - 1] as int
    } else {
        n
    }
}

/// Group `g` has entries and fits in a node.
pub open spec fn group_fits(cuts: Seq<usize>, ws: Seq<usize>, lead: Option<usize>, g: int) -> bool {
    let a = boundary(cuts, ws.len() as int, g);
    let b = boundary(cuts, ws.len() as int, g + 1);
    &&& 0 <= a < b <= ws.len()
    &&& group_room(ws, a, b, lead) <= NODE_ROOM
}

/// Every group between two cuts has entries and fits in a node.
pub open spec fn groups_fit(cuts: Seq<usize>, ws: Seq<usize>, lead: Option<usize>) -> bool {
    forall|g: int| 0 <= g <= cuts.len() ==> #[trigger] group_fits(cuts, ws, lead, g)
}

/// Cuts between groups that fit stand inside the row.
pub proof fn lemma_cuts_inside(cuts: Seq<usize>, ws: Seq<usize>, lead: Option<usize>)
    requires
        groups_fit(cuts, ws, lead),
    ensures
        forall|g: int| 0 <= g < cuts.len() ==> 1 <= #[trigger] cuts[g] < ws.len(),
{
    assert forall|g: int| 0 <= g < cuts.len() implies 1 <= #[trigger] cuts[g] < ws.len() by {
        assert(group_fits(cuts, ws, lead, g));
        assert(group_fits(cuts, ws, lead, g + 1));
    }
}

fn room_of(ws: &Vec<usize>, a: usize, b: usize, lead: Option<usize>) -> (r: usize)
    requires
        a < b <= ws@.len() <= 5000,
        forall|i: int| 0 <= i < ws@.len() ==> #[trigger] ws@[i] <= NODE_ROOM,
        lead matches Some(h) ==> h <= NODE_ROOM,
    ensures
        r == group_room(ws@, a as int, b as int, lead),
{
    let mut sum: usize = match lead {
        Some(h) => h,
        None => ws[a],
    };
    let mut i: usize = a + 1;
    proof {
        reveal_with_fuel(span, 2);
    }
    while i < b
        invariant
            a < i <= b <= ws@.len() <= 5000,
            sum == group_room(ws@, a as int, i as int, lead),
            sum <= NODE_ROOM * (i - a),
            forall|j: int| 0 <= j < ws@.len() ==> #[trigger] ws@[j] <= NODE_ROOM,
            lead matches Some(h) ==> h <= NODE_ROOM,
        decreases b - i,
    {
        assert(ws@[i as int] <= NODE_ROOM);
        sum = sum + ws[i];
        i = i + 1;
    }
    sum
}

/// Where filling groups one by one cuts the entries from `i` on, in a group
/// that starts at `start`.
pub open spec fn filled(ws: Seq<usize>, lead: Option<usize>, start: int, i: int) -> Seq<usize>
    decreases ws.len() - i,
{
    if i >= ws.len() {
        Seq::empty()
    } else if group_room(ws, start, i, lead) + ws[i] > NODE_ROOM {
        seq![i as usize] + filled(ws, lead, i, i + 1)
    } else {
        filled(ws, lead, start, i + 1)
    }
}

/// Both halves of a row fit in a node.
pub open spec fn halves_fit(ws: Seq<usize>, lead: Option<usize>) -> bool {
    let n = ws.len() as int;
    &&& group_room(ws, 0, n / 2, lead) <= NODE_ROOM
    &&& group_room(ws, n / 2, n, lead) <= NODE_ROOM
}

/// Where a row of entries is cut: nowhere if it fits as a whole, in the middle
/// if both halves fit, else where filling groups one by one cuts it.
pub open spec fn cuts_of(ws: Seq<usize>, lead: Option<usize>) -> Seq<usize> {
    if group_room(ws, 0, ws.len() as int, lead) <= NODE_ROOM {
        Seq::empty()
    } else if halves_fit(ws, lead) {
        seq![(ws.len() / 2) as usize]
    } else {
        filled(ws, lead, 0, 1)
    }
}

/// Part `g` of a leaf fits in a leaf. Only the first part may be empty.
pub open spec fn leaf_group_fits(cuts: Seq<usize>, ws: Seq<usize>, g: int) -> bool {
    let a = boundary(cuts, ws.len() as int, g);
    let b = boundary(cuts, ws.len() as int, g + 1);
    &&& 0 <= a <= b <= ws.len()
    &&& a < ws.len()
    &&& g > 0 ==> a < b
    &&& span(ws, a, b) <= NODE_ROOM
}

/// Every part of a leaf fits in a leaf.
pub open spec fn leaf_groups_fit(cuts: Seq<usize>, ws: Seq<usize>) -> bool {
    forall|g: int| 0 <= g <= cuts.len() ==> #[trigger] leaf_group_fits(cuts, ws, g)
}

/// Where the entries of a leaf that has no room for one of them are cut. The
/// leaf is split even where vacant slots take up the room that is missing: a
/// single entry then leaves the first part empty.
pub open spec fn leaf_cuts_of(ws: Seq<usize>) -> Seq<usize> {
    if group_room(ws, 0, ws.len() as int, None) <= NODE_ROOM {
        seq![(ws.len() / 2) as usize]
    } else {
        cuts_of(ws, None)
    }
}

/// A part of a group takes no more room than the group.
proof fn lemma_part_room(ws: Seq<usize>, lead: Option<usize>, a: int, c: int, d: int, b: int)
    requires
        a <= c,
        d <= b,
    ensures
        group_room(ws, c, d, lead) <= group_room(ws, a, b, lead),
{
    lemma_span_within(ws, a, c, d, b);
    lemma_span_within(ws, a + 1, c + 1, d, b);
}

/// A part of a run weighs no more than the run.
proof fn lemma_span_within(ws: Seq<usize>, a: int, c: int, d: int, b: int)
    requires
        a <= c,
        d <= b,
    ensures
        span(ws, c, d) <= span(ws, a, b),
    decreases b - a,
{
    if c < d {
        if d < b {
            lemma_span_within(ws, a, c, d, b - 1);
        } else {
            lemma_span_within(ws, a, c, d - 1, b - 1);
        }
    }
}

/// Filling groups one by one never falls behind other cuts.
proof fn lemma_filled_ahead(
    ws: Seq<usize>,
    lead: Option<usize>,
    start: int,
    i: int,
    cuts: Seq<usize>,
    g: int,
)
    requires
        groups_fit(cuts, ws, lead),
        0 <= g <= cuts.len(),
        boundary(cuts, ws.len() as int, g) <= start < i,
        start < ws.len(),
    ensures
        filled(ws, lead, start, i).len() <= cuts.len() - g,
    decreases ws.len() - i,
{
    let n = ws.len() as int;
    assert(group_fits(cuts, ws, lead, g));
    if i < n {
        if group_room(ws, start, i, lead) + ws[i] > NODE_ROOM {
            if i < boundary(cuts, n, g + 1) {
                lemma_part_room(
                    ws,
                    lead,
                    boundary(cuts, n, g),
                    start,
                    i + 1,
                    boundary(cuts, n, g + 1),
                );
            }
            lemma_filled_ahead(ws, lead, i, i + 1, cuts, g + 1);
        } else {
            lemma_filled_ahead(ws, lead, start, i + 1, cuts, g);
        }
    }
}

/// Runs that hold the same weights weigh the same.
proof fn lemma_span_same(ws: Seq<usize>, vs: Seq<usize>, a: int, b: int, d: int)
    requires
        forall|i: int| a <= i < b ==> #[trigger] ws[i] == vs[i - d],
    ensures
        span(ws, a, b) == span(vs, a - d, b - d),
    decreases b - a,
{
    if a < b {
        lemma_span_same(ws, vs, a, b - 1, d);
        assert(ws[b - 1] == vs[(b - 1) - d]);
    }
}

/// The weights of entries add up to what they take.
proof fn lemma_load_span(entries: Seq<LeafEntry>, k: int)
    requires
        leaf_entries_ok(entries),
        0 <= k <= entries.len(),
    ensures
        span(leaf_weights(entries), 0, k) == load(entries.take(k)),
    decreases k,
{
    if k > 0 {
        lemma_load_span(entries, k - 1);
        assert(entries.take(k).drop_last() =~= entries.take(k - 1));
        assert(entries[k - 1].wf());
    }
}

/// A row of which all but one entry fit in a node is cut into three groups at
/// most: what comes before that entry, the entry, and what comes after it.
proof fn lemma_cut_around(ws: Seq<usize>, at: int)
    requires
        0 <= at < ws.len() <= usize::MAX,
        span(ws, 0, at) <= NODE_ROOM,
        ws[at] <= NODE_ROOM,
        span(ws, at + 1, ws.len() as int) <= NODE_ROOM,
    ensures
        cuts_of(ws, None).len() <= 2,
{
    let n = ws.len() as int;
    reveal_with_fuel(span, 2);
    assert(span(ws, at, at + 1) == ws[at]);
    let cuts: Seq<usize> = if n == 1 {
        seq![]
    } else if at == 0 {
        seq![1usize]
    } else if at == n - 1 {
        seq![at as usize]
    } else {
        seq![at as usize, (at + 1) as usize]
    };
    assert(groups_fit(cuts, ws, None)) by {
        assert forall|g: int| 0 <= g <= cuts.len() implies #[trigger] group_fits(cuts, ws, None, g) by {
            if n > 1 && 0 < at < n - 1 {
                assert(cuts[0] == at && cuts[1] == at + 1);
            }
        }
    }
    lemma_fewest_cuts(ws, None, cuts);
}

/// A leaf with one more entry is cut into three groups at most.
pub proof fn lemma_leaf_cuts(before: Seq<LeafEntry>, at: int, e: LeafEntry)
    requires
        0 <= at <= before.len(),
        leaf_entries_ok(before),
        leaf_entries_ok(before.insert(at, e)),
        load(before) <= NODE_ROOM,
    ensures
        leaf_cuts_of(leaf_weights(before.insert(at, e))).len() <= 2,
{
    let all = before.insert(at, e);
    let n = all.len() as int;
    let ws = leaf_weights(all);
    let vs = leaf_weights(before);
    lemma_load_span(before, before.len() as int);
    assert(before.take(before.len() as int) =~= before);
    assert(all[at].wf());
    lemma_span_same(ws, vs, 0, at, 0);
    lemma_span_same(ws, vs, at + 1, n, 1);
    lemma_span_within(vs, 0, 0, at, before.len() as int);
    lemma_span_within(vs, 0, at, n - 1, before.len() as int);
    lemma_load_len(before);
    assert(ws[at] <= NODE_ROOM);
    lemma_cut_around(ws, at);
}

/// Every entry takes some room.
proof fn lemma_load_len(entries: Seq<LeafEntry>)
    ensures
        4 * entries.len() <= load(entries),
    decreases entries.len(),
{
    if entries.len() > 0 {
        lemma_load_len(entries.drop_last());
    }
}

/// A row that fits in an internal node, with `k` new entries behind position
/// `j`, is cut at most once for each of them: before it.
pub proof fn lemma_row_cuts(vs: Seq<usize>, ws: Seq<usize>, j: int, k: int)
    requires
        0 <= j < vs.len(),
        0 <= k,
        ws.len() == vs.len() + k <= usize::MAX,
        forall|i: int| 0 <= i <= j ==> #[trigger] ws[i] == vs[i],
        forall|i: int| j + k < i < ws.len() ==> #[trigger] ws[i] == vs[i - k],
        FIRST_ENTRY_ROOM + span(vs, 1, vs.len() as int) <= NODE_ROOM,
    ensures
        cuts_of(ws, Some(FIRST_ENTRY_ROOM)).len() <= k,
{
    let m = vs.len() as int;
    let n = ws.len() as int;
    let cuts = Seq::new(k as nat, |i: int| (j + 1 + i) as usize);
    lemma_span_same(ws, vs, 1, j + 1, 0);
    lemma_span_within(vs, 1, 1, j + 1, m);
    if k == 0 {
        assert(ws =~= vs);
    } else {
        lemma_span_same(ws, vs, j + k + 1, n, k);
        lemma_span_within(vs, 1, j + 1, m, m);
    }
    assert(groups_fit(cuts, ws, Some(FIRST_ENTRY_ROOM))) by {
        assert forall|g: int| 0 <= g <= cuts.len() implies #[trigger] group_fits(
            cuts,
            ws,
            Some(FIRST_ENTRY_ROOM),
            g,
        ) by {
            let a = boundary(cuts, n, g);
            let b = boundary(cuts, n, g + 1);
            if 0 < g < k {
                assert(b == a + 1);
                assert(span(ws, a + 1, b) == 0);
            }
        }
    }
    lemma_fewest_cuts(ws, Some(FIRST_ENTRY_ROOM), cuts);
}

/// A node with new child pointers behind position `j` is cut at most once for
/// each of them.
pub proof fn lemma_node_cuts(old: Seq<ChildEntry>, j: int, news: Seq<ChildEntry>)
    requires
        0 <= j < old.len(),
        FIRST_ENTRY_ROOM + span(child_weights(old), 1, old.len() as int) <= NODE_ROOM,
        old.len() + news.len() <= usize::MAX,
    ensures
        cuts_of(
            child_weights(old.take(j + 1) + news + old.skip(j + 1)),
            Some(FIRST_ENTRY_ROOM),
        ).len() <= news.len(),
{
    let all = old.take(j + 1) + news + old.skip(j + 1);
    lemma_row_cuts(child_weights(old), child_weights(all), j, news.len() as int);
}

/// No other cuts make fewer groups that fit.
pub proof fn lemma_fewest_cuts(ws: Seq<usize>, lead: Option<usize>, cuts: Seq<usize>)
    requires
        ws.len() > 0,
        groups_fit(cuts, ws, lead),
    ensures
        cuts_of(ws, lead).len() <= cuts.len(),
{
    assert(group_fits(cuts, ws, lead, 0));
    lemma_filled_ahead(ws, lead, 0, 1, cuts, 0);
}

/// Where to cut a row of entries so that every group fits in a node. A row
/// that fits as a whole is not cut. Otherwise the row is cut in the middle if
/// both halves fit, else into as few groups as filling them one by one gives.
pub fn cut_points(ws: &Vec<usize>, lead: Option<usize>) -> (cuts: Vec<usize>)
    requires
        1 <= ws@.len() <= 5000,
        forall|i: int| 0 <= i < ws@.len() ==> #[trigger] ws@[i] <= NODE_ROOM,
        lead matches Some(h) ==> forall|i: int| 0 <= i < ws@.len() ==> h + #[trigger] ws@[i] <= NODE_ROOM,
    ensures
        groups_fit(cuts@, ws@, lead),
        cuts@.len() < ws@.len(),
        lead is Some ==> 2 * cuts@.len() < ws@.len(),
        cuts@ == cuts_of(ws@, lead),
{
    let n: usize = ws.len();
    let mut cuts: Vec<usize> = Vec::new();
    proof {
        assert(ws@[0] <= NODE_ROOM);
    }
    if room_of(ws, 0, n, lead) <= NODE_ROOM {
        return cuts;
    }
    let mid: usize = n / 2;
    proof {
        reveal_with_fuel(span, 3);
        assert(ws@[n - 1] <= NODE_ROOM);
        assert(n >= 2 && (lead is Some ==> n >= 3));
    }
    if room_of(ws, 0, mid, lead) <= NODE_ROOM && room_of(ws, mid, n, lead) <= NODE_ROOM {
        cuts.push(mid);
        return cuts;
    }
    let mut start: usize = 0;
    let mut i: usize = 1;
    let mut room: usize = match lead {
        Some(h) => h,
        None => ws[0],
    };
    proof {
        reveal_with_fuel(span, 2);
        assert(cuts@ + filled(ws@, lead, 0, 1) =~= filled(ws@, lead, 0, 1));
    }
    while i < n
        invariant
            n == ws@.len(),
            1 <= n <= 5000,
            start < i <= n,
            forall|j: int| 0 <= j < ws@.len() ==> #[trigger] ws@[j] <= NODE_ROOM,
            lead matches Some(h) ==> h <= NODE_ROOM && forall|j: int|
                0 <= j < ws@.len() ==> h + #[trigger] ws@[j] <= NODE_ROOM,
            start == boundary(cuts@, n as int, cuts@.len() as int),
            room == group_room(ws@, start as int, i as int, lead),
            room <= NODE_ROOM,
            lead matches Some(h) && i == start + 1 ==> room == lead->0,
            cuts@.len() <= start,
            lead is Some ==> 2 * cuts@.len() <= start,
            cuts@ + filled(ws@, lead, start as int, i as int) == filled(ws@, lead, 0, 1),
            forall|g: int| 0 <= g < cuts@.len() ==> #[trigger] group_fits(cuts@, ws@, lead, g),
        decreases n - i,
    {
        assert(ws@[i as int] <= NODE_ROOM);
        if room + ws[i] > NODE_ROOM {
            let ghost before = cuts@;
            assert(lead is Some ==> i >= start + 2);
            cuts.push(i);
            proof {
                assert forall|g: int| 0 <= g < cuts@.len() implies #[trigger] group_fits(
                    cuts@,
                    ws@,
                    lead,
                    g,
                ) by {
                    assert(boundary(cuts@, n as int, g) == boundary(before, n as int, g));
                    if g + 1 < cuts@.len() {
                        assert(group_fits(before, ws@, lead, g));
                        assert(boundary(cuts@, n as int, g + 1) == boundary(before, n as int, g + 1));
                    }
                }
                reveal_with_fuel(span, 2);
                assert(cuts@ + filled(ws@, lead, i as int, i + 1) =~= before + filled(
                    ws@,
                    lead,
                    start as int,
                    i as int,
                ));
            }
            start = i;
            room = match lead {
                Some(h) => h,
                None => ws[i],
            };
        } else {
            room = room + ws[i];
        }
        i = i + 1;
    }
    assert(cuts@ + filled(ws@, lead, start as int, n as int) =~= cuts@);
    cuts
}

/// Where to cut the entries of a leaf that has no room for one of them.
pub fn leaf_cut_points(ws: &Vec<usize>) -> (cuts: Vec<usize>)
    requires
        1 <= ws@.len() <= 5000,
        forall|i: int| 0 <= i < ws@.len() ==> #[trigger] ws@[i] <= NODE_ROOM,
    ensures
        leaf_groups_fit(cuts@, ws@),
        forall|g: int| 0 <= g < cuts@.len() ==> #[trigger] cuts@[g] < ws@.len(),
        cuts@ == leaf_cuts_of(ws@),
{
    let n: usize = ws.len();
    if room_of(ws, 0, n, None) <= NODE_ROOM {
        let cuts: Vec<usize> = vec![n / 2];
        proof {
            lemma_part_room(ws@, None, 0, 0, (n / 2) as int, n as int);
            lemma_part_room(ws@, None, 0, (n / 2) as int, n as int, n as int);
            assert forall|g: int| 0 <= g <= cuts@.len() implies #[trigger] leaf_group_fits(
                cuts@,
                ws@,
                g,
            ) by {}
            assert(cuts@ =~= leaf_cuts_of(ws@));
        }
        return cuts;
    }
    let cuts: Vec<usize> = cut_points(ws, None);
    proof {
        lemma_cuts_inside(cuts@, ws@, None);
        assert forall|g: int| 0 <= g <= cuts@.len() implies #[trigger] leaf_group_fits(
            cuts@,
            ws@,
            g,
        ) by {
            assert(group_fits(cuts@, ws@, None, g));
        }
    }
    cuts
}

/// Appends a value to a page without vacant slots.
fn put(page: &mut Page, bytes: &[u8])
    requires
        old(page).wf(),
        old(page)@.ready,
        forall|i: int| 0 <= i < old(page)@.slots.len() ==> #[trigger] old(page)@.slots[i] is Some,
        bytes@.len() > 0,
        bytes@.len() + 4 <= old(page)@.free_space(),
    ensures
        final(page).wf(),
        final(page).id() == old(page).id(),
        final(page)@.ready,
        final(page)@.slots == old(page)@.slots.push(Some(bytes@)),
        final(page)@.free_space() == old(page)@.free_space() - bytes@.len() - 4,
{
    proof {
        page::lemma_lowest_vacancy_is(page@.slots, page@.slots.len() as int);
        page::lemma_lowest_vacancy(page@.slots);
        page::lemma_total_push(page@.slots, Some(bytes@));
    }
    page.add_value(bytes);
}

/// The weight of each entry: what it takes in a page.
pub open spec fn leaf_weights(entries: Seq<LeafEntry>) -> Seq<usize> {
    Seq::new(entries.len(), |i: int| (entries[i].raw@.len() + 4) as usize)
}

/// The weight of each entry: what it takes in a page.
pub open spec fn child_weights(entries: Seq<ChildEntry>) -> Seq<usize> {
    Seq::new(entries.len(), |i: int| (entries[i].raw@.len() + 4) as usize)
}

/// What each item takes in a page.
pub open spec fn item_weights(xs: Seq<Item>) -> Seq<usize> {
    Seq::new(xs.len(), |i: int| (leaf_len(xs[i]) + 4) as usize)
}

/// What each child pointer takes in a page: the leftmost one, and one for each
/// separator.
pub open spec fn sep_weights(seps: Seq<Key>) -> Seq<usize> {
    Seq::new(
        seps.len() + 1,
        |i: int|
            if i == 0 {
                FIRST_ENTRY_ROOM
            } else {
                (child_len(Some(seps[i - 1])) + 4) as usize
            },
    )
}

/// What entries of a leaf take depends on their items alone.
pub proof fn lemma_item_weights(entries: Seq<LeafEntry>)
    requires
        leaf_entries_ok(entries),
    ensures
        leaf_weights(entries) == item_weights(items(entries)),
{
    assert forall|i: int| 0 <= i < entries.len() implies leaf_weights(entries)[i] == item_weights(
        items(entries),
    )[i] by {
        assert(entries[i].wf());
    }
    assert(leaf_weights(entries) =~= item_weights(items(entries)));
}

/// What child pointers take depends on the separators alone.
pub proof fn lemma_sep_weights(entries: Seq<ChildEntry>)
    requires
        entries.len() >= 1,
        child_entries_ok(entries),
        entries[0].key is None,
    ensures
        child_weights(entries) == sep_weights(seps_between(entries, 0, entries.len() as int)),
{
    let seps = seps_between(entries, 0, entries.len() as int);
    assert forall|i: int| 0 <= i < entries.len() implies child_weights(entries)[i] == sep_weights(
        seps,
    )[i] by {
        assert(entries[i].wf());
        if i > 0 {
            assert(seps[i - 1] == entries[i].pointer().0->0);
        }
    }
    assert(child_weights(entries) =~= sep_weights(seps));
}

/// Whether a page has room for a value of `n` bytes.
pub fn has_room_for(page: &Page, n: usize) -> (r: bool)
    requires
        page.wf(),
        n <= NODE_ROOM,
    ensures
        r == page@.has_room(n as nat),
{
    proof {
        page::lemma_lowest_vacancy(page@.slots);
    }
    let vacant: bool = page.find_next_free_slot() < page.get_header_size();
    let free: usize = page.get_free_space();
    if vacant {
        n <= free
    } else {
        n + 4 <= free
    }
}

/// The entries can stand in leaves.
pub open spec fn leaf_entries_ok(entries: Seq<LeafEntry>) -> bool {
    forall|i: int|
        0 <= i < entries.len() ==> {
            &&& (#[trigger] entries[i]).wf()
            &&& codec::key_len(entries[i].item().0) <= MAX_KEY_LEN
            &&& 0 < entries[i].raw@.len() <= MAX_LEAF_ENTRY
            &&& entries[i].raw@.len() == leaf_len(entries[i].item())
        }
}

/// Makes the page a leaf with the given siblings and the entries from `a` up
/// to `b`.
pub fn write_leaf(
    page: &mut Page,
    left: Option<PageId>,
    right: Option<PageId>,
    entries: &Vec<LeafEntry>,
    a: usize,
    b: usize,
)
    requires
        old(page).wf(),
        a <= b <= entries@.len(),
        leaf_entries_ok(entries@),
        span(leaf_weights(entries@), a as int, b as int) <= NODE_ROOM,
    ensures
        final(page).wf(),
        final(page).id() == old(page).id(),
        leaf_page(final(page)@),
        left_of(final(page)@) == left,
        right_of(final(page)@) == right,
        bag(final(page)@.slots) == items(entries@.subrange(a as int, b as int)).to_multiset(),
{
    reveal(leaf_page);
    let meta_entry = NodeEntry::Meta { is_leaf: true, left_sibling: left, right_sibling: right };
    proof {
        codec::lemma_entry_len(meta_entry@);
    }
    if let Ok(meta) = encode(&meta_entry) {
        page.init_heap_page();
        let ghost empty = page@;
        assert(page::total_len(page@.slots) == 0);
        assert(page@.free_space() == 4072);
        put(page, &meta);
        let mut i: usize = a;
        let ghost ws = leaf_weights(entries@);
        proof {
            assert(entries@.subrange(a as int, a as int) =~= Seq::<LeafEntry>::empty());
            assert(items(entries@.subrange(a as int, a as int)) =~= Seq::<Item>::empty());
            broadcast use vstd::seq_lib::group_to_multiset_ensures;
            assert(items(entries@.subrange(a as int, a as int)).to_multiset() =~= Multiset::<
                Item,
            >::empty());
            lemma_bag_push(empty.slots, Some(meta@));
            assert(bag(page@.slots) =~= Multiset::<Item>::empty());
        }
        while i < b
            invariant
                a <= i <= b <= entries@.len(),
                leaf_entries_ok(entries@),
                ws == leaf_weights(entries@),
                span(ws, a as int, b as int) <= NODE_ROOM,
                meta@.len() == META_LEN,
                codec::entry_of(meta@) == Some(meta_entry@),
                meta_entry@ == (EntryView::Meta {
                    is_leaf: true,
                    left_sibling: left,
                    right_sibling: right,
                }),
                page.wf(),
                page.id() == old(page).id(),
                page@.ready,
                page@.slots.len() == 1 + (i - a),
                page@.slots[0] == Some(meta@),
                forall|j: int|
                    0 <= j < i - a ==> #[trigger] page@.slots[j + 1] == Some(entries@[a + j].raw@),
                page@.free_space() == 4072 - meta@.len() - 4 - span(ws, a as int, i as int),
                bag(page@.slots) == items(entries@.subrange(a as int, i as int)).to_multiset(),
            decreases b - i,
        {
            let ghost before = page@;
            proof {
                lemma_span_grows(ws, a as int, i + 1, b as int);
                assert(entries@[i as int].wf());
                assert forall|j: int| 0 <= j < page@.slots.len() implies #[trigger] page@.slots[j] is Some by {
                    if j > 0 {
                        assert(page@.slots[(j - 1) + 1] == Some(entries@[a + (j - 1)].raw@));
                    }
                }
            }
            put(page, &entries[i].raw);
            proof {
                let e = entries@[i as int];
                lemma_bag_push(before.slots, Some(e.raw@));
                let part = entries@.subrange(a as int, i as int);
                let next = entries@.subrange(a as int, i + 1);
                assert(items(next) =~= items(part).push(e.item()));
                vstd::seq_lib::to_multiset_build(items(part), e.item());
                assert(bag(page@.slots) =~= items(next).to_multiset());
                assert forall|j: int| 0 <= j < i + 1 - a implies #[trigger] page@.slots[j + 1] == Some(
                    entries@[a + j].raw@,
                ) by {
                    if j < i - a {
                        assert(before.slots[j + 1] == Some(entries@[a + j].raw@));
                    }
                }
            }
            i = i + 1;
        }
        proof {
            assert forall|j: int| 1 <= j < page@.slots.len() && #[trigger] page@.slots[j] is Some implies {
                &&& entry_at(page@.slots, j) matches Some(EntryView::Leaf { key, .. })
                &&& codec::key_len(key) <= MAX_KEY_LEN
                &&& 0 < page::value_len(page@.slots[j]) <= MAX_LEAF_ENTRY
                &&& page::value_len(page@.slots[j]) == codec::entry_len(entry_at(page@.slots, j)->0)
            } by {
                assert(page@.slots[(j - 1) + 1] == Some(entries@[a + (j - 1)].raw@));
                assert(entries@[a + (j - 1)].wf());
            }
        }
    }
}

proof fn lemma_span_grows(ws: Seq<usize>, a: int, m: int, b: int)
    requires
        m <= b,
    ensures
        span(ws, a, m) <= span(ws, a, b),
    decreases b - m,
{
    if m < b {
        lemma_span_grows(ws, a, m, b - 1);
    }
}

/// The separators between the children from `a` up to `b`.
pub open spec fn seps_between(entries: Seq<ChildEntry>, a: int, b: int) -> Seq<Key> {
    Seq::new((b - a - 1) as nat, |i: int| entries[a + 1 + i].pointer().0->0)
}

/// The children from `a` up to `b`.
pub open spec fn kids_between(entries: Seq<ChildEntry>, a: int, b: int) -> Seq<PageId> {
    Seq::new((b - a) as nat, |i: int| entries[a + i].child)
}

/// The entries can stand in internal nodes: all but the first have a key.
pub open spec fn child_entries_ok(entries: Seq<ChildEntry>) -> bool {
    forall|i: int|
        0 <= i < entries.len() ==> {
            &&& (#[trigger] entries[i]).wf()
            &&& entries[i].raw@.len() == child_len(entries[i].pointer().0)
            &&& entries[i].key is Some ==> codec::key_len(entries[i].pointer().0->0) <= MAX_KEY_LEN
            &&& i > 0 ==> entries[i].key is Some
        }
}

/// Makes the page an internal node with the entries from `a` up to `b`, of
/// which the first loses its key.
pub fn write_internal(page: &mut Page, entries: &Vec<ChildEntry>, a: usize, b: usize)
    requires
        old(page).wf(),
        a < b <= entries@.len(),
        child_entries_ok(entries@),
        FIRST_ENTRY_ROOM + span(child_weights(entries@), a + 1, b as int) <= NODE_ROOM,
    ensures
        final(page).wf(),
        final(page).id() == old(page).id(),
        node_page(
            final(page)@,
            seps_between(entries@, a as int, b as int),
            kids_between(entries@, a as int, b as int),
        ),
{
    reveal(node_page);
    let meta_entry = NodeEntry::Meta { is_leaf: false, left_sibling: None, right_sibling: None };
    let first_entry = NodeEntry::Internal { key: None, child: entries[a].child };
    proof {
        codec::lemma_entry_len(meta_entry@);
        codec::lemma_entry_len(first_entry@);
    }
    if let (Ok(meta), Ok(first)) = (encode(&meta_entry), encode(&first_entry)) {
        page.init_heap_page();
        assert(page::total_len(page@.slots) == 0);
        assert(page@.free_space() == 4072);
        put(page, &meta);
        put(page, &first);
        let mut i: usize = a + 1;
        let ghost ws = child_weights(entries@);
        while i < b
            invariant
                a < i <= b <= entries@.len(),
                child_entries_ok(entries@),
                ws == child_weights(entries@),
                FIRST_ENTRY_ROOM + span(ws, a + 1, b as int) <= NODE_ROOM,
                meta@.len() == META_LEN,
                first@.len() == 13,
                page.wf(),
                page.id() == old(page).id(),
                page@.ready,
                page@.slots.len() == 1 + (i - a),
                page@.slots[0] == Some(meta@),
                page@.slots[1] == Some(first@),
                forall|j: int|
                    1 <= j < i - a ==> #[trigger] page@.slots[j + 1] == Some(entries@[a + j].raw@),
                page@.free_space() == 4072 - meta@.len() - 4 - first@.len() - 4 - span(
                    ws,
                    a + 1,
                    i as int,
                ),
                node_load(page@.slots) == span(ws, a + 1, i as int),
            decreases b - i,
        {
            let ghost before = page@;
            proof {
                lemma_span_grows(ws, a + 1, i + 1, b as int);
                assert(entries@[i as int].wf());
                assert forall|j: int| 0 <= j < page@.slots.len() implies #[trigger] page@.slots[j] is Some by {
                    if j > 1 {
                        assert(page@.slots[(j - 1) + 1] == Some(entries@[a + (j - 1)].raw@));
                    }
                }
            }
            put(page, &entries[i].raw);
            proof {
                assert(page@.slots.drop_last() =~= before.slots);
                assert forall|j: int| 1 <= j < i + 1 - a implies #[trigger] page@.slots[j + 1] == Some(
                    entries@[a + j].raw@,
                ) by {
                    if j < i - a {
                        assert(before.slots[j + 1] == Some(entries@[a + j].raw@));
                    }
                }
            }
            i = i + 1;
        }
        proof {
            let seps = seps_between(entries@, a as int, b as int);
            let kids = kids_between(entries@, a as int, b as int);
            assert forall|j: int| 0 <= j < seps.len() implies {
                &&& page::value_len(page@.slots[j + 2]) == child_len(Some(seps[j]))
                &&& entry_at(page@.slots, j + 2) == Some(
                    EntryView::Internal { key: Some(#[trigger] seps[j]), child: kids[j + 1] },
                )
                &&& codec::key_len(seps[j]) <= MAX_KEY_LEN
            } by {
                assert(page@.slots[(j + 1) + 1] == Some(entries@[a + (j + 1)].raw@));
                assert(entries@[a + (j + 1)].wf());
            }
        }
    }
}

/// The entries read from a leaf can stand in leaves.
pub proof fn lemma_read_leaf(p: PageView, entries: Seq<LeafEntry>)
    requires
        leaf_page(p),
        forall|i: int|
            0 <= i < entries.len() ==> (#[trigger] entries[i]).wf() && stored(p.slots, entries[i].raw@),
    ensures
        leaf_entries_ok(entries),
{
    reveal(leaf_page);
    assert forall|i: int| 0 <= i < entries.len() implies {
        &&& (#[trigger] entries[i]).wf()
        &&& codec::key_len(entries[i].item().0) <= MAX_KEY_LEN
        &&& 0 < entries[i].raw@.len() <= MAX_LEAF_ENTRY
        &&& entries[i].raw@.len() == leaf_len(entries[i].item())
    } by {
        assert(stored(p.slots, entries[i].raw@));
        let s = choose|s: int| 0 <= s < p.slots.len() && #[trigger] p.slots[s] == Some(entries[i].raw@);
        assert(p.slots[s] is Some);
        assert(entry_at(p.slots, s) == codec::entry_of(entries[i].raw@));
    }
}

/// Separators stand in order.
pub open spec fn seps_ascend(seps: Seq<Key>) -> bool {
    forall|i: int, j: int|
        0 <= i <= j < seps.len() ==> field::key_upto(#[trigger] seps[i], #[trigger] seps[j])
}

/// The child pointers that a node lists take what its page says.
proof fn lemma_node_load(
    p: PageView,
    seps: Seq<Key>,
    kids: Seq<PageId>,
    entries: Seq<ChildEntry>,
    k: int,
)
    requires
        node_page(p, seps, kids),
        raws(entries) == child_raws(p.slots),
        entries.len() == kids.len(),
        1 <= k <= kids.len(),
    ensures
        span(child_weights(entries), 1, k) == node_load(p.slots.take(k + 1)),
    decreases k,
{
    reveal(node_page);
    if k > 1 {
        lemma_node_load(p, seps, kids, entries, k - 1);
        lemma_node_raws(p, seps, kids, p.slots.len() as int);
        assert(p.slots.take(p.slots.len() as int) =~= p.slots);
        let t = p.slots.take(k + 1);
        assert(t.drop_last() =~= p.slots.take(k));
        assert(raws(entries)[k - 1] == entries[k - 1].raw@);
        assert(child_raws(p.slots)[k - 1] == p.slots[k]->0);
        let _ = seps[k - 2];
        assert(page::value_len(p.slots[(k - 2) + 2]) == child_len(Some(seps[k - 2])));
    }
}

/// The stored forms of the child pointers stand in the slots of a node.
proof fn lemma_node_raws(p: PageView, seps: Seq<Key>, kids: Seq<PageId>, k: int)
    requires
        node_page(p, seps, kids),
        1 <= k <= p.slots.len(),
    ensures
        child_raws(p.slots.take(k)).len() == k - 1,
        forall|i: int| 0 <= i < k - 1 ==> #[trigger] child_raws(p.slots.take(k))[i] == p.slots[i + 1]->0,
    decreases k,
{
    reveal(node_page);
    let t = p.slots.take(k);
    assert(entry_at(t, k - 1) == entry_at(p.slots, k - 1));
    assert(t.drop_last() =~= p.slots.take(k - 1));
    if k > 1 {
        lemma_node_raws(p, seps, kids, k - 1);
        if k > 2 {
            let _ = seps[k - 3];
        }
    } else {
        reveal_with_fuel(child_raws, 2);
    }
}

/// The entries read from an internal node can stand in internal nodes.
pub proof fn lemma_read_node(
    p: PageView,
    seps: Seq<Key>,
    kids: Seq<PageId>,
    entries: Seq<ChildEntry>,
)
    requires
        node_page(p, seps, kids),
        seps_ascend(seps),
        exists|list: Seq<ChildEntry>| #[trigger] lists(p.slots, list) && entries == by_key(list),
        forall|i: int|
            0 <= i < entries.len() ==> (#[trigger] entries[i]).wf() && stored(p.slots, entries[i].raw@),
    ensures
        child_entries_ok(entries),
        lists(p.slots, entries),
        FIRST_ENTRY_ROOM + span(child_weights(entries), 1, entries.len() as int) <= NODE_ROOM,
        entries.len() == kids.len(),
        seps_between(entries, 0, entries.len() as int) == seps,
        kids_between(entries, 0, entries.len() as int) == kids,
        entries[0].key is None,
{
    let list = choose|list: Seq<ChildEntry>| #[trigger]
        lists(p.slots, list) && entries == by_key(list);
    lemma_node_page(p, seps, kids);
    reveal(node_page);
    assert(pointers(list).len() == list.len());
    assert forall|i: int| 0 <= i < list.len() implies #[trigger] list[i].pointer() == node_pointers(
        seps,
        kids,
    )[i] by {
        assert(pointers(list)[i] == list[i].pointer());
    }
    assert(key_sorted(list)) by {
        field::lemma_key_order();
    }
    lemma_by_key(list);
    lemma_node_load(p, seps, kids, entries, kids.len() as int);
    assert(p.slots.take(p.slots.len() as int) =~= p.slots);
    assert(pointers(entries).len() == entries.len());
    assert forall|i: int| 0 <= i < entries.len() implies {
        &&& (#[trigger] entries[i]).wf()
        &&& entries[i].pointer() == node_pointers(seps, kids)[i]
        &&& entries[i].raw@.len() == child_len(entries[i].pointer().0)
        &&& entries[i].key is Some ==> codec::key_len(entries[i].pointer().0->0) <= MAX_KEY_LEN
        &&& i > 0 ==> entries[i].key is Some
    } by {
        assert(pointers(entries)[i] == entries[i].pointer());
        assert(stored(p.slots, entries[i].raw@));
        let s = choose|s: int| 0 <= s < p.slots.len() && #[trigger] p.slots[s] == Some(entries[i].raw@);
        assert(entry_at(p.slots, s) == codec::entry_of(entries[i].raw@));
        if s > 1 {
            let _ = seps[s - 2];
        }
        if i > 0 {
            let _ = seps[i - 1];
        }
    }
    assert(seps_between(entries, 0, entries.len() as int) =~= seps);
    assert(kids_between(entries, 0, entries.len() as int) =~= kids);
    assert(pointers(entries)[0] == entries[0].pointer());
}

/// Adds an entry to a leaf that has room for it. It goes to the lowest vacant
/// slot, or to a new one.
pub fn add_to_leaf(page: &mut Page, e: &LeafEntry) -> (r: bool)
    requires
        old(page).wf(),
        leaf_page(old(page)@),
        e.wf(),
        codec::key_len(e.item().0) <= MAX_KEY_LEN,
        0 < e.raw@.len() <= MAX_LEAF_ENTRY,
        e.raw@.len() == leaf_len(e.item()),
    ensures
        final(page).wf(),
        final(page).id() == old(page).id(),
        leaf_page(final(page)@),
        left_of(final(page)@) == left_of(old(page)@),
        right_of(final(page)@) == right_of(old(page)@),
        bag(final(page)@.slots) == if r {
            bag(old(page)@.slots).insert(e.item())
        } else {
            bag(old(page)@.slots)
        },
        r <==> old(page)@.has_room(e.raw@.len()),
        final(page)@ == if r {
            old(page)@.with_value(e.raw@)
        } else {
            old(page)@
        },
{
    reveal(leaf_page);
    let ghost p = page@;
    if page.add_value(&e.raw).is_none() {
        return false;
    }
    proof {
        let q = page@;
        page::lemma_lowest_vacancy(p.slots);
        let s = page::lowest_vacancy(p.slots) as int;
        assert(s > 0) by {
            if s == 0 {
                assert(p.slots[0] is None);
            }
        }
        if s < p.slots.len() {
            lemma_bag_update(p.slots, s, Some(e.raw@));
            page::lemma_total_update(p.slots, s, Some(e.raw@));
        } else {
            lemma_bag_push(p.slots, Some(e.raw@));
            page::lemma_total_push(p.slots, Some(e.raw@));
        }
        let want = bag(p.slots).insert(e.item());
        assert forall|x: Item| bag(q.slots).count(x) == want.count(x) by {
            if s < p.slots.len() {
                assert(bag(q.slots).add(slot_bag(p.slots[s])).count(x) == bag(p.slots).add(
                    slot_bag(Some(e.raw@)),
                ).count(x));
            }
        }
        assert(bag(q.slots) =~= want);
        assert forall|i: int| 1 <= i < q.slots.len() && #[trigger] q.slots[i] is Some implies {
            &&& entry_at(q.slots, i) matches Some(EntryView::Leaf { key, .. })
            &&& codec::key_len(key) <= MAX_KEY_LEN
            &&& 0 < page::value_len(q.slots[i]) <= MAX_LEAF_ENTRY
            &&& page::value_len(q.slots[i]) == codec::entry_len(entry_at(q.slots, i)->0)
        } by {
            if i != s {
                assert(q.slots[i] == p.slots[i]);
                assert(entry_at(q.slots, i) == entry_at(p.slots, i));
            }
        }
        assert(q.slots[0] == p.slots[0]);
    }
    true
}

/// Gives a leaf other siblings.
pub fn set_siblings(page: &mut Page, left: Option<PageId>, right: Option<PageId>)
    requires
        old(page).wf(),
        leaf_page(old(page)@),
    ensures
        final(page).wf(),
        final(page).id() == old(page).id(),
        leaf_page(final(page)@),
        left_of(final(page)@) == left,
        right_of(final(page)@) == right,
        bag(final(page)@.slots) == bag(old(page)@.slots),
{
    reveal(leaf_page);
    let meta_entry = NodeEntry::Meta { is_leaf: true, left_sibling: left, right_sibling: right };
    proof {
        codec::lemma_entry_len(meta_entry@);
    }
    if let Ok(meta) = encode(&meta_entry) {
        let ghost p = page@;
        page.update_value(0, &meta);
        proof {
            let q = page@;
            lemma_bag_update(p.slots, 0, Some(meta@));
            page::lemma_total_update(p.slots, 0, Some(meta@));
            assert forall|x: Item| bag(q.slots).count(x) == bag(p.slots).count(x) by {
                assert(bag(q.slots).add(slot_bag(p.slots[0])).count(x) == bag(p.slots).add(
                    slot_bag(Some(meta@)),
                ).count(x));
            }
            assert(bag(q.slots) =~= bag(p.slots));
            assert forall|i: int| 1 <= i < q.slots.len() && #[trigger] q.slots[i] is Some implies {
                &&& entry_at(q.slots, i) matches Some(EntryView::Leaf { key, .. })
                &&& codec::key_len(key) <= MAX_KEY_LEN
                &&& 0 < page::value_len(q.slots[i]) <= MAX_LEAF_ENTRY
                &&& page::value_len(q.slots[i]) == codec::entry_len(entry_at(q.slots, i)->0)
            } by {
                assert(q.slots[i] == p.slots[i]);
                assert(entry_at(q.slots, i) == entry_at(p.slots, i));
            }
        }
    }
}

/// Takes the first entry that holds `key` and `rid` out of a leaf, if there is
/// one.
pub fn remove_from_leaf(page: &mut Page, key: &[Field], rid: ValueId) -> (r: bool)
    requires
        old(page).wf(),
        leaf_page(old(page)@),
    ensures
        final(page).wf(),
        final(page).id() == old(page).id(),
        leaf_page(final(page)@),
        left_of(final(page)@) == left_of(old(page)@),
        right_of(final(page)@) == right_of(old(page)@),
        r <==> bag(old(page)@.slots).count((field::views(key@), rid)) > 0,
        bag(final(page)@.slots) == bag(old(page)@.slots).remove((field::views(key@), rid)),
        !r ==> final(page)@ == old(page)@,
{
    reveal(leaf_page);
    let n: u16 = page.get_num_slots();
    let ghost p = page@;
    let ghost item: Item = (field::views(key@), rid);
    let ghost want = Some(EntryView::Leaf { key: item.0, rid: item.1 });
    let mut s: u16 = 0;
    while s < n
        invariant
            page.wf(),
            page.id() == old(page).id(),
            page@ == p,
            leaf_page(p),
            n == p.slots.len(),
            s <= n,
            item == (field::views(key@), rid),
            want == Some(EntryView::Leaf { key: item.0, rid: item.1 }),
            forall|j: int| 0 <= j < s ==> #[trigger] entry_at(p.slots, j) != want,
        ensures
            page.wf(),
            page.id() == old(page).id(),
            page@ == p,
            leaf_page(p),
            s <= n,
            s < n ==> entry_at(p.slots, s as int) == want,
            s == n ==> forall|j: int| 0 <= j < n ==> #[trigger] entry_at(p.slots, j) != want,
        decreases n - s,
    {
        proof {
            field::lemma_key_order();
        }
        if let Some(bytes) = page.get_value(s) {
            if let Ok(NodeEntry::Leaf { key: k, rid: r }) = decode(bytes) {
                if r == rid {
                    match field::standing_of_keys(&k, key) {
                        Standing::Same => {
                            break;
                        },
                        _ => {},
                    }
                }
            }
        }
        s = s + 1;
    }
    proof {
        lemma_bag_has(p.slots, item);
    }
    if s == n {
        assert(bag(p.slots).count(item) == 0);
        assert(bag(p.slots).remove(item) =~= bag(p.slots));
        return false;
    }
    page.delete_value(s);
    proof {
        let q = page@;
        let si = s as int;
        assert(entry_at(p.slots, si) == want);
        lemma_bag_update(p.slots, si, None);
        page::lemma_total_update(p.slots, si, None);
        assert(bag(p.slots).count(item) > 0);
        let less = bag(p.slots).remove(item);
        assert forall|x: Item| bag(q.slots).count(x) == less.count(x) by {
            assert(bag(q.slots).add(slot_bag(p.slots[si])).count(x) == bag(p.slots).add(
                slot_bag(None),
            ).count(x));
        }
        assert(bag(q.slots) =~= less);
        assert forall|i: int| 1 <= i < q.slots.len() && #[trigger] q.slots[i] is Some implies {
            &&& entry_at(q.slots, i) matches Some(EntryView::Leaf { key, .. })
            &&& codec::key_len(key) <= MAX_KEY_LEN
            &&& 0 < page::value_len(q.slots[i]) <= MAX_LEAF_ENTRY
            &&& page::value_len(q.slots[i]) == codec::entry_len(entry_at(q.slots, i)->0)
        } by {
            assert(q.slots[i] == p.slots[i]);
            assert(entry_at(q.slots, i) == entry_at(p.slots, i));
        }
    }
    true
}

/// Value ids stand by their container, then by their page and then by their
/// slot. An id without a page comes before those with one, and an id without a
/// slot before those of its page with one.
pub proof fn lemma_order_of_ids(
    c: ContainerId,
    d: ContainerId,
    p: PageId,
    q: PageId,
    s: SlotId,
    t: SlotId,
)
    ensures
        c < d ==> rid_before(ValueId::at(c, p, s), ValueId::at(d, q, t)),
        p < q ==> rid_before(ValueId::at(c, p, s), ValueId::at(c, q, t)),
        rid_before(ValueId::at(c, p, s), ValueId::at(c, p, t)) <==> s < t,
        p > q ==> !rid_before(ValueId::at(c, p, s), ValueId::at(c, q, t)),
        c > d ==> !rid_before(ValueId::at(c, p, s), ValueId::at(d, q, t)),
        rid_before(
            ValueId { container_id: c, page_id: None, slot_id: None },
            ValueId::at(c, p, s),
        ),
        rid_before(
            ValueId { container_id: c, page_id: Some(p), slot_id: None },
            ValueId::at(c, p, s),
        ),
{
}

/// The items of a leaf are read by their key, and those of one key by their
/// value id.
pub proof fn lemma_items_in_order(slots: Slots, i: int, j: int)
    requires
        0 <= i < j < in_order(slots).len(),
    ensures
        ({
            let (a, b) = (in_order(slots)[i], in_order(slots)[j]);
            field::key_before(a.0, b.0) || a.0 == b.0 && (a.1 == b.1 || rid_before(a.1, b.1))
        }),
{
    let leq = item_order();
    lemma_item_order();
    assert(vstd::relations::total_ordering(leq)) by {
        field::lemma_key_order();
    }
    listed(slots).lemma_sort_by_ensures(leq);
    assert(leq(in_order(slots)[i], in_order(slots)[j]));
}

/// The longest key is the longest one with which an internal node still has room
/// for two children: beside the page header, its `Meta` entry and the entry of
/// its first child, each with four bytes for its slot.
pub proof fn lemma_longest_key(n: nat)
    ensures
        n <= MAX_KEY_LEN <==> 24 + (23 + 4) + (13 + 4) + (12 + n + 4) <= 4096,
{
}

/// A row that does not fit in one node but in two halves is cut in the middle.
/// So are the entries of a leaf that has no room for one of them: both parts get
/// the same number of entries, or the second one more.
pub proof fn lemma_cut_in_the_middle(ws: Seq<usize>, lead: Option<usize>)
    requires
        ws.len() > 0,
        ws.len() <= 5000,
    ensures
        group_room(ws, 0, ws.len() as int, lead) <= NODE_ROOM ==> cuts_of(ws, lead).len() == 0,
        group_room(ws, 0, ws.len() as int, None) <= NODE_ROOM ==> {
            let c = leaf_cuts_of(ws)[0] as int;
            leaf_cuts_of(ws).len() == 1 && 2 * c <= ws.len() <= 2 * c + 1
        },
        forall|c: int|
            {
                &&& 2 * c <= ws.len() <= 2 * c + 1
                &&& group_room(ws, 0, ws.len() as int, lead) > NODE_ROOM
                &&& #[trigger] group_room(ws, 0, c, lead) <= NODE_ROOM
                &&& group_room(ws, c, ws.len() as int, lead) <= NODE_ROOM
            } ==> cuts_of(ws, lead).len() == 1 && cuts_of(ws, lead)[0] == c,
{
}

} // verus!
