//! A B+Tree index over a container.
//!
//! Page zero of the container is a header page whose first slot holds the page
//! id of the root. Every other page of the tree is a node. The leaves form a
//! doubly linked chain in key order.
//!
//! The entries of one key may reach over several leaves, so a descent for a
//! key ends at some leaf of its run. Lookups and deletions walk left from there
//! to the start of the run, and right from the start. Leaves that deletions
//! have emptied stay in the chain; walks pass over them.
use crate::common::error::{c_err, CrustyError};
use crate::common::field;
use crate::common::field::{Field, FieldView};
use crate::common::ids::{ContainerId, PageId, ValueId};
use crate::common::order::Standing;
use crate::heapstore::buffer_pool::{BufferPool, PageFrameId};
use crate::heapstore::heap_page::HeapPage;
use crate::heapstore::page;
use crate::heapstore::page::PageView;
use crate::index::codec;
use crate::index::codec::{encode, stored_key_len, IndexKey, Key, NodeEntry};
use crate::index::grow;
use crate::index::grow::{insert_recursive, next_child, raise_root};
use crate::index::model;
use crate::index::model::Tree;
use crate::index::need;
use crate::index::need::{count_below, count_over};
use crate::index::node;
use crate::index::node::{
    read_leaf_entries, remove_from_leaf, write_leaf, Item, LeafEntry, Slots, MAX_KEY_LEN,
};
use vstd::multiset::Multiset;
use vstd::prelude::*;

verus! {

/// The root that a header page names.
pub open spec fn root_of(p: PageView) -> Option<PageId> {
    match p.value(0) {
        Some(b) => if b.len() == 4 {
            Some(page::u32_at(b, 0) as PageId)
        } else {
            None
        },
        None => None,
    }
}

/// The pages hold an index whose tree is `t`.
pub open spec fn tree_at(pages: Seq<PageView>, t: Tree) -> bool {
    &&& pages.len() >= 1
    &&& root_of(pages[0]) == Some(t.id())
    &&& model::tree_ok(pages, t, None, None)
    &&& !model::ids_of(t).contains(0)
    &&& model::chain(pages, model::leaves_of(t))
    &&& model::even(t, model::height(t))
}

/// The tree of the index that the pages hold.
pub open spec fn tree_in(pages: Seq<PageView>) -> Tree {
    choose|t: Tree| tree_at(pages, t)
}

/// The pages hold one tree.
pub proof fn lemma_tree_in(pages: Seq<PageView>, t: Tree)
    requires
        tree_at(pages, t),
    ensures
        tree_in(pages) == t,
{
    let u = tree_in(pages);
    assert(tree_at(pages, u));
    model::lemma_tree_one(pages, t, u, None, None, None, None);
}

/// No leaf from `a` up to `b` holds an item with the key.
pub open spec fn none_between(
    pages: Seq<PageView>,
    leaves: Seq<PageId>,
    a: int,
    b: int,
    key: Key,
) -> bool {
    forall|i: int, x: Item|
        #![trigger node::bag(pages[leaves[i] as int].slots).count(x)]
        a <= i < b && x.0 == key ==> node::bag(pages[leaves[i] as int].slots).count(x) == 0
}

/// The value ids that items hold under a key.
pub open spec fn ids_under(items: Seq<Item>, key: Key) -> Seq<ValueId>
    decreases items.len(),
{
    if items.len() == 0 {
        Seq::empty()
    } else if items.last().0 == key {
        ids_under(items.drop_last(), key).push(items.last().1)
    } else {
        ids_under(items.drop_last(), key)
    }
}

/// The value ids that leaves hold under a key, leaf by leaf, those of one leaf
/// in their order.
pub open spec fn ids_along(pages: Seq<PageView>, leaves: Seq<PageId>, key: Key) -> Seq<ValueId>
    decreases leaves.len(),
{
    if leaves.len() == 0 {
        Seq::empty()
    } else {
        ids_along(pages, leaves.drop_last(), key) + ids_under(
            node::in_order(pages[leaves.last() as int].slots),
            key,
        )
    }
}

/// Items hold a value id under a key as often as they hold the two.
proof fn lemma_ids_under(items: Seq<Item>, key: Key, rid: ValueId)
    ensures
        ids_under(items, key).to_multiset().count(rid) == items.to_multiset().count((key, rid)),
    decreases items.len(),
{
    broadcast use vstd::seq_lib::group_to_multiset_ensures;

    if items.len() == 0 {
        assert(items.to_multiset() =~= Multiset::<Item>::empty());
        assert(ids_under(items, key).to_multiset() =~= Multiset::<ValueId>::empty());
    } else {
        let before = items.drop_last();
        lemma_ids_under(before, key, rid);
        assert(items =~= before.push(items.last()));
        vstd::seq_lib::to_multiset_build(before, items.last());
        if items.last().0 == key {
            vstd::seq_lib::to_multiset_build(ids_under(before, key), items.last().1);
        }
    }
}

/// Leaves hold a value id under a key as often as they hold the two.
proof fn lemma_ids_along(pages: Seq<PageView>, leaves: Seq<PageId>, key: Key, rid: ValueId)
    ensures
        ids_along(pages, leaves, key).to_multiset().count(rid) == model::bag_sum(
            pages,
            leaves,
        ).count((key, rid)),
    decreases leaves.len(),
{
    broadcast use vstd::seq_lib::group_to_multiset_ensures;

    if leaves.len() == 0 {
        assert(ids_along(pages, leaves, key).to_multiset() =~= Multiset::<ValueId>::empty());
    } else {
        let before = leaves.drop_last();
        let slots = pages[leaves.last() as int].slots;
        lemma_ids_along(pages, before, key, rid);
        node::lemma_in_order(slots);
        lemma_ids_under(node::in_order(slots), key, rid);
        vstd::seq_lib::lemma_multiset_commutative(
            ids_along(pages, before, key),
            ids_under(node::in_order(slots), key),
        );
    }
}

/// What leaves hold under a key comes one after the other.
proof fn lemma_ids_along_concat(
    pages: Seq<PageView>,
    a: Seq<PageId>,
    b: Seq<PageId>,
    key: Key,
)
    ensures
        ids_along(pages, a + b, key) == ids_along(pages, a, key) + ids_along(pages, b, key),
    decreases b.len(),
{
    if b.len() == 0 {
        assert(a + b =~= a);
        assert(ids_along(pages, a, key) + ids_along(pages, b, key) =~= ids_along(pages, a, key));
    } else {
        assert((a + b).drop_last() =~= a + b.drop_last());
        lemma_ids_along_concat(pages, a, b.drop_last(), key);
        let last = ids_under(node::in_order(pages[b.last() as int].slots), key);
        assert((ids_along(pages, a, key) + ids_along(pages, b.drop_last(), key)) + last
            =~= ids_along(pages, a, key) + (ids_along(pages, b.drop_last(), key) + last));
    }
}

/// Leaves that do not hold a key hold no value id under it.
proof fn lemma_ids_along_none(pages: Seq<PageView>, leaves: Seq<PageId>, key: Key)
    requires
        none_between(pages, leaves, 0, leaves.len() as int, key),
    ensures
        ids_along(pages, leaves, key).len() == 0,
{
    broadcast use vstd::seq_lib::group_to_multiset_ensures;

    let ids = ids_along(pages, leaves, key);
    if ids.len() > 0 {
        let rid = ids[0];
        let x: Item = (key, rid);
        lemma_ids_along(pages, leaves, key, rid);
        assert forall|j: int| 0 <= j < leaves.len() implies node::bag(
            pages[#[trigger] leaves[j] as int].slots,
        ).count(x) == 0 by {}
        model::lemma_bag_sum_none(pages, leaves, x);
        assert(ids.contains(rid));
        assert(ids.to_multiset().count(rid) > 0);
    }
}

/// How the greatest key of a leaf stands to a key.
#[derive(Clone, Copy)]
pub enum LastKey {
    /// The leaf has no entries.
    Nothing,
    Below,
    Same,
    Above,
}

/// What the greatest key of a leaf says.
pub open spec fn last_key_says(p: PageView, key: Key, last: LastKey) -> bool {
    match last {
        LastKey::Nothing => forall|x: Item| #[trigger] node::bag(p.slots).count(x) == 0,
        LastKey::Below => {
            &&& exists|x: Item| #[trigger] node::bag(p.slots).count(x) > 0
            &&& forall|x: Item| #[trigger]
                node::bag(p.slots).count(x) > 0 ==> field::key_before(x.0, key)
        },
        LastKey::Same => forall|x: Item| #[trigger]
            node::bag(p.slots).count(x) > 0 ==> field::key_upto(x.0, key),
        LastKey::Above => exists|x: Item| #[trigger]
            node::bag(p.slots).count(x) > 0 && field::key_before(key, x.0),
    }
}

fn last_key(entries: &Vec<LeafEntry>, key: &[Field], Ghost(p): Ghost<PageView>) -> (r: LastKey)
    requires
        node::sorted(node::items(entries@)),
        node::items(entries@).to_multiset() == node::bag(p.slots),
    ensures
        last_key_says(p, field::views(key@), r),
{
    let n: usize = entries.len();
    let ghost items = node::items(entries@);
    let ghost k = field::views(key@);
    proof {
        field::lemma_key_order();
        assert forall|x: Item| #[trigger] node::bag(p.slots).count(x) > 0 implies n > 0
            && field::key_upto(x.0, items[n - 1].0) by {
            vstd::seq_lib::to_multiset_contains(items, x);
            let i = choose|i: int| 0 <= i < items.len() && items[i] == x;
            assert(node::item_upto(items[i], items[n - 1]));
        }
    }
    if n == 0 {
        return LastKey::Nothing;
    }
    proof {
        vstd::seq_lib::to_multiset_contains(items, items[n - 1]);
        assert(items.contains(items[n - 1]));
        assert(node::bag(p.slots).count(items[n - 1]) > 0);
    }
    match field::standing_of_keys(&entries[n - 1].key, key) {
        Standing::Below => LastKey::Below,
        Standing::Same => LastKey::Same,
        Standing::Above => LastKey::Above,
    }
}

/// A B+Tree index over container `c_id`.
#[derive(Clone, Copy)]
pub struct TreeIndex {
    pub c_id: ContainerId,
}

fn le_bytes(id: PageId) -> (r: Vec<u8>)
    ensures
        r@.len() == 4,
        page::u32_at(r@, 0) == id,
{
    vec![
        (id % 256) as u8,
        ((id / 256) % 256) as u8,
        ((id / 65536) % 256) as u8,
        (id / 16777216) as u8,
    ]
}

impl TreeIndex {
    /// The container holds an index.
    pub open spec fn wf(&self, bp: &BufferPool) -> bool {
        &&& bp.wf()
        &&& exists|t: Tree| tree_at(bp.pages(self.c_id), t)
    }

    /// The items of the index.
    pub open spec fn entries(&self, bp: &BufferPool) -> Multiset<Item> {
        model::bag_of(tree_in(bp.pages(self.c_id)))
    }

    /// The value ids that the index holds under a key, leaf by leaf, those of
    /// one leaf in their order.
    pub open spec fn ids_of(&self, bp: &BufferPool, key: Key) -> Seq<ValueId> {
        let pages = bp.pages(self.c_id);
        ids_along(pages, model::leaves_of(tree_in(pages)), key)
    }

    /// How many nodes deep every leaf of the index stands.
    pub open spec fn height(&self, bp: &BufferPool) -> nat {
        model::height(tree_in(bp.pages(self.c_id)))
    }

    /// New pages that the insertion of an item takes.
    pub open spec fn pages_needed(&self, bp: &BufferPool, item: Item) -> nat {
        need::pages_for(bp.pages(self.c_id), tree_in(bp.pages(self.c_id)), item)
    }

    /// New pages that an insertion takes at most: two for each level, where a
    /// node is split into three, and three above the root.
    pub open spec fn pages_at_most(&self, bp: &BufferPool) -> nat {
        2 * self.height(bp) + 3
    }

    /// The container has page ids left for the new pages that the insertion of
    /// an item takes.
    pub open spec fn can_grow(&self, bp: &BufferPool, item: Item) -> bool {
        bp.pages(self.c_id).len() + self.pages_needed(bp, item) <= u32::MAX
    }

    /// Create a brand new, empty B+Tree index in container `c_id`, which must
    /// be empty for the header to be page zero.
    pub fn new(c_id: ContainerId, bp: &mut BufferPool) -> (r: Result<Self, CrustyError>)
        requires
            old(bp).wf(),
        ensures
            final(bp).wf(),
            final(bp).same_but(old(bp), c_id),
            match r {
                Ok(index) => {
                    let n = old(bp).pages(c_id).len() as int;
                    let pages = final(bp).pages(c_id);
                    &&& n + 2 <= u32::MAX
                    &&& index.c_id == c_id
                    &&& pages.len() == n + 2
                    &&& pages.take(n) == old(bp).pages(c_id)
                    &&& root_of(pages[n]) == Some((n + 1) as PageId)
                    &&& model::linked(pages[n + 1], None, None)
                    &&& node::bag(pages[n + 1].slots) == Multiset::<Item>::empty()
                    &&& n == 0 ==> {
                        &&& index.wf(final(bp))
                        &&& index.entries(final(bp)) == Multiset::<Item>::empty()
                        &&& index.height(final(bp)) == 1
                    }
                },
                Err(e) => {
                    &&& old(bp).pages(c_id).len() + 2 > u32::MAX
                    &&& e.message() == "Out of page ids"@
                    &&& final(bp).pages(c_id).len() == u32::MAX
                    &&& final(bp).pages(c_id).take(old(bp).pages(c_id).len() as int) == old(bp).pages(
                        c_id,
                    )
                },
            },
    {
        let ghost before = bp.pages(c_id);
        let header: PageId = match bp.create_new_page_for_write(c_id) {
            Ok(id) => id,
            Err(e) => {
                assert(before.take(before.len() as int) =~= before);
                return Err(e);
            },
        };
        let ghost one = bp.pages(c_id);
        let root: PageId = match bp.create_new_page_for_write(c_id) {
            Ok(id) => id,
            Err(e) => {
                assert(bp.pages(c_id).take(before.len() as int) =~= before);
                return Err(e);
            },
        };
        let no_entries: Vec<LeafEntry> = Vec::new();
        let ghost two = bp.pages(c_id);
        if let Ok(page) = bp.get_page_for_write(PageFrameId::new(c_id, root)) {
            proof {
                assert(node::leaf_entries_ok(no_entries@));
            }
            write_leaf(page, None, None, &no_entries, 0, 0);
        }
        let ghost three = bp.pages(c_id);
        let bytes: Vec<u8> = le_bytes(root);
        if let Ok(page) = bp.get_page_for_write(PageFrameId::new(c_id, header)) {
            page.init_heap_page();
            proof {
                assert(page::total_len(page@.slots) == 0);
                page::lemma_lowest_vacancy_is(page@.slots, 0);
                assert(page::vacancies(page@.slots) == 0);
            }
            page.add_value(&bytes);
        }
        let index = TreeIndex { c_id };
        proof {
            let n = before.len() as int;
            let pages = bp.pages(c_id);
            assert(pages.take(n) =~= before);
            assert(pages[n + 1] == three[n + 1]);
            assert(pages[n].value(0) == Some(bytes@));
            reveal(model::linked);
            let none = no_entries@.subrange(0, 0);
            assert(node::items(none) =~= Seq::<Item>::empty());
            broadcast use vstd::seq_lib::group_to_multiset_ensures;
            assert(node::items(none).to_multiset() =~= Multiset::<Item>::empty());
            assert(node::bag(pages[n + 1].slots) == Multiset::<Item>::empty());
            if n == 0 {
                let t = Tree::Leaf { id: root, bag: Multiset::empty() };
                assert(model::leaves_of(t) =~= seq![root]);
                assert(model::link_at(pages, model::leaves_of(t), 0));
                assert(tree_at(pages, t));
                lemma_tree_in(pages, t);
                assert(index.entries(bp) == Multiset::<Item>::empty());
                assert(index.wf(bp));
            }
        }
        Ok(index)
    }

    /// Load an existing B+Tree index (its pages are already in the buffer
    /// pool).
    pub fn load(c_id: ContainerId) -> (r: Self)
        ensures
            r.c_id == c_id,
    {
        TreeIndex { c_id }
    }

    /// The page id of the root.
    fn get_root_page_id(&self, bp: &BufferPool) -> (r: Result<PageId, CrustyError>)
        requires
            bp.wf(),
        ensures
            match r {
                Ok(id) => {
                    &&& bp.pages(self.c_id).len() > 0
                    &&& root_of(bp.pages(self.c_id)[0]) == Some(id)
                },
                Err(e) => {
                    ||| bp.pages(self.c_id).len() == 0 && e.message() == "Page not found"@
                    ||| {
                        &&& bp.pages(self.c_id).len() > 0
                        &&& root_of(bp.pages(self.c_id)[0]) is None
                        &&& e.message() == if bp.pages(self.c_id)[0].value(0) is None {
                            "index header missing root pointer"@
                        } else {
                            "corrupt index header"@
                        }
                    }
                },
            },
    {
        let page = match bp.get_page_for_read(PageFrameId::new(self.c_id, 0)) {
            Ok(page) => page,
            Err(e) => {
                return Err(e);
            },
        };
        match page.get_value(0) {
            None => Err(c_err("index header missing root pointer")),
            Some(b) => if b.len() == 4 {
                Ok(b[0] as u32 + 256 * (b[1] as u32) + 65536 * (b[2] as u32) + 16777216 * (b[3] as u32))
            } else {
                Err(c_err("corrupt index header"))
            },
        }
    }

    /// Makes the page the root.
    fn set_root_page_id(&self, bp: &mut BufferPool, new_root: PageId) -> (r: Result<(), CrustyError>)
        requires
            old(bp).wf(),
            old(bp).pages(self.c_id).len() > 0,
            root_of(old(bp).pages(self.c_id)[0]) is Some,
        ensures
            r is Ok,
            final(bp).wf(),
            final(bp).same_but(old(bp), self.c_id),
            final(bp).pages(self.c_id).len() == old(bp).pages(self.c_id).len(),
            forall|p: int|
                0 < p < old(bp).pages(self.c_id).len() ==> #[trigger] final(bp).pages(self.c_id)[p]
                    == old(bp).pages(self.c_id)[p],
            root_of(final(bp).pages(self.c_id)[0]) == Some(new_root),
    {
        let bytes: Vec<u8> = le_bytes(new_root);
        match bp.get_page_for_write(PageFrameId::new(self.c_id, 0)) {
            Ok(page) => {
                proof {
                    page.lemma_slot_count();
                }
                match page.update_value(0, &bytes) {
                    Some(_) => Ok(()),
                    None => Err(c_err("failed to update index root pointer")),
                }
            },
            Err(e) => Err(e),
        }
    }

    /// The leaf that a descent for `key` ends at.
    fn find_leaf(
        &self,
        bp: &BufferPool,
        page_id: PageId,
        key: &[Field],
        Ghost(t): Ghost<Tree>,
        Ghost(lo): Ghost<Option<Key>>,
        Ghost(hi): Ghost<Option<Key>>,
    ) -> (r: PageId)
        requires
            bp.wf(),
            t.id() == page_id,
            model::tree_ok(bp.pages(self.c_id), t, lo, hi),
        ensures
            0 <= model::landing(t, field::views(key@)) < model::leaves_of(t).len(),
            r == model::leaves_of(t)[model::landing(t, field::views(key@))],
        decreases t,
    {
        let ghost k = field::views(key@);
        match next_child(bp, self.c_id, page_id, key, Ghost(t), Ghost(lo), Ghost(hi)) {
            None => page_id,
            Some((j, child)) => {
                let ghost kids = t->kids;
                let ghost kid = kids[j as int];
                let ghost klo = model::low(t->seps, lo, j as int);
                let ghost khi = model::high(t->seps, hi, j as int);
                let leaf: PageId = self.find_leaf(
                    bp,
                    child,
                    key,
                    Ghost(kid),
                    Ghost(klo),
                    Ghost(khi),
                );
                proof {
                    let before = kids.take(j as int);
                    let behind = kids.skip(j + 1);
                    assert(kids =~= before + seq![kid] + behind);
                    model::lemma_concat(before + seq![kid], behind);
                    model::lemma_concat(before, seq![kid]);
                    model::lemma_one(kid);
                }
                leaf
            },
        }
    }

    /// The siblings and the sorted entries of a leaf of the chain.
    fn leaf(
        &self,
        bp: &BufferPool,
        leaf_id: PageId,
        Ghost(leaves): Ghost<Seq<PageId>>,
        Ghost(i): Ghost<int>,
    ) -> (r: (Option<PageId>, Option<PageId>, Vec<LeafEntry>))
        requires
            bp.wf(),
            model::chain(bp.pages(self.c_id), leaves),
            0 <= i < leaves.len(),
            leaves[i] == leaf_id,
        ensures
            r.0 == model::leaf_at(leaves, i - 1),
            r.1 == model::leaf_at(leaves, i + 1),
            node::sorted(node::items(r.2@)),
            node::items(r.2@).to_multiset() == node::bag(bp.pages(self.c_id)[leaf_id as int].slots),
    {
        proof {
            assert(model::link_at(bp.pages(self.c_id), leaves, i));
            reveal(model::linked);
            node::lemma_leaf_page(bp.pages(self.c_id)[leaf_id as int]);
        }
        match bp.get_page_for_read(PageFrameId::new(self.c_id, leaf_id)) {
            Ok(page) => match read_leaf_entries(page) {
                Ok(x) => x,
                Err(_) => {
                    assert(false);
                    (None, None, Vec::new())
                },
            },
            Err(_) => {
                assert(false);
                (None, None, Vec::new())
            },
        }
    }

    /// Starting from the leaf that a descent for `key` ends at, walk left along
    /// the leaf chain to the leftmost leaf that may hold `key`.
    fn leftmost_run_leaf(
        &self,
        bp: &BufferPool,
        start: PageId,
        key: &[Field],
        Ghost(leaves): Ghost<Seq<PageId>>,
        Ghost(a): Ghost<int>,
    ) -> (r: (PageId, Ghost<int>))
        requires
            bp.wf(),
            model::chain(bp.pages(self.c_id), leaves),
            model::leaves_ordered(bp.pages(self.c_id), leaves, None, None),
            model::parts_at(bp.pages(self.c_id), leaves, a, field::views(key@)),
            leaves[a] == start,
        ensures
            0 <= r.1@ <= a,
            r.0 == leaves[r.1@],
            none_between(bp.pages(self.c_id), leaves, 0, r.1@, field::views(key@)),
    {
        let ghost pages = bp.pages(self.c_id);
        let ghost k = field::views(key@);
        let mut current: PageId = start;
        let ghost mut c: int = a;
        loop
            invariant
                bp.wf(),
                pages == bp.pages(self.c_id),
                k == field::views(key@),
                model::chain(pages, leaves),
                model::leaves_ordered(pages, leaves, None, None),
                model::parts_at(pages, leaves, a, k),
                0 <= c <= a,
                leaves[c] == current,
            decreases c,
        {
            let (left, _, _) = self.leaf(bp, current, Ghost(leaves), Ghost(c));
            match left {
                None => {
                    return (current, Ghost(c));
                },
                Some(prev) => {
                    let ghost b = c - 1;
                    let (_, _, entries) = self.leaf(bp, prev, Ghost(leaves), Ghost(b));
                    let ghost p = pages[prev as int];
                    match last_key(&entries, key, Ghost(p)) {
                        LastKey::Nothing | LastKey::Same => {
                            current = prev;
                            proof {
                                c = c - 1;
                            }
                        },
                        LastKey::Below => {
                            proof {
                                lemma_none_left(pages, leaves, b, k);
                            }
                            return (current, Ghost(c));
                        },
                        LastKey::Above => {
                            proof {
                                assert(model::leaf_within(pages, leaves[b], None, Some(k)));
                                field::lemma_key_order();
                                assert(false);
                            }
                            return (current, Ghost(c));
                        },
                    }
                },
            }
        }
    }

    /// Point lookup: returns every `ValueId` stored under `key` (more than one
    /// only for non-unique/secondary indexes with duplicate keys).
    pub fn search(&self, bp: &BufferPool, key: &[Field]) -> (r: Result<Vec<ValueId>, CrustyError>)
        requires
            self.wf(bp),
        ensures
            r is Ok,
            forall|rid: ValueId| #[trigger]
                r->Ok_0@.to_multiset().count(rid) == self.entries(bp).count((field::views(key@), rid)),
            r->Ok_0@ == self.ids_of(bp, field::views(key@)),
    {
        let ghost pages = bp.pages(self.c_id);
        let ghost k = field::views(key@);
        let ghost t = tree_in(pages);
        let ghost leaves = model::leaves_of(t);
        let ghost a = model::landing(t, k);
        let root: PageId = match self.get_root_page_id(bp) {
            Ok(id) => id,
            Err(e) => {
                return Err(e);
            },
        };
        let landed: PageId = self.find_leaf(bp, root, key, Ghost(t), Ghost(None), Ghost(None));
        proof {
            model::lemma_landing(pages, t, None, None, k);
            model::lemma_leaves(pages, t, None, None);
        }
        let (start, Ghost(c)) = self.leftmost_run_leaf(bp, landed, key, Ghost(leaves), Ghost(a));
        let mut current: PageId = start;
        let mut results: Vec<ValueId> = Vec::new();
        let ghost mut i: int = c;
        proof {
            assert(leaves.subrange(c, c) =~= Seq::<PageId>::empty());
        }
        loop
            invariant_except_break
                i < leaves.len(),
                leaves[i] == current,
            invariant
                bp.wf(),
                pages == bp.pages(self.c_id),
                k == field::views(key@),
                model::chain(pages, leaves),
                model::leaves_ordered(pages, leaves, None, None),
                0 <= c <= i <= leaves.len(),
                results@ == ids_along(pages, leaves.subrange(c, i), k),
            ensures
                none_between(pages, leaves, i, leaves.len() as int, k),
            decreases leaves.len() - i,
        {
            let (_, right, entries) = self.leaf(bp, current, Ghost(leaves), Ghost(i));
            collect_matches(&entries, key, &mut results);
            let ghost p = pages[current as int];
            proof {
                let before = leaves.subrange(c, i);
                assert(leaves.subrange(c, i + 1) =~= before.push(current));
                assert(before.push(current).drop_last() =~= before);
                node::lemma_in_order(p.slots);
                assert(node::items(entries@) == node::in_order(p.slots));
            }
            let last = last_key(&entries, key, Ghost(p));
            proof {
                if last is Above {
                    lemma_none_right(pages, leaves, i, k);
                }
                i = i + 1;
            }
            match (last, right) {
                (LastKey::Above, _) | (_, None) => {
                    break;
                },
                (_, Some(next)) => {
                    current = next;
                },
            }
        }
        proof {
            let n = leaves.len() as int;
            let before = leaves.take(c);
            let mid = leaves.subrange(c, i);
            let behind = leaves.skip(i);
            assert(leaves =~= before + mid + behind);
            lemma_ids_along_concat(pages, before + mid, behind, k);
            lemma_ids_along_concat(pages, before, mid, k);
            assert(none_between(pages, before, 0, c, k)) by {
                assert forall|j: int, x: Item|
                    #![trigger node::bag(pages[before[j] as int].slots).count(x)]
                    0 <= j < c && x.0 == k implies node::bag(pages[before[j] as int].slots).count(x)
                    == 0 by {
                    assert(before[j] == leaves[j]);
                }
            }
            assert(none_between(pages, behind, 0, n - i, k)) by {
                assert forall|j: int, x: Item|
                    #![trigger node::bag(pages[behind[j] as int].slots).count(x)]
                    0 <= j < n - i && x.0 == k implies node::bag(
                    pages[behind[j] as int].slots,
                ).count(x) == 0 by {
                    assert(behind[j] == leaves[i + j]);
                }
            }
            lemma_ids_along_none(pages, before, k);
            lemma_ids_along_none(pages, behind, k);
            assert(results@ =~= ids_along(pages, leaves, k));
            assert forall|rid: ValueId| #[trigger]
                results@.to_multiset().count(rid) == self.entries(bp).count((k, rid)) by {
                lemma_ids_along(pages, leaves, k, rid);
            }
        }
        Ok(results)
    }

    /// Insert `(key, rid)` into the tree. A key that no node has room for, or
    /// one for which there are not enough page ids left, is refused and nothing
    /// changes.
    pub fn insert(&self, bp: &mut BufferPool, key: IndexKey, rid: ValueId) -> (r: Result<
        (),
        CrustyError,
    >)
        requires
            self.wf(old(bp)),
        ensures
            self.wf(final(bp)),
            final(bp).same_but(old(bp), self.c_id),
            r is Ok <==> {
                &&& codec::key_len(field::views(key@)) <= MAX_KEY_LEN
                &&& self.can_grow(old(bp), (field::views(key@), rid))
            },
            codec::key_len(field::views(key@)) <= MAX_KEY_LEN ==> self.pages_needed(
                old(bp),
                (field::views(key@), rid),
            ) <= self.pages_at_most(old(bp)),
            match r {
                Ok(_) => {
                    &&& self.entries(final(bp)) == self.entries(old(bp)).insert(
                        (field::views(key@), rid),
                    )
                    &&& final(bp).pages(self.c_id).len() == old(bp).pages(self.c_id).len()
                        + self.pages_needed(old(bp), (field::views(key@), rid))
                    &&& self.height(old(bp)) <= self.height(final(bp)) <= self.height(old(bp)) + 2
                },
                Err(e) => {
                    &&& final(bp).pages(self.c_id) == old(bp).pages(self.c_id)
                    &&& e.message() == if codec::key_len(field::views(key@)) > MAX_KEY_LEN {
                        "index key too large"@
                    } else {
                        "Out of page ids"@
                    }
                },
            },
    {
        let ghost pages = bp.pages(self.c_id);
        let ghost k = field::views(key@);
        let ghost item: Item = (k, rid);
        let ghost t = tree_in(pages);
        let ghost leaves = model::leaves_of(t);
        if stored_key_len(&key) > MAX_KEY_LEN {
            return Err(c_err("index key too large"));
        }
        let root: PageId = match self.get_root_page_id(bp) {
            Ok(id) => id,
            Err(e) => {
                return Err(e);
            },
        };
        let ghost h = model::height(t);
        proof {
            model::lemma_path_is_height(pages, t, None, None, k, h);
            lemma_depth_within_pages(*self, bp);
            bp.lemma_limits(self.c_id);
        }
        let entry = NodeEntry::Leaf { key: field::duplicate_fields(&key), rid };
        proof {
            codec::lemma_entry_len(entry@);
            model::lemma_leaves(pages, t, None, None);
            assert(leaves.subrange(0, leaves.len() as int) =~= leaves);
        }
        let raw: Vec<u8> = match encode(&entry) {
            Ok(b) => b,
            Err(e) => {
                return Err(e);
            },
        };
        let e = LeafEntry { key, rid, raw };
        let (below, ups) = count_below(
            bp,
            self.c_id,
            root,
            &e,
            Ghost(t),
            Ghost(None),
            Ghost(None),
        );
        let over: u64 = count_over(ups);
        let used: u64 = bp.num_pages(self.c_id) as u64;
        if used + below + over > 0xffff_ffff {
            return Err(c_err("Out of page ids"));
        }
        let (news, us) = insert_recursive(
            bp,
            self.c_id,
            root,
            e,
            Ghost(t),
            Ghost(None),
            Ghost(None),
            Ghost(leaves),
            Ghost(0int),
        );
        let ghost grown = bp.pages(self.c_id);
        let ghost seps = grow::sep_keys(news@);
        proof {
            lemma_header_kept(pages, grown, t, item, us@, seps);
            assert(model::all_even(us@, h));
            assert(h > 0);
        }
        if news.len() == 0 {
            proof {
                assert(model::even(us@[0], h));
                model::lemma_height(us@[0], h);
                lemma_one_root(grown, us@, seps);
                lemma_tree_in(grown, us@[0]);
            }
            return Ok(());
        }
        let (new_root, Ghost(u)) = raise_root(bp, self.c_id, root, news, us);
        let ghost raised = bp.pages(self.c_id);
        proof {
            lemma_raised(grown, raised, us@, u);
        }
        match self.set_root_page_id(bp, new_root) {
            Ok(_) => {},
            Err(e) => {
                return Err(e);
            },
        }
        proof {
            let after = bp.pages(self.c_id);
            lemma_new_root(raised, after, u);
            lemma_tree_in(after, u);
        }
        Ok(())
    }

    /// Remove one `(key, rid)` entry, if there is one. No merge-on-underflow: a
    /// sparse leaf remains structurally valid, just less space-efficient.
    pub fn delete(&self, bp: &mut BufferPool, key: &[Field], rid: ValueId) -> (r: Result<
        (),
        CrustyError,
    >)
        requires
            self.wf(old(bp)),
        ensures
            r is Ok,
            self.wf(final(bp)),
            final(bp).same_but(old(bp), self.c_id),
            self.entries(final(bp)) == self.entries(old(bp)).remove((field::views(key@), rid)),
            final(bp).pages(self.c_id).len() == old(bp).pages(self.c_id).len(),
            self.height(final(bp)) == self.height(old(bp)),
            self.entries(old(bp)).count((field::views(key@), rid)) == 0 ==> final(bp).pages(self.c_id)
                == old(bp).pages(self.c_id),
    {
        let ghost pages = bp.pages(self.c_id);
        let ghost k = field::views(key@);
        let ghost item: Item = (k, rid);
        let ghost t = tree_in(pages);
        let ghost leaves = model::leaves_of(t);
        let ghost a = model::landing(t, k);
        let root: PageId = match self.get_root_page_id(bp) {
            Ok(id) => id,
            Err(e) => {
                return Err(e);
            },
        };
        let landed: PageId = self.find_leaf(bp, root, key, Ghost(t), Ghost(None), Ghost(None));
        proof {
            model::lemma_landing(pages, t, None, None, k);
            model::lemma_leaves(pages, t, None, None);
        }
        let (start, Ghost(c)) = self.leftmost_run_leaf(bp, landed, key, Ghost(leaves), Ghost(a));
        let mut current: PageId = start;
        let ghost mut i: int = c;
        loop
            invariant
                bp.wf(),
                bp.same_but(old(bp), self.c_id),
                pages == old(bp).pages(self.c_id),
                bp.pages(self.c_id) == pages,
                k == field::views(key@),
                item == (k, rid),
                tree_at(pages, t),
                t == tree_in(pages),
                leaves == model::leaves_of(t),
                model::bag_of(t) == model::bag_sum(pages, leaves),
                forall|j: int| 0 <= j < leaves.len() ==> model::ids_of(t).contains(#[trigger] leaves[j]),
                model::leaves_ordered(pages, leaves, None, None),
                0 <= i < leaves.len(),
                leaves[i] == current,
                forall|j: int|
                    0 <= j < i ==> node::bag(pages[#[trigger] leaves[j] as int].slots).count(item) == 0,
            decreases leaves.len() - i,
        {
            let (_, right, entries) = self.leaf(bp, current, Ghost(leaves), Ghost(i));
            let ghost p = pages[current as int];
            let last = last_key(&entries, key, Ghost(p));
            proof {
                assert(model::link_at(pages, leaves, i));
                reveal(model::linked);
            }
            let removed: bool = match bp.get_page_for_write(PageFrameId::new(self.c_id, current)) {
                Ok(page) => remove_from_leaf(page, key, rid),
                Err(_) => false,
            };
            if removed {
                proof {
                    model::lemma_bag_sum_part(pages, leaves, i, item);
                    lemma_removed(pages, bp.pages(self.c_id), t, leaves, i, item);
                    lemma_tree_in(bp.pages(self.c_id), model::reread(bp.pages(self.c_id), t));
                }
                return Ok(());
            }
            assert(bp.pages(self.c_id) =~= pages);
            match (last, right) {
                (LastKey::Above, _) | (_, None) => {
                    proof {
                        if last is Above {
                            lemma_none_right(pages, leaves, i, k);
                        }
                        assert forall|j: int| 0 <= j < leaves.len() implies node::bag(
                            pages[#[trigger] leaves[j] as int].slots,
                        ).count(item) == 0 by {}
                        model::lemma_bag_sum_none(pages, leaves, item);
                        assert(self.entries(old(bp)).remove(item) =~= self.entries(old(bp)));
                    }
                    return Ok(());
                },
                (_, Some(next)) => {
                    current = next;
                    proof {
                        i = i + 1;
                    }
                },
            }
        }
    }
}

/// The header page is none of the tree's, and stays.
proof fn lemma_header_kept(
    pages: Seq<PageView>,
    grown: Seq<PageView>,
    t: Tree,
    item: Item,
    us: Seq<Tree>,
    seps: Seq<Key>,
)
    requires
        tree_at(pages, t),
        grow::grown(pages, grown, t, item, None, None, model::leaves_of(t), 0, us, seps),
    ensures
        grown[0] == pages[0],
        !model::all_ids(us).contains(0),
        model::chain(grown, model::all_leaves(us)),
{
    let leaves = model::leaves_of(t);
    model::lemma_leaves(pages, t, None, None);
    assert(!leaves.contains(0)) by {
        if leaves.contains(0) {
            let i = choose|i: int| 0 <= i < leaves.len() && leaves[i] == 0;
            assert(model::ids_of(t).contains(leaves[i]));
        }
    }
    assert(grown[0u32 as int] == pages[0u32 as int]);
    assert(grow::spliced_leaves(leaves, 0, t, us) =~= model::all_leaves(us));
}

/// A row of one tree is an index.
proof fn lemma_one_root(pages: Seq<PageView>, us: Seq<Tree>, seps: Seq<Key>)
    requires
        pages.len() >= 1,
        model::row_ok(pages, us, seps, None, None),
        us.len() == 1,
        model::even(us[0], model::height(us[0])),
        root_of(pages[0]) == Some(us[0].id()),
        !model::all_ids(us).contains(0),
        model::chain(pages, model::all_leaves(us)),
    ensures
        tree_at(pages, us[0]),
        model::bag_of(us[0]) == model::bags_of(us),
{
    let t = us[0];
    assert(us =~= seq![t]);
    model::lemma_one(t);
    assert(model::low(seps, None, 0) is None);
    assert(model::high(seps, None, 0) is None);
}

/// The leaves of a row stay linked below a new root, and the header stays.
proof fn lemma_raised(grown: Seq<PageView>, raised: Seq<PageView>, us: Seq<Tree>, u: Tree)
    requires
        grown.len() >= 1,
        raised.len() >= grown.len(),
        forall|p: int| 0 <= p < grown.len() ==> #[trigger] raised[p] == grown[p],
        model::chain(grown, model::all_leaves(us)),
        model::leaves_of(u) == model::all_leaves(us),
        !model::all_ids(us).contains(0),
        forall|p: PageId| #[trigger]
            model::ids_of(u).contains(p) ==> model::all_ids(us).contains(p) || p >= grown.len(),
    ensures
        model::chain(raised, model::leaves_of(u)),
        !model::ids_of(u).contains(0),
        raised[0] == grown[0],
{
    let leaves = model::all_leaves(us);
    assert forall|i: int, l: Option<PageId>, r: Option<PageId>|
        0 <= i < leaves.len() && #[trigger] model::linked(grown[leaves[i] as int], l, r)
        implies model::linked(raised[leaves[i] as int], l, r) by {
        assert(model::link_at(grown, leaves, i));
    }
    grow::lemma_chain_kept(grown, raised, leaves);
}

/// A tree that the header names is an index.
proof fn lemma_new_root(raised: Seq<PageView>, after: Seq<PageView>, u: Tree)
    requires
        after.len() == raised.len(),
        after.len() >= 1,
        forall|p: int| 0 < p < raised.len() ==> #[trigger] after[p] == raised[p],
        root_of(after[0]) == Some(u.id()),
        model::tree_ok(raised, u, None, None),
        model::even(u, model::height(u)),
        !model::ids_of(u).contains(0),
        model::chain(raised, model::leaves_of(u)),
    ensures
        tree_at(after, u),
{
    let leaves = model::leaves_of(u);
    model::lemma_leaves(raised, u, None, None);
    model::lemma_ids_in_range(raised, u, None, None);
    model::lemma_frame(raised, after, u, None, None);
    assert forall|i: int, l: Option<PageId>, r: Option<PageId>|
        0 <= i < leaves.len() && #[trigger] model::linked(raised[leaves[i] as int], l, r)
        implies model::linked(after[leaves[i] as int], l, r) by {
        assert(model::ids_of(u).contains(leaves[i]));
    }
    grow::lemma_chain_kept(raised, after, leaves);
}

/// A leaf that loses an item leaves an index without it behind.
proof fn lemma_removed(
    pages: Seq<PageView>,
    after: Seq<PageView>,
    t: Tree,
    leaves: Seq<PageId>,
    i: int,
    item: Item,
)
    requires
        tree_at(pages, t),
        leaves == model::leaves_of(t),
        0 <= i < leaves.len(),
        model::bag_of(t) == model::bag_sum(pages, leaves),
        after.len() == pages.len(),
        forall|p: int| 0 <= p < pages.len() && p != leaves[i] ==> #[trigger] after[p] == pages[p],
        ({
            let p = pages[leaves[i] as int];
            let q = after[leaves[i] as int];
            &&& node::leaf_page(p)
            &&& node::leaf_page(q)
            &&& node::left_of(q) == node::left_of(p)
            &&& node::right_of(q) == node::right_of(p)
            &&& node::bag(p.slots).count(item) > 0
            &&& node::bag(q.slots) == node::bag(p.slots).remove(item)
        }),
    ensures
        tree_at(after, model::reread(after, t)),
        model::bag_of(model::reread(after, t)) == model::bag_of(t).remove(item),
        model::height(model::reread(after, t)) == model::height(t),
{
    let u = model::reread(after, t);
    model::lemma_reread_even(after, t, model::height(t));
    model::lemma_height(u, model::height(t));
    model::lemma_ids_in_range(pages, t, None, None);
    model::lemma_leaves(pages, t, None, None);
    assert forall|p: PageId| #[trigger] model::ids_of(t).contains(p) implies p < after.len()
        && model::node_or_less(pages[p as int], after[p as int]) by {
        if p != leaves[i] {
            assert(after[p as int] == pages[p as int]);
        }
    }
    model::lemma_reread(pages, after, t, None, None);
    model::lemma_reread_shape(after, t);
    model::lemma_leaves(after, u, None, None);
    assert forall|j: int| 0 <= j < leaves.len() implies #[trigger] leaves[j] < pages.len() by {
        assert(model::ids_of(t).contains(leaves[j]));
    }
    assert forall|j: int| 0 <= j < leaves.len() && j != i implies after[#[trigger] leaves[j] as int]
        == pages[leaves[j] as int] by {
        assert(leaves[j] != leaves[i]);
    }
    model::lemma_bag_sum_remove(pages, after, leaves, i, item);
    assert(after[0] == pages[0]) by {
        assert(model::ids_of(t).contains(leaves[i]));
    }
    reveal(model::linked);
    grow::lemma_chain_kept(pages, after, leaves);
}

/// Left of a leaf whose keys are all smaller, all keys are.
proof fn lemma_none_left(pages: Seq<PageView>, leaves: Seq<PageId>, b: int, key: Key)
    requires
        model::leaves_ordered(pages, leaves, None, None),
        0 <= b < leaves.len(),
        last_key_says(pages[leaves[b] as int], key, LastKey::Below),
    ensures
        none_between(pages, leaves, 0, b + 1, key),
{
    field::lemma_key_order();
    let p = pages[leaves[b] as int];
    let y = choose|y: Item| #[trigger] node::bag(p.slots).count(y) > 0;
    assert forall|i: int, x: Item|
        #![trigger node::bag(pages[leaves[i] as int].slots).count(x)]
        0 <= i < b + 1 && x.0 == key implies node::bag(pages[leaves[i] as int].slots).count(x) == 0 by {
        if node::bag(pages[leaves[i] as int].slots).count(x) > 0 {
            if i < b {
                assert(model::leaf_upto(pages, leaves[i], leaves[b]));
                assert(field::key_upto(x.0, y.0));
            }
        }
    }
}

/// Right of a leaf with a greater key, all keys are greater.
proof fn lemma_none_right(pages: Seq<PageView>, leaves: Seq<PageId>, b: int, key: Key)
    requires
        model::leaves_ordered(pages, leaves, None, None),
        0 <= b < leaves.len(),
        last_key_says(pages[leaves[b] as int], key, LastKey::Above),
    ensures
        none_between(pages, leaves, b + 1, leaves.len() as int, key),
{
    field::lemma_key_order();
    let p = pages[leaves[b] as int];
    let y = choose|y: Item| #[trigger] node::bag(p.slots).count(y) > 0 && field::key_before(key, y.0);
    assert forall|i: int, x: Item|
        #![trigger node::bag(pages[leaves[i] as int].slots).count(x)]
        b + 1 <= i < leaves.len() && x.0 == key implies node::bag(pages[leaves[i] as int].slots).count(x)
        == 0 by {
        if node::bag(pages[leaves[i] as int].slots).count(x) > 0 {
            assert(model::leaf_upto(pages, leaves[b], leaves[i]));
            assert(field::key_upto(y.0, x.0));
        }
    }
}

/// Appends the value ids that the entries hold under `key`.
fn collect_matches(entries: &Vec<LeafEntry>, key: &[Field], results: &mut Vec<ValueId>)
    ensures
        final(results)@ == old(results)@ + ids_under(node::items(entries@), field::views(key@)),
{
    let ghost k = field::views(key@);
    let ghost items = node::items(entries@);
    let mut i: usize = 0;
    proof {
        assert(items.take(0) =~= Seq::<Item>::empty());
        assert(results@ + ids_under(items.take(0), k) =~= results@);
    }
    while i < entries.len()
        invariant
            i <= entries@.len(),
            k == field::views(key@),
            items == node::items(entries@),
            results@ == old(results)@ + ids_under(items.take(i as int), k),
        decreases entries@.len() - i,
    {
        let ghost base = results@;
        proof {
            field::lemma_key_order();
            assert(items.take(i + 1).drop_last() =~= items.take(i as int));
        }
        match field::standing_of_keys(&entries[i].key, key) {
            Standing::Same => {
                results.push(entries[i].rid);
            },
            _ => {},
        }
        assert(results@ =~= old(results)@ + ids_under(items.take(i + 1), k));
        i = i + 1;
    }
    assert(items.take(items.len() as int) =~= items);
}

/// An index is not as deep as it has pages.
pub proof fn lemma_depth_within_pages(index: TreeIndex, bp: &BufferPool)
    requires
        index.wf(bp),
    ensures
        0 < index.height(bp) < bp.pages(index.c_id).len(),
{
    let pages = bp.pages(index.c_id);
    let t = tree_in(pages);
    assert(tree_at(pages, t));
    let any = Seq::<FieldView>::empty();
    model::lemma_path_len(pages, t, None, None, any);
    model::lemma_path_is_height(pages, t, None, None, any, model::height(t));
    model::lemma_ids_in_range(pages, t, None, None);
    let with_header = model::ids_of(t).insert(0);
    assert forall|p: PageId| #[trigger] with_header.contains(p) implies p < pages.len() by {}
    model::lemma_ids_finite(pages.len(), with_header);
}

/// What was inserted is found, once more than before; what is found under
/// other keys and value ids stays.
pub proof fn lemma_inserted_is_found(
    index: TreeIndex,
    before: &BufferPool,
    after: &BufferPool,
    key: Key,
    rid: ValueId,
)
    requires
        index.entries(after) == index.entries(before).insert((key, rid)),
    ensures
        index.entries(after).count((key, rid)) == index.entries(before).count((key, rid)) + 1,
        forall|x: Item|
            x != (key, rid) ==> #[trigger] index.entries(after).count(x) == index.entries(before).count(x),
{
}

/// Deleting one of several entries with the same key leaves the others;
/// deleting an entry that is not there changes nothing.
pub proof fn lemma_deleted_is_gone(
    index: TreeIndex,
    before: &BufferPool,
    after: &BufferPool,
    key: Key,
    rid: ValueId,
)
    requires
        index.entries(after) == index.entries(before).remove((key, rid)),
    ensures
        index.entries(after).count((key, rid)) == (if index.entries(before).count((key, rid)) == 0 {
            0
        } else {
            index.entries(before).count((key, rid)) - 1
        }),
        forall|x: Item|
            x != (key, rid) ==> #[trigger] index.entries(after).count(x) == index.entries(before).count(x),
        index.entries(before).count((key, rid)) == 0 ==> index.entries(after) == index.entries(before),
{
    if index.entries(before).count((key, rid)) == 0 {
        assert(index.entries(after) =~= index.entries(before));
    }
}

/// A deletion undoes an insertion.
pub proof fn lemma_delete_undoes_insert(
    index: TreeIndex,
    before: &BufferPool,
    inserted: &BufferPool,
    after: &BufferPool,
    key: Key,
    rid: ValueId,
)
    requires
        index.entries(inserted) == index.entries(before).insert((key, rid)),
        index.entries(after) == index.entries(inserted).remove((key, rid)),
    ensures
        index.entries(after) == index.entries(before),
{
    assert(index.entries(after) =~= index.entries(before));
}

/// The leaves of an index stand at one depth and form one chain, linked both
/// ways, in key order: no key of a leaf is greater than a key of a leaf further
/// right.
pub proof fn lemma_leaves_in_key_order(index: TreeIndex, bp: &BufferPool)
    requires
        index.wf(bp),
    ensures
        ({
            let pages = bp.pages(index.c_id);
            let leaves = model::leaves_of(tree_in(pages));
            &&& leaves.len() > 0
            &&& leaves.no_duplicates()
            &&& model::even(tree_in(pages), index.height(bp))
            &&& index.entries(bp) == model::bag_sum(pages, leaves)
            &&& forall|i: int|
                0 <= i < leaves.len() ==> {
                    let p = pages[#[trigger] leaves[i] as int];
                    &&& node::left_of(p) == model::leaf_at(leaves, i - 1)
                    &&& node::right_of(p) == model::leaf_at(leaves, i + 1)
                }
            &&& forall|i: int, j: int|
                0 <= i < j < leaves.len() ==> model::leaf_upto(
                    pages,
                    #[trigger] leaves[i],
                    #[trigger] leaves[j],
                )
        }),
{
    let pages = bp.pages(index.c_id);
    let t = tree_in(pages);
    let leaves = model::leaves_of(t);
    model::lemma_leaves(pages, t, None, None);
    assert forall|i: int| 0 <= i < leaves.len() implies {
        let p = pages[#[trigger] leaves[i] as int];
        &&& node::left_of(p) == model::leaf_at(leaves, i - 1)
        &&& node::right_of(p) == model::leaf_at(leaves, i + 1)
    } by {
        assert(model::link_at(pages, leaves, i));
        reveal(model::linked);
    }
}

/// An item can be inserted where the new pages that it takes leave the container
/// with no more pages than page ids can count.
pub proof fn lemma_room_to_grow(index: TreeIndex, bp: &BufferPool, item: Item)
    ensures
        index.can_grow(bp, item) <==> bp.pages(index.c_id).len() + index.pages_needed(bp, item)
            <= 0xffff_ffff,
{
}

/// Every value id under a key comes from an item with that key.
proof fn lemma_ids_come_from_items(items: Seq<Item>, key: Key, i: int)
    requires
        0 <= i < ids_under(items, key).len(),
    ensures
        exists|k: int| 0 <= k < items.len() && #[trigger] items[k] == (key, ids_under(items, key)[i]),
    decreases items.len(),
{
    let before = items.drop_last();
    if items.last().0 == key && i == ids_under(items, key).len() - 1 {
        assert(items[items.len() - 1] == (key, ids_under(items, key)[i]));
    } else {
        lemma_ids_come_from_items(before, key, i);
        let k = choose|k: int|
            0 <= k < before.len() && #[trigger] before[k] == (key, ids_under(before, key)[i]);
        assert(items[k] == before[k]);
    }
}

/// The value ids that one leaf holds under a key come in their order.
pub proof fn lemma_ids_in_order(slots: Slots, key: Key, i: int, j: int)
    requires
        0 <= i < j < ids_under(node::in_order(slots), key).len(),
    ensures
        ({
            let ids = ids_under(node::in_order(slots), key);
            ids[i] == ids[j] || node::rid_before(ids[i], ids[j])
        }),
{
    let items = node::in_order(slots);
    assert forall|a: int, b: int| 0 <= a < b < items.len() implies #[trigger] node::item_upto(
        items[a],
        items[b],
    ) by {
        node::lemma_items_in_order(slots, a, b);
        field::lemma_key_order();
    }
    lemma_sorted_ids(items, key, i, j);
}

/// The value ids of one key among sorted items are sorted.
proof fn lemma_sorted_ids(items: Seq<Item>, key: Key, i: int, j: int)
    requires
        forall|a: int, b: int|
            0 <= a < b < items.len() ==> #[trigger] node::item_upto(items[a], items[b]),
        0 <= i < j < ids_under(items, key).len(),
    ensures
        ({
            let ids = ids_under(items, key);
            ids[i] == ids[j] || node::rid_before(ids[i], ids[j])
        }),
    decreases items.len(),
{
    let before = items.drop_last();
    assert forall|a: int, b: int| 0 <= a < b < before.len() implies #[trigger] node::item_upto(
        before[a],
        before[b],
    ) by {
        assert(node::item_upto(items[a], items[b]));
    }
    if items.last().0 == key && j == ids_under(items, key).len() - 1 {
        lemma_ids_come_from_items(before, key, i);
        let k = choose|k: int|
            0 <= k < before.len() && #[trigger] before[k] == (key, ids_under(before, key)[i]);
        assert(node::item_upto(items[k], items[items.len() - 1]));
        field::lemma_key_order();
    } else {
        lemma_sorted_ids(before, key, i, j);
    }
}

/// The value ids of several leaves are those of the first ones and then those of
/// the others.
pub proof fn lemma_ids_leaf_by_leaf(
    pages: Seq<PageView>,
    a: Seq<PageId>,
    b: Seq<PageId>,
    key: Key,
)
    ensures
        ids_along(pages, a + b, key) == ids_along(pages, a, key) + ids_along(pages, b, key),
    decreases b.len(),
{
    if b.len() == 0 {
        assert(a + b =~= a);
        assert(ids_along(pages, a, key) + ids_along(pages, b, key) =~= ids_along(pages, a, key));
    } else {
        assert((a + b).drop_last() =~= a + b.drop_last());
        lemma_ids_leaf_by_leaf(pages, a, b.drop_last(), key);
        assert(ids_along(pages, a + b, key) =~= ids_along(pages, a, key) + ids_along(
            pages,
            b,
            key,
        ));
    }
}

} // verus!
