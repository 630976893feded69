//! How a B+Tree takes up a new entry: leaves and internal nodes that are full
//! are split into as many as it takes.
use crate::common::field;
use crate::common::field::Field;
use crate::common::ids::{ContainerId, PageId};
use crate::heapstore::buffer_pool::{BufferPool, PageFrameId};
use crate::heapstore::page::PageView;
use crate::index::codec;
use crate::index::codec::{encode, IndexKey, Key, NodeEntry};
use crate::index::model;
use crate::index::model::Tree;
use crate::index::need;
use crate::index::node;
use crate::index::node::{
    add_to_leaf, cut_points, find_child, insert_sorted, leaf_cut_points, read_internal_entries,
    read_is_leaf, read_leaf_entries, set_siblings, write_internal, write_leaf, ChildEntry, Item, LeafEntry,
    FIRST_ENTRY_ROOM, MAX_KEY_LEN, MAX_LEAF_ENTRY, MAX_SLOTS, NODE_ROOM,
};
use vstd::multiset::Multiset;
use vstd::prelude::*;

verus! {

/// The separators that the entries hold.
pub open spec fn sep_keys(entries: Seq<ChildEntry>) -> Seq<Key> {
    Seq::new(entries.len(), |i: int| entries[i].pointer().0->0)
}

/// The entries lead to every tree of the row but the first.
pub open spec fn entries_lead_to(entries: Seq<ChildEntry>, ts: Seq<Tree>) -> bool {
    &&& ts.len() == entries.len() + 1
    &&& forall|i: int|
        0 <= i < entries.len() ==> {
            &&& (#[trigger] entries[i]).wf()
            &&& entries[i].raw@.len() == node::child_len(entries[i].pointer().0)
            &&& entries[i].key is Some
            &&& codec::key_len(entries[i].pointer().0->0) <= MAX_KEY_LEN
            &&& entries[i].child == ts[i + 1].id()
        }
}

/// The leaves of the whole tree after the ones from `off` on, as many as `t`
/// has, gave way to those of `us`.
pub open spec fn spliced_leaves(leaves: Seq<PageId>, off: int, t: Tree, us: Seq<Tree>) -> Seq<PageId> {
    leaves.take(off) + model::all_leaves(us) + leaves.skip(off + model::leaves_of(t).len())
}

/// The row `us` took the place of `t` and holds one more item.
pub open spec fn grown(
    pages: Seq<PageView>,
    after: Seq<PageView>,
    t: Tree,
    item: Item,
    lo: Option<Key>,
    hi: Option<Key>,
    leaves: Seq<PageId>,
    off: int,
    us: Seq<Tree>,
    seps: Seq<Key>,
) -> bool {
    &&& model::row_ok(after, us, seps, lo, hi)
    &&& us[0].id() == t.id()
    &&& model::bags_of(us) == model::bag_of(t).insert(item)
    &&& model::outside_kept(pages, after, model::ids_of(t))
    &&& forall|p: PageId|
        p < pages.len() && !model::ids_of(t).contains(p) && !leaves.contains(p)
            ==> #[trigger] after[p as int] == pages[p as int]
    &&& model::ids_from(us, model::ids_of(t), pages.len())
    &&& model::chain(after, spliced_leaves(leaves, off, t, us))
}

/// The row `us` is as deep as `t`.
pub open spec fn keeps_depth(t: Tree, us: Seq<Tree>) -> bool {
    forall|h: nat| #[trigger] model::even(t, h) ==> model::all_even(us, h)
}

/// The row `vs` is one level deeper than the row `kids`.
pub open spec fn adds_level(kids: Seq<Tree>, vs: Seq<Tree>) -> bool {
    forall|h: nat| #[trigger] model::all_even(kids, h) && h > 0 ==> model::all_even(vs, h + 1)
}

/// The tree stands at `off` among the leaves of the whole tree.
pub open spec fn stands_at(pages: Seq<PageView>, t: Tree, leaves: Seq<PageId>, off: int) -> bool {
    &&& model::chain(pages, leaves)
    &&& 0 <= off
    &&& off + model::leaves_of(t).len() <= leaves.len()
    &&& leaves.subrange(off, off + model::leaves_of(t).len()) == model::leaves_of(t)
}

/// An entry of an internal node that leads to `child`.
fn new_child_entry(key: IndexKey, child: PageId) -> (r: ChildEntry)
    requires
        codec::key_len(field::views(key@)) <= MAX_KEY_LEN,
    ensures
        r.wf(),
        r.raw@.len() == node::child_len(r.pointer().0),
        r.pointer() == (Some(field::views(key@)), child),
{
    let copy: IndexKey = field::duplicate_fields(&key);
    let entry = NodeEntry::Internal { key: Some(key), child };
    proof {
        codec::lemma_entry_len(entry@);
    }
    let raw: Vec<u8> = match encode(&entry) {
        Ok(b) => b,
        Err(_) => Vec::new(),
    };
    ChildEntry { key: Some(copy), child, raw }
}

/// Where an item stands in a run of sorted items tells its bounds.
proof fn lemma_run_bounds(items: Seq<Item>, a: int, b: int, x: Item)
    requires
        node::sorted(items),
        0 <= a < b <= items.len(),
        items.subrange(a, b).to_multiset().count(x) > 0,
    ensures
        field::key_upto(items[a].0, x.0),
        b < items.len() ==> field::key_upto(x.0, items[b].0),
        items.to_multiset().count(x) > 0,
{
    let part = items.subrange(a, b);
    vstd::seq_lib::to_multiset_contains(part, x);
    let i = choose|i: int| 0 <= i < part.len() && part[i] == x;
    assert(items[a + i] == x);
    vstd::seq_lib::to_multiset_contains(items, x);
    assert(node::item_upto(items[a], items[a + i]));
    if b < items.len() {
        assert(node::item_upto(items[a + i], items[b]));
    }
}

/// The page of the group `g` of a node that is split: the first group stays,
/// the others go to new pages, one after the other.
pub open spec fn group_id(page_id: PageId, fresh: int, g: int) -> PageId {
    if g <= 0 {
        page_id
    } else {
        (fresh + g - 1) as PageId
    }
}

/// The pages that the groups of a split node stand in.
pub open spec fn group_ids(page_id: PageId, fresh: int, n: int) -> Seq<PageId> {
    Seq::new(n as nat, |g: int| group_id(page_id, fresh, g))
}

/// The leaf of group `g` is linked to those of the groups beside it, the outer
/// ones to the siblings of the leaf that is split.
spec fn group_linked(
    pages: Seq<PageView>,
    page_id: PageId,
    fresh: int,
    n: int,
    left: Option<PageId>,
    right: Option<PageId>,
    g: int,
) -> bool {
    model::linked(
        pages[group_id(page_id, fresh, g) as int],
        if g == 0 {
            left
        } else {
            Some(group_id(page_id, fresh, g - 1))
        },
        if g == n - 1 {
            right
        } else {
            Some(group_id(page_id, fresh, g + 1))
        },
    )
}

/// A leaf gave way to the leaves of its groups.
proof fn lemma_chain_split(
    pages: Seq<PageView>,
    after: Seq<PageView>,
    leaves: Seq<PageId>,
    off: int,
    n: int,
)
    requires
        model::chain(pages, leaves),
        0 <= off < leaves.len(),
        1 <= n,
        after.len() == pages.len() + n - 1,
        after.len() <= u32::MAX,
        // Only the leaf, its groups and its right sibling changed.
        forall|i: int|
            0 <= i < leaves.len() && i != off && i != off + 1 ==> after[#[trigger] leaves[i] as int]
                == pages[leaves[i] as int],
        off + 1 < leaves.len() ==> model::linked(
            after[leaves[off + 1] as int],
            Some(group_id(leaves[off], pages.len() as int, n - 1)),
            model::leaf_at(leaves, off + 2),
        ),
        forall|g: int|
            0 <= g < n ==> #[trigger] group_linked(
                after,
                leaves[off],
                pages.len() as int,
                n,
                model::leaf_at(leaves, off - 1),
                model::leaf_at(leaves, off + 1),
                g,
            ),
    ensures
        model::chain(
            after,
            leaves.take(off) + group_ids(leaves[off], pages.len() as int, n) + leaves.skip(off + 1),
        ),
{
    let fresh = pages.len() as int;
    let mid = group_ids(leaves[off], fresh, n);
    let all = leaves.take(off) + mid + leaves.skip(off + 1);
    let page_id = leaves[off];
    assert forall|i: int| 0 <= i < leaves.len() implies #[trigger] leaves[i] < fresh by {
        assert(model::link_at(pages, leaves, i));
    }
    assert forall|i: int, j: int| 0 <= i < all.len() && 0 <= j < all.len() && i != j implies all[i]
        != all[j] by {}
    assert forall|i: int| 0 <= i < all.len() implies #[trigger] model::link_at(after, all, i) by {
        if i < off {
            assert(model::link_at(pages, leaves, i));
            assert(after[leaves[i] as int] == pages[leaves[i] as int]);
            assert(model::leaf_at(all, i - 1) == model::leaf_at(leaves, i - 1));
            assert(model::leaf_at(all, i + 1) == model::leaf_at(leaves, i + 1));
        } else if i < off + n {
            let g = i - off;
            assert(all[i] == group_id(page_id, fresh, g));
            assert(group_linked(
                after,
                page_id,
                fresh,
                n,
                model::leaf_at(leaves, off - 1),
                model::leaf_at(leaves, off + 1),
                g,
            ));
            if g > 0 {
                assert(all[i - 1] == group_id(page_id, fresh, g - 1));
            }
            if g < n - 1 {
                assert(all[i + 1] == group_id(page_id, fresh, g + 1));
            }
        } else {
            let k = i - n + 1;
            assert(all[i] == leaves[k]);
            assert(model::link_at(pages, leaves, k));
            assert(model::leaf_at(all, i + 1) == model::leaf_at(leaves, k + 1));
            if k == off + 1 {
                assert(all[i - 1] == group_id(page_id, fresh, n - 1));
            } else {
                assert(model::leaf_at(all, i - 1) == model::leaf_at(leaves, k - 1));
            }
        }
    }
}

pub(crate) fn weights_of_leaf(entries: &Vec<LeafEntry>) -> (ws: Vec<usize>)
    requires
        node::leaf_entries_ok(entries@),
    ensures
        ws@ == node::leaf_weights(entries@),
{
    let mut ws: Vec<usize> = Vec::new();
    let mut i: usize = 0;
    while i < entries.len()
        invariant
            i <= entries@.len(),
            node::leaf_entries_ok(entries@),
            ws@.len() == i,
            forall|j: int| 0 <= j < i ==> ws@[j] == node::leaf_weights(entries@)[j],
        decreases entries@.len() - i,
    {
        assert(entries@[i as int].wf());
        ws.push(entries[i].raw.len() + 4);
        i = i + 1;
    }
    assert(ws@ =~= node::leaf_weights(entries@));
    ws
}

/// The tree that a leaf with the given entries is.
pub open spec fn leaf_tree(id: PageId, entries: Seq<LeafEntry>) -> Tree {
    Tree::Leaf { id, bag: node::items(entries).to_multiset() }
}

/// The upper bound of the entries up to `a`.
spec fn bound_at(entries: Seq<LeafEntry>, hi: Option<Key>, a: int) -> Option<Key> {
    if a >= entries.len() {
        hi
    } else {
        Some(entries[a].item().0)
    }
}

/// The keys of the entries lie between the bounds.
pub open spec fn entries_within(entries: Seq<LeafEntry>, lo: Option<Key>, hi: Option<Key>) -> bool {
    forall|i: int|
        0 <= i < entries.len() ==> model::above(lo, (#[trigger] entries[i]).item().0) && model::below(
            hi,
            entries[i].item().0,
        )
}

/// A page with the entries from `a` up to `b` holds a leaf between the bounds
/// that the neighbouring entries give.
proof fn lemma_leaf_tree(
    pages: Seq<PageView>,
    id: PageId,
    entries: Seq<LeafEntry>,
    a: int,
    b: int,
    first: bool,
    lo: Option<Key>,
    hi: Option<Key>,
)
    requires
        id < pages.len(),
        node::leaf_page(pages[id as int]),
        0 <= a <= b <= entries.len(),
        a < entries.len(),
        node::bag(pages[id as int].slots) == node::items(entries.subrange(a, b)).to_multiset(),
        node::sorted(node::items(entries)),
        entries_within(entries, lo, hi),
    ensures
        model::tree_ok(
            pages,
            leaf_tree(id, entries.subrange(a, b)),
            if first {
                lo
            } else {
                bound_at(entries, hi, a)
            },
            bound_at(entries, hi, b),
        ),
{
    let part = node::items(entries.subrange(a, b));
    let all = node::items(entries);
    assert(part =~= all.subrange(a, b));
    assert forall|x: Item| #[trigger] part.to_multiset().count(x) > 0 implies {
        &&& model::above(lo, x.0)
        &&& model::below(hi, x.0)
        &&& field::key_upto(all[a].0, x.0)
        &&& b < all.len() ==> field::key_upto(x.0, all[b].0)
    } by {
        vstd::seq_lib::to_multiset_contains(part, x);
        assert(part.contains(x));
        lemma_run_bounds(all, a, b, x);
        vstd::seq_lib::to_multiset_contains(all, x);
        let i = choose|i: int| 0 <= i < all.len() && all[i] == x;
        assert(entries[i].item() == x);
    }
}

/// Part `g` of a leaf is a leaf that holds the entries between two cuts, in its
/// page.
pub open spec fn leaf_part(
    us: Seq<Tree>,
    page_id: PageId,
    fresh: int,
    entries: Seq<LeafEntry>,
    cuts: Seq<usize>,
    g: int,
) -> bool {
    let n = entries.len() as int;
    us[g] == leaf_tree(
        group_id(page_id, fresh, g),
        entries.subrange(node::boundary(cuts, n, g), node::boundary(cuts, n, g + 1)),
    )
}

/// The entries were cut into leaves, and the key handed up before each part but
/// the first is the first key of the part.
pub open spec fn leaf_parts(
    us: Seq<Tree>,
    ups: Seq<Key>,
    page_id: PageId,
    fresh: int,
    entries: Seq<LeafEntry>,
    cuts: Seq<usize>,
) -> bool {
    &&& us.len() == cuts.len() + 1
    &&& ups.len() == cuts.len()
    &&& forall|g: int|
        0 <= g < us.len() ==> #[trigger] leaf_part(us, page_id, fresh, entries, cuts, g)
    &&& forall|g: int|
        0 <= g < ups.len() ==> #[trigger] ups[g] == entries[cuts[g] as int].item().0
}

/// These are the entries of a leaf with `e` among them, in order.
pub open spec fn entries_and(p: PageView, e: LeafEntry, all: Seq<LeafEntry>) -> bool {
    &&& node::sorted(node::items(all))
    &&& node::items(all).to_multiset() == node::bag(p.slots).insert(e.item())
    &&& forall|i: int|
        0 <= i < all.len() ==> (#[trigger] all[i]).wf() && (all[i] == e || node::stored(
            p.slots,
            all[i].raw@,
        ))
}

/// The entries up to `a` stand in `g` leaves, which form the row `done`.
#[verifier::opaque]
spec fn leaf_row(
    pages: Seq<PageView>,
    page_id: PageId,
    fresh: int,
    entries: Seq<LeafEntry>,
    lo: Option<Key>,
    hi: Option<Key>,
    g: int,
    a: int,
    news: Seq<ChildEntry>,
    done: Seq<Tree>,
) -> bool {
    &&& done.len() == g
    &&& g > 0 ==> {
        &&& model::row_ok(pages, done, sep_keys(news), lo, bound_at(entries, hi, a))
        &&& entries_lead_to(news, done)
        &&& done[0].id() == page_id
    }
    &&& g == 0 ==> news.len() == 0
    &&& model::bags_of(done) == node::items(entries.take(a)).to_multiset()
    &&& model::all_leaves(done) == group_ids(page_id, fresh, g)
    &&& model::roots(done) == group_ids(page_id, fresh, g)
    &&& forall|p: PageId| #[trigger]
        model::all_ids(done).contains(p) ==> {
            ||| p == page_id && g > 0
            ||| fresh <= p < pages.len()
        }
}

/// One more entry leads to one more tree.
proof fn lemma_lead_push(news: Seq<ChildEntry>, done: Seq<Tree>, entry: ChildEntry, t: Tree)
    requires
        entries_lead_to(news, done),
        entry.wf(),
        entry.raw@.len() == node::child_len(entry.pointer().0),
        entry.key is Some,
        codec::key_len(entry.pointer().0->0) <= MAX_KEY_LEN,
        entry.child == t.id(),
    ensures
        entries_lead_to(news.push(entry), done.push(t)),
{
    let more = news.push(entry);
    let next = done.push(t);
    assert forall|i: int| 0 <= i < more.len() implies {
        &&& (#[trigger] more[i]).wf()
        &&& more[i].raw@.len() == node::child_len(more[i].pointer().0)
        &&& more[i].key is Some
        &&& codec::key_len(more[i].pointer().0->0) <= MAX_KEY_LEN
        &&& more[i].child == next[i + 1].id()
    } by {
        if i < news.len() {
            assert(more[i] == news[i]);
            assert(next[i + 1] == done[i + 1]);
        }
    }
}

/// The items of the entries up to `b` are those up to `a` and those between.
proof fn lemma_items_upto(entries: Seq<LeafEntry>, a: int, b: int)
    requires
        0 <= a <= b <= entries.len(),
    ensures
        node::items(entries.take(b)).to_multiset() == node::items(entries.take(a)).to_multiset().add(
            node::items(entries.subrange(a, b)).to_multiset(),
        ),
{
    let part = entries.subrange(a, b);
    assert(entries.take(b) =~= entries.take(a) + part);
    assert(node::items(entries.take(b)) =~= node::items(entries.take(a)) + node::items(part));
    vstd::seq_lib::lemma_multiset_commutative(node::items(entries.take(a)), node::items(part));
}

/// One more leaf takes the entries from `a` up to `b`.
proof fn lemma_leaf_row_step(
    here: Seq<PageView>,
    after: Seq<PageView>,
    page_id: PageId,
    fresh: int,
    entries: Seq<LeafEntry>,
    lo: Option<Key>,
    hi: Option<Key>,
    g: int,
    a: int,
    b: int,
    news: Seq<ChildEntry>,
    done: Seq<Tree>,
    entry: ChildEntry,
)
    requires
        leaf_row(here, page_id, fresh, entries, lo, hi, g, a, news, done),
        0 <= g,
        g == 0 ==> a == 0,
        0 <= a <= b <= entries.len(),
        a < entries.len(),
        g > 0 ==> a < b,
        page_id < fresh <= here.len(),
        after.len() <= u32::MAX,
        g == 0 ==> after.len() == here.len(),
        g > 0 ==> here.len() == fresh + g - 1 && after.len() == here.len() + 1,
        forall|p: int|
            0 <= p < here.len() && p != group_id(page_id, fresh, g) ==> #[trigger] after[p] == here[p],
        ({
            let p = after[group_id(page_id, fresh, g) as int];
            &&& node::leaf_page(p)
            &&& node::bag(p.slots) == node::items(entries.subrange(a, b)).to_multiset()
        }),
        node::sorted(node::items(entries)),
        entries_within(entries, lo, hi),
        node::leaf_entries_ok(entries),
        g > 0 ==> {
            &&& entry.wf()
            &&& entry.raw@.len() == node::child_len(entry.pointer().0)
            &&& entry.pointer() == (Some(entries[a].item().0), group_id(page_id, fresh, g))
        },
    ensures
        leaf_row(
            after,
            page_id,
            fresh,
            entries,
            lo,
            hi,
            g + 1,
            b,
            if g > 0 {
                news.push(entry)
            } else {
                news
            },
            done.push(leaf_tree(group_id(page_id, fresh, g), entries.subrange(a, b))),
        ),
{
    reveal(leaf_row);
    let id = group_id(page_id, fresh, g);
    let part = entries.subrange(a, b);
    let t = leaf_tree(id, part);
    let next = done.push(t);
    lemma_leaf_tree(after, id, entries, a, b, g == 0, lo, hi);
    lemma_items_upto(entries, a, b);
    model::lemma_push(done, t);
    assert(model::bags_of(next) =~= node::items(entries.take(b)).to_multiset());
    assert(model::all_leaves(next) =~= group_ids(page_id, fresh, g + 1));
    assert(model::roots(next) =~= model::roots(done).push(id));
    assert(model::roots(next) =~= group_ids(page_id, fresh, g + 1));
    assert forall|p: PageId| #[trigger] model::all_ids(next).contains(p) implies {
        ||| p == page_id
        ||| fresh <= p < after.len()
    } by {
        if !model::all_ids(done).contains(p) {
            assert(p == id);
        }
    }
    if g > 0 {
        let sep = entries[a].item().0;
        let more = news.push(entry);
        assert(entries[a].wf());
        assert(sep_keys(more) =~= sep_keys(news).push(sep));
        assert forall|p: PageId| #[trigger] model::all_ids(done).contains(p) implies p < after.len()
            && p != id && model::same_node(here[p as int], after[p as int]) by {}
        model::lemma_row_frame(here, after, done, sep_keys(news), lo, bound_at(entries, hi, a));
        if b < entries.len() {
            let all = node::items(entries);
            assert(node::item_upto(all[a], all[b]));
        }
        model::lemma_row_push(after, done, sep_keys(news), lo, bound_at(entries, hi, b), sep, t);
        lemma_lead_push(news, done, entry, t);
    } else {
        assert(sep_keys(news) =~= Seq::<Key>::empty());
        assert(next =~= seq![t]);
    }
}

/// The groups so far stay linked while the page of another one is written.
proof fn lemma_group_linked_step(
    here: Seq<PageView>,
    after: Seq<PageView>,
    page_id: PageId,
    fresh: int,
    n: int,
    left: Option<PageId>,
    right: Option<PageId>,
    g: int,
)
    requires
        0 <= g,
        page_id < fresh <= here.len(),
        fresh + g <= u32::MAX,
        g > 0 ==> here.len() == fresh + g - 1,
        forall|h: int|
            0 <= h < g ==> #[trigger] group_linked(here, page_id, fresh, n, left, right, h),
        forall|p: int|
            0 <= p < here.len() && p != group_id(page_id, fresh, g) ==> #[trigger] after[p] == here[p],
        group_linked(after, page_id, fresh, n, left, right, g),
    ensures
        forall|h: int|
            0 <= h < g + 1 ==> #[trigger] group_linked(after, page_id, fresh, n, left, right, h),
{
    assert forall|h: int| 0 <= h < g + 1 implies #[trigger] group_linked(
        after,
        page_id,
        fresh,
        n,
        left,
        right,
        h,
    ) by {
        if h < g {
            assert(group_linked(here, page_id, fresh, n, left, right, h));
            let q = group_id(page_id, fresh, h) as int;
            assert(after[q] == here[q]);
        }
    }
}

/// Makes a page of the pool a leaf with the entries from `a` up to `b`.
fn write_leaf_page(
    bp: &mut BufferPool,
    c_id: ContainerId,
    id: PageId,
    left: Option<PageId>,
    right: Option<PageId>,
    entries: &Vec<LeafEntry>,
    a: usize,
    b: usize,
)
    requires
        old(bp).wf(),
        id < old(bp).pages(c_id).len(),
        a <= b <= entries@.len(),
        node::leaf_entries_ok(entries@),
        node::span(node::leaf_weights(entries@), a as int, b as int) <= NODE_ROOM,
    ensures
        final(bp).wf(),
        final(bp).same_but(old(bp), c_id),
        final(bp).pages(c_id).len() == old(bp).pages(c_id).len(),
        forall|p: int|
            0 <= p < old(bp).pages(c_id).len() && p != id ==> #[trigger] final(bp).pages(c_id)[p]
                == old(bp).pages(c_id)[p],
        node::leaf_page(final(bp).pages(c_id)[id as int]),
        model::linked(final(bp).pages(c_id)[id as int], left, right),
        node::bag(final(bp).pages(c_id)[id as int].slots) == node::items(
            entries@.subrange(a as int, b as int),
        ).to_multiset(),
{
    reveal(model::linked);
    if let Ok(page) = bp.get_page_for_write(PageFrameId::new(c_id, id)) {
        write_leaf(page, left, right, entries, a, b);
    }
}

/// Spreads the entries of a leaf, cut into groups, over the leaf and as many
/// new pages as there are cuts.
fn spread_leaf(
    bp: &mut BufferPool,
    c_id: ContainerId,
    page_id: PageId,
    left: Option<PageId>,
    right: Option<PageId>,
    entries: &Vec<LeafEntry>,
    cuts: &Vec<usize>,
    Ghost(lo): Ghost<Option<Key>>,
    Ghost(hi): Ghost<Option<Key>>,
) -> (r: (Vec<ChildEntry>, Ghost<Seq<Tree>>))
    requires
        old(bp).wf(),
        page_id < old(bp).pages(c_id).len(),
        entries@.len() >= 1,
        node::leaf_entries_ok(entries@),
        node::sorted(node::items(entries@)),
        entries_within(entries@, lo, hi),
        node::leaf_groups_fit(cuts@, node::leaf_weights(entries@)),
        old(bp).pages(c_id).len() + cuts@.len() <= u32::MAX,
    ensures
        final(bp).wf(),
        final(bp).same_but(old(bp), c_id),
        final(bp).pages(c_id).len() == old(bp).pages(c_id).len() + cuts@.len(),
        forall|p: int|
            0 <= p < old(bp).pages(c_id).len() && p != page_id ==> #[trigger] final(bp).pages(c_id)[p]
                == old(bp).pages(c_id)[p],
        model::row_ok(final(bp).pages(c_id), r.1@, sep_keys(r.0@), lo, hi),
        r.0@.len() == cuts@.len(),
        entries_lead_to(r.0@, r.1@),
        r.1@[0].id() == page_id,
        model::bags_of(r.1@) == node::items(entries@).to_multiset(),
        model::all_leaves(r.1@) == group_ids(
            page_id,
            old(bp).pages(c_id).len() as int,
            cuts@.len() as int + 1,
        ),
        model::roots(r.1@) == model::all_leaves(r.1@),
        leaf_parts(
            r.1@,
            sep_keys(r.0@),
            page_id,
            old(bp).pages(c_id).len() as int,
            entries@,
            cuts@,
        ),
        forall|p: PageId| #[trigger]
            model::all_ids(r.1@).contains(p) ==> p == page_id || p >= old(bp).pages(c_id).len(),
        forall|g: int|
            0 <= g <= cuts@.len() ==> #[trigger] group_linked(
                final(bp).pages(c_id),
                page_id,
                old(bp).pages(c_id).len() as int,
                cuts@.len() as int + 1,
                left,
                right,
                g,
            ),
{
    let n: usize = entries.len();
    let k: usize = cuts.len();
    let ghost pages = bp.pages(c_id);
    let ghost ws = node::leaf_weights(entries@);
    let fresh: PageId = bp.num_pages(c_id);
    let mut news: Vec<ChildEntry> = Vec::new();
    let ghost mut done: Seq<Tree> = Seq::empty();
    let mut a: usize = 0;
    let mut g: usize = 0;
    proof {
        assert(entries@.take(0) =~= Seq::<LeafEntry>::empty());
        assert(node::items(entries@.take(0)) =~= Seq::<Item>::empty());
        broadcast use vstd::seq_lib::group_to_multiset_ensures;
        assert(node::items(entries@.take(0)).to_multiset() =~= Multiset::<Item>::empty());
        assert(group_ids(page_id, fresh as int, 0) =~= Seq::<PageId>::empty());
        assert(model::roots(done) =~= Seq::<PageId>::empty());
        reveal(leaf_row);
    }
    while g <= k
        invariant
            n == entries@.len(),
            k == cuts@.len(),
            n >= 1,
            page_id < fresh,
            fresh == pages.len(),
            fresh + k <= u32::MAX,
            ws == node::leaf_weights(entries@),
            ws.len() == n,
            node::leaf_entries_ok(entries@),
            node::sorted(node::items(entries@)),
            entries_within(entries@, lo, hi),
            node::leaf_groups_fit(cuts@, ws),
            g <= k + 1,
            a == node::boundary(cuts@, n as int, g as int),
            a <= n,
            bp.wf(),
            bp.same_but(old(bp), c_id),
            bp.pages(c_id).len() == fresh + (if g == 0 {
                0
            } else {
                g - 1
            }),
            forall|p: int|
                0 <= p < fresh && p != page_id ==> #[trigger] bp.pages(c_id)[p] == pages[p],
            g == 0 ==> a == 0,
            leaf_row(
                bp.pages(c_id),
                page_id,
                fresh as int,
                entries@,
                lo,
                hi,
                g as int,
                a as int,
                news@,
                done,
            ),
            done.len() == g,
            news@.len() == (if g == 0 {
                0
            } else {
                g - 1
            }),
            forall|h: int|
                0 <= h < g ==> #[trigger] leaf_part(
                    done,
                    page_id,
                    fresh as int,
                    entries@,
                    cuts@,
                    h,
                ),
            forall|h: int|
                0 <= h < news@.len() ==> #[trigger] sep_keys(news@)[h]
                    == entries@[cuts@[h] as int].item().0,
            forall|h: int|
                0 <= h < g ==> #[trigger] group_linked(
                    bp.pages(c_id),
                    page_id,
                    fresh as int,
                    k + 1,
                    left,
                    right,
                    h,
                ),
        decreases k + 1 - g,
    {
        let b: usize = if g < k {
            cuts[g]
        } else {
            n
        };
        let ghost here = bp.pages(c_id);
        proof {
            assert(node::leaf_group_fits(cuts@, ws, g as int));
            assert(b == node::boundary(cuts@, n as int, g + 1));
        }
        let id: PageId = if g == 0 {
            page_id
        } else {
            match bp.create_new_page_for_write(c_id) {
                Ok(id) => id,
                Err(_) => 0,
            }
        };
        assert(id == group_id(page_id, fresh as int, g as int));
        let ghost mid = bp.pages(c_id);
        let l: Option<PageId> = if g == 0 {
            left
        } else if g == 1 {
            Some(page_id)
        } else {
            Some(id - 1)
        };
        let r: Option<PageId> = if g == k {
            right
        } else {
            Some(fresh + g as u32)
        };
        write_leaf_page(bp, c_id, id, l, r, entries, a, b);
        let ghost after = bp.pages(c_id);
        assert(entries@[a as int].wf());
        let entry = new_child_entry(field::duplicate_fields(&entries[a].key), id);
        proof {
            lemma_leaf_row_step(
                here,
                after,
                page_id,
                fresh as int,
                entries@,
                lo,
                hi,
                g as int,
                a as int,
                b as int,
                news@,
                done,
                entry,
            );
            let ghost before = done;
            done = done.push(leaf_tree(id, entries@.subrange(a as int, b as int)));
            assert forall|h: int| 0 <= h < g + 1 implies #[trigger] leaf_part(
                done,
                page_id,
                fresh as int,
                entries@,
                cuts@,
                h,
            ) by {
                if h < g {
                    assert(leaf_part(before, page_id, fresh as int, entries@, cuts@, h));
                }
            }
            lemma_group_linked_step(
                here,
                after,
                page_id,
                fresh as int,
                k + 1,
                left,
                right,
                g as int,
            );
        }
        if g > 0 {
            let ghost older = news@;
            news.push(entry);
            assert(sep_keys(news@) =~= sep_keys(older).push(entries@[a as int].item().0));
        }
        a = b;
        g = g + 1;
    }
    proof {
        reveal(leaf_row);
        assert(node::boundary(cuts@, n as int, k + 1) == n);
        assert(entries@.take(n as int) =~= entries@);
    }
    (news, Ghost(done))
}

/// The chain stays where every leaf keeps its siblings.
pub proof fn lemma_chain_kept(pages: Seq<PageView>, after: Seq<PageView>, leaves: Seq<PageId>)
    requires
        model::chain(pages, leaves),
        after.len() >= pages.len(),
        forall|i: int, l: Option<PageId>, r: Option<PageId>|
            0 <= i < leaves.len() && #[trigger] model::linked(pages[leaves[i] as int], l, r)
                ==> model::linked(after[leaves[i] as int], l, r),
    ensures
        model::chain(after, leaves),
{
    assert forall|i: int| 0 <= i < leaves.len() implies #[trigger] model::link_at(after, leaves, i) by {
        assert(model::link_at(pages, leaves, i));
    }
}

/// The entry can stand in a leaf.
pub open spec fn entry_ok(e: LeafEntry) -> bool {
    &&& e.wf()
    &&& codec::key_len(e.item().0) <= MAX_KEY_LEN
    &&& 0 < e.raw@.len() <= MAX_LEAF_ENTRY
    &&& e.raw@.len() == node::leaf_len(e.item())
}

/// A leaf that takes an entry without being split.
proof fn lemma_leaf_added(
    pages: Seq<PageView>,
    after: Seq<PageView>,
    t: Tree,
    item: Item,
    lo: Option<Key>,
    hi: Option<Key>,
    leaves: Seq<PageId>,
    off: int,
)
    requires
        t is Leaf,
        model::tree_ok(pages, t, lo, hi),
        stands_at(pages, t, leaves, off),
        model::above(lo, item.0),
        model::below(hi, item.0),
        after.len() == pages.len(),
        forall|p: int| 0 <= p < pages.len() && p != t.id() ==> #[trigger] after[p] == pages[p],
        ({
            let p = pages[t.id() as int];
            let q = after[t.id() as int];
            &&& node::leaf_page(q)
            &&& node::left_of(q) == node::left_of(p)
            &&& node::right_of(q) == node::right_of(p)
            &&& node::bag(q.slots) == node::bag(p.slots).insert(item)
        }),
    ensures
        ({
            let u = Tree::Leaf { id: t.id(), bag: model::bag_of(t).insert(item) };
            grown(pages, after, t, item, lo, hi, leaves, off, seq![u], Seq::empty())
        }),
{
    let id = t.id();
    let u = Tree::Leaf { id, bag: model::bag_of(t).insert(item) };
    model::lemma_one(u);
    assert(model::tree_ok(after, u, lo, hi));
    assert forall|p: PageId| p < pages.len() && !model::ids_of(t).contains(p) implies #[trigger] model::same_node(
        pages[p as int],
        after[p as int],
    ) by {
        assert(p != id);
    }
    assert(leaves[off] == leaves.subrange(off, off + 1)[0]);
    assert(spliced_leaves(leaves, off, t, seq![u]) =~= leaves);
    reveal(model::linked);
    assert forall|i: int, l: Option<PageId>, r: Option<PageId>|
        0 <= i < leaves.len() && #[trigger] model::linked(pages[leaves[i] as int], l, r)
        implies model::linked(after[leaves[i] as int], l, r) by {
        assert(model::link_at(pages, leaves, i));
        if leaves[i] != id {
            assert(after[leaves[i] as int] == pages[leaves[i] as int]);
        }
    }
    lemma_chain_kept(pages, after, leaves);
}

/// What the entries of a leaf are with one more among them.
proof fn lemma_entries_with(
    before: Seq<LeafEntry>,
    at: int,
    e: LeafEntry,
    lo: Option<Key>,
    hi: Option<Key>,
    bag: Multiset<Item>,
)
    requires
        0 <= at <= before.len(),
        node::leaf_entries_ok(before),
        entry_ok(e),
        node::items(before).to_multiset() == bag,
        forall|x: Item| #[trigger] bag.count(x) > 0 ==> model::above(lo, x.0) && model::below(hi, x.0),
        model::above(lo, e.item().0),
        model::below(hi, e.item().0),
    ensures
        node::leaf_entries_ok(before.insert(at, e)),
        entries_within(before.insert(at, e), lo, hi),
{
    let entries = before.insert(at, e);
    assert forall|i: int| 0 <= i < entries.len() implies {
        &&& entry_ok(#[trigger] entries[i])
        &&& model::above(lo, entries[i].item().0)
        &&& model::below(hi, entries[i].item().0)
    } by {
        if i != at {
            let j = if i < at {
                i
            } else {
                i - 1
            };
            assert(entries[i] == before[j]);
            assert(before[j].wf());
            let x = before[j].item();
            assert(node::items(before)[j] == x);
            vstd::seq_lib::to_multiset_contains(node::items(before), x);
            assert(bag.count(x) > 0);
        }
    }
}

/// Gives a leaf another left sibling. Used where a split puts new leaves
/// between two siblings.
fn set_leaf_left_sibling(
    bp: &mut BufferPool,
    c_id: ContainerId,
    leaf_id: PageId,
    new_left: Option<PageId>,
)
    requires
        old(bp).wf(),
        leaf_id < old(bp).pages(c_id).len(),
        node::leaf_page(old(bp).pages(c_id)[leaf_id as int]),
    ensures
        final(bp).wf(),
        final(bp).same_but(old(bp), c_id),
        final(bp).pages(c_id).len() == old(bp).pages(c_id).len(),
        forall|p: int|
            0 <= p < old(bp).pages(c_id).len() && p != leaf_id ==> #[trigger] final(bp).pages(c_id)[p]
                == old(bp).pages(c_id)[p],
        model::linked(
            final(bp).pages(c_id)[leaf_id as int],
            new_left,
            node::right_of(old(bp).pages(c_id)[leaf_id as int]),
        ),
        model::same_node(
            old(bp).pages(c_id)[leaf_id as int],
            final(bp).pages(c_id)[leaf_id as int],
        ),
{
    reveal(model::linked);
    if let Ok(page) = bp.get_page_for_write(PageFrameId::new(c_id, leaf_id)) {
        proof {
            node::lemma_leaf_page(page@);
        }
        if let Ok((_, right, _)) = read_leaf_entries(page) {
            set_siblings(page, new_left, right);
        }
    }
}

/// A leaf gave way to the leaves that its entries were spread over.
proof fn lemma_leaf_spread(
    pages: Seq<PageView>,
    spread: Seq<PageView>,
    after: Seq<PageView>,
    t: Tree,
    item: Item,
    lo: Option<Key>,
    hi: Option<Key>,
    leaves: Seq<PageId>,
    off: int,
    us: Seq<Tree>,
    seps: Seq<Key>,
    n: int,
)
    requires
        t is Leaf,
        stands_at(pages, t, leaves, off),
        n >= 1,
        spread.len() == pages.len() + n - 1,
        spread.len() <= u32::MAX,
        forall|p: int| 0 <= p < pages.len() && p != t.id() ==> #[trigger] spread[p] == pages[p],
        model::row_ok(spread, us, seps, lo, hi),
        us.len() == n,
        us[0].id() == t.id(),
        model::bags_of(us) == model::bag_of(t).insert(item),
        model::all_leaves(us) == group_ids(t.id(), pages.len() as int, n),
        forall|p: PageId| #[trigger]
            model::all_ids(us).contains(p) ==> p == t.id() || p >= pages.len(),
        forall|g: int|
            0 <= g < n ==> #[trigger] group_linked(
                spread,
                t.id(),
                pages.len() as int,
                n,
                model::leaf_at(leaves, off - 1),
                model::leaf_at(leaves, off + 1),
                g,
            ),
        after.len() == spread.len(),
        forall|p: int|
            0 <= p < spread.len() && model::leaf_at(leaves, off + 1) != Some(p as PageId)
                ==> #[trigger] after[p] == spread[p],
        off + 1 < leaves.len() ==> {
            let next = leaves[off + 1] as int;
            &&& model::same_node(spread[next], after[next])
            &&& model::linked(
                after[next],
                Some(group_id(t.id(), pages.len() as int, n - 1)),
                model::leaf_at(leaves, off + 2),
            )
        },
    ensures
        grown(pages, after, t, item, lo, hi, leaves, off, us, seps),
{
    let id = t.id();
    let fresh = pages.len() as int;
    assert(leaves[off] == leaves.subrange(off, off + 1)[0]);
    assert(leaves[off] == id);
    assert forall|i: int| 0 <= i < leaves.len() implies #[trigger] leaves[i] < fresh by {
        assert(model::link_at(pages, leaves, i));
    }
    assert forall|p: int| 0 <= p < spread.len() implies #[trigger] model::same_node(spread[p], after[p]) by {
        if off + 1 < leaves.len() && p == leaves[off + 1] {
        } else {
            assert(after[p] == spread[p]);
        }
    }
    model::lemma_row_ids_in_range(spread, us, seps, lo, hi);
    model::lemma_row_frame(spread, after, us, seps, lo, hi);
    assert forall|p: PageId| p < pages.len() && !model::ids_of(t).contains(p) implies #[trigger] model::same_node(
        pages[p as int],
        after[p as int],
    ) by {
        assert(p != id);
        assert(spread[p as int] == pages[p as int]);
        assert(model::same_node(spread[p as int], after[p as int]));
    }
    assert forall|p: PageId|
        p < pages.len() && !model::ids_of(t).contains(p) && !leaves.contains(p)
        implies #[trigger] after[p as int] == pages[p as int] by {
        assert(p != id);
        if off + 1 < leaves.len() {
            assert(leaves.contains(leaves[off + 1]));
        }
        assert(spread[p as int] == pages[p as int]);
    }
    assert forall|g: int| 0 <= g < n implies #[trigger] group_linked(
        after,
        id,
        fresh,
        n,
        model::leaf_at(leaves, off - 1),
        model::leaf_at(leaves, off + 1),
        g,
    ) by {
        assert(group_linked(
            spread,
            id,
            fresh,
            n,
            model::leaf_at(leaves, off - 1),
            model::leaf_at(leaves, off + 1),
            g,
        ));
        let q = group_id(id, fresh, g) as int;
        if off + 1 < leaves.len() {
            assert(leaves[off + 1] != leaves[off]);
        }
        assert(after[q] == spread[q]);
    }
    assert forall|i: int|
        0 <= i < leaves.len() && i != off && i != off + 1 implies after[#[trigger] leaves[i] as int]
        == pages[leaves[i] as int] by {
        assert(leaves[i] != leaves[off]);
        if off + 1 < leaves.len() {
            assert(leaves[i] != leaves[off + 1]);
        }
        let q = leaves[i] as int;
        assert(after[q] == spread[q]);
    }
    lemma_chain_split(pages, after, leaves, off, n);
    assert(leaves.skip(off + model::leaves_of(t).len()) =~= leaves.skip(off + 1));
}

/// The siblings of a leaf, and its sorted entries with one more among them.
pub(crate) fn leaf_entries_with(
    bp: &BufferPool,
    c_id: ContainerId,
    page_id: PageId,
    e: LeafEntry,
    Ghost(t): Ghost<Tree>,
    Ghost(lo): Ghost<Option<Key>>,
    Ghost(hi): Ghost<Option<Key>>,
) -> (r: (Option<PageId>, Option<PageId>, Vec<LeafEntry>))
    requires
        bp.wf(),
        t is Leaf,
        t.id() == page_id,
        model::tree_ok(bp.pages(c_id), t, lo, hi),
        entry_ok(e),
        model::above(lo, e.item().0),
        model::below(hi, e.item().0),
    ensures
        r.0 == node::left_of(bp.pages(c_id)[page_id as int]),
        r.1 == node::right_of(bp.pages(c_id)[page_id as int]),
        node::leaf_entries_ok(r.2@),
        node::sorted(node::items(r.2@)),
        node::items(r.2@).to_multiset() == model::bag_of(t).insert(e.item()),
        entries_within(r.2@, lo, hi),
        1 <= r.2@.len() <= MAX_SLOTS + 1,
        entries_and(bp.pages(c_id)[page_id as int], e, r.2@),
        node::leaf_cuts_of(node::leaf_weights(r.2@)).len() <= 2,
{
    let ghost p = bp.pages(c_id)[page_id as int];
    proof {
        node::lemma_leaf_page(p);
    }
    let (left, right, mut entries) = match bp.get_page_for_read(PageFrameId::new(c_id, page_id)) {
        Ok(page) => match read_leaf_entries(page) {
            Ok(x) => x,
            Err(_) => {
                assert(false);
                (None, None, Vec::new())
            },
        },
        Err(_) => {
            assert(false);
            (None, None, Vec::new())
        },
    };
    let ghost before = entries@;
    proof {
        node::lemma_read_leaf(p, entries@);
    }
    insert_sorted(&mut entries, e);
    proof {
        let at = choose|at: int|
            0 <= at <= before.len() && entries@ == #[trigger] before.insert(at, e);
        assert(node::items(entries@) =~= node::items(before).insert(at, e.item()));
        vstd::seq_lib::to_multiset_insert(node::items(before), at, e.item());
        lemma_entries_with(before, at, e, lo, hi, model::bag_of(t));
        node::lemma_leaf_load(p);
        node::lemma_leaf_cuts(before, at, e);
        assert forall|i: int| 0 <= i < entries@.len() implies (#[trigger] entries@[i]).wf() && (
        entries@[i] == e || node::stored(p.slots, entries@[i].raw@)) by {
            if i < at {
                assert(entries@[i] == before[i]);
            } else if i > at {
                assert(entries@[i] == before[i - 1]);
            }
        }
    }
    (left, right, entries)
}

/// The keys that go up from a leaf are the first keys of its parts.
proof fn lemma_leaf_ups(p: PageView, x: Item, entries: Seq<LeafEntry>, cuts: Seq<usize>)
    requires
        !p.has_room(node::leaf_len(x)),
        node::leaf_entries_ok(entries),
        node::sorted(node::items(entries)),
        node::items(entries).to_multiset() == node::bag(p.slots).insert(x),
        cuts == node::leaf_cuts_of(node::leaf_weights(entries)),
        forall|g: int| 0 <= g < cuts.len() ==> #[trigger] cuts[g] < entries.len(),
    ensures
        need::leaf_ups(p, x).len() == cuts.len(),
        forall|g: int|
            0 <= g < cuts.len() ==> #[trigger] need::leaf_ups(p, x)[g]
                == entries[cuts[g] as int].item().0,
{
    node::lemma_item_weights(entries);
    node::lemma_in_order_with(p.slots, x, node::items(entries));
    assert forall|g: int| 0 <= g < cuts.len() implies #[trigger] need::leaf_ups(p, x)[g]
        == entries[cuts[g] as int].item().0 by {
        assert(cuts[g] < entries.len());
        assert(node::items(entries)[cuts[g] as int] == entries[cuts[g] as int].item());
    }
}

/// The parts of a leaf are leaves, and the keys between them go up.
proof fn lemma_parts_of_leaf(
    p: PageView,
    x: Item,
    us: Seq<Tree>,
    ups: Seq<Key>,
    page_id: PageId,
    fresh: int,
    entries: Seq<LeafEntry>,
    cuts: Seq<usize>,
)
    requires
        leaf_parts(us, ups, page_id, fresh, entries, cuts),
        need::leaf_ups(p, x).len() == cuts.len(),
        forall|g: int|
            0 <= g < cuts.len() ==> #[trigger] need::leaf_ups(p, x)[g]
                == entries[cuts[g] as int].item().0,
    ensures
        model::all_even(us, 1),
        ups == need::leaf_ups(p, x),
{
    assert forall|g: int| 0 <= g < us.len() implies #[trigger] model::even(us[g], 1) by {
        assert(leaf_part(us, page_id, fresh, entries, cuts, g));
    }
    assert(ups =~= need::leaf_ups(p, x));
}

/// The siblings that a leaf names are its neighbours in the chain.
proof fn lemma_neighbours(pages: Seq<PageView>, t: Tree, leaves: Seq<PageId>, off: int)
    requires
        t is Leaf,
        stands_at(pages, t, leaves, off),
    ensures
        0 <= off < leaves.len(),
        leaves[off] == t.id(),
        node::left_of(pages[t.id() as int]) == model::leaf_at(leaves, off - 1),
        node::right_of(pages[t.id() as int]) == model::leaf_at(leaves, off + 1),
        off + 1 < leaves.len() ==> {
            &&& leaves[off + 1] != t.id()
            &&& leaves[off + 1] < pages.len()
            &&& node::leaf_page(pages[leaves[off + 1] as int])
            &&& node::right_of(pages[leaves[off + 1] as int]) == model::leaf_at(leaves, off + 2)
            &&& model::linked(
                pages[leaves[off + 1] as int],
                Some(t.id()),
                model::leaf_at(leaves, off + 2),
            )
        },
{
    assert(leaves[off] == leaves.subrange(off, off + 1)[0]);
    assert(model::link_at(pages, leaves, off));
    reveal(model::linked);
    if off + 1 < leaves.len() {
        assert(model::link_at(pages, leaves, off + 1));
        assert(leaves[off + 1] != leaves[off]);
    }
}

/// Splits a leaf that has no room for an entry, and adds the entry to a part.
fn split_leaf(
    bp: &mut BufferPool,
    c_id: ContainerId,
    page_id: PageId,
    e: LeafEntry,
    Ghost(t): Ghost<Tree>,
    Ghost(lo): Ghost<Option<Key>>,
    Ghost(hi): Ghost<Option<Key>>,
    Ghost(leaves): Ghost<Seq<PageId>>,
    Ghost(off): Ghost<int>,
) -> (r: (Vec<ChildEntry>, Ghost<Seq<Tree>>))
    requires
        old(bp).wf(),
        t is Leaf,
        t.id() == page_id,
        model::tree_ok(old(bp).pages(c_id), t, lo, hi),
        stands_at(old(bp).pages(c_id), t, leaves, off),
        entry_ok(e),
        model::above(lo, e.item().0),
        model::below(hi, e.item().0),
        !old(bp).pages(c_id)[page_id as int].has_room(e.raw@.len()),
        old(bp).pages(c_id).len() + need::leaf_ups(
            old(bp).pages(c_id)[page_id as int],
            e.item(),
        ).len() <= u32::MAX,
    ensures
        final(bp).wf(),
        final(bp).same_but(old(bp), c_id),
        grown(
            old(bp).pages(c_id),
            final(bp).pages(c_id),
            t,
            e.item(),
            lo,
            hi,
            leaves,
            off,
            r.1@,
            sep_keys(r.0@),
        ),
        entries_lead_to(r.0@, r.1@),
        r.0@.len() <= 2,
        sep_keys(r.0@) == need::leaf_ups(old(bp).pages(c_id)[page_id as int], e.item()),
        final(bp).pages(c_id).len() == old(bp).pages(c_id).len() + r.0@.len(),
        model::roots(r.1@) == model::all_leaves(r.1@),
        model::roots(r.1@) == group_ids(
            page_id,
            old(bp).pages(c_id).len() as int,
            r.1@.len() as int,
        ),
        model::all_even(r.1@, 1),
        exists|all: Seq<LeafEntry>| #[trigger]
            entries_and(old(bp).pages(c_id)[page_id as int], e, all) && leaf_parts(
                r.1@,
                sep_keys(r.0@),
                page_id,
                old(bp).pages(c_id).len() as int,
                all,
                node::leaf_cuts_of(node::leaf_weights(all)),
            ),
{
    let ghost pages = bp.pages(c_id);
    let ghost item = e.item();
    let (left, right, entries) = leaf_entries_with(
        bp,
        c_id,
        page_id,
        e,
        Ghost(t),
        Ghost(lo),
        Ghost(hi),
    );
    let ws: Vec<usize> = weights_of_leaf(&entries);
    let cuts: Vec<usize> = leaf_cut_points(&ws);
    proof {
        lemma_leaf_ups(pages[page_id as int], item, entries@, cuts@);
    }
    let (news, us) = spread_leaf(
        bp,
        c_id,
        page_id,
        left,
        right,
        &entries,
        &cuts,
        Ghost(lo),
        Ghost(hi),
    );
    let ghost spread = bp.pages(c_id);
    let ghost n = cuts@.len() as int + 1;
    proof {
        lemma_neighbours(pages, t, leaves, off);
    }
    if cuts.len() > 0 {
        if let Some(next) = right {
            let last: PageId = news[news.len() - 1].child;
            assert(last == model::roots(us@)[us@.len() - 1]);
            set_leaf_left_sibling(bp, c_id, next, Some(last));
        }
    }
    proof {
        let after = bp.pages(c_id);
        lemma_leaf_spread(pages, spread, after, t, item, lo, hi, leaves, off, us@, sep_keys(news@), n);
        let fresh = pages.len() as int;
        lemma_parts_of_leaf(
            pages[page_id as int],
            item,
            us@,
            sep_keys(news@),
            page_id,
            fresh,
            entries@,
            cuts@,
        );
        assert(entries_and(pages[page_id as int], e, entries@));
    }
    (news, us)
}

/// Adds an entry to a leaf. A leaf without room for it is split.
pub fn insert_into_leaf(
    bp: &mut BufferPool,
    c_id: ContainerId,
    page_id: PageId,
    e: LeafEntry,
    Ghost(t): Ghost<Tree>,
    Ghost(lo): Ghost<Option<Key>>,
    Ghost(hi): Ghost<Option<Key>>,
    Ghost(leaves): Ghost<Seq<PageId>>,
    Ghost(off): Ghost<int>,
) -> (r: (Vec<ChildEntry>, Ghost<Seq<Tree>>))
    requires
        old(bp).wf(),
        t is Leaf,
        t.id() == page_id,
        model::tree_ok(old(bp).pages(c_id), t, lo, hi),
        stands_at(old(bp).pages(c_id), t, leaves, off),
        entry_ok(e),
        model::above(lo, e.item().0),
        model::below(hi, e.item().0),
        old(bp).pages(c_id).len() + need::leaf_ups(
            old(bp).pages(c_id)[page_id as int],
            e.item(),
        ).len() <= u32::MAX,
    ensures
        final(bp).wf(),
        final(bp).same_but(old(bp), c_id),
        grown(
            old(bp).pages(c_id),
            final(bp).pages(c_id),
            t,
            e.item(),
            lo,
            hi,
            leaves,
            off,
            r.1@,
            sep_keys(r.0@),
        ),
        entries_lead_to(r.0@, r.1@),
        r.0@.len() <= 2,
        sep_keys(r.0@) == need::leaf_ups(old(bp).pages(c_id)[page_id as int], e.item()),
        final(bp).pages(c_id).len() == old(bp).pages(c_id).len() + r.0@.len(),
        model::roots(r.1@) == model::all_leaves(r.1@),
        model::roots(r.1@) == group_ids(
            page_id,
            old(bp).pages(c_id).len() as int,
            r.1@.len() as int,
        ),
        model::all_even(r.1@, 1),
        ({
            let before = old(bp).pages(c_id)[page_id as int];
            if before.has_room(e.raw@.len()) {
                &&& r.0@.len() == 0
                &&& final(bp).pages(c_id)[page_id as int] == before.with_value(e.raw@)
            } else {
                exists|all: Seq<LeafEntry>| #[trigger]
                    entries_and(before, e, all) && leaf_parts(
                        r.1@,
                        sep_keys(r.0@),
                        page_id,
                        old(bp).pages(c_id).len() as int,
                        all,
                        node::leaf_cuts_of(node::leaf_weights(all)),
                    )
            }
        }),
{
    let ghost pages = bp.pages(c_id);
    let ghost item = e.item();
    let added: bool = match bp.get_page_for_write(PageFrameId::new(c_id, page_id)) {
        Ok(page) => add_to_leaf(page, &e),
        Err(_) => false,
    };
    if added {
        let news: Vec<ChildEntry> = Vec::new();
        let ghost u = Tree::Leaf { id: page_id, bag: model::bag_of(t).insert(item) };
        proof {
            lemma_leaf_added(pages, bp.pages(c_id), t, item, lo, hi, leaves, off);
            assert(sep_keys(news@) =~= Seq::<Key>::empty());
            model::lemma_one(u);
            assert(model::roots(seq![u]) =~= seq![page_id]);
            assert(group_ids(page_id, pages.len() as int, 1) =~= seq![page_id]);
        }
        let ghost us = seq![u];
        return (news, Ghost(us));
    }
    assert(bp.pages(c_id) =~= pages);
    split_leaf(
        bp,
        c_id,
        page_id,
        e,
        Ghost(t),
        Ghost(lo),
        Ghost(hi),
        Ghost(leaves),
        Ghost(off),
    )
}

fn weights_of_node(entries: &Vec<ChildEntry>) -> (ws: Vec<usize>)
    requires
        node::child_entries_ok(entries@),
    ensures
        ws@ == node::child_weights(entries@),
{
    let mut ws: Vec<usize> = Vec::new();
    let mut i: usize = 0;
    while i < entries.len()
        invariant
            i <= entries@.len(),
            node::child_entries_ok(entries@),
            ws@.len() == i,
            forall|j: int| 0 <= j < i ==> ws@[j] == node::child_weights(entries@)[j],
        decreases entries@.len() - i,
    {
        assert(entries@[i as int].wf());
        ws.push(entries[i].raw.len() + 4);
        i = i + 1;
    }
    assert(ws@ =~= node::child_weights(entries@));
    ws
}

/// Part `g` of an internal node is an internal node with the children between
/// two cuts, in its page.
pub open spec fn node_part(
    vs: Seq<Tree>,
    first: PageId,
    fresh: int,
    kids: Seq<Tree>,
    seps: Seq<Key>,
    cuts: Seq<usize>,
    g: int,
) -> bool {
    let n = kids.len() as int;
    vs[g] == node_tree(
        group_id(first, fresh, g),
        kids,
        seps,
        node::boundary(cuts, n, g),
        node::boundary(cuts, n, g + 1),
    )
}

/// The children were cut into internal nodes. The separator before the first
/// child of each part but the first goes up, and stays in neither part.
pub open spec fn node_parts(
    vs: Seq<Tree>,
    ups: Seq<Key>,
    first: PageId,
    fresh: int,
    kids: Seq<Tree>,
    seps: Seq<Key>,
    cuts: Seq<usize>,
) -> bool {
    &&& vs.len() == cuts.len() + 1
    &&& ups.len() == cuts.len()
    &&& forall|g: int|
        0 <= g < vs.len() ==> #[trigger] node_part(vs, first, fresh, kids, seps, cuts, g)
    &&& forall|g: int| 0 <= g < ups.len() ==> #[trigger] ups[g] == seps[cuts[g] - 1]
}

/// The children of internal nodes, one node after the other.
pub open spec fn joined_kids(vs: Seq<Tree>) -> Seq<Tree>
    decreases vs.len(),
{
    if vs.len() == 0 {
        Seq::empty()
    } else {
        joined_kids(vs.drop_last()) + vs.last()->kids
    }
}

/// The separators of internal nodes, one node after the other, with the keys
/// that went up between them.
pub open spec fn joined_seps(vs: Seq<Tree>, ups: Seq<Key>) -> Seq<Key>
    decreases vs.len(),
{
    if vs.len() == 0 {
        Seq::empty()
    } else if vs.len() == 1 {
        vs[0]->seps
    } else {
        joined_seps(vs.drop_last(), ups.drop_last()).push(ups.last()) + vs.last()->seps
    }
}

/// Parts are one level deeper than the children that they were made of.
proof fn lemma_parts_deeper(
    vs: Seq<Tree>,
    ups: Seq<Key>,
    first: PageId,
    fresh: int,
    kids: Seq<Tree>,
    seps: Seq<Key>,
    cuts: Seq<usize>,
    ws: Seq<usize>,
    lead: Option<usize>,
)
    requires
        node_parts(vs, ups, first, fresh, kids, seps, cuts),
        node::groups_fit(cuts, ws, lead),
        ws.len() == kids.len(),
    ensures
        adds_level(kids, vs),
{
    assert forall|h: nat| #[trigger] model::all_even(kids, h) && h > 0 implies model::all_even(
        vs,
        h + 1,
    ) by {
        assert forall|g: int| 0 <= g < vs.len() implies #[trigger] model::even(vs[g], h + 1) by {
            let a = node::boundary(cuts, kids.len() as int, g);
            let b = node::boundary(cuts, kids.len() as int, g + 1);
            assert(node_part(vs, first, fresh, kids, seps, cuts, g));
            assert(node::group_fits(cuts, ws, lead, g));
            let part = kids.subrange(a, b);
            assert forall|i: int| 0 <= i < part.len() implies model::even(#[trigger] part[i], h) by {
                assert(model::even(kids[a + i], h));
            }
        }
    }
}

/// A node is as deep as before where a row as deep as its child takes the place
/// of the child.
proof fn lemma_spliced_depth(t: Tree, j: int, us: Seq<Tree>)
    requires
        t is Node,
        0 <= j < t->kids.len(),
        keeps_depth(t->kids[j], us),
    ensures
        forall|h: nat| #[trigger]
            model::even(t, h) ==> h > 1 && model::all_even(
                model::spliced_trees(t->kids, j, us),
                (h - 1) as nat,
            ),
{
    let kids = t->kids;
    let all = model::spliced_trees(kids, j, us);
    assert forall|h: nat| #[trigger] model::even(t, h) implies h > 1 && model::all_even(
        all,
        (h - 1) as nat,
    ) by {
        let m = (h - 1) as nat;
        assert(model::even(kids[j], m));
        assert(model::all_even(us, m));
        assert forall|i: int| 0 <= i < all.len() implies #[trigger] model::even(all[i], m) by {
            if i < j {
                assert(all[i] == kids[i]);
            } else if i < j + us.len() {
                assert(all[i] == us[i - j]);
                assert(model::even(us[i - j], m));
            } else {
                assert(all[i] == kids[i - us.len() + 1]);
            }
        }
    }
}

/// A node whose child grew without being split is as deep as before.
proof fn lemma_kept_depth(t: Tree, j: int, us: Seq<Tree>, v: Tree)
    requires
        t is Node,
        0 <= j < t->kids.len(),
        us.len() == 1,
        keeps_depth(t->kids[j], us),
        v is Node,
        v->kids == model::spliced_trees(t->kids, j, us),
    ensures
        keeps_depth(t, seq![v]),
{
    lemma_spliced_depth(t, j, us);
    assert forall|h: nat| #[trigger] model::even(t, h) implies model::all_even(seq![v], h) by {
        let m = (h - 1) as nat;
        assert forall|i: int| 0 <= i < v->kids.len() implies model::even(#[trigger] v->kids[i], m) by {
            assert(model::even(model::spliced_trees(t->kids, j, us)[i], m));
        }
        assert(model::even(v, h));
    }
}

/// A node whose child was split is as deep as before.
proof fn lemma_split_depth(t: Tree, j: int, us: Seq<Tree>, vs: Seq<Tree>)
    requires
        t is Node,
        0 <= j < t->kids.len(),
        keeps_depth(t->kids[j], us),
        adds_level(model::spliced_trees(t->kids, j, us), vs),
    ensures
        keeps_depth(t, vs),
{
    lemma_spliced_depth(t, j, us);
    assert forall|h: nat| #[trigger] model::even(t, h) implies model::all_even(vs, h) by {
        let m = (h - 1) as nat;
        assert(model::all_even(model::spliced_trees(t->kids, j, us), m));
        assert(m + 1 == h);
    }
}

/// Every child stands in one part, and every separator stands in a part or
/// goes up, all in their order.
proof fn lemma_parts_joined(
    vs: Seq<Tree>,
    ups: Seq<Key>,
    first: PageId,
    fresh: int,
    kids: Seq<Tree>,
    seps: Seq<Key>,
    cuts: Seq<usize>,
    ws: Seq<usize>,
    lead: Option<usize>,
    k: int,
)
    requires
        node_parts(vs, ups, first, fresh, kids, seps, cuts),
        node::groups_fit(cuts, ws, lead),
        ws.len() == kids.len() == seps.len() + 1,
        1 <= k <= vs.len(),
    ensures
        joined_kids(vs.take(k)) == kids.take(node::boundary(cuts, kids.len() as int, k)),
        joined_seps(vs.take(k), ups.take(k - 1)) == seps.take(
            node::boundary(cuts, kids.len() as int, k) - 1,
        ),
    decreases k,
{
    let n = kids.len() as int;
    let a = node::boundary(cuts, n, k - 1);
    let b = node::boundary(cuts, n, k);
    assert(node_part(vs, first, fresh, kids, seps, cuts, k - 1));
    assert(node::group_fits(cuts, ws, lead, k - 1));
    assert(vs.take(k).drop_last() =~= vs.take(k - 1));
    if k > 1 {
        lemma_parts_joined(vs, ups, first, fresh, kids, seps, cuts, ws, lead, k - 1);
        assert(node::group_fits(cuts, ws, lead, k - 2));
        assert(ups.take(k - 1).drop_last() =~= ups.take(k - 2));
        assert(ups.take(k - 1).last() == seps[a - 1]);
        assert(seps.take(b - 1) =~= seps.take(a - 1).push(seps[a - 1]) + seps.subrange(a, b - 1));
    } else {
        assert(joined_kids(vs.take(0)) =~= Seq::<Tree>::empty());
        assert(seps.take(b - 1) =~= seps.subrange(0, b - 1));
    }
    assert(kids.take(b) =~= kids.take(a) + kids.subrange(a, b));
}

/// The children up to `a` stand in `g` internal nodes, which form the row
/// `done`.
#[verifier::opaque]
spec fn node_row(
    pages: Seq<PageView>,
    first: PageId,
    fresh: int,
    kids: Seq<Tree>,
    seps: Seq<Key>,
    lo: Option<Key>,
    hi: Option<Key>,
    g: int,
    a: int,
    news: Seq<ChildEntry>,
    done: Seq<Tree>,
) -> bool {
    &&& done.len() == g
    &&& g > 0 ==> {
        &&& 0 < a
        &&& model::row_ok(pages, done, sep_keys(news), lo, model::high(seps, hi, a - 1))
        &&& entries_lead_to(news, done)
        &&& done[0].id() == first
    }
    &&& g == 0 ==> news.len() == 0
    &&& model::bags_of(done) == model::bags_of(kids.take(a))
    &&& model::all_leaves(done) == model::all_leaves(kids.take(a))
    &&& forall|p: PageId| #[trigger]
        model::all_ids(done).contains(p) ==> {
            ||| p == first && g > 0
            ||| fresh <= p < pages.len()
            ||| model::all_ids(kids.take(a)).contains(p)
        }
}

/// The parts of a row share no page.
proof fn lemma_parts_disjoint(
    pages: Seq<PageView>,
    kids: Seq<Tree>,
    seps: Seq<Key>,
    lo: Option<Key>,
    hi: Option<Key>,
    a: int,
    b: int,
)
    requires
        model::row_ok(pages, kids, seps, lo, hi),
        0 <= a <= b <= kids.len(),
    ensures
        model::all_ids(kids.take(a)).disjoint(model::all_ids(kids.subrange(a, b))),
        model::all_ids(kids.take(a)).subset_of(model::all_ids(kids)),
        model::all_ids(kids.subrange(a, b)).subset_of(model::all_ids(kids)),
{
    let x = kids.take(a);
    let y = kids.subrange(a, b);
    assert forall|p: PageId| #[trigger] model::all_ids(x).contains(p) implies model::all_ids(
        kids,
    ).contains(p) && !model::all_ids(y).contains(p) by {
        model::lemma_all_ids(x, p);
        let i = choose|i: int| 0 <= i < x.len() && model::ids_of(#[trigger] x[i]).contains(p);
        model::lemma_all_ids(kids, p);
        assert(model::ids_of(kids[i]).contains(p));
        model::lemma_all_ids(y, p);
        if model::all_ids(y).contains(p) {
            let j = choose|j: int| 0 <= j < y.len() && model::ids_of(#[trigger] y[j]).contains(p);
            assert(y[j] == kids[a + j]);
            assert(model::ids_of(kids[i]).disjoint(model::ids_of(kids[a + j])));
        }
    }
    assert forall|p: PageId| #[trigger] model::all_ids(y).contains(p) implies model::all_ids(
        kids,
    ).contains(p) by {
        model::lemma_all_ids(y, p);
        let j = choose|j: int| 0 <= j < y.len() && model::ids_of(#[trigger] y[j]).contains(p);
        model::lemma_all_ids(kids, p);
        assert(y[j] == kids[a + j]);
    }
}

/// The children from `a` up to `b` as an internal node.
pub open spec fn node_tree(id: PageId, kids: Seq<Tree>, seps: Seq<Key>, a: int, b: int) -> Tree {
    Tree::Node { id, seps: seps.subrange(a, b - 1), kids: kids.subrange(a, b) }
}

/// A page with the children from `a` up to `b` holds an internal node.
proof fn lemma_node_tree(
    pages: Seq<PageView>,
    after: Seq<PageView>,
    id: PageId,
    kids: Seq<Tree>,
    seps: Seq<Key>,
    lo: Option<Key>,
    hi: Option<Key>,
    a: int,
    b: int,
)
    requires
        model::row_ok(pages, kids, seps, lo, hi),
        0 <= a < b <= kids.len(),
        id < after.len(),
        !model::all_ids(kids).contains(id),
        forall|p: PageId| #[trigger]
            model::all_ids(kids).contains(p) ==> p < after.len() && after[p as int] == pages[p as int],
        node::node_page(
            after[id as int],
            seps.subrange(a, b - 1),
            model::roots(kids.subrange(a, b)),
        ),
    ensures
        model::tree_ok(
            after,
            node_tree(id, kids, seps, a, b),
            model::low(seps, lo, a),
            model::high(seps, hi, b - 1),
        ),
{
    model::lemma_row_part(pages, kids, seps, lo, hi, a, b);
    lemma_parts_disjoint(pages, kids, seps, lo, hi, a, b);
    model::lemma_row_frame(
        pages,
        after,
        kids.subrange(a, b),
        seps.subrange(a, b - 1),
        model::low(seps, lo, a),
        model::high(seps, hi, b - 1),
    );
}

/// One more internal node takes the children from `a` up to `b`.
proof fn lemma_node_row_step(
    pages: Seq<PageView>,
    here: Seq<PageView>,
    after: Seq<PageView>,
    first: PageId,
    kids: Seq<Tree>,
    seps: Seq<Key>,
    lo: Option<Key>,
    hi: Option<Key>,
    g: int,
    a: int,
    b: int,
    news: Seq<ChildEntry>,
    done: Seq<Tree>,
    entry: ChildEntry,
)
    requires
        model::row_ok(pages, kids, seps, lo, hi),
        node_row(here, first, pages.len() as int, kids, seps, lo, hi, g, a, news, done),
        0 <= g,
        g == 0 ==> a == 0,
        0 <= a < b <= kids.len(),
        first < pages.len() <= here.len(),
        !model::all_ids(kids).contains(first),
        after.len() <= u32::MAX,
        g == 0 ==> after.len() == here.len(),
        g > 0 ==> here.len() == pages.len() + g - 1 && after.len() == here.len() + 1,
        forall|p: int| 0 <= p < pages.len() && p != first ==> #[trigger] here[p] == pages[p],
        forall|p: int|
            0 <= p < here.len() && p != group_id(first, pages.len() as int, g) ==> #[trigger] after[p]
                == here[p],
        node::node_page(
            after[group_id(first, pages.len() as int, g) as int],
            seps.subrange(a, b - 1),
            model::roots(kids.subrange(a, b)),
        ),
        g > 0 ==> {
            &&& entry.wf()
            &&& entry.raw@.len() == node::child_len(entry.pointer().0)
            &&& entry.pointer() == (Some(seps[a - 1]), group_id(first, pages.len() as int, g))
            &&& codec::key_len(seps[a - 1]) <= MAX_KEY_LEN
        },
    ensures
        node_row(
            after,
            first,
            pages.len() as int,
            kids,
            seps,
            lo,
            hi,
            g + 1,
            b,
            if g > 0 {
                news.push(entry)
            } else {
                news
            },
            done.push(node_tree(group_id(first, pages.len() as int, g), kids, seps, a, b)),
        ),
{
    reveal(node_row);
    let fresh = pages.len() as int;
    let id = group_id(first, fresh, g);
    let part = kids.subrange(a, b);
    let t = node_tree(id, kids, seps, a, b);
    let next = done.push(t);
    model::lemma_row_ids_in_range(pages, kids, seps, lo, hi);
    assert(!model::all_ids(kids).contains(id));
    assert forall|p: PageId| #[trigger] model::all_ids(kids).contains(p) implies p < after.len()
        && after[p as int] == pages[p as int] by {
        assert(p != id && p != first);
        assert(after[p as int] == here[p as int]);
    }
    lemma_node_tree(pages, after, id, kids, seps, lo, hi, a, b);
    lemma_parts_disjoint(pages, kids, seps, lo, hi, a, b);
    assert(kids.take(b) =~= kids.take(a) + part);
    model::lemma_concat(kids.take(a), part);
    model::lemma_push(done, t);
    assert(model::bags_of(next) =~= model::bags_of(kids.take(b)));
    assert(model::all_leaves(next) =~= model::all_leaves(kids.take(b)));
    assert(model::ids_of(t) == model::all_ids(part).insert(id));
    assert forall|p: PageId| #[trigger] model::all_ids(next).contains(p) implies {
        ||| p == first
        ||| fresh <= p < after.len()
        ||| model::all_ids(kids.take(b)).contains(p)
    } by {
        if !model::all_ids(done).contains(p) {
            assert(model::ids_of(t).contains(p));
        }
    }
    if g > 0 {
        let sep = seps[a - 1];
        let more = news.push(entry);
        assert(sep_keys(more) =~= sep_keys(news).push(sep));
        assert forall|p: PageId| #[trigger] model::all_ids(done).contains(p) implies p < after.len()
            && p != id && model::same_node(here[p as int], after[p as int])
            && !model::ids_of(t).contains(p) by {
            if model::all_ids(kids.take(a)).contains(p) {
                assert(model::all_ids(kids).contains(p));
            } else {
                assert(!model::all_ids(kids).contains(p));
            }
        }
        model::lemma_row_frame(
            here,
            after,
            done,
            sep_keys(news),
            lo,
            model::high(seps, hi, a - 1),
        );
        assert(model::above(lo, sep));
        assert(model::below(model::high(seps, hi, b - 1), sep)) by {
            if b - 1 < seps.len() {
                assert(field::key_upto(seps[a - 1], seps[b - 1]));
            }
        }
        model::lemma_row_push(
            after,
            done,
            sep_keys(news),
            lo,
            model::high(seps, hi, b - 1),
            sep,
            t,
        );
        lemma_lead_push(news, done, entry, t);
    } else {
        assert(sep_keys(news) =~= Seq::<Key>::empty());
        assert(next =~= seq![t]);
    }
}

/// Makes a page of the pool an internal node with the entries from `a` up to
/// `b`.
fn write_node_page(
    bp: &mut BufferPool,
    c_id: ContainerId,
    id: PageId,
    entries: &Vec<ChildEntry>,
    a: usize,
    b: usize,
)
    requires
        old(bp).wf(),
        id < old(bp).pages(c_id).len(),
        a < b <= entries@.len(),
        node::child_entries_ok(entries@),
        FIRST_ENTRY_ROOM + node::span(node::child_weights(entries@), a + 1, b as int) <= NODE_ROOM,
    ensures
        final(bp).wf(),
        final(bp).same_but(old(bp), c_id),
        final(bp).pages(c_id).len() == old(bp).pages(c_id).len(),
        forall|p: int|
            0 <= p < old(bp).pages(c_id).len() && p != id ==> #[trigger] final(bp).pages(c_id)[p]
                == old(bp).pages(c_id)[p],
        node::node_page(
            final(bp).pages(c_id)[id as int],
            node::seps_between(entries@, a as int, b as int),
            node::kids_between(entries@, a as int, b as int),
        ),
{
    if let Ok(page) = bp.get_page_for_write(PageFrameId::new(c_id, id)) {
        write_internal(page, entries, a, b);
    }
}

/// Spreads child pointers, cut into groups, over the page `first` and as many
/// new pages as there are cuts.
fn spread_node(
    bp: &mut BufferPool,
    c_id: ContainerId,
    first: PageId,
    entries: &Vec<ChildEntry>,
    cuts: &Vec<usize>,
    Ghost(kids): Ghost<Seq<Tree>>,
    Ghost(lo): Ghost<Option<Key>>,
    Ghost(hi): Ghost<Option<Key>>,
) -> (r: (Vec<ChildEntry>, Ghost<Seq<Tree>>))
    requires
        old(bp).wf(),
        first < old(bp).pages(c_id).len(),
        entries@.len() >= 1,
        node::child_entries_ok(entries@),
        model::row_ok(
            old(bp).pages(c_id),
            kids,
            node::seps_between(entries@, 0, entries@.len() as int),
            lo,
            hi,
        ),
        model::roots(kids) == node::kids_between(entries@, 0, entries@.len() as int),
        !model::all_ids(kids).contains(first),
        node::groups_fit(cuts@, node::child_weights(entries@), Some(FIRST_ENTRY_ROOM)),
        old(bp).pages(c_id).len() + cuts@.len() <= u32::MAX,
    ensures
        final(bp).wf(),
        final(bp).same_but(old(bp), c_id),
        final(bp).pages(c_id).len() == old(bp).pages(c_id).len() + cuts@.len(),
        forall|p: int|
            0 <= p < old(bp).pages(c_id).len() && p != first ==> #[trigger] final(bp).pages(c_id)[p]
                == old(bp).pages(c_id)[p],
        model::row_ok(final(bp).pages(c_id), r.1@, sep_keys(r.0@), lo, hi),
        r.0@.len() == cuts@.len(),
        entries_lead_to(r.0@, r.1@),
        r.1@[0].id() == first,
        model::bags_of(r.1@) == model::bags_of(kids),
        model::all_leaves(r.1@) == model::all_leaves(kids),
        node_parts(
            r.1@,
            sep_keys(r.0@),
            first,
            old(bp).pages(c_id).len() as int,
            kids,
            node::seps_between(entries@, 0, entries@.len() as int),
            cuts@,
        ),
        adds_level(kids, r.1@),
        forall|p: PageId| #[trigger]
            model::all_ids(r.1@).contains(p) ==> {
                ||| p == first
                ||| p >= old(bp).pages(c_id).len()
                ||| model::all_ids(kids).contains(p)
            },
{
    let n: usize = entries.len();
    let k: usize = cuts.len();
    let ghost pages = bp.pages(c_id);
    let ghost ws = node::child_weights(entries@);
    let ghost seps = node::seps_between(entries@, 0, n as int);
    let fresh: PageId = bp.num_pages(c_id);
    let mut news: Vec<ChildEntry> = Vec::new();
    let ghost mut done: Seq<Tree> = Seq::empty();
    let mut a: usize = 0;
    let mut g: usize = 0;
    proof {
        assert(model::roots(kids).len() == kids.len());
        assert(kids.take(0) =~= Seq::<Tree>::empty());
        reveal(node_row);
    }
    while g <= k
        invariant
            n == entries@.len(),
            k == cuts@.len(),
            n >= 1,
            kids.len() == n,
            first < fresh,
            fresh == pages.len(),
            fresh + k <= u32::MAX,
            ws == node::child_weights(entries@),
            ws.len() == n,
            seps == node::seps_between(entries@, 0, n as int),
            node::child_entries_ok(entries@),
            model::row_ok(pages, kids, seps, lo, hi),
            model::roots(kids) == node::kids_between(entries@, 0, n as int),
            !model::all_ids(kids).contains(first),
            node::groups_fit(cuts@, ws, Some(FIRST_ENTRY_ROOM)),
            g <= k + 1,
            a == node::boundary(cuts@, n as int, g as int),
            a <= n,
            bp.wf(),
            bp.same_but(old(bp), c_id),
            bp.pages(c_id).len() == fresh + (if g == 0 {
                0
            } else {
                g - 1
            }),
            forall|p: int|
                0 <= p < fresh && p != first ==> #[trigger] bp.pages(c_id)[p] == pages[p],
            g == 0 ==> a == 0,
            g > 0 ==> a > 0,
            node_row(
                bp.pages(c_id),
                first,
                fresh as int,
                kids,
                seps,
                lo,
                hi,
                g as int,
                a as int,
                news@,
                done,
            ),
            done.len() == g,
            news@.len() == (if g == 0 {
                0
            } else {
                g - 1
            }),
            forall|h: int|
                0 <= h < g ==> #[trigger] node_part(
                    done,
                    first,
                    fresh as int,
                    kids,
                    seps,
                    cuts@,
                    h,
                ),
            forall|h: int| 0 <= h < news@.len() ==> #[trigger] sep_keys(news@)[h] == seps[cuts@[h] - 1],
        decreases k + 1 - g,
    {
        let b: usize = if g < k {
            cuts[g]
        } else {
            n
        };
        let ghost here = bp.pages(c_id);
        let ghost older = done;
        proof {
            assert(node::group_fits(cuts@, ws, Some(FIRST_ENTRY_ROOM), g as int));
            assert(b == node::boundary(cuts@, n as int, g + 1));
        }
        let id: PageId = if g == 0 {
            first
        } else {
            match bp.create_new_page_for_write(c_id) {
                Ok(id) => id,
                Err(_) => 0,
            }
        };
        assert(id == group_id(first, fresh as int, g as int));
        write_node_page(bp, c_id, id, entries, a, b);
        let ghost after = bp.pages(c_id);
        proof {
            assert(node::seps_between(entries@, a as int, b as int) =~= seps.subrange(
                a as int,
                b - 1,
            ));
            assert(node::kids_between(entries@, a as int, b as int) =~= model::roots(
                kids.subrange(a as int, b as int),
            )) by {
                assert forall|i: int| 0 <= i < b - a implies kids.subrange(a as int, b as int)[i].id()
                    == entries@[a + i].child by {
                    assert(model::roots(kids)[a + i] == node::kids_between(entries@, 0, n as int)[a + i]);
                }
            }
            assert(entries@[a as int].wf());
        }
        let key: IndexKey = match &entries[a].key {
            Some(key) => field::duplicate_fields(key),
            None => Vec::new(),
        };
        if g > 0 {
            let entry = new_child_entry(key, id);
            proof {
                lemma_node_row_step(
                    pages,
                    here,
                    after,
                    first,
                    kids,
                    seps,
                    lo,
                    hi,
                    g as int,
                    a as int,
                    b as int,
                    news@,
                    done,
                    entry,
                );
                done = done.push(node_tree(id, kids, seps, a as int, b as int));
            }
            let ghost fewer = news@;
            news.push(entry);
            assert(sep_keys(news@) =~= sep_keys(fewer).push(seps[a - 1]));
        } else {
            proof {
                lemma_node_row_step(
                    pages,
                    here,
                    after,
                    first,
                    kids,
                    seps,
                    lo,
                    hi,
                    0,
                    a as int,
                    b as int,
                    news@,
                    done,
                    entries@[0],
                );
                done = done.push(node_tree(id, kids, seps, a as int, b as int));
            }
        }
        assert forall|h: int| 0 <= h < g + 1 implies #[trigger] node_part(
            done,
            first,
            fresh as int,
            kids,
            seps,
            cuts@,
            h,
        ) by {
            if h < g {
                assert(node_part(older, first, fresh as int, kids, seps, cuts@, h));
            }
        }
        a = b;
        g = g + 1;
    }
    proof {
        reveal(node_row);
        assert(node::boundary(cuts@, n as int, k + 1) == n);
        assert(kids.take(n as int) =~= kids);
        lemma_parts_deeper(
            done,
            sep_keys(news@),
            first,
            fresh as int,
            kids,
            seps,
            cuts@,
            ws,
            Some(FIRST_ENTRY_ROOM),
        );
    }
    (news, Ghost(done))
}

/// A child of an internal node grew into a row, and the node with it.
proof fn lemma_node_grown(
    pages: Seq<PageView>,
    mid: Seq<PageView>,
    after: Seq<PageView>,
    t: Tree,
    item: Item,
    lo: Option<Key>,
    hi: Option<Key>,
    leaves: Seq<PageId>,
    off: int,
    j: int,
    us: Seq<Tree>,
    news: Seq<Key>,
    vs: Seq<Tree>,
    seps: Seq<Key>,
)
    requires
        t is Node,
        model::tree_ok(pages, t, lo, hi),
        stands_at(pages, t, leaves, off),
        0 <= j < t->kids.len(),
        grown(
            pages,
            mid,
            t->kids[j],
            item,
            model::low(t->seps, lo, j),
            model::high(t->seps, hi, j),
            leaves,
            off + model::all_leaves(t->kids.take(j)).len(),
            us,
            news,
        ),
        model::row_ok(after, vs, seps, lo, hi),
        vs[0].id() == t.id(),
        model::bags_of(vs) == model::bags_of(model::spliced_trees(t->kids, j, us)),
        model::all_leaves(vs) == model::all_leaves(model::spliced_trees(t->kids, j, us)),
        forall|p: PageId| #[trigger]
            model::all_ids(vs).contains(p) ==> {
                ||| p == t.id()
                ||| p >= mid.len()
                ||| model::all_ids(model::spliced_trees(t->kids, j, us)).contains(p)
            },
        after.len() >= mid.len(),
        forall|p: int| 0 <= p < mid.len() && p != t.id() ==> #[trigger] after[p] == mid[p],
    ensures
        grown(pages, after, t, item, lo, hi, leaves, off, vs, seps),
{
    let id = t.id();
    let kids = t->kids;
    let kid = kids[j];
    model::lemma_row_splice(pages, mid, kids, t->seps, lo, hi, j, us, news);
    // The items.
    let all = model::spliced_trees(kids, j, us);
    let want = model::bag_of(t).insert(item);
    assert forall|x: Item| model::bags_of(vs).count(x) == want.count(x) by {
        assert(model::bags_of(all).add(model::bag_of(kid)).count(x) == model::bags_of(kids).add(
            model::bags_of(us),
        ).count(x));
    }
    assert(model::bags_of(vs) =~= want);
    // The pages.
    assert forall|p: PageId| p < pages.len() && !model::ids_of(t).contains(p) implies #[trigger] model::same_node(
        pages[p as int],
        after[p as int],
    ) by {
        assert(p != id);
        assert(!model::ids_of(kid).contains(p)) by {
            model::lemma_all_ids(kids, p);
        }
        assert(model::same_node(pages[p as int], mid[p as int]));
        assert(after[p as int] == mid[p as int]);
    }
    assert forall|p: PageId|
        p < pages.len() && !model::ids_of(t).contains(p) && !leaves.contains(p)
        implies #[trigger] after[p as int] == pages[p as int] by {
        assert(p != id);
        assert(!model::ids_of(kid).contains(p)) by {
            model::lemma_all_ids(kids, p);
        }
        assert(mid[p as int] == pages[p as int]);
    }
    // The leaves.
    let m = model::all_leaves(kids.take(j));
    let l = model::leaves_of(kid);
    let r = model::all_leaves(kids.skip(j + 1));
    let n = model::leaves_of(t).len();
    let chained = spliced_leaves(leaves, off + m.len(), kid, us);
    let part = leaves.subrange(off, off + n);
    assert(part == m + l + r);
    assert forall|i: int| 0 <= i < m.len() implies leaves[off + i] == m[i] by {
        assert(part[i] == m[i]);
    }
    assert forall|i: int| 0 <= i < r.len() implies leaves[off + m.len() + l.len() + i] == r[i] by {
        assert(part[m.len() + l.len() + i] == r[i]);
    }
    assert(leaves.take(off + m.len()) =~= leaves.take(off) + m);
    assert(leaves.skip((off + m.len()) + l.len()) =~= r + leaves.skip(off + n));
    assert(spliced_leaves(leaves, off, t, vs) =~= chained);
    // No leaf stands where the node does.
    node::lemma_one_kind(pages[id as int], t->seps, model::roots(kids));
    assert(model::same_node(pages[id as int], mid[id as int])) by {
        model::lemma_all_ids(kids, id);
    }
    assert forall|i: int, a: Option<PageId>, b: Option<PageId>|
        0 <= i < chained.len() && #[trigger] model::linked(mid[chained[i] as int], a, b)
        implies model::linked(after[chained[i] as int], a, b) by {
        assert(model::link_at(mid, chained, i));
        reveal(model::linked);
        assert(chained[i] != id);
        assert(after[chained[i] as int] == mid[chained[i] as int]);
    }
    lemma_chain_kept(mid, after, chained);
}

/// These are the child pointers of an internal node with new ones behind
/// position `j`.
pub open spec fn entries_and_news(
    p: PageView,
    j: int,
    news: Seq<ChildEntry>,
    all: Seq<ChildEntry>,
) -> bool {
    exists|old: Seq<ChildEntry>| #[trigger]
        node::lists(p.slots, old) && all == old.take(j + 1) + news + old.skip(j + 1)
}

/// Separators among which others were put stand in order themselves.
proof fn lemma_spliced_ascend(seps: Seq<Key>, j: int, news: Seq<Key>)
    requires
        0 <= j <= seps.len(),
        node::seps_ascend(model::spliced_seps(seps, j, news)),
    ensures
        node::seps_ascend(seps),
{
    let all = model::spliced_seps(seps, j, news);
    assert forall|a: int, b: int| 0 <= a <= b < seps.len() implies field::key_upto(
        #[trigger] seps[a],
        #[trigger] seps[b],
    ) by {
        let x = if a < j {
            a
        } else {
            a + news.len()
        };
        let y = if b < j {
            b
        } else {
            b + news.len()
        };
        assert(all[x] == seps[a] && all[y] == seps[b]);
    }
}

/// What the child pointers of an internal node hold, once new ones were put
/// behind position `j`.
proof fn lemma_entries_spliced(
    old: Seq<ChildEntry>,
    all: Seq<ChildEntry>,
    entries: Seq<ChildEntry>,
    seps: Seq<Key>,
    kids: Seq<PageId>,
    us: Seq<Tree>,
    j: int,
)
    requires
        node::child_entries_ok(old),
        old.len() == kids.len() == seps.len() + 1,
        node::seps_between(old, 0, old.len() as int) == seps,
        node::kids_between(old, 0, old.len() as int) == kids,
        0 <= j < old.len(),
        entries_lead_to(all, us),
        entries == old.take(j + 1) + all + old.skip(j + 1),
    ensures
        node::child_entries_ok(entries),
        node::seps_between(entries, 0, entries.len() as int) == model::spliced_seps(
            seps,
            j,
            sep_keys(all),
        ),
        node::kids_between(entries, 0, entries.len() as int) == kids.take(j + 1) + model::roots(
            us,
        ).skip(1) + kids.skip(j + 1),
{
    let n = entries.len() as int;
    let k = all.len() as int;
    assert(entries =~= old.take(j + 1) + all + old.skip(j + 1));
    assert forall|i: int| 0 <= i < n implies #[trigger] entries[i] == (if i <= j {
        old[i]
    } else if i <= j + k {
        all[i - j - 1]
    } else {
        old[i - k]
    }) by {}
    assert(node::child_entries_ok(entries)) by {
        assert forall|i: int| 0 <= i < n implies {
            &&& (#[trigger] entries[i]).wf()
            &&& entries[i].raw@.len() == node::child_len(entries[i].pointer().0)
            &&& entries[i].key is Some ==> codec::key_len(entries[i].pointer().0->0) <= MAX_KEY_LEN
            &&& i > 0 ==> entries[i].key is Some
        } by {
            if i <= j {
                assert(old[i].wf());
            } else if i <= j + k {
                assert(all[i - j - 1].wf());
            } else {
                assert(old[i - k].wf());
            }
        }
    }
    let got = node::seps_between(entries, 0, n);
    let want = model::spliced_seps(seps, j, sep_keys(all));
    assert(node::seps_between(old, 0, old.len() as int) == seps);
    assert(got.len() == want.len());
    assert forall|i: int| 0 <= i < got.len() implies got[i] == want[i] by {
        assert(got[i] == entries[i + 1].pointer().0->0);
        if i < j {
            assert(seps[i] == node::seps_between(old, 0, old.len() as int)[i]);
        } else if i >= j + k {
            assert(seps[i - k] == node::seps_between(old, 0, old.len() as int)[i - k]);
        } else {
            assert(want[i] == sep_keys(all)[i - j]);
        }
    }
    assert(got =~= want);
    let got_kids = node::kids_between(entries, 0, n);
    let want_kids = kids.take(j + 1) + model::roots(us).skip(1) + kids.skip(j + 1);
    assert(node::kids_between(old, 0, old.len() as int) == kids);
    assert(got_kids.len() == want_kids.len());
    assert forall|i: int| 0 <= i < n implies got_kids[i] == want_kids[i] by {
        assert(got_kids[i] == entries[i].child);
        if i <= j {
            assert(kids[i] == node::kids_between(old, 0, old.len() as int)[i]);
        } else if i > j + k {
            assert(kids[i - k] == node::kids_between(old, 0, old.len() as int)[i - k]);
        } else {
            assert(all[i - j - 1].child == us[i - j].id());
        }
    }
    assert(got_kids =~= want_kids);
}

/// The entries of an internal node with new ones behind position `j`.
fn entries_with(
    bp: &BufferPool,
    c_id: ContainerId,
    page_id: PageId,
    j: usize,
    news: Vec<ChildEntry>,
    Ghost(seps): Ghost<Seq<Key>>,
    Ghost(kids): Ghost<Seq<PageId>>,
    Ghost(us): Ghost<Seq<Tree>>,
) -> (r: Vec<ChildEntry>)
    requires
        bp.wf(),
        page_id < bp.pages(c_id).len(),
        node::node_page(bp.pages(c_id)[page_id as int], seps, kids),
        node::seps_ascend(seps),
        j < kids.len(),
        entries_lead_to(news@, us),
        news@.len() <= MAX_SLOTS,
    ensures
        node::child_entries_ok(r@),
        1 <= r@.len() <= 2 * MAX_SLOTS,
        r@[0].key is None,
        entries_and_news(bp.pages(c_id)[page_id as int], j as int, news@, r@),
        node::cuts_of(node::child_weights(r@), Some(FIRST_ENTRY_ROOM)).len() <= news@.len(),
        node::seps_between(r@, 0, r@.len() as int) == model::spliced_seps(
            seps,
            j as int,
            sep_keys(news@),
        ),
        node::kids_between(r@, 0, r@.len() as int) == kids.take(j + 1) + model::roots(us).skip(1)
            + kids.skip(j + 1),
{
    let ghost p = bp.pages(c_id)[page_id as int];
    proof {
        node::lemma_node_page(p, seps, kids);
    }
    let mut entries: Vec<ChildEntry> = match bp.get_page_for_read(PageFrameId::new(c_id, page_id)) {
        Ok(page) => match read_internal_entries(page) {
            Ok(v) => v,
            Err(_) => {
                assert(false);
                Vec::new()
            },
        },
        Err(_) => {
            assert(false);
            Vec::new()
        },
    };
    proof {
        node::lemma_read_node(p, seps, kids, entries@);
    }
    let ghost old = entries@;
    let ghost all = news@;
    let mut rest: Vec<ChildEntry> = news;
    assert(entries@ =~= old.take(j + 1) + all.skip(all.len() as int) + old.skip(j + 1));
    while rest.len() > 0
        invariant
            j < old.len() <= MAX_SLOTS,
            rest@.len() <= all.len(),
            rest@ == all.take(rest@.len() as int),
            entries@ == old.take(j + 1) + all.skip(rest@.len() as int) + old.skip(j + 1),
        decreases rest@.len(),
    {
        let ghost m = rest@.len() as int;
        let ghost here = entries@;
        if let Some(e) = rest.pop() {
            entries.insert(j + 1, e);
            proof {
                assert(e == all[m - 1]);
                assert(all.skip(m - 1) =~= seq![e] + all.skip(m));
                assert(entries@ =~= old.take(j + 1) + all.skip(m - 1) + old.skip(j + 1));
                assert(rest@ =~= all.take(m - 1));
            }
        }
    }
    proof {
        assert(all.skip(0) =~= all);
        lemma_entries_spliced(old, all, entries@, seps, kids, us, j as int);
        node::lemma_node_cuts(old, j as int, all);
        assert(node::lists(p.slots, old));
    }
    entries
}

/// Room that the entries take, one by one, leaves space for the first one.
proof fn lemma_child_weights(entries: Seq<ChildEntry>)
    requires
        node::child_entries_ok(entries),
    ensures
        forall|i: int|
            0 <= i < entries.len() ==> #[trigger] node::child_weights(entries)[i] <= NODE_ROOM
                && FIRST_ENTRY_ROOM + node::child_weights(entries)[i] <= NODE_ROOM,
{
    assert forall|i: int| 0 <= i < entries.len() implies #[trigger] node::child_weights(entries)[i]
        <= NODE_ROOM && FIRST_ENTRY_ROOM + node::child_weights(entries)[i] <= NODE_ROOM by {
        assert(entries[i].wf());
    }
}

/// The keys at the cuts are those that go up.
proof fn lemma_ups(ups: Seq<Key>, seps: Seq<Key>, ws: Seq<usize>, cuts: Seq<usize>)
    requires
        ws == node::sep_weights(seps),
        cuts == node::cuts_of(ws, Some(FIRST_ENTRY_ROOM)),
        ups.len() == cuts.len(),
        forall|g: int| 0 <= g < ups.len() ==> #[trigger] ups[g] == seps[cuts[g] - 1],
    ensures
        ups == need::node_ups(seps),
{
    assert(ups =~= need::node_ups(seps));
}

/// The pages of children, one of which gave way to a row.
proof fn lemma_spliced_roots(kids: Seq<Tree>, j: int, us: Seq<Tree>)
    requires
        0 <= j < kids.len(),
        us.len() >= 1,
        us[0].id() == kids[j].id(),
    ensures
        model::roots(model::spliced_trees(kids, j, us)) == model::roots(kids).take(j + 1)
            + model::roots(us).skip(1) + model::roots(kids).skip(j + 1),
{
    let got = model::roots(model::spliced_trees(kids, j, us));
    let want = model::roots(kids).take(j + 1) + model::roots(us).skip(1) + model::roots(kids).skip(
        j + 1,
    );
    assert(got.len() == want.len());
    assert forall|i: int| 0 <= i < got.len() implies got[i] == want[i] by {}
    assert(got =~= want);
}

/// What the parts of an internal node are.
proof fn lemma_node_split(
    after: Seq<PageView>,
    vs: Seq<Tree>,
    ups: Seq<Key>,
    page_id: PageId,
    fresh: int,
    kids: Seq<Tree>,
    seps: Seq<Key>,
    cuts: Seq<usize>,
    ws: Seq<usize>,
    lo: Option<Key>,
    hi: Option<Key>,
)
    requires
        model::row_ok(after, vs, ups, lo, hi),
        node_parts(vs, ups, page_id, fresh, kids, seps, cuts),
        node::groups_fit(cuts, ws, Some(FIRST_ENTRY_ROOM)),
        ws == node::sep_weights(seps),
        cuts == node::cuts_of(ws, Some(FIRST_ENTRY_ROOM)),
        ws.len() == kids.len() == seps.len() + 1,
    ensures
        ups == need::node_ups(seps),
        forall|g: int| 0 <= g < vs.len() ==> #[trigger] vs[g] is Node,
        joined_kids(vs) == kids,
        joined_seps(vs, ups) == seps,
        ups.len() == 0 ==> node::node_page(after[page_id as int], seps, model::roots(kids)),
{
    let n = vs.len() as int;
    lemma_parts_joined(vs, ups, page_id, fresh, kids, seps, cuts, ws, Some(FIRST_ENTRY_ROOM), n);
    lemma_ups(ups, seps, ws, cuts);
    assert(vs.take(n) =~= vs);
    assert(ups.take(n - 1) =~= ups);
    assert(kids.take(kids.len() as int) =~= kids);
    assert(seps.take(seps.len() as int) =~= seps);
    assert forall|g: int| 0 <= g < vs.len() implies #[trigger] vs[g] is Node by {
        assert(node_part(vs, page_id, fresh, kids, seps, cuts, g));
    }
    if ups.len() == 0 {
        assert(node_part(vs, page_id, fresh, kids, seps, cuts, 0));
        assert(kids.subrange(0, kids.len() as int) =~= kids);
        assert(seps.subrange(0, seps.len() as int) =~= seps);
        assert(model::tree_ok(after, vs[0], model::low(ups, lo, 0), model::high(ups, hi, 0)));
    }
}

/// Puts new child pointers behind the one at position `j`. A node without room
/// for them is split; the keys between the parts go up to the parent.
pub fn insert_into_internal(
    bp: &mut BufferPool,
    c_id: ContainerId,
    page_id: PageId,
    j: usize,
    news: Vec<ChildEntry>,
    Ghost(t): Ghost<Tree>,
    Ghost(us): Ghost<Seq<Tree>>,
    Ghost(lo): Ghost<Option<Key>>,
    Ghost(hi): Ghost<Option<Key>>,
) -> (r: (Vec<ChildEntry>, Ghost<Seq<Tree>>))
    requires
        old(bp).wf(),
        t is Node,
        t.id() == page_id,
        page_id < old(bp).pages(c_id).len(),
        node::node_page(
            old(bp).pages(c_id)[page_id as int],
            t->seps,
            model::roots(t->kids),
        ),
        j < t->kids.len(),
        entries_lead_to(news@, us),
        us[0].id() == t->kids[j as int].id(),
        news@.len() <= MAX_SLOTS,
        model::row_ok(
            old(bp).pages(c_id),
            model::spliced_trees(t->kids, j as int, us),
            model::spliced_seps(t->seps, j as int, sep_keys(news@)),
            lo,
            hi,
        ),
        !model::all_ids(model::spliced_trees(t->kids, j as int, us)).contains(page_id),
        old(bp).pages(c_id).len() + need::node_ups(
            model::spliced_seps(t->seps, j as int, sep_keys(news@)),
        ).len() <= u32::MAX,
    ensures
        final(bp).wf(),
        final(bp).same_but(old(bp), c_id),
        final(bp).pages(c_id).len() == old(bp).pages(c_id).len() + r.0@.len(),
        forall|p: int|
            0 <= p < old(bp).pages(c_id).len() && p != page_id ==> #[trigger] final(bp).pages(c_id)[p]
                == old(bp).pages(c_id)[p],
        model::row_ok(final(bp).pages(c_id), r.1@, sep_keys(r.0@), lo, hi),
        r.0@.len() <= news@.len(),
        sep_keys(r.0@) == need::node_ups(
            model::spliced_seps(t->seps, j as int, sep_keys(news@)),
        ),
        entries_lead_to(r.0@, r.1@),
        r.1@[0].id() == page_id,
        exists|all: Seq<ChildEntry>| #[trigger]
            entries_and_news(old(bp).pages(c_id)[page_id as int], j as int, news@, all)
                && node_parts(
                r.1@,
                sep_keys(r.0@),
                page_id,
                old(bp).pages(c_id).len() as int,
                model::spliced_trees(t->kids, j as int, us),
                model::spliced_seps(t->seps, j as int, sep_keys(news@)),
                node::cuts_of(node::child_weights(all), Some(FIRST_ENTRY_ROOM)),
            ),
        forall|g: int| 0 <= g < r.1@.len() ==> #[trigger] r.1@[g] is Node,
        adds_level(model::spliced_trees(t->kids, j as int, us), r.1@),
        joined_kids(r.1@) == model::spliced_trees(t->kids, j as int, us),
        joined_seps(r.1@, sep_keys(r.0@)) == model::spliced_seps(
            t->seps,
            j as int,
            sep_keys(news@),
        ),
        r.0@.len() == 0 ==> node::node_page(
            final(bp).pages(c_id)[page_id as int],
            model::spliced_seps(t->seps, j as int, sep_keys(news@)),
            model::roots(model::spliced_trees(t->kids, j as int, us)),
        ),
        model::bags_of(r.1@) == model::bags_of(model::spliced_trees(t->kids, j as int, us)),
        model::all_leaves(r.1@) == model::all_leaves(model::spliced_trees(t->kids, j as int, us)),
        forall|p: PageId| #[trigger]
            model::all_ids(r.1@).contains(p) ==> {
                ||| p == page_id
                ||| p >= old(bp).pages(c_id).len()
                ||| model::all_ids(model::spliced_trees(t->kids, j as int, us)).contains(p)
            },
{
    let ghost pages = bp.pages(c_id);
    let ghost kids = model::spliced_trees(t->kids, j as int, us);
    let ghost seps = model::spliced_seps(t->seps, j as int, sep_keys(news@));
    let ghost roots = model::roots(t->kids);
    proof {
        assert(node::seps_ascend(seps));
        assert(t->seps.len() + 1 == t->kids.len()) by {
            reveal(node::node_page);
        }
        lemma_spliced_ascend(t->seps, j as int, sep_keys(news@));
    }
    let entries: Vec<ChildEntry> = entries_with(
        bp,
        c_id,
        page_id,
        j,
        news,
        Ghost(t->seps),
        Ghost(roots),
        Ghost(us),
    );
    proof {
        lemma_spliced_roots(t->kids, j as int, us);
        lemma_child_weights(entries@);
        node::lemma_sep_weights(entries@);
    }
    let ws: Vec<usize> = weights_of_node(&entries);
    let cuts: Vec<usize> = cut_points(&ws, Some(FIRST_ENTRY_ROOM));
    assert(need::node_ups(seps).len() == cuts@.len());
    let (more, vs) = spread_node(
        bp,
        c_id,
        page_id,
        &entries,
        &cuts,
        Ghost(kids),
        Ghost(lo),
        Ghost(hi),
    );
    proof {
        lemma_node_split(
            bp.pages(c_id),
            vs@,
            sep_keys(more@),
            page_id,
            pages.len() as int,
            kids,
            seps,
            cuts@,
            ws@,
            lo,
            hi,
        );
    }
    (more, vs)
}

/// Adds an entry below the page. Returns entries that lead to the nodes that
/// the page was split off, none if it was not split.
pub fn insert_recursive(
    bp: &mut BufferPool,
    c_id: ContainerId,
    page_id: PageId,
    e: LeafEntry,
    Ghost(t): Ghost<Tree>,
    Ghost(lo): Ghost<Option<Key>>,
    Ghost(hi): Ghost<Option<Key>>,
    Ghost(leaves): Ghost<Seq<PageId>>,
    Ghost(off): Ghost<int>,
) -> (r: (Vec<ChildEntry>, Ghost<Seq<Tree>>))
    requires
        old(bp).wf(),
        t.id() == page_id,
        model::tree_ok(old(bp).pages(c_id), t, lo, hi),
        stands_at(old(bp).pages(c_id), t, leaves, off),
        entry_ok(e),
        model::above(lo, e.item().0),
        model::below(hi, e.item().0),
        old(bp).pages(c_id).len() + need::pages_below(old(bp).pages(c_id), t, e.item()) <= u32::MAX,
    ensures
        final(bp).wf(),
        final(bp).same_but(old(bp), c_id),
        grown(
            old(bp).pages(c_id),
            final(bp).pages(c_id),
            t,
            e.item(),
            lo,
            hi,
            leaves,
            off,
            r.1@,
            sep_keys(r.0@),
        ),
        entries_lead_to(r.0@, r.1@),
        r.0@.len() <= 2,
        sep_keys(r.0@) == need::ups_of(old(bp).pages(c_id), t, e.item()),
        final(bp).pages(c_id).len() == old(bp).pages(c_id).len() + need::pages_below(
            old(bp).pages(c_id),
            t,
            e.item(),
        ),
        need::pages_below(old(bp).pages(c_id), t, e.item()) <= 2 * model::path_len(t, e.item().0),
        keeps_depth(t, r.1@),
    decreases t,
{
    let ghost pages = bp.pages(c_id);
    let ghost item = e.item();
    let (j, child): (usize, PageId) = match next_child(
        bp,
        c_id,
        page_id,
        &e.key,
        Ghost(t),
        Ghost(lo),
        Ghost(hi),
    ) {
        Some(x) => x,
        None => {
            return insert_into_leaf(
                bp,
                c_id,
                page_id,
                e,
                Ghost(t),
                Ghost(lo),
                Ghost(hi),
                Ghost(leaves),
                Ghost(off),
            );
        },
    };
    let ghost kids = t->kids;
    let ghost seps = t->seps;
    let ghost kid = kids[j as int];
    let ghost klo = model::low(seps, lo, j as int);
    let ghost khi = model::high(seps, hi, j as int);
    let ghost koff = off + model::all_leaves(kids.take(j as int)).len();
    proof {
        lemma_child_stands_at(pages, t, leaves, off, j as int);
        lemma_child_bounds(seps, lo, hi, item.0);
    }
    let (news, us) = insert_recursive(
        bp,
        c_id,
        child,
        e,
        Ghost(kid),
        Ghost(klo),
        Ghost(khi),
        Ghost(leaves),
        Ghost(koff),
    );
    let ghost mid = bp.pages(c_id);
    let ghost ns = sep_keys(news@);
    proof {
        lemma_child_grown(pages, mid, t, item, lo, hi, leaves, koff, j as int, us@, ns);
    }
    if news.len() == 0 {
        let ghost v = Tree::Node { id: page_id, seps, kids: model::spliced_trees(kids, j as int, us@) };
        let ghost vs = seq![v];
        proof {
            assert(ns =~= Seq::<Key>::empty());
            lemma_node_kept(pages, mid, t, item, lo, hi, leaves, off, j as int, us@);
            lemma_kept_depth(t, j as int, us@, v);
        }
        return (news, Ghost(vs));
    }
    let (more, vs) = insert_into_internal(
        bp,
        c_id,
        page_id,
        j,
        news,
        Ghost(t),
        us,
        Ghost(lo),
        Ghost(hi),
    );
    proof {
        lemma_node_grown(
            pages,
            mid,
            bp.pages(c_id),
            t,
            item,
            lo,
            hi,
            leaves,
            off,
            j as int,
            us@,
            ns,
            vs@,
            sep_keys(more@),
        );
        lemma_split_depth(t, j as int, us@, vs@);
    }
    (more, vs)
}

/// What holds of an internal node, one child of which grew into a row.
proof fn lemma_child_grown(
    pages: Seq<PageView>,
    mid: Seq<PageView>,
    t: Tree,
    item: Item,
    lo: Option<Key>,
    hi: Option<Key>,
    leaves: Seq<PageId>,
    koff: int,
    j: int,
    us: Seq<Tree>,
    ns: Seq<Key>,
)
    requires
        t is Node,
        model::tree_ok(pages, t, lo, hi),
        0 <= j < t->kids.len(),
        grown(
            pages,
            mid,
            t->kids[j],
            item,
            model::low(t->seps, lo, j),
            model::high(t->seps, hi, j),
            leaves,
            koff,
            us,
            ns,
        ),
    ensures
        model::row_ok(
            mid,
            model::spliced_trees(t->kids, j, us),
            model::spliced_seps(t->seps, j, ns),
            lo,
            hi,
        ),
        !model::all_ids(model::spliced_trees(t->kids, j, us)).contains(t.id()),
        t.id() < mid.len(),
        node::node_page(mid[t.id() as int], t->seps, model::roots(t->kids)),
{
    let id = t.id();
    let kids = t->kids;
    model::lemma_row_splice(pages, mid, kids, t->seps, lo, hi, j, us, ns);
    node::lemma_one_kind(pages[id as int], t->seps, model::roots(kids));
    assert(!model::ids_of(kids[j]).contains(id)) by {
        model::lemma_all_ids(kids, id);
    }
    assert(model::same_node(pages[id as int], mid[id as int]));
}

/// A child of an internal node grew without being split.
proof fn lemma_node_kept(
    pages: Seq<PageView>,
    mid: Seq<PageView>,
    t: Tree,
    item: Item,
    lo: Option<Key>,
    hi: Option<Key>,
    leaves: Seq<PageId>,
    off: int,
    j: int,
    us: Seq<Tree>,
)
    requires
        t is Node,
        model::tree_ok(pages, t, lo, hi),
        stands_at(pages, t, leaves, off),
        0 <= j < t->kids.len(),
        us.len() == 1,
        grown(
            pages,
            mid,
            t->kids[j],
            item,
            model::low(t->seps, lo, j),
            model::high(t->seps, hi, j),
            leaves,
            off + model::all_leaves(t->kids.take(j)).len(),
            us,
            Seq::empty(),
        ),
    ensures
        ({
            let v = Tree::Node {
                id: t.id(),
                seps: t->seps,
                kids: model::spliced_trees(t->kids, j, us),
            };
            grown(pages, mid, t, item, lo, hi, leaves, off, seq![v], Seq::empty())
        }),
{
    let ns = Seq::<Key>::empty();
    let all = model::spliced_trees(t->kids, j, us);
    let v = Tree::Node { id: t.id(), seps: t->seps, kids: all };
    let koff = off + model::all_leaves(t->kids.take(j)).len();
    lemma_child_grown(pages, mid, t, item, lo, hi, leaves, koff, j, us, ns);
    assert(model::spliced_seps(t->seps, j, ns) =~= t->seps);
    assert(model::roots(all) =~= model::roots(t->kids));
    assert(model::tree_ok(mid, v, lo, hi));
    model::lemma_one(v);
    assert(model::row_ok(mid, seq![v], ns, lo, hi));
    lemma_node_grown(pages, mid, mid, t, item, lo, hi, leaves, off, j, us, ns, seq![v], ns);
}

/// The child to follow from a node for `key`, and its position; `None` at a
/// leaf.
pub fn next_child(
    bp: &BufferPool,
    c_id: ContainerId,
    page_id: PageId,
    key: &[Field],
    Ghost(t): Ghost<Tree>,
    Ghost(lo): Ghost<Option<Key>>,
    Ghost(hi): Ghost<Option<Key>>,
) -> (r: Option<(usize, PageId)>)
    requires
        bp.wf(),
        t.id() == page_id,
        model::tree_ok(bp.pages(c_id), t, lo, hi),
    ensures
        match r {
            None => t is Leaf,
            Some((j, child)) => {
                &&& t is Node
                &&& j == model::child_index(t->seps, field::views(key@))
                &&& j < t->kids.len()
                &&& child == t->kids[j as int].id()
            },
        },
{
    let ghost p = bp.pages(c_id)[page_id as int];
    proof {
        match t {
            Tree::Leaf { id, bag } => {
                node::lemma_leaf_page(p);
            },
            Tree::Node { id, seps, kids } => {
                node::lemma_node_page(p, seps, model::roots(kids));
            },
        }
    }
    match bp.get_page_for_read(PageFrameId::new(c_id, page_id)) {
        Ok(page) => match read_is_leaf(page) {
            Ok(true) => None,
            _ => match read_internal_entries(page) {
                Ok(entries) => {
                    proof {
                        assert(t is Node);
                        node::lemma_read_node(p, t->seps, model::roots(t->kids), entries@);
                    }
                    let j: usize = find_child(&entries, key);
                    proof {
                        lemma_found_child(
                            t->seps,
                            model::roots(t->kids),
                            entries@,
                            j as int,
                            field::views(key@),
                        );
                    }
                    Some((j, entries[j].child))
                },
                Err(_) => {
                    assert(false);
                    None
                },
            },
        },
        Err(_) => {
            assert(false);
            None
        },
    }
}

/// The child that was found is the one that a descent follows.
pub proof fn lemma_found_child(
    seps: Seq<Key>,
    kids: Seq<PageId>,
    entries: Seq<ChildEntry>,
    j: int,
    key: Key,
)
    requires
        entries.len() == kids.len() == seps.len() + 1,
        node::seps_between(entries, 0, entries.len() as int) == seps,
        node::kids_between(entries, 0, entries.len() as int) == kids,
        node::child_entries_ok(entries),
        0 <= j < entries.len(),
        forall|i: int|
            1 <= i <= j ==> (#[trigger] entries[i].pointer().0 matches Some(k) ==> field::key_upto(
                k,
                key,
            )),
        j + 1 < entries.len() ==> {
            &&& entries[j + 1].pointer().0 matches Some(k)
            &&& field::key_before(key, k)
        },
    ensures
        j == model::child_index(seps, key),
        entries[j].child == kids[j],
{
    let got = node::seps_between(entries, 0, entries.len() as int);
    assert(got.len() == seps.len());
    assert forall|i: int| 0 <= i < j implies field::key_upto(#[trigger] seps[i], key) by {
        assert(seps[i] == got[i]);
        assert(entries[i + 1].wf());
        assert(entries[i + 1].pointer().0 == Some(seps[i]));
    }
    if j < seps.len() {
        assert(seps[j] == got[j]);
        assert(entries[j + 1].wf());
    }
    model::lemma_child_index(seps, key, j);
    assert(kids[j] == node::kids_between(entries, 0, entries.len() as int)[j]);
}

/// The child to follow stands among the leaves behind those before it.
proof fn lemma_child_stands_at(
    pages: Seq<PageView>,
    t: Tree,
    leaves: Seq<PageId>,
    off: int,
    j: int,
)
    requires
        t is Node,
        stands_at(pages, t, leaves, off),
        0 <= j < t->kids.len(),
    ensures
        stands_at(pages, t->kids[j], leaves, off + model::all_leaves(t->kids.take(j)).len()),
{
    let kids = t->kids;
    let kid = kids[j];
    let before = kids.take(j);
    let behind = kids.skip(j + 1);
    assert(kids =~= before + seq![kid] + behind);
    model::lemma_concat(before + seq![kid], behind);
    model::lemma_concat(before, seq![kid]);
    model::lemma_one(kid);
    let m = model::all_leaves(before);
    let l = model::leaves_of(kid);
    let part = leaves.subrange(off, off + model::leaves_of(t).len());
    assert(part == m + l + model::all_leaves(behind));
    let got = leaves.subrange(off + m.len(), off + m.len() + l.len());
    assert forall|i: int| 0 <= i < l.len() implies got[i] == l[i] by {
        assert(part[m.len() + i] == l[i]);
    }
    assert(got =~= l);
}

/// The key lies between the bounds of the child to follow.
pub proof fn lemma_child_bounds(seps: Seq<Key>, lo: Option<Key>, hi: Option<Key>, key: Key)
    requires
        model::above(lo, key),
        model::below(hi, key),
    ensures
        model::above(model::low(seps, lo, model::child_index(seps, key)), key),
        model::below(model::high(seps, hi, model::child_index(seps, key)), key),
{
    model::lemma_child_index_is(seps, key);
}

/// The leftmost entry of an internal node.
fn first_child_entry(child: PageId) -> (r: ChildEntry)
    ensures
        r.wf(),
        r.raw@.len() == node::child_len(r.pointer().0),
        r.key is None,
        r.child == child,
{
    let entry = NodeEntry::Internal { key: None, child };
    proof {
        codec::lemma_entry_len(entry@);
    }
    let raw: Vec<u8> = match encode(&entry) {
        Ok(b) => b,
        Err(_) => Vec::new(),
    };
    ChildEntry { key: None, child, raw }
}

/// The row that `entries`, behind a first child, leads to, as the entries of
/// an internal node.
fn entries_of_row(root: PageId, news: Vec<ChildEntry>, Ghost(us): Ghost<Seq<Tree>>) -> (r: Vec<
    ChildEntry,
>)
    requires
        entries_lead_to(news@, us),
        us[0].id() == root,
    ensures
        node::child_entries_ok(r@),
        r@[0].key is None,
        r@.len() == news@.len() + 1,
        node::seps_between(r@, 0, r@.len() as int) == sep_keys(news@),
        node::kids_between(r@, 0, r@.len() as int) == model::roots(us),
{
    let first = first_child_entry(root);
    let mut entries: Vec<ChildEntry> = news;
    entries.insert(0, first);
    proof {
        let n = entries@.len() as int;
        assert forall|i: int| 0 <= i < n implies #[trigger] entries@[i] == (if i == 0 {
            first
        } else {
            news@[i - 1]
        }) by {}
        assert forall|i: int| 0 <= i < n implies {
            &&& (#[trigger] entries@[i]).wf()
            &&& entries@[i].raw@.len() == node::child_len(entries@[i].pointer().0)
            &&& entries@[i].key is Some ==> codec::key_len(entries@[i].pointer().0->0) <= MAX_KEY_LEN
            &&& i > 0 ==> entries@[i].key is Some
        } by {
            if i > 0 {
                assert(news@[i - 1].wf());
            }
        }
        let seps = node::seps_between(entries@, 0, n);
        assert(seps =~= sep_keys(news@));
        let kids = node::kids_between(entries@, 0, n);
        assert forall|i: int| 0 <= i < n implies kids[i] == model::roots(us)[i] by {
            assert(kids[i] == entries@[i].child);
            if i > 0 {
                assert(news@[i - 1].child == us[i].id());
            }
        }
        assert(kids =~= model::roots(us));
    }
    entries
}

/// New pages that it takes at most to put one root above a row that `m` entries
/// lead to.
pub open spec fn pages_above(m: nat) -> nat {
    if m == 0 {
        0
    } else {
        (2 * m - 1) as nat
    }
}

/// The row `row` is `levels` levels deeper than the row `us`.
pub open spec fn adds_levels(us: Seq<Tree>, row: Seq<Tree>, levels: nat) -> bool {
    forall|h: nat| #[trigger] model::all_even(us, h) && h > 0 ==> model::all_even(row, h + levels)
}

/// One more level on top of others.
proof fn lemma_adds_levels(us: Seq<Tree>, row: Seq<Tree>, vs: Seq<Tree>, levels: nat)
    requires
        adds_levels(us, row, levels),
        adds_level(row, vs),
    ensures
        adds_levels(us, vs, levels + 1),
{
    assert forall|h: nat| #[trigger] model::all_even(us, h) && h > 0 implies model::all_even(
        vs,
        h + (levels + 1) as nat,
    ) by {
        assert(model::all_even(row, h + levels));
        assert((h + levels) + 1 == h + (levels + 1) as nat);
    }
}

/// Puts a level of internal nodes above a row.
fn raise_level(
    bp: &mut BufferPool,
    c_id: ContainerId,
    root: PageId,
    rest: Vec<ChildEntry>,
    Ghost(row): Ghost<Seq<Tree>>,
) -> (r: (PageId, Vec<ChildEntry>, Ghost<Seq<Tree>>))
    requires
        old(bp).wf(),
        0 < rest@.len() <= MAX_SLOTS,
        model::row_ok(old(bp).pages(c_id), row, sep_keys(rest@), None, None),
        entries_lead_to(rest@, row),
        row[0].id() == root,
        old(bp).pages(c_id).len() + 1 + need::node_ups(sep_keys(rest@)).len() <= u32::MAX,
    ensures
        final(bp).wf(),
        final(bp).same_but(old(bp), c_id),
        sep_keys(r.1@) == need::node_ups(sep_keys(rest@)),
        2 * r.1@.len() <= rest@.len(),
        final(bp).pages(c_id).len() == old(bp).pages(c_id).len() + 1 + r.1@.len(),
        forall|p: int|
            0 <= p < old(bp).pages(c_id).len() ==> #[trigger] final(bp).pages(c_id)[p] == old(bp).pages(
                c_id,
            )[p],
        model::row_ok(final(bp).pages(c_id), r.2@, sep_keys(r.1@), None, None),
        entries_lead_to(r.1@, r.2@),
        r.2@[0].id() == r.0,
        adds_level(row, r.2@),
        model::bags_of(r.2@) == model::bags_of(row),
        model::all_leaves(r.2@) == model::all_leaves(row),
        forall|p: PageId| #[trigger]
            model::all_ids(r.2@).contains(p) ==> model::all_ids(row).contains(p) || p >= old(
                bp,
            ).pages(c_id).len(),
{
    let ghost here = bp.pages(c_id);
    let ghost seps = sep_keys(rest@);
    let entries: Vec<ChildEntry> = entries_of_row(root, rest, Ghost(row));
    proof {
        node::lemma_sep_weights(entries@);
        assert(seps.len() == rest@.len());
    }
    let first: PageId = match bp.create_new_page_for_write(c_id) {
        Ok(id) => id,
        Err(_) => 0,
    };
    let ghost with_first = bp.pages(c_id);
    proof {
        model::lemma_row_ids_in_range(here, row, seps, None, None);
        model::lemma_row_frame(here, with_first, row, seps, None, None);
        lemma_child_weights(entries@);
    }
    let ws: Vec<usize> = weights_of_node(&entries);
    let cuts: Vec<usize> = cut_points(&ws, Some(FIRST_ENTRY_ROOM));
    assert(need::node_ups(seps).len() == cuts@.len());
    let (more, vs) = spread_node(
        bp,
        c_id,
        first,
        &entries,
        &cuts,
        Ghost(row),
        Ghost(None),
        Ghost(None),
    );
    proof {
        lemma_ups(sep_keys(more@), seps, ws@, cuts@);
    }
    (first, more, vs)
}

/// Puts as many levels of internal nodes above a row as it takes to have one
/// root.
pub fn raise_root(
    bp: &mut BufferPool,
    c_id: ContainerId,
    root: PageId,
    news: Vec<ChildEntry>,
    Ghost(us): Ghost<Seq<Tree>>,
) -> (r: (PageId, Ghost<Tree>))
    requires
        old(bp).wf(),
        model::row_ok(old(bp).pages(c_id), us, sep_keys(news@), None, None),
        entries_lead_to(news@, us),
        us[0].id() == root,
        news@.len() <= MAX_SLOTS,
        old(bp).pages(c_id).len() + need::pages_over(sep_keys(news@)) <= u32::MAX,
    ensures
        final(bp).wf(),
        final(bp).same_but(old(bp), c_id),
        final(bp).pages(c_id).len() == old(bp).pages(c_id).len() + need::pages_over(sep_keys(news@)),
        need::pages_over(sep_keys(news@)) <= pages_above(news@.len()),
        forall|h: nat| #[trigger]
            model::all_even(us, h) && h > 0 ==> {
                &&& model::even(r.1@, model::height(r.1@))
                &&& h <= model::height(r.1@) <= h + news@.len()
            },
        forall|p: int|
            0 <= p < old(bp).pages(c_id).len() ==> #[trigger] final(bp).pages(c_id)[p] == old(bp).pages(
                c_id,
            )[p],
        r.1@.id() == r.0,
        model::tree_ok(final(bp).pages(c_id), r.1@, None, None),
        model::bag_of(r.1@) == model::bags_of(us),
        model::leaves_of(r.1@) == model::all_leaves(us),
        forall|p: PageId| #[trigger]
            model::ids_of(r.1@).contains(p) ==> model::all_ids(us).contains(p) || p
                >= old(bp).pages(c_id).len(),
{
    let ghost pages = bp.pages(c_id);
    let mut root: PageId = root;
    let mut rest: Vec<ChildEntry> = news;
    let ghost mut row: Seq<Tree> = us;
    let ghost mut levels: nat = 0;
    while rest.len() > 0
        invariant
            adds_levels(us, row, levels),
            levels + rest@.len() <= news@.len(),
            pages.len() + need::pages_over(sep_keys(news@)) <= u32::MAX,
            bp.pages(c_id).len() + need::pages_over(sep_keys(rest@)) == pages.len()
                + need::pages_over(sep_keys(news@)),
            bp.pages(c_id).len() + pages_above(rest@.len()) <= pages.len() + pages_above(news@.len()),
            bp.wf(),
            bp.same_but(old(bp), c_id),
            bp.pages(c_id).len() >= pages.len(),
            forall|p: int| 0 <= p < pages.len() ==> #[trigger] bp.pages(c_id)[p] == pages[p],
            model::row_ok(bp.pages(c_id), row, sep_keys(rest@), None, None),
            entries_lead_to(rest@, row),
            row[0].id() == root,
            rest@.len() <= MAX_SLOTS,
            model::bags_of(row) == model::bags_of(us),
            model::all_leaves(row) == model::all_leaves(us),
            forall|p: PageId| #[trigger]
                model::all_ids(row).contains(p) ==> model::all_ids(us).contains(p) || p >= pages.len(),
        decreases rest@.len(),
    {
        proof {
            let keys = sep_keys(rest@);
            assert(keys.len() == rest@.len());
            assert forall|i: int| 0 <= i < keys.len() implies codec::key_len(#[trigger] keys[i])
                <= MAX_KEY_LEN by {
                assert(rest@[i].wf());
            }
            need::lemma_pages_over(keys);
        }
        let (first, more, vs) = raise_level(bp, c_id, root, rest, Ghost(row));
        proof {
            lemma_adds_levels(us, row, vs@, levels);
            row = vs@;
            levels = levels + 1;
        }
        rest = more;
        root = first;
    }
    proof {
        let t = row[0];
        assert(row =~= seq![t]);
        model::lemma_one(t);
        assert(model::low(sep_keys(rest@), None, 0) is None);
        assert(model::high(sep_keys(rest@), None, 0) is None);
        assert forall|h: nat| #[trigger] model::all_even(us, h) && h > 0 implies {
            &&& model::even(t, model::height(t))
            &&& h <= model::height(t) <= h + news@.len()
        } by {
            assert(model::all_even(row, h + levels));
            assert(model::even(row[0], h + levels));
            model::lemma_height(t, h + levels);
        }
    }
    let ghost t = row[0];
    (root, Ghost(t))
}

} // verus!
