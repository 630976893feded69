//! How many new pages an insertion takes, found out before anything changes.
use crate::common::field;
use crate::common::ids::{ContainerId, PageId};
use crate::heapstore::buffer_pool::{BufferPool, PageFrameId};
use crate::heapstore::page::PageView;
use crate::index::codec;
use crate::index::codec::{stored_key_len, IndexKey, Key};
use crate::index::grow;
use crate::index::grow::{leaf_entries_with, next_child, weights_of_leaf};
use crate::index::model;
use crate::index::model::Tree;
use crate::index::node;
use crate::index::node::{
    cut_points, has_room_for, leaf_cut_points, read_internal_entries, ChildEntry, Item, LeafEntry,
    FIRST_ENTRY_ROOM, MAX_KEY_LEN, MAX_SLOTS, NODE_ROOM,
};
use vstd::prelude::*;

verus! {

/// The keys that go up from a leaf that takes an item, one for each new page.
pub open spec fn leaf_ups(p: PageView, x: Item) -> Seq<Key> {
    if p.has_room(node::leaf_len(x)) {
        Seq::empty()
    } else {
        let all = node::in_order_with(p.slots, x);
        let cuts = node::leaf_cuts_of(node::item_weights(all));
        Seq::new(cuts.len(), |g: int| all[cuts[g] as int].0)
    }
}

/// The keys that go up from an internal node with the given separators, one for
/// each new page.
pub open spec fn node_ups(seps: Seq<Key>) -> Seq<Key> {
    let cuts = node::cuts_of(node::sep_weights(seps), Some(FIRST_ENTRY_ROOM));
    Seq::new(cuts.len(), |g: int| seps[cuts[g] - 1])
}

/// The keys that go up from the root of a tree that takes an item.
pub open spec fn ups_of(pages: Seq<PageView>, t: Tree, x: Item) -> Seq<Key>
    decreases t,
{
    match t {
        Tree::Leaf { id, bag } => leaf_ups(pages[id as int], x),
        Tree::Node { id, seps, kids } => {
            let j = model::child_index(seps, x.0);
            if 0 <= j < kids.len() {
                let ups = ups_of(pages, kids[j], x);
                if ups.len() == 0 {
                    ups
                } else {
                    node_ups(model::spliced_seps(seps, j, ups))
                }
            } else {
                Seq::empty()
            }
        },
    }
}

/// New pages that the nodes of a tree are split into when it takes an item.
pub open spec fn pages_below(pages: Seq<PageView>, t: Tree, x: Item) -> nat
    decreases t,
{
    match t {
        Tree::Leaf { id, bag } => leaf_ups(pages[id as int], x).len(),
        Tree::Node { id, seps, kids } => {
            let j = model::child_index(seps, x.0);
            if 0 <= j < kids.len() {
                pages_below(pages, kids[j], x) + ups_of(pages, t, x).len()
            } else {
                0
            }
        },
    }
}

/// New pages that it takes to put one root above a row with the given keys
/// between its trees.
pub open spec fn pages_over(ups: Seq<Key>) -> nat
    decreases ups.len(),
{
    if ups.len() == 0 {
        0
    } else if node_ups(ups).len() < ups.len() {
        1 + node_ups(ups).len() + pages_over(node_ups(ups))
    } else {
        1
    }
}

/// A level above a row takes one page, and one for each key that goes up: at
/// most half of the keys, since a node has room for two children.
pub proof fn lemma_pages_over(ups: Seq<Key>)
    requires
        0 < ups.len() <= 2 * MAX_SLOTS,
        keys_fit(ups),
    ensures
        2 * node_ups(ups).len() <= ups.len(),
        pages_over(ups) == 1 + node_ups(ups).len() + pages_over(node_ups(ups)),
{
    let ws = node::sep_weights(ups);
    let n = ws.len() as int;
    let cuts = Seq::new((ups.len() / 2) as nat, |g: int| (2 * g + 2) as usize);
    let lead = Some(FIRST_ENTRY_ROOM);
    assert(node::groups_fit(cuts, ws, lead)) by {
        assert forall|g: int| 0 <= g <= cuts.len() implies #[trigger] node::group_fits(
            cuts,
            ws,
            lead,
            g,
        ) by {
            lemma_pair_fits(ups, node::boundary(cuts, n, g), node::boundary(cuts, n, g + 1));
        }
    }
    node::lemma_fewest_cuts(ws, lead, cuts);
}

/// One or two children fit in a node.
proof fn lemma_pair_fits(ups: Seq<Key>, a: int, b: int)
    requires
        keys_fit(ups),
        0 <= a < b <= a + 2,
        b <= ups.len() + 1,
    ensures
        node::group_room(node::sep_weights(ups), a, b, Some(FIRST_ENTRY_ROOM)) <= NODE_ROOM,
{
    reveal_with_fuel(node::span, 3);
    if b == a + 2 {
        assert(codec::key_len(ups[a]) <= MAX_KEY_LEN);
    }
}

/// New pages that a tree takes in all when it takes an item.
pub open spec fn pages_for(pages: Seq<PageView>, t: Tree, x: Item) -> nat {
    pages_below(pages, t, x) + pages_over(ups_of(pages, t, x))
}

/// What keys hold.
pub open spec fn key_views(keys: Seq<IndexKey>) -> Seq<Key> {
    Seq::new(keys.len(), |i: int| field::views(keys[i]@))
}

/// No key is too large for a node.
pub open spec fn keys_fit(keys: Seq<Key>) -> bool {
    forall|i: int| 0 <= i < keys.len() ==> codec::key_len(#[trigger] keys[i]) <= MAX_KEY_LEN
}

/// The keys that go up from an internal node with the given separators.
fn cut_keys(seps: &Vec<IndexKey>) -> (r: Vec<IndexKey>)
    requires
        seps@.len() <= 2 * MAX_SLOTS,
        keys_fit(key_views(seps@)),
    ensures
        key_views(r@) == node_ups(key_views(seps@)),
        keys_fit(key_views(r@)),
        2 * r@.len() <= seps@.len(),
{
    let ghost keys = key_views(seps@);
    let mut ws: Vec<usize> = vec![FIRST_ENTRY_ROOM];
    let mut i: usize = 0;
    while i < seps.len()
        invariant
            i <= seps@.len(),
            keys == key_views(seps@),
            keys_fit(keys),
            ws@.len() == i + 1,
            forall|k: int| 0 <= k < i + 1 ==> #[trigger] ws@[k] == node::sep_weights(keys)[k],
            forall|k: int|
                0 <= k < i + 1 ==> FIRST_ENTRY_ROOM + #[trigger] ws@[k] <= NODE_ROOM,
        decreases seps@.len() - i,
    {
        assert(codec::key_len(keys[i as int]) <= MAX_KEY_LEN);
        ws.push(stored_key_len(&seps[i]) + 16);
        i = i + 1;
    }
    assert(ws@ =~= node::sep_weights(keys));
    let cuts: Vec<usize> = cut_points(&ws, Some(FIRST_ENTRY_ROOM));
    proof {
        node::lemma_cuts_inside(cuts@, ws@, Some(FIRST_ENTRY_ROOM));
    }
    let mut out: Vec<IndexKey> = Vec::new();
    let mut g: usize = 0;
    while g < cuts.len()
        invariant
            g <= cuts@.len(),
            keys == key_views(seps@),
            keys_fit(keys),
            ws@.len() == seps@.len() + 1,
            forall|k: int| 0 <= k < cuts@.len() ==> 1 <= #[trigger] cuts@[k] < ws@.len(),
            out@.len() == g,
            forall|k: int| 0 <= k < g ==> #[trigger] field::views(out@[k]@) == keys[cuts@[k] - 1],
        decreases cuts@.len() - g,
    {
        assert(1 <= cuts@[g as int] < ws@.len());
        out.push(field::duplicate_fields(&seps[cuts[g] - 1]));
        assert(field::views(out@[g as int]@) == keys[cuts@[g as int] - 1]);
        g = g + 1;
    }
    proof {
        assert(key_views(out@) =~= node_ups(keys));
        assert forall|k: int| 0 <= k < out@.len() implies codec::key_len(#[trigger] key_views(out@)[k])
            <= MAX_KEY_LEN by {
            assert(field::views(out@[k]@) == keys[cuts@[k] - 1]);
        }
    }
    out
}

/// New pages that it takes to put one root above a row.
pub fn count_over(ups: Vec<IndexKey>) -> (r: u64)
    requires
        ups@.len() <= 2 * MAX_SLOTS,
        keys_fit(key_views(ups@)),
    ensures
        r == pages_over(key_views(ups@)),
        r <= grow::pages_above(ups@.len()),
{
    let mut rest: Vec<IndexKey> = ups;
    let mut n: u64 = 0;
    while rest.len() > 0
        invariant
            rest@.len() <= ups@.len() <= 2 * MAX_SLOTS,
            keys_fit(key_views(rest@)),
            n + pages_over(key_views(rest@)) == pages_over(key_views(ups@)),
            n + grow::pages_above(rest@.len()) <= grow::pages_above(ups@.len()),
        decreases rest@.len(),
    {
        let more: Vec<IndexKey> = cut_keys(&rest);
        assert(key_views(rest@).len() == rest@.len());
        assert(key_views(more@).len() == more@.len());
        n = n + 1 + more.len() as u64;
        rest = more;
    }
    assert(key_views(rest@).len() == 0);
    n
}

/// The keys of a leaf at which it is cut when it takes an entry.
fn leaf_cut_keys(
    bp: &BufferPool,
    c_id: ContainerId,
    page_id: PageId,
    e: &LeafEntry,
    Ghost(t): Ghost<Tree>,
    Ghost(lo): Ghost<Option<Key>>,
    Ghost(hi): Ghost<Option<Key>>,
) -> (r: Vec<IndexKey>)
    requires
        bp.wf(),
        t is Leaf,
        t.id() == page_id,
        model::tree_ok(bp.pages(c_id), t, lo, hi),
        grow::entry_ok(*e),
        model::above(lo, e.item().0),
        model::below(hi, e.item().0),
    ensures
        key_views(r@) == leaf_ups(bp.pages(c_id)[page_id as int], e.item()),
        keys_fit(key_views(r@)),
        r@.len() <= 2,
{
    let ghost p = bp.pages(c_id)[page_id as int];
    let mut out: Vec<IndexKey> = Vec::new();
    let room: bool = match bp.get_page_for_read(PageFrameId::new(c_id, page_id)) {
        Ok(page) => has_room_for(page, e.raw.len()),
        Err(_) => {
            assert(false);
            false
        },
    };
    if room {
        assert(key_views(out@) =~= leaf_ups(p, e.item()));
        return out;
    }
    let copy = LeafEntry {
        key: field::duplicate_fields(&e.key),
        rid: e.rid,
        raw: vstd::slice::slice_to_vec(e.raw.as_slice()),
    };
    let (_, _, entries) = leaf_entries_with(
        bp,
        c_id,
        page_id,
        copy,
        Ghost(t),
        Ghost(lo),
        Ghost(hi),
    );
    let ghost xs = node::items(entries@);
    let ws: Vec<usize> = weights_of_leaf(&entries);
    proof {
        node::lemma_item_weights(entries@);
        node::lemma_in_order_with(p.slots, e.item(), xs);
    }
    let cuts: Vec<usize> = leaf_cut_points(&ws);
    let mut g: usize = 0;
    while g < cuts.len()
        invariant
            g <= cuts@.len(),
            xs == node::items(entries@),
            node::leaf_entries_ok(entries@),
            ws@.len() == entries@.len(),
            forall|k: int| 0 <= k < cuts@.len() ==> #[trigger] cuts@[k] < ws@.len(),
            out@.len() == g,
            forall|k: int| 0 <= k < g ==> #[trigger] field::views(out@[k]@) == xs[cuts@[k] as int].0,
        decreases cuts@.len() - g,
    {
        assert(cuts@[g as int] < ws@.len());
        out.push(field::duplicate_fields(&entries[cuts[g]].key));
        assert(field::views(out@[g as int]@) == xs[cuts@[g as int] as int].0);
        g = g + 1;
    }
    proof {
        assert(key_views(out@) =~= leaf_ups(p, e.item()));
        assert forall|k: int| 0 <= k < out@.len() implies codec::key_len(#[trigger] key_views(out@)[k])
            <= MAX_KEY_LEN by {
            assert(field::views(out@[k]@) == xs[cuts@[k] as int].0);
            assert(entries@[cuts@[k] as int].wf());
        }
    }
    out
}

/// The separators of an internal node, with new keys behind position `j`.
fn seps_with(entries: &Vec<ChildEntry>, j: usize, ups: Vec<IndexKey>) -> (r: Vec<IndexKey>)
    requires
        j < entries@.len() <= MAX_SLOTS,
        ups@.len() <= MAX_SLOTS,
        node::child_entries_ok(entries@),
        keys_fit(key_views(ups@)),
    ensures
        key_views(r@) == model::spliced_seps(
            node::seps_between(entries@, 0, entries@.len() as int),
            j as int,
            key_views(ups@),
        ),
        keys_fit(key_views(r@)),
        r@.len() == entries@.len() - 1 + ups@.len(),
{
    let ghost seps = node::seps_between(entries@, 0, entries@.len() as int);
    let ghost want = model::spliced_seps(seps, j as int, key_views(ups@));
    let mut out: Vec<IndexKey> = Vec::new();
    let n: usize = entries.len() - 1 + ups.len();
    let mut i: usize = 0;
    while i < n
        invariant
            j < entries@.len() <= MAX_SLOTS,
            ups@.len() <= MAX_SLOTS,
            n == entries@.len() - 1 + ups@.len(),
            i <= n,
            node::child_entries_ok(entries@),
            keys_fit(key_views(ups@)),
            seps == node::seps_between(entries@, 0, entries@.len() as int),
            want == model::spliced_seps(seps, j as int, key_views(ups@)),
            out@.len() == i,
            forall|k: int| 0 <= k < i ==> {
                &&& #[trigger] key_views(out@)[k] == want[k]
                &&& codec::key_len(want[k]) <= MAX_KEY_LEN
            },
        decreases n - i,
    {
        let ghost before = out@;
        let key: IndexKey = if i < j {
            assert(entries@[i + 1].wf());
            assert(seps[i as int] == entries@[i + 1].pointer().0->0);
            match &entries[i + 1].key {
                Some(k) => field::duplicate_fields(k),
                None => Vec::new(),
            }
        } else if i < j + ups.len() {
            assert(key_views(ups@)[i - j] == field::views(ups@[i - j]@));
            field::duplicate_fields(&ups[i - j])
        } else {
            let at: usize = i - ups.len();
            assert(entries@[at + 1].wf());
            assert(seps[at as int] == entries@[at + 1].pointer().0->0);
            match &entries[at + 1].key {
                Some(k) => field::duplicate_fields(k),
                None => Vec::new(),
            }
        };
        assert(field::views(key@) == want[i as int]);
        out.push(key);
        proof {
            assert forall|k: int| 0 <= k < i + 1 implies {
                &&& #[trigger] key_views(out@)[k] == want[k]
                &&& codec::key_len(want[k]) <= MAX_KEY_LEN
            } by {
                if k < i {
                    assert(key_views(before)[k] == want[k]);
                }
            }
        }
        i = i + 1;
    }
    proof {
        assert(key_views(out@) =~= want);
    }
    out
}

/// The keys of an internal node at which it is cut when it takes new children
/// behind position `j`.
fn node_cut_keys(
    bp: &BufferPool,
    c_id: ContainerId,
    page_id: PageId,
    j: usize,
    ups: Vec<IndexKey>,
    Ghost(seps): Ghost<Seq<Key>>,
    Ghost(kids): Ghost<Seq<PageId>>,
) -> (r: Vec<IndexKey>)
    requires
        bp.wf(),
        page_id < bp.pages(c_id).len(),
        node::node_page(bp.pages(c_id)[page_id as int], seps, kids),
        node::seps_ascend(seps),
        j < kids.len(),
        ups@.len() <= 2,
        keys_fit(key_views(ups@)),
    ensures
        key_views(r@) == node_ups(model::spliced_seps(seps, j as int, key_views(ups@))),
        keys_fit(key_views(r@)),
        r@.len() <= ups@.len(),
{
    let ghost p = bp.pages(c_id)[page_id as int];
    proof {
        node::lemma_node_page(p, seps, kids);
    }
    let entries: Vec<ChildEntry> = match bp.get_page_for_read(PageFrameId::new(c_id, page_id)) {
        Ok(page) => match read_internal_entries(page) {
            Ok(v) => v,
            Err(_) => {
                assert(false);
                Vec::new()
            },
        },
        Err(_) => {
            assert(false);
            Vec::new()
        },
    };
    proof {
        node::lemma_read_node(p, seps, kids, entries@);
    }
    let all: Vec<IndexKey> = seps_with(&entries, j, ups);
    let more: Vec<IndexKey> = cut_keys(&all);
    proof {
        node::lemma_sep_weights(entries@);
        lemma_few_ups(seps, j as int, key_views(ups@));
        assert(key_views(ups@).len() == ups@.len());
        assert(key_views(more@).len() == more@.len());
    }
    more
}

/// No more keys go up from a node than came up to it.
proof fn lemma_few_ups(seps: Seq<Key>, j: int, ups: Seq<Key>)
    requires
        0 <= j <= seps.len(),
        seps.len() + ups.len() < usize::MAX,
        FIRST_ENTRY_ROOM + node::span(node::sep_weights(seps), 1, seps.len() as int + 1) <= NODE_ROOM,
    ensures
        node_ups(model::spliced_seps(seps, j, ups)).len() <= ups.len(),
{
    let all = model::spliced_seps(seps, j, ups);
    let vs = node::sep_weights(seps);
    let ws = node::sep_weights(all);
    let k = ups.len() as int;
    assert forall|i: int| 0 <= i <= j implies #[trigger] ws[i] == vs[i] by {
        if i > 0 {
            assert(all[i - 1] == seps[i - 1]);
        }
    }
    assert forall|i: int| j + k < i < ws.len() implies #[trigger] ws[i] == vs[i - k] by {
        assert(all[i - 1] == seps[i - 1 - k]);
    }
    node::lemma_row_cuts(vs, ws, j, k);
}

/// New pages that the nodes of a tree are split into when it takes an entry,
/// and the keys that go up from its root.
pub fn count_below(
    bp: &BufferPool,
    c_id: ContainerId,
    page_id: PageId,
    e: &LeafEntry,
    Ghost(t): Ghost<Tree>,
    Ghost(lo): Ghost<Option<Key>>,
    Ghost(hi): Ghost<Option<Key>>,
) -> (r: (u64, Vec<IndexKey>))
    requires
        bp.wf(),
        t.id() == page_id,
        model::tree_ok(bp.pages(c_id), t, lo, hi),
        grow::entry_ok(*e),
        model::above(lo, e.item().0),
        model::below(hi, e.item().0),
        model::path_len(t, e.item().0) <= u32::MAX,
    ensures
        r.0 == pages_below(bp.pages(c_id), t, e.item()),
        key_views(r.1@) == ups_of(bp.pages(c_id), t, e.item()),
        r.1@.len() <= 2,
        keys_fit(key_views(r.1@)),
        r.0 <= 2 * model::path_len(t, e.item().0),
    decreases t,
{
    let ghost pages = bp.pages(c_id);
    let (j, child): (usize, PageId) = match next_child(
        bp,
        c_id,
        page_id,
        &e.key,
        Ghost(t),
        Ghost(lo),
        Ghost(hi),
    ) {
        Some(x) => x,
        None => {
            let ups: Vec<IndexKey> = leaf_cut_keys(
                bp,
                c_id,
                page_id,
                e,
                Ghost(t),
                Ghost(lo),
                Ghost(hi),
            );
            assert(key_views(ups@).len() == ups@.len());
            return (ups.len() as u64, ups);
        },
    };
    let ghost seps = t->seps;
    let ghost kid = t->kids[j as int];
    let ghost klo = model::low(seps, lo, j as int);
    let ghost khi = model::high(seps, hi, j as int);
    proof {
        grow::lemma_child_bounds(seps, lo, hi, e.item().0);
    }
    let (n, ups) = count_below(bp, c_id, child, e, Ghost(kid), Ghost(klo), Ghost(khi));
    assert(key_views(ups@).len() == ups@.len());
    if ups.len() == 0 {
        return (n, ups);
    }
    let ghost kids = model::roots(t->kids);
    proof {
        assert(node::seps_ascend(seps));
    }
    let more: Vec<IndexKey> = node_cut_keys(bp, c_id, page_id, j, ups, Ghost(seps), Ghost(kids));
    assert(key_views(more@).len() == more@.len());
    (n + more.len() as u64, more)
}

} // verus!
