//! What the pages of a B+Tree stand for: a tree of leaves and internal nodes.
//!
//! Separators bound the keys on both sides of them from one side only: a run
//! of entries with the same key may reach over any number of leaves, and every
//! separator inside the run equals that key.
use crate::common::field;
use crate::common::ids::PageId;
use crate::heapstore::page::PageView;
use crate::index::codec::Key;
use crate::index::node;
use crate::index::node::Item;
use vstd::multiset::Multiset;
use vstd::prelude::*;

verus! {

/// A B+Tree.
pub enum Tree {
    Leaf { id: PageId, bag: Multiset<Item> },
    Node { id: PageId, seps: Seq<Key>, kids: Seq<Tree> },
}

impl Tree {
    /// The page of the root.
    pub open spec fn id(self) -> PageId {
        match self {
            Tree::Leaf { id, .. } => id,
            Tree::Node { id, .. } => id,
        }
    }
}

/// The items of a tree.
pub open spec fn bag_of(t: Tree) -> Multiset<Item>
    decreases t,
{
    match t {
        Tree::Leaf { id, bag } => bag,
        Tree::Node { id, seps, kids } => bags_of(kids),
    }
}

/// The items of a row of trees.
pub open spec fn bags_of(ts: Seq<Tree>) -> Multiset<Item>
    decreases ts,
{
    if ts.len() == 0 {
        Multiset::empty()
    } else {
        bags_of(ts.drop_last()).add(bag_of(ts.last()))
    }
}

/// The pages of the leaves of a tree, from left to right.
pub open spec fn leaves_of(t: Tree) -> Seq<PageId>
    decreases t,
{
    match t {
        Tree::Leaf { id, bag } => seq![id],
        Tree::Node { id, seps, kids } => all_leaves(kids),
    }
}

/// The pages of the leaves of a row of trees, from left to right.
pub open spec fn all_leaves(ts: Seq<Tree>) -> Seq<PageId>
    decreases ts,
{
    if ts.len() == 0 {
        Seq::empty()
    } else {
        all_leaves(ts.drop_last()) + leaves_of(ts.last())
    }
}

/// The pages of a tree.
pub open spec fn ids_of(t: Tree) -> Set<PageId>
    decreases t,
{
    match t {
        Tree::Leaf { id, bag } => set![id],
        Tree::Node { id, seps, kids } => all_ids(kids).insert(id),
    }
}

/// The pages of a row of trees.
pub open spec fn all_ids(ts: Seq<Tree>) -> Set<PageId>
    decreases ts,
{
    if ts.len() == 0 {
        Set::empty()
    } else {
        all_ids(ts.drop_last()).union(ids_of(ts.last()))
    }
}

/// The pages of the roots of a row of trees.
pub open spec fn roots(ts: Seq<Tree>) -> Seq<PageId> {
    Seq::new(ts.len(), |i: int| ts[i].id())
}

/// `k` is not less than the bound `lo`.
pub open spec fn above(lo: Option<Key>, k: Key) -> bool {
    lo matches Some(l) ==> field::key_upto(l, k)
}

/// `k` is not greater than the bound `hi`.
pub open spec fn below(hi: Option<Key>, k: Key) -> bool {
    hi matches Some(h) ==> field::key_upto(k, h)
}

/// The lower bound of child `i`.
pub open spec fn low(seps: Seq<Key>, lo: Option<Key>, i: int) -> Option<Key> {
    if i <= 0 {
        lo
    } else {
        Some(seps[i - 1])
    }
}

/// The upper bound of child `i`.
pub open spec fn high(seps: Seq<Key>, hi: Option<Key>, i: int) -> Option<Key> {
    if i >= seps.len() {
        hi
    } else {
        Some(seps[i])
    }
}

/// The pages hold the tree, its keys lie between the bounds, and no page is
/// used twice.
pub open spec fn tree_ok(
    pages: Seq<PageView>,
    t: Tree,
    lo: Option<Key>,
    hi: Option<Key>,
) -> bool
    decreases t,
{
    match t {
        Tree::Leaf { id, bag } => {
            &&& id < pages.len()
            &&& node::leaf_page(pages[id as int])
            &&& node::bag(pages[id as int].slots) == bag
            &&& forall|x: Item| #[trigger] bag.count(x) > 0 ==> above(lo, x.0) && below(hi, x.0)
        },
        Tree::Node { id, seps, kids } => {
            &&& id < pages.len()
            &&& node::node_page(pages[id as int], seps, roots(kids))
            &&& !all_ids(kids).contains(id)
            &&& row_ok(pages, kids, seps, lo, hi)
        },
    }
}

/// The pages hold the trees, the separators stand between them in order, and
/// no page is used twice.
pub open spec fn row_ok(
    pages: Seq<PageView>,
    ts: Seq<Tree>,
    seps: Seq<Key>,
    lo: Option<Key>,
    hi: Option<Key>,
) -> bool
    decreases ts,
{
    &&& ts.len() == seps.len() + 1
    &&& forall|i: int|
        0 <= i < ts.len() ==> tree_ok(pages, #[trigger] ts[i], low(seps, lo, i), high(seps, hi, i))
    &&& forall|i: int, j: int|
        0 <= i <= j < seps.len() ==> field::key_upto(#[trigger] seps[i], #[trigger] seps[j])
    &&& forall|i: int|
        0 <= i < seps.len() ==> above(lo, #[trigger] seps[i]) && below(hi, seps[i])
    &&& forall|i: int, j: int|
        0 <= i < j < ts.len() ==> ids_of(#[trigger] ts[i]).disjoint(ids_of(#[trigger] ts[j]))
}

/// The items of the given leaves.
pub open spec fn bag_sum(pages: Seq<PageView>, leaves: Seq<PageId>) -> Multiset<Item>
    decreases leaves.len(),
{
    if leaves.len() == 0 {
        Multiset::empty()
    } else {
        bag_sum(pages, leaves.drop_last()).add(node::bag(pages[leaves.last() as int].slots))
    }
}

/// The page holds a leaf with the given siblings.
#[verifier::opaque]
pub open spec fn linked(p: PageView, left: Option<PageId>, right: Option<PageId>) -> bool {
    &&& node::leaf_page(p)
    &&& node::left_of(p) == left
    &&& node::right_of(p) == right
}

/// The leaf at position `i`, if there is one.
pub open spec fn leaf_at(leaves: Seq<PageId>, i: int) -> Option<PageId> {
    if 0 <= i < leaves.len() {
        Some(leaves[i])
    } else {
        None
    }
}

/// The leaf at position `i` is linked to the ones beside it.
pub open spec fn link_at(pages: Seq<PageView>, leaves: Seq<PageId>, i: int) -> bool {
    &&& leaves[i] < pages.len()
    &&& linked(pages[leaves[i] as int], leaf_at(leaves, i - 1), leaf_at(leaves, i + 1))
}

/// The sibling links of the leaves form one chain.
pub open spec fn chain(pages: Seq<PageView>, leaves: Seq<PageId>) -> bool {
    &&& leaves.no_duplicates()
    &&& forall|i: int| 0 <= i < leaves.len() ==> #[trigger] link_at(pages, leaves, i)
}

/// The pages hold the same node, but for the siblings of a leaf.
pub open spec fn same_node(p: PageView, q: PageView) -> bool {
    ||| p == q
    ||| node::leaf_page(p) && node::leaf_page(q) && node::bag(p.slots) == node::bag(q.slots)
}

/// How many leading separators are not greater than `key`: the position of the
/// child to follow.
pub open spec fn child_index(seps: Seq<Key>, key: Key) -> int
    decreases seps.len(),
{
    if seps.len() == 0 || !field::key_upto(seps[0], key) {
        0
    } else {
        1 + child_index(seps.drop_first(), key)
    }
}

/// The position, among the leaves, of the one that a descent for `key` ends at.
pub open spec fn landing(t: Tree, key: Key) -> int
    decreases t,
{
    match t {
        Tree::Leaf { id, bag } => 0,
        Tree::Node { id, seps, kids } => {
            let j = child_index(seps, key);
            if 0 <= j < kids.len() {
                all_leaves(kids.take(j)).len() + landing(kids[j], key)
            } else {
                0
            }
        },
    }
}

/// Every leaf of the tree stands `h` nodes deep.
pub open spec fn even(t: Tree, h: nat) -> bool
    decreases t,
{
    match t {
        Tree::Leaf { id, bag } => h == 1,
        Tree::Node { id, seps, kids } => {
            &&& h > 1
            &&& kids.len() > 0
            &&& forall|i: int| 0 <= i < kids.len() ==> even(#[trigger] kids[i], (h - 1) as nat)
        },
    }
}

/// Every leaf of every tree of the row stands `h` nodes deep.
pub open spec fn all_even(ts: Seq<Tree>, h: nat) -> bool {
    forall|i: int| 0 <= i < ts.len() ==> #[trigger] even(ts[i], h)
}

/// How deep the leftmost leaf of a tree stands.
pub open spec fn height(t: Tree) -> nat
    decreases t,
{
    match t {
        Tree::Leaf { id, bag } => 1,
        Tree::Node { id, seps, kids } => if kids.len() > 0 {
            1 + height(kids[0])
        } else {
            1
        },
    }
}

/// The height of a tree is the depth of its leaves.
pub proof fn lemma_height(t: Tree, h: nat)
    requires
        even(t, h),
    ensures
        height(t) == h,
    decreases t,
{
    if let Tree::Node { id, seps, kids } = t {
        assert(even(kids[0], (h - 1) as nat));
        lemma_height(kids[0], (h - 1) as nat);
    }
}

/// The number of nodes that a descent for `key` visits.
pub open spec fn path_len(t: Tree, key: Key) -> nat
    decreases t,
{
    match t {
        Tree::Leaf { id, bag } => 1,
        Tree::Node { id, seps, kids } => {
            let j = child_index(seps, key);
            if 0 <= j < kids.len() {
                1 + path_len(kids[j], key)
            } else {
                1
            }
        },
    }
}

/// The position of a child is that of the first greater separator.
pub proof fn lemma_child_index(seps: Seq<Key>, key: Key, j: int)
    requires
        0 <= j <= seps.len(),
        forall|i: int| 0 <= i < j ==> field::key_upto(#[trigger] seps[i], key),
        j < seps.len() ==> field::key_before(key, seps[j]),
    ensures
        child_index(seps, key) == j,
    decreases seps.len(),
{
    field::lemma_key_order();
    if j > 0 {
        let rest = seps.drop_first();
        assert(field::key_upto(seps[0], key));
        assert forall|i: int| 0 <= i < j - 1 implies field::key_upto(#[trigger] rest[i], key) by {
            assert(rest[i] == seps[i + 1]);
        }
        lemma_child_index(rest, key, j - 1);
    }
}

/// Rows one after the other.
pub proof fn lemma_concat(a: Seq<Tree>, b: Seq<Tree>)
    ensures
        bags_of(a + b) == bags_of(a).add(bags_of(b)),
        all_leaves(a + b) == all_leaves(a) + all_leaves(b),
        all_ids(a + b) == all_ids(a).union(all_ids(b)),
    decreases b.len(),
{
    if b.len() == 0 {
        assert(a + b =~= a);
        assert(bags_of(a).add(bags_of(b)) =~= bags_of(a));
        assert(all_leaves(a) + all_leaves(b) =~= all_leaves(a));
        assert(all_ids(a).union(all_ids(b)) =~= all_ids(a));
    } else {
        let c = b.drop_last();
        lemma_concat(a, c);
        assert((a + b).drop_last() =~= a + c);
        assert((a + b).last() == b.last());
        assert(bags_of(a + b) =~= bags_of(a).add(bags_of(b)));
        assert(all_leaves(a + b) =~= all_leaves(a) + all_leaves(b));
        assert(all_ids(a + b) =~= all_ids(a).union(all_ids(b)));
    }
}

/// A row of one tree.
pub proof fn lemma_one(t: Tree)
    ensures
        bags_of(seq![t]) == bag_of(t),
        all_leaves(seq![t]) == leaves_of(t),
        all_ids(seq![t]) == ids_of(t),
{
    let s = seq![t];
    assert(s.drop_last() =~= Seq::<Tree>::empty());
    reveal_with_fuel(bags_of, 2);
    reveal_with_fuel(all_leaves, 2);
    reveal_with_fuel(all_ids, 2);
    assert(bags_of(s) =~= bag_of(t));
    assert(all_leaves(s) =~= leaves_of(t));
    assert(all_ids(s) =~= ids_of(t));
}

/// A row with one more tree at its end.
pub proof fn lemma_push(ts: Seq<Tree>, t: Tree)
    ensures
        bags_of(ts.push(t)) == bags_of(ts).add(bag_of(t)),
        all_leaves(ts.push(t)) == all_leaves(ts) + leaves_of(t),
        all_ids(ts.push(t)) == all_ids(ts).union(ids_of(t)),
{
    assert(ts.push(t).drop_last() =~= ts);
}

/// A page belongs to a row exactly when it belongs to one of its trees.
pub proof fn lemma_all_ids(ts: Seq<Tree>, p: PageId)
    ensures
        all_ids(ts).contains(p) <==> exists|i: int|
            0 <= i < ts.len() && ids_of(#[trigger] ts[i]).contains(p),
    decreases ts.len(),
{
    if ts.len() > 0 {
        let us = ts.drop_last();
        lemma_all_ids(us, p);
        if all_ids(ts).contains(p) {
            if all_ids(us).contains(p) {
                let i = choose|i: int| 0 <= i < us.len() && ids_of(#[trigger] us[i]).contains(p);
                assert(ids_of(ts[i]).contains(p));
            } else {
                assert(ids_of(ts[ts.len() - 1]).contains(p));
            }
        }
        if exists|i: int| 0 <= i < ts.len() && ids_of(#[trigger] ts[i]).contains(p) {
            let i = choose|i: int| 0 <= i < ts.len() && ids_of(#[trigger] ts[i]).contains(p);
            if i < us.len() {
                assert(ids_of(us[i]).contains(p));
            }
        }
    }
}

/// The root of a tree is one of its pages.
pub proof fn lemma_id_in(t: Tree)
    ensures
        ids_of(t).contains(t.id()),
{
}

/// The pages of a tree exist.
pub proof fn lemma_ids_in_range(pages: Seq<PageView>, t: Tree, lo: Option<Key>, hi: Option<Key>)
    requires
        tree_ok(pages, t, lo, hi),
    ensures
        forall|p: PageId| #[trigger] ids_of(t).contains(p) ==> p < pages.len(),
    decreases t,
{
    if let Tree::Node { id, seps, kids } = t {
        lemma_row_ids_in_range(pages, kids, seps, lo, hi);
    }
}

/// The pages of a row exist.
pub proof fn lemma_row_ids_in_range(
    pages: Seq<PageView>,
    ts: Seq<Tree>,
    seps: Seq<Key>,
    lo: Option<Key>,
    hi: Option<Key>,
)
    requires
        row_ok(pages, ts, seps, lo, hi),
    ensures
        forall|p: PageId| #[trigger] all_ids(ts).contains(p) ==> p < pages.len(),
    decreases ts,
{
    assert forall|p: PageId| #[trigger] all_ids(ts).contains(p) implies p < pages.len() by {
        lemma_all_ids(ts, p);
        let i = choose|i: int| 0 <= i < ts.len() && ids_of(#[trigger] ts[i]).contains(p);
        lemma_ids_in_range(pages, ts[i], low(seps, lo, i), high(seps, hi, i));
    }
}

/// A tree stays where none of its pages change but for siblings.
pub proof fn lemma_frame(
    pages: Seq<PageView>,
    after: Seq<PageView>,
    t: Tree,
    lo: Option<Key>,
    hi: Option<Key>,
)
    requires
        tree_ok(pages, t, lo, hi),
        forall|p: PageId| #[trigger]
            ids_of(t).contains(p) ==> p < after.len() && same_node(pages[p as int], after[p as int]),
    ensures
        tree_ok(after, t, lo, hi),
    decreases t,
{
    lemma_id_in(t);
    if let Tree::Node { id, seps, kids } = t {
        node::lemma_one_kind(pages[id as int], seps, roots(kids));
        assert forall|p: PageId| #[trigger] all_ids(kids).contains(p) implies p < after.len()
            && same_node(pages[p as int], after[p as int]) by {
            assert(ids_of(t).contains(p));
        }
        lemma_row_frame(pages, after, kids, seps, lo, hi);
    }
}

/// A row stays where none of its pages change but for siblings.
pub proof fn lemma_row_frame(
    pages: Seq<PageView>,
    after: Seq<PageView>,
    ts: Seq<Tree>,
    seps: Seq<Key>,
    lo: Option<Key>,
    hi: Option<Key>,
)
    requires
        row_ok(pages, ts, seps, lo, hi),
        forall|p: PageId| #[trigger]
            all_ids(ts).contains(p) ==> p < after.len() && same_node(pages[p as int], after[p as int]),
    ensures
        row_ok(after, ts, seps, lo, hi),
    decreases ts,
{
    assert forall|i: int| 0 <= i < ts.len() implies tree_ok(
        after,
        #[trigger] ts[i],
        low(seps, lo, i),
        high(seps, hi, i),
    ) by {
        assert forall|p: PageId| #[trigger] ids_of(ts[i]).contains(p) implies p < after.len()
            && same_node(pages[p as int], after[p as int]) by {
            lemma_all_ids(ts, p);
            assert(all_ids(ts).contains(p));
        }
        lemma_frame(pages, after, ts[i], low(seps, lo, i), high(seps, hi, i));
    }
}

/// A part of a row is a row between its own bounds.
pub proof fn lemma_row_part(
    pages: Seq<PageView>,
    ts: Seq<Tree>,
    seps: Seq<Key>,
    lo: Option<Key>,
    hi: Option<Key>,
    a: int,
    b: int,
)
    requires
        row_ok(pages, ts, seps, lo, hi),
        0 <= a < b <= ts.len(),
    ensures
        row_ok(
            pages,
            ts.subrange(a, b),
            seps.subrange(a, b - 1),
            low(seps, lo, a),
            high(seps, hi, b - 1),
        ),
{
    let us = ts.subrange(a, b);
    let ss = seps.subrange(a, b - 1);
    let l = low(seps, lo, a);
    let h = high(seps, hi, b - 1);
    assert forall|i: int| 0 <= i < us.len() implies tree_ok(
        pages,
        #[trigger] us[i],
        low(ss, l, i),
        high(ss, h, i),
    ) by {
        assert(us[i] == ts[a + i]);
        assert(low(ss, l, i) == low(seps, lo, a + i));
        assert(high(ss, h, i) == high(seps, hi, a + i));
    }
    assert forall|i: int, j: int| 0 <= i <= j < ss.len() implies field::key_upto(
        #[trigger] ss[i],
        #[trigger] ss[j],
    ) by {
        assert(ss[i] == seps[a + i]);
        assert(ss[j] == seps[a + j]);
    }
    assert forall|i: int| 0 <= i < ss.len() implies above(l, #[trigger] ss[i]) && below(h, ss[i]) by {
        assert(ss[i] == seps[a + i]);
        if a > 0 {
            assert(field::key_upto(seps[a - 1], seps[a + i]));
        }
        if b - 1 < seps.len() {
            assert(field::key_upto(seps[a + i], seps[b - 1]));
        }
    }
    assert forall|i: int, j: int| 0 <= i < j < us.len() implies ids_of(#[trigger] us[i]).disjoint(
        ids_of(#[trigger] us[j]),
    ) by {
        assert(us[i] == ts[a + i]);
        assert(us[j] == ts[a + j]);
    }
}

/// A row grows at its right end by a tree behind a new separator.
pub proof fn lemma_row_push(
    pages: Seq<PageView>,
    ts: Seq<Tree>,
    seps: Seq<Key>,
    lo: Option<Key>,
    hi: Option<Key>,
    sep: Key,
    t: Tree,
)
    requires
        row_ok(pages, ts, seps, lo, Some(sep)),
        tree_ok(pages, t, Some(sep), hi),
        above(lo, sep),
        below(hi, sep),
        all_ids(ts).disjoint(ids_of(t)),
    ensures
        row_ok(pages, ts.push(t), seps.push(sep), lo, hi),
{
    field::lemma_key_order();
    let us = ts.push(t);
    let ss = seps.push(sep);
    assert forall|i: int| 0 <= i < us.len() implies tree_ok(
        pages,
        #[trigger] us[i],
        low(ss, lo, i),
        high(ss, hi, i),
    ) by {
        if i < ts.len() {
            assert(us[i] == ts[i]);
            assert(low(ss, lo, i) == low(seps, lo, i));
            assert(high(ss, hi, i) == high(seps, Some(sep), i));
        }
    }
    assert forall|i: int, j: int| 0 <= i <= j < ss.len() implies field::key_upto(
        #[trigger] ss[i],
        #[trigger] ss[j],
    ) by {
        if i < seps.len() {
            assert(below(Some(sep), seps[i]));
        }
    }
    assert forall|i: int| 0 <= i < ss.len() implies above(lo, #[trigger] ss[i]) && below(hi, ss[i]) by {
        if i < seps.len() {
            assert(below(Some(sep), seps[i]));
        }
    }
    assert forall|i: int, j: int| 0 <= i < j < us.len() implies ids_of(#[trigger] us[i]).disjoint(
        ids_of(#[trigger] us[j]),
    ) by {
        if j == ts.len() {
            assert forall|p: PageId| ids_of(us[i]).contains(p) implies !ids_of(t).contains(p) by {
                lemma_all_ids(ts, p);
                assert(ids_of(ts[i]).contains(p));
            }
        } else {
            assert(us[i] == ts[i] && us[j] == ts[j]);
        }
    }
}

/// The pages hold one tree below a given page.
pub proof fn lemma_tree_one(
    pages: Seq<PageView>,
    t: Tree,
    u: Tree,
    lo: Option<Key>,
    hi: Option<Key>,
    lo2: Option<Key>,
    hi2: Option<Key>,
)
    requires
        tree_ok(pages, t, lo, hi),
        tree_ok(pages, u, lo2, hi2),
        t.id() == u.id(),
    ensures
        t == u,
    decreases t,
{
    if let Tree::Node { id, seps, kids } = t {
        node::lemma_one_kind(pages[id as int], seps, roots(kids));
        if let Tree::Node { id: id2, seps: seps2, kids: kids2 } = u {
            node::lemma_node_page_one(pages[id as int], seps, roots(kids), seps2, roots(kids2));
            assert(roots(kids).len() == roots(kids2).len());
            assert forall|i: int| 0 <= i < kids.len() implies kids[i] == kids2[i] by {
                assert(roots(kids)[i] == roots(kids2)[i]);
                lemma_tree_one(
                    pages,
                    kids[i],
                    kids2[i],
                    low(seps, lo, i),
                    high(seps, hi, i),
                    low(seps2, lo2, i),
                    high(seps2, hi2, i),
                );
            }
            assert(kids =~= kids2);
        }
    } else if let Tree::Node { id, seps, kids } = u {
        node::lemma_one_kind(pages[id as int], seps, roots(kids));
    }
}

/// The items of leaves one after the other.
pub proof fn lemma_bag_sum_concat(pages: Seq<PageView>, a: Seq<PageId>, b: Seq<PageId>)
    ensures
        bag_sum(pages, a + b) == bag_sum(pages, a).add(bag_sum(pages, b)),
    decreases b.len(),
{
    if b.len() == 0 {
        assert(a + b =~= a);
        assert(bag_sum(pages, a).add(bag_sum(pages, b)) =~= bag_sum(pages, a));
    } else {
        let c = b.drop_last();
        lemma_bag_sum_concat(pages, a, c);
        assert((a + b).drop_last() =~= a + c);
        assert(bag_sum(pages, a + b) =~= bag_sum(pages, a).add(bag_sum(pages, b)));
    }
}

/// The items of a leaf lie between the bounds.
pub open spec fn leaf_within(
    pages: Seq<PageView>,
    leaf: PageId,
    lo: Option<Key>,
    hi: Option<Key>,
) -> bool {
    forall|x: Item| #[trigger]
        node::bag(pages[leaf as int].slots).count(x) > 0 ==> above(lo, x.0) && below(hi, x.0)
}

/// No item of the one leaf comes after an item of the other.
pub open spec fn leaf_upto(pages: Seq<PageView>, a: PageId, b: PageId) -> bool {
    forall|x: Item, y: Item|
        #![trigger node::bag(pages[a as int].slots).count(x), node::bag(pages[b as int].slots).count(y)]
        node::bag(pages[a as int].slots).count(x) > 0 && node::bag(pages[b as int].slots).count(y) > 0
            ==> field::key_upto(x.0, y.0)
}

/// The leaves hold the items of the row, between its bounds and in order.
pub open spec fn leaves_ordered(
    pages: Seq<PageView>,
    leaves: Seq<PageId>,
    lo: Option<Key>,
    hi: Option<Key>,
) -> bool {
    &&& forall|i: int| 0 <= i < leaves.len() ==> leaf_within(pages, #[trigger] leaves[i], lo, hi)
    &&& forall|i: int, j: int|
        0 <= i < j < leaves.len() ==> leaf_upto(pages, #[trigger] leaves[i], #[trigger] leaves[j])
}

/// The leaves of a tree hold its items, between its bounds and in order.
pub proof fn lemma_leaves(pages: Seq<PageView>, t: Tree, lo: Option<Key>, hi: Option<Key>)
    requires
        tree_ok(pages, t, lo, hi),
    ensures
        leaves_of(t).len() > 0,
        bag_of(t) == bag_sum(pages, leaves_of(t)),
        leaves_ordered(pages, leaves_of(t), lo, hi),
        forall|i: int| 0 <= i < leaves_of(t).len() ==> ids_of(t).contains(#[trigger] leaves_of(t)[i]),
    decreases t, 0int,
{
    match t {
        Tree::Leaf { id, bag } => {
            let l = leaves_of(t);
            reveal_with_fuel(bag_sum, 2);
            assert(l.drop_last() =~= Seq::<PageId>::empty());
            assert(bag_sum(pages, l) =~= bag);
        },
        Tree::Node { id, seps, kids } => {
            lemma_row_leaves(pages, kids, seps, lo, hi);
        },
    }
}

/// The leaves of a row hold its items, between its bounds and in order.
pub proof fn lemma_row_leaves(
    pages: Seq<PageView>,
    ts: Seq<Tree>,
    seps: Seq<Key>,
    lo: Option<Key>,
    hi: Option<Key>,
)
    requires
        row_ok(pages, ts, seps, lo, hi),
    ensures
        all_leaves(ts).len() > 0,
        bags_of(ts) == bag_sum(pages, all_leaves(ts)),
        leaves_ordered(pages, all_leaves(ts), lo, hi),
        forall|i: int| 0 <= i < all_leaves(ts).len() ==> all_ids(ts).contains(#[trigger] all_leaves(ts)[i]),
    decreases ts, 1int,
{
    field::lemma_key_order();
    let n = ts.len() as int;
    let last = ts[n - 1];
    let us = ts.drop_last();
    let l = leaves_of(last);
    lemma_leaves(pages, last, low(seps, lo, n - 1), hi);
    if n == 1 {
        assert(ts =~= seq![last]);
        lemma_one(last);
    } else {
        let k = seps[n - 2];
        lemma_row_part(pages, ts, seps, lo, hi, 0, n - 1);
        assert(ts.subrange(0, n - 1) =~= us);
        lemma_row_leaves(pages, us, seps.subrange(0, n - 2), lo, Some(k));
        let m = all_leaves(us);
        let all = all_leaves(ts);
        assert(all == m + l);
        lemma_bag_sum_concat(pages, m, l);
        assert forall|i: int| 0 <= i < all.len() implies leaf_within(pages, #[trigger] all[i], lo, hi) by {
            if i < m.len() {
                assert(all[i] == m[i]);
                assert(leaf_within(pages, m[i], lo, Some(k)));
            } else {
                assert(all[i] == l[i - m.len()]);
                assert(leaf_within(pages, l[i - m.len()], Some(k), hi));
            }
        }
        assert forall|i: int, j: int| 0 <= i < j < all.len() implies leaf_upto(
            pages,
            #[trigger] all[i],
            #[trigger] all[j],
        ) by {
            if j < m.len() {
                assert(leaf_upto(pages, m[i], m[j]));
            } else if i >= m.len() {
                assert(leaf_upto(pages, l[i - m.len()], l[j - m.len()]));
            } else {
                assert(leaf_within(pages, m[i], lo, Some(k)));
                assert(leaf_within(pages, l[j - m.len()], Some(k), hi));
            }
        }
        assert forall|i: int| 0 <= i < all.len() implies all_ids(ts).contains(#[trigger] all[i]) by {
            if i < m.len() {
                assert(all_ids(us).contains(m[i]));
            } else {
                assert(ids_of(last).contains(l[i - m.len()]));
            }
        }
    }
}

/// Where a descent for `key` ends, no item to the left is greater than `key`
/// and every item to the right is.
pub open spec fn parts_at(pages: Seq<PageView>, leaves: Seq<PageId>, a: int, key: Key) -> bool {
    &&& 0 <= a < leaves.len()
    &&& forall|i: int| 0 <= i < a ==> leaf_within(pages, #[trigger] leaves[i], None, Some(key))
    &&& forall|i: int, x: Item|
        #![trigger node::bag(pages[leaves[i] as int].slots).count(x)]
        a < i < leaves.len() && node::bag(pages[leaves[i] as int].slots).count(x) > 0
            ==> field::key_before(key, x.0)
}

/// The children on both sides of the one to follow are parted by `key`.
proof fn lemma_parted(
    pages: Seq<PageView>,
    kids: Seq<Tree>,
    seps: Seq<Key>,
    lo: Option<Key>,
    hi: Option<Key>,
    key: Key,
)
    requires
        row_ok(pages, kids, seps, lo, hi),
    ensures
        ({
            let j = child_index(seps, key);
            let m = all_leaves(kids.take(j));
            let r = all_leaves(kids.skip(j + 1));
            &&& 0 <= j < kids.len()
            &&& all_leaves(kids) == m + leaves_of(kids[j]) + r
            &&& forall|i: int| 0 <= i < m.len() ==> leaf_within(pages, #[trigger] m[i], None, Some(key))
            &&& forall|i: int, x: Item|
                #![trigger node::bag(pages[r[i] as int].slots).count(x)]
                0 <= i < r.len() && node::bag(pages[r[i] as int].slots).count(x) > 0
                    ==> field::key_before(key, x.0)
        }),
{
    field::lemma_key_order();
    lemma_child_index_is(seps, key);
    let j = child_index(seps, key);
    let n = kids.len() as int;
    let kid = kids[j];
    let before = kids.take(j);
    let after = kids.skip(j + 1);
    let m = all_leaves(before);
    let r = all_leaves(after);
    assert(kids =~= before + seq![kid] + after);
    lemma_concat(before + seq![kid], after);
    lemma_concat(before, seq![kid]);
    lemma_one(kid);
    if j > 0 {
        lemma_row_part(pages, kids, seps, lo, hi, 0, j);
        assert(kids.subrange(0, j) =~= before);
        lemma_row_leaves(pages, before, seps.subrange(0, j - 1), lo, Some(seps[j - 1]));
        assert(field::key_upto(seps[j - 1], key));
        assert forall|i: int| 0 <= i < m.len() implies leaf_within(pages, #[trigger] m[i], None, Some(key)) by {
            assert(leaf_within(pages, m[i], lo, Some(seps[j - 1])));
        }
    }
    if j + 1 < n {
        lemma_row_part(pages, kids, seps, lo, hi, j + 1, n);
        assert(kids.subrange(j + 1, n) =~= after);
        lemma_row_leaves(pages, after, seps.subrange(j + 1, n - 1), Some(seps[j]), hi);
        assert forall|i: int, x: Item|
            #![trigger node::bag(pages[r[i] as int].slots).count(x)]
            0 <= i < r.len() && node::bag(pages[r[i] as int].slots).count(x) > 0
            implies field::key_before(key, x.0) by {
            assert(leaf_within(pages, r[i], Some(seps[j]), hi));
            assert(above(Some(seps[j]), x.0));
        }
    }
}

/// A descent ends where `key` parts the leaves.
pub proof fn lemma_landing(pages: Seq<PageView>, t: Tree, lo: Option<Key>, hi: Option<Key>, key: Key)
    requires
        tree_ok(pages, t, lo, hi),
    ensures
        parts_at(pages, leaves_of(t), landing(t, key), key),
    decreases t,
{
    if let Tree::Node { id, seps, kids } = t {
        lemma_parted(pages, kids, seps, lo, hi, key);
        let j = child_index(seps, key);
        let kid = kids[j];
        assert(tree_ok(pages, kid, low(seps, lo, j), high(seps, hi, j)));
        lemma_landing(pages, kid, low(seps, lo, j), high(seps, hi, j), key);
        lemma_parts_joined(
            pages,
            all_leaves(kids.take(j)),
            leaves_of(kid),
            all_leaves(kids.skip(j + 1)),
            landing(kid, key),
            key,
        );
    }
}

proof fn lemma_parts_joined(
    pages: Seq<PageView>,
    m: Seq<PageId>,
    l: Seq<PageId>,
    r: Seq<PageId>,
    a: int,
    key: Key,
)
    requires
        parts_at(pages, l, a, key),
        forall|i: int| 0 <= i < m.len() ==> leaf_within(pages, #[trigger] m[i], None, Some(key)),
        forall|i: int, x: Item|
            #![trigger node::bag(pages[r[i] as int].slots).count(x)]
            0 <= i < r.len() && node::bag(pages[r[i] as int].slots).count(x) > 0 ==> field::key_before(
                key,
                x.0,
            ),
    ensures
        parts_at(pages, m + l + r, m.len() + a, key),
{
    let all = m + l + r;
    let at = m.len() + a;
    assert forall|i: int| 0 <= i < at implies leaf_within(pages, #[trigger] all[i], None, Some(key)) by {
        if i < m.len() {
            assert(all[i] == m[i]);
        } else {
            assert(all[i] == l[i - m.len()]);
        }
    }
    assert forall|i: int, x: Item|
        #![trigger node::bag(pages[all[i] as int].slots).count(x)]
        at < i < all.len() && node::bag(pages[all[i] as int].slots).count(x) > 0
        implies field::key_before(key, x.0) by {
        if i < m.len() + l.len() {
            assert(all[i] == l[i - m.len()]);
        } else {
            assert(all[i] == r[i - m.len() - l.len()]);
        }
    }
}

/// What the position of a child says of the separators.
pub proof fn lemma_child_index_is(seps: Seq<Key>, key: Key)
    ensures
        0 <= child_index(seps, key) <= seps.len(),
        forall|i: int| 0 <= i < child_index(seps, key) ==> field::key_upto(#[trigger] seps[i], key),
        child_index(seps, key) < seps.len() ==> field::key_before(key, seps[child_index(seps, key)]),
    decreases seps.len(),
{
    field::lemma_key_order();
    if seps.len() > 0 && field::key_upto(seps[0], key) {
        let rest = seps.drop_first();
        lemma_child_index_is(rest, key);
        assert forall|i: int| 0 <= i < child_index(seps, key) implies field::key_upto(
            #[trigger] seps[i],
            key,
        ) by {
            if i > 0 {
                assert(rest[i - 1] == seps[i]);
            }
        }
    }
}

/// Two rows join at a separator.
pub proof fn lemma_row_join(
    pages: Seq<PageView>,
    a: Seq<Tree>,
    sa: Seq<Key>,
    b: Seq<Tree>,
    sb: Seq<Key>,
    lo: Option<Key>,
    sep: Key,
    hi: Option<Key>,
)
    requires
        row_ok(pages, a, sa, lo, Some(sep)),
        row_ok(pages, b, sb, Some(sep), hi),
        above(lo, sep),
        below(hi, sep),
        all_ids(a).disjoint(all_ids(b)),
    ensures
        row_ok(pages, a + b, sa.push(sep) + sb, lo, hi),
{
    field::lemma_key_order();
    let ts = a + b;
    let ss = sa.push(sep) + sb;
    let n = a.len() as int;
    assert forall|i: int| 0 <= i < ts.len() implies tree_ok(
        pages,
        #[trigger] ts[i],
        low(ss, lo, i),
        high(ss, hi, i),
    ) by {
        if i < n {
            assert(ts[i] == a[i]);
            assert(low(ss, lo, i) == low(sa, lo, i));
            assert(high(ss, hi, i) == high(sa, Some(sep), i));
        } else {
            assert(ts[i] == b[i - n]);
            assert(low(ss, lo, i) == low(sb, Some(sep), i - n));
            assert(high(ss, hi, i) == high(sb, hi, i - n));
        }
    }
    assert forall|i: int| 0 <= i < ss.len() implies {
        &&& above(lo, #[trigger] ss[i])
        &&& below(hi, ss[i])
        &&& i < n ==> below(Some(sep), ss[i])
        &&& i >= n - 1 ==> above(Some(sep), ss[i])
    } by {
        if i < n - 1 {
            assert(ss[i] == sa[i]);
        } else if i >= n {
            assert(ss[i] == sb[i - n]);
        }
    }
    assert forall|i: int, j: int| 0 <= i <= j < ss.len() implies field::key_upto(
        #[trigger] ss[i],
        #[trigger] ss[j],
    ) by {
        if j < n - 1 {
            assert(ss[i] == sa[i] && ss[j] == sa[j]);
        } else if i >= n {
            assert(ss[i] == sb[i - n] && ss[j] == sb[j - n]);
        } else {
            assert(below(Some(sep), ss[i]));
            assert(above(Some(sep), ss[j]));
        }
    }
    assert forall|i: int, j: int| 0 <= i < j < ts.len() implies ids_of(#[trigger] ts[i]).disjoint(
        ids_of(#[trigger] ts[j]),
    ) by {
        if j < n {
            assert(ts[i] == a[i] && ts[j] == a[j]);
        } else if i >= n {
            assert(ts[i] == b[i - n] && ts[j] == b[j - n]);
        } else {
            assert forall|p: PageId| ids_of(ts[i]).contains(p) implies !ids_of(ts[j]).contains(p) by {
                lemma_all_ids(a, p);
                lemma_all_ids(b, p);
                assert(ids_of(a[i]).contains(p));
                if ids_of(ts[j]).contains(p) {
                    assert(ids_of(b[j - n]).contains(p));
                }
            }
        }
    }
}

/// The trees of a row with other trees in place of tree `j`.
pub open spec fn spliced_trees(ts: Seq<Tree>, j: int, us: Seq<Tree>) -> Seq<Tree> {
    ts.take(j) + us + ts.skip(j + 1)
}

/// The separators of a row with other trees, and `news` between them, in place
/// of tree `j`.
pub open spec fn spliced_seps(seps: Seq<Key>, j: int, news: Seq<Key>) -> Seq<Key> {
    seps.take(j) + news + seps.skip(j)
}

/// Pages outside `t` hold the same nodes as before.
pub open spec fn outside_kept(pages: Seq<PageView>, after: Seq<PageView>, inside: Set<PageId>) -> bool {
    &&& after.len() >= pages.len()
    &&& forall|p: PageId|
        p < pages.len() && !inside.contains(p) ==> #[trigger] same_node(pages[p as int], after[p as int])
}

/// The pages of the row were pages of `inside` or did not exist before.
pub open spec fn ids_from(ts: Seq<Tree>, inside: Set<PageId>, len: nat) -> bool {
    forall|p: PageId| #[trigger] all_ids(ts).contains(p) ==> inside.contains(p) || p >= len
}

/// One tree of a row gives way to a row of its own.
pub proof fn lemma_row_splice(
    pages: Seq<PageView>,
    after: Seq<PageView>,
    kids: Seq<Tree>,
    seps: Seq<Key>,
    lo: Option<Key>,
    hi: Option<Key>,
    j: int,
    us: Seq<Tree>,
    news: Seq<Key>,
)
    requires
        row_ok(pages, kids, seps, lo, hi),
        0 <= j < kids.len(),
        row_ok(after, us, news, low(seps, lo, j), high(seps, hi, j)),
        outside_kept(pages, after, ids_of(kids[j])),
        ids_from(us, ids_of(kids[j]), pages.len()),
    ensures
        row_ok(after, spliced_trees(kids, j, us), spliced_seps(seps, j, news), lo, hi),
        ids_from(spliced_trees(kids, j, us), all_ids(kids), pages.len()),
        bags_of(spliced_trees(kids, j, us)).add(bag_of(kids[j])) == bags_of(kids).add(bags_of(us)),
        all_leaves(spliced_trees(kids, j, us)) == all_leaves(kids.take(j)) + all_leaves(us) + all_leaves(
            kids.skip(j + 1),
        ),
        all_leaves(kids) == all_leaves(kids.take(j)) + leaves_of(kids[j]) + all_leaves(kids.skip(j + 1)),
{
    let n = kids.len() as int;
    let kid = kids[j];
    let before = kids.take(j);
    let behind = kids.skip(j + 1);
    lemma_row_ids_in_range(pages, kids, seps, lo, hi);
    // What the parts hold.
    assert(kids =~= before + seq![kid] + behind);
    lemma_concat(before + seq![kid], behind);
    lemma_concat(before, seq![kid]);
    lemma_one(kid);
    lemma_concat(before + us, behind);
    lemma_concat(before, us);
    let all = spliced_trees(kids, j, us);
    assert(bags_of(all).add(bag_of(kid)) =~= bags_of(kids).add(bags_of(us)));
    assert(all_ids(kids) =~= all_ids(before).union(ids_of(kid)).union(all_ids(behind)));
    // The parts share no page.
    assert forall|p: PageId| #[trigger] all_ids(before).contains(p) implies !ids_of(kid).contains(p)
        && !all_ids(behind).contains(p) by {
        lemma_all_ids(before, p);
        let i = choose|i: int| 0 <= i < before.len() && ids_of(#[trigger] before[i]).contains(p);
        assert(ids_of(kids[i]).disjoint(ids_of(kids[j])));
        lemma_all_ids(behind, p);
        if all_ids(behind).contains(p) {
            let m = choose|m: int| 0 <= m < behind.len() && ids_of(#[trigger] behind[m]).contains(p);
            assert(behind[m] == kids[j + 1 + m]);
            assert(ids_of(kids[i]).disjoint(ids_of(kids[j + 1 + m])));
        }
    }
    assert forall|p: PageId| #[trigger] all_ids(behind).contains(p) implies !ids_of(kid).contains(p) by {
        lemma_all_ids(behind, p);
        let m = choose|m: int| 0 <= m < behind.len() && ids_of(#[trigger] behind[m]).contains(p);
        assert(behind[m] == kids[j + 1 + m]);
        assert(ids_of(kids[j]).disjoint(ids_of(kids[j + 1 + m])));
    }
    assert forall|p: PageId| all_ids(before).contains(p) || all_ids(behind).contains(p)
        implies !#[trigger] all_ids(us).contains(p) by {
        assert(all_ids(kids).contains(p));
    }
    // The row, part by part.
    let l = low(seps, lo, j);
    let h = high(seps, hi, j);
    let mid_seps = if j > 0 {
        seps.take(j) + news
    } else {
        news
    };
    let mid = before + us;
    if j > 0 {
        lemma_row_part(pages, kids, seps, lo, hi, 0, j);
        assert(kids.subrange(0, j) =~= before);
        assert forall|p: PageId| #[trigger] all_ids(before).contains(p) implies p < after.len()
            && same_node(pages[p as int], after[p as int]) by {
            assert(all_ids(kids).contains(p));
        }
        lemma_row_frame(pages, after, before, seps.subrange(0, j - 1), lo, l);
        let sep = seps[j - 1];
        if j < seps.len() {
            assert(field::key_upto(seps[j - 1], seps[j]));
        }
        lemma_row_join(after, before, seps.subrange(0, j - 1), us, news, lo, sep, h);
        assert(seps.subrange(0, j - 1).push(sep) =~= seps.take(j));
    } else {
        assert(mid =~= us);
    }
    assert(row_ok(after, mid, mid_seps, lo, h));
    if j + 1 < n {
        lemma_row_part(pages, kids, seps, lo, hi, j + 1, n);
        assert(kids.subrange(j + 1, n) =~= behind);
        assert forall|p: PageId| #[trigger] all_ids(behind).contains(p) implies p < after.len()
            && same_node(pages[p as int], after[p as int]) by {
            assert(all_ids(kids).contains(p));
        }
        lemma_row_frame(pages, after, behind, seps.subrange(j + 1, n - 1), h, hi);
        lemma_row_join(
            after,
            mid,
            mid_seps,
            behind,
            seps.subrange(j + 1, n - 1),
            lo,
            seps[j],
            hi,
        );
        assert(mid_seps.push(seps[j]) + seps.subrange(j + 1, n - 1) =~= spliced_seps(seps, j, news));
    } else {
        assert(all =~= mid);
        assert(mid_seps =~= spliced_seps(seps, j, news));
    }
}

/// The tree with the items that the pages hold now.
pub open spec fn reread(pages: Seq<PageView>, t: Tree) -> Tree
    decreases t,
{
    match t {
        Tree::Leaf { id, bag } => Tree::Leaf { id, bag: node::bag(pages[id as int].slots) },
        Tree::Node { id, seps, kids } => Tree::Node { id, seps, kids: reread_all(pages, kids) },
    }
}

/// The trees with the items that the pages hold now.
pub open spec fn reread_all(pages: Seq<PageView>, ts: Seq<Tree>) -> Seq<Tree>
    decreases ts,
{
    if ts.len() == 0 {
        Seq::empty()
    } else {
        reread_all(pages, ts.drop_last()).push(reread(pages, ts.last()))
    }
}

/// A tree read again stands on the same pages.
pub proof fn lemma_reread_shape(pages: Seq<PageView>, t: Tree)
    ensures
        reread(pages, t).id() == t.id(),
        leaves_of(reread(pages, t)) == leaves_of(t),
        ids_of(reread(pages, t)) == ids_of(t),
    decreases t,
{
    if let Tree::Node { id, seps, kids } = t {
        lemma_reread_all_shape(pages, kids);
    }
}

/// Trees read again stand on the same pages.
pub proof fn lemma_reread_all_shape(pages: Seq<PageView>, ts: Seq<Tree>)
    ensures
        reread_all(pages, ts).len() == ts.len(),
        forall|i: int|
            0 <= i < ts.len() ==> #[trigger] reread_all(pages, ts)[i] == reread(pages, ts[i]),
        roots(reread_all(pages, ts)) == roots(ts),
        all_leaves(reread_all(pages, ts)) == all_leaves(ts),
        all_ids(reread_all(pages, ts)) == all_ids(ts),
    decreases ts,
{
    let us = reread_all(pages, ts);
    if ts.len() > 0 {
        let init = ts.drop_last();
        lemma_reread_all_shape(pages, init);
        lemma_reread_shape(pages, ts.last());
        lemma_push(reread_all(pages, init), reread(pages, ts.last()));
        assert forall|i: int| 0 <= i < ts.len() implies #[trigger] us[i] == reread(pages, ts[i]) by {
            if i < init.len() {
                assert(reread_all(pages, init)[i] == reread(pages, init[i]));
            }
        }
        assert forall|i: int| 0 <= i < ts.len() implies roots(us)[i] == roots(ts)[i] by {
            if i < init.len() {
                assert(roots(reread_all(pages, init))[i] == roots(init)[i]);
            }
        }
        assert(roots(us) =~= roots(ts));
    } else {
        assert(roots(us) =~= roots(ts));
    }
}

/// The page holds the same node, or a leaf with fewer items.
pub open spec fn node_or_less(p: PageView, q: PageView) -> bool {
    ||| p == q
    ||| {
        &&& node::leaf_page(p)
        &&& node::leaf_page(q)
        &&& forall|x: Item| #[trigger] node::bag(q.slots).count(x) > 0 ==> node::bag(p.slots).count(x) > 0
    }
}

/// Leaves that lose items leave a tree behind.
pub proof fn lemma_reread(
    pages: Seq<PageView>,
    after: Seq<PageView>,
    t: Tree,
    lo: Option<Key>,
    hi: Option<Key>,
)
    requires
        tree_ok(pages, t, lo, hi),
        forall|p: PageId| #[trigger]
            ids_of(t).contains(p) ==> p < after.len() && node_or_less(pages[p as int], after[p as int]),
    ensures
        tree_ok(after, reread(after, t), lo, hi),
    decreases t,
{
    lemma_id_in(t);
    if let Tree::Node { id, seps, kids } = t {
        node::lemma_one_kind(pages[id as int], seps, roots(kids));
        assert forall|p: PageId| #[trigger] all_ids(kids).contains(p) implies p < after.len()
            && node_or_less(pages[p as int], after[p as int]) by {
            assert(ids_of(t).contains(p));
        }
        lemma_reread_row(pages, after, kids, seps, lo, hi);
        lemma_reread_all_shape(after, kids);
    }
}

proof fn lemma_reread_row(
    pages: Seq<PageView>,
    after: Seq<PageView>,
    ts: Seq<Tree>,
    seps: Seq<Key>,
    lo: Option<Key>,
    hi: Option<Key>,
)
    requires
        row_ok(pages, ts, seps, lo, hi),
        forall|p: PageId| #[trigger]
            all_ids(ts).contains(p) ==> p < after.len() && node_or_less(pages[p as int], after[p as int]),
    ensures
        row_ok(after, reread_all(after, ts), seps, lo, hi),
    decreases ts,
{
    let us = reread_all(after, ts);
    lemma_reread_all_shape(after, ts);
    assert forall|i: int| 0 <= i < us.len() implies tree_ok(
        after,
        #[trigger] us[i],
        low(seps, lo, i),
        high(seps, hi, i),
    ) by {
        assert forall|p: PageId| #[trigger] ids_of(ts[i]).contains(p) implies p < after.len()
            && node_or_less(pages[p as int], after[p as int]) by {
            lemma_all_ids(ts, p);
            assert(all_ids(ts).contains(p));
        }
        lemma_reread(pages, after, ts[i], low(seps, lo, i), high(seps, hi, i));
    }
    assert forall|i: int, j: int| 0 <= i < j < us.len() implies ids_of(#[trigger] us[i]).disjoint(
        ids_of(#[trigger] us[j]),
    ) by {
        lemma_reread_shape(after, ts[i]);
        lemma_reread_shape(after, ts[j]);
        assert(ids_of(ts[i]).disjoint(ids_of(ts[j])));
    }
}

/// A leaf that loses an item takes it from the whole.
pub proof fn lemma_bag_sum_remove(
    pages: Seq<PageView>,
    after: Seq<PageView>,
    leaves: Seq<PageId>,
    i: int,
    item: Item,
)
    requires
        leaves.no_duplicates(),
        0 <= i < leaves.len(),
        forall|k: int|
            0 <= k < leaves.len() && k != i ==> after[#[trigger] leaves[k] as int]
                == pages[leaves[k] as int],
        node::bag(pages[leaves[i] as int].slots).count(item) > 0,
        node::bag(after[leaves[i] as int].slots) == node::bag(pages[leaves[i] as int].slots).remove(item),
    ensures
        bag_sum(after, leaves) == bag_sum(pages, leaves).remove(item),
        bag_sum(pages, leaves).count(item) > 0,
    decreases leaves.len(),
{
    let init = leaves.drop_last();
    let n = leaves.len() - 1;
    if i < n {
        assert forall|k: int| 0 <= k < init.len() && k != i implies after[#[trigger] init[k] as int]
            == pages[init[k] as int] by {
            assert(leaves[k] == init[k]);
        }
        lemma_bag_sum_remove(pages, after, init, i, item);
        assert(after[leaves[n] as int] == pages[leaves[n] as int]);
    } else {
        lemma_bag_sum_same(pages, after, init);
    }
    assert(bag_sum(after, leaves) =~= bag_sum(pages, leaves).remove(item));
}

/// Leaves that keep their items keep the sum of them.
pub proof fn lemma_bag_sum_same(pages: Seq<PageView>, after: Seq<PageView>, leaves: Seq<PageId>)
    requires
        forall|k: int|
            0 <= k < leaves.len() ==> after[#[trigger] leaves[k] as int] == pages[leaves[k] as int],
    ensures
        bag_sum(after, leaves) == bag_sum(pages, leaves),
    decreases leaves.len(),
{
    if leaves.len() > 0 {
        let init = leaves.drop_last();
        assert forall|k: int| 0 <= k < init.len() implies after[#[trigger] init[k] as int]
            == pages[init[k] as int] by {
            assert(leaves[k] == init[k]);
        }
        lemma_bag_sum_same(pages, after, init);
        assert(after[leaves[leaves.len() - 1] as int] == pages[leaves[leaves.len() - 1] as int]);
    }
}

/// Leaves together hold an item at least as often as each of them.
pub proof fn lemma_bag_sum_part(pages: Seq<PageView>, leaves: Seq<PageId>, i: int, item: Item)
    requires
        0 <= i < leaves.len(),
    ensures
        node::bag(pages[leaves[i] as int].slots).count(item) <= bag_sum(pages, leaves).count(item),
    decreases leaves.len(),
{
    if i < leaves.len() - 1 {
        lemma_bag_sum_part(pages, leaves.drop_last(), i, item);
    }
}

/// Leaves none of which hold an item do not hold it together either.
pub proof fn lemma_bag_sum_none(pages: Seq<PageView>, leaves: Seq<PageId>, item: Item)
    requires
        forall|k: int|
            0 <= k < leaves.len() ==> node::bag(pages[#[trigger] leaves[k] as int].slots).count(item) == 0,
    ensures
        bag_sum(pages, leaves).count(item) == 0,
    decreases leaves.len(),
{
    if leaves.len() > 0 {
        let init = leaves.drop_last();
        assert forall|k: int| 0 <= k < init.len() implies node::bag(
            pages[#[trigger] init[k] as int].slots,
        ).count(item) == 0 by {
            assert(leaves[k] == init[k]);
        }
        lemma_bag_sum_none(pages, init, item);
        assert(node::bag(pages[leaves[leaves.len() - 1] as int].slots).count(item) == 0);
    }
}

/// A tree read again is as deep as before.
pub proof fn lemma_reread_even(pages: Seq<PageView>, t: Tree, h: nat)
    requires
        even(t, h),
    ensures
        even(reread(pages, t), h),
    decreases t,
{
    if let Tree::Node { id, seps, kids } = t {
        let us = reread_all(pages, kids);
        lemma_reread_all_shape(pages, kids);
        assert forall|i: int| 0 <= i < us.len() implies even(#[trigger] us[i], (h - 1) as nat) by {
            assert(us[i] == reread(pages, kids[i]));
            assert(even(kids[i], (h - 1) as nat));
            lemma_reread_even(pages, kids[i], (h - 1) as nat);
        }
    }
}

/// Every descent visits as many nodes as the tree is deep.
pub proof fn lemma_path_is_height(
    pages: Seq<PageView>,
    t: Tree,
    lo: Option<Key>,
    hi: Option<Key>,
    key: Key,
    h: nat,
)
    requires
        tree_ok(pages, t, lo, hi),
        even(t, h),
    ensures
        path_len(t, key) == h,
    decreases t,
{
    if let Tree::Node { id, seps, kids } = t {
        lemma_child_index_is(seps, key);
        let j = child_index(seps, key);
        assert(even(kids[j], (h - 1) as nat));
        lemma_path_is_height(
            pages,
            kids[j],
            low(seps, lo, j),
            high(seps, hi, j),
            key,
            (h - 1) as nat,
        );
    }
}

/// A descent visits no more nodes than the tree has pages.
pub proof fn lemma_path_len(pages: Seq<PageView>, t: Tree, lo: Option<Key>, hi: Option<Key>, key: Key)
    requires
        tree_ok(pages, t, lo, hi),
    ensures
        ids_of(t).finite(),
        path_len(t, key) <= ids_of(t).len(),
    decreases t,
{
    match t {
        Tree::Leaf { id, bag } => {
            assert(ids_of(t) =~= Set::empty().insert(id));
        },
        Tree::Node { id, seps, kids } => {
            lemma_row_ids_finite(pages, kids, seps, lo, hi);
            lemma_child_index_is(seps, key);
            let j = child_index(seps, key);
            lemma_path_len(pages, kids[j], low(seps, lo, j), high(seps, hi, j), key);
            assert(ids_of(kids[j]).subset_of(all_ids(kids))) by {
                assert forall|p: PageId| ids_of(kids[j]).contains(p) implies all_ids(kids).contains(p) by {
                    lemma_all_ids(kids, p);
                }
            }
            vstd::set_lib::lemma_len_subset(ids_of(kids[j]), all_ids(kids));
        },
    }
}

proof fn lemma_row_ids_finite(
    pages: Seq<PageView>,
    ts: Seq<Tree>,
    seps: Seq<Key>,
    lo: Option<Key>,
    hi: Option<Key>,
)
    requires
        row_ok(pages, ts, seps, lo, hi),
    ensures
        all_ids(ts).finite(),
{
    lemma_row_ids_in_range(pages, ts, seps, lo, hi);
    lemma_ids_finite(pages.len(), all_ids(ts));
}

/// Page ids below `n` are no more than `n`.
pub proof fn lemma_ids_finite(n: nat, s: Set<PageId>)
    requires
        forall|p: PageId| #[trigger] s.contains(p) ==> p < n,
    ensures
        s.finite(),
        s.len() <= n,
    decreases n,
{
    if n == 0 {
        assert(s =~= Set::empty());
    } else if n <= u32::MAX + 1 {
        let top = (n - 1) as PageId;
        let less = s.remove(top);
        lemma_ids_finite((n - 1) as nat, less);
        if s.contains(top) {
            assert(s =~= less.insert(top));
        } else {
            assert(s =~= less);
        }
    } else {
        lemma_ids_finite((n - 1) as nat, s);
    }
}

} // verus!
