//! What operators work on: the stored values, the indexes and the time stamps
//! of containers.
use crate::common::error::{c_err, CrustyError};
use crate::common::ids::{ContainerId, PageId, SlotId, ValueId};
use crate::heapstore::buffer_pool::BufferPool;
use crate::heapstore::heap_file;
use crate::heapstore::heap_file::HeapFile;
use crate::heapstore::page;
use crate::heapstore::page::PageView;
use crate::index::index_manager::IndexManager;
use std::collections::HashMap;
use vstd::prelude::*;

verus! {

/// When each container was last written.
pub struct StateTracker {
    stamps: HashMap<ContainerId, u64>,
}

impl View for StateTracker {
    type V = Map<ContainerId, u64>;

    closed spec fn view(&self) -> Map<ContainerId, u64> {
        self.stamps@
    }
}

impl StateTracker {
    /// No container was written yet.
    pub fn new() -> (r: Self)
        ensures
            r@ == Map::<ContainerId, u64>::empty(),
    {
        StateTracker { stamps: HashMap::new() }
    }

    /// Records that the container was written at `ts`.
    pub fn set_ts(&mut self, c_id: ContainerId, ts: u64)
        ensures
            final(self)@ == old(self)@.insert(c_id, ts),
    {
        broadcast use vstd::std_specs::hash::group_hash_axioms;

        self.stamps.insert(c_id, ts);
    }

    /// When the container was last written, if it was.
    pub fn get_ts(&self, c_id: ContainerId) -> (r: Option<u64>)
        ensures
            match r {
                Some(ts) => self@.contains_key(c_id) && ts == self@[c_id],
                None => !self@.contains_key(c_id),
            },
    {
        broadcast use vstd::std_specs::hash::group_hash_axioms;

        match self.stamps.get(&c_id) {
            Some(ts) => Some(*ts),
            None => None,
        }
    }
}

/// The parts of the database that operators share.
pub struct Managers {
    pub bp: BufferPool,
    pub im: IndexManager,
    pub stats: StateTracker,
}

/// What is stored under a value id.
pub open spec fn stored_at(bp: &BufferPool, id: ValueId) -> Option<Seq<u8>> {
    match (id.page_id, id.slot_id) {
        (Some(p), Some(s)) => heap_file::value_at(bp.pages(id.container_id), p, s),
        _ => None,
    }
}

/// The pages of a container without the value of the given slot.
pub open spec fn without_value(pages: Seq<PageView>, p: PageId, s: SlotId) -> Seq<PageView> {
    pages.update(p as int, pages[p as int].with_slot(s as int, None))
}

/// What is said where no value is stored under an id.
pub open spec fn no_value(bp: &BufferPool, id: ValueId, otherwise: Seq<char>) -> Seq<char> {
    match (id.page_id, id.slot_id) {
        (Some(p), Some(s)) => if p >= bp.pages(id.container_id).len() {
            "Page not found"@
        } else {
            otherwise
        },
        _ => "Value id without page or slot"@,
    }
}

impl Managers {
    /// The live indexes are sound.
    pub open spec fn wf(&self) -> bool {
        self.im.wf(&self.bp)
    }

    /// A database without anything in it.
    pub fn new() -> (r: Self)
        ensures
            r.wf(),
            r.im.ids() == Map::<ContainerId, ContainerId>::empty(),
            forall|c: ContainerId| #[trigger] r.bp.pages(c) == Seq::<PageView>::empty(),
            r.stats@ == Map::<ContainerId, u64>::empty(),
    {
        Managers { bp: BufferPool::new(), im: IndexManager::new(), stats: StateTracker::new() }
    }

    /// Read the value stored under the id.
    pub fn get_value(&self, id: ValueId) -> (r: Result<Vec<u8>, CrustyError>)
        requires
            self.wf(),
        ensures
            match r {
                Ok(v) => stored_at(&self.bp, id) == Some(v@),
                Err(e) => {
                    &&& stored_at(&self.bp, id) is None
                    &&& e.message() == no_value(&self.bp, id, "Value not found"@)
                },
            },
    {
        match (id.page_id, id.slot_id) {
            (Some(p), Some(s)) => HeapFile { c_id: id.container_id }.get_val(&self.bp, p, s),
            _ => Err(c_err("Value id without page or slot")),
        }
    }

    /// Delete the value stored under the id. The pages of an index are not
    /// touched this way.
    pub fn delete_value(&mut self, id: ValueId) -> (r: Result<(), CrustyError>)
        requires
            old(self).wf(),
        ensures
            final(self).wf(),
            final(self).im == old(self).im,
            final(self).stats == old(self).stats,
            final(self).bp.same_but(&old(self).bp, id.container_id),
            match r {
                Ok(_) => {
                    &&& !old(self).im.has(id.container_id)
                    &&& stored_at(&old(self).bp, id) is Some
                    &&& final(self).bp.pages(id.container_id) == without_value(
                        old(self).bp.pages(id.container_id),
                        id.page_id->0,
                        id.slot_id->0,
                    )
                },
                Err(e) => {
                    &&& final(self).bp.pages(id.container_id) == old(self).bp.pages(id.container_id)
                    &&& old(self).im.has(id.container_id) || stored_at(&old(self).bp, id) is None
                    &&& e.message() == if stored_at(&old(self).bp, id) is None {
                        no_value(&old(self).bp, id, "Value not found or already deleted"@)
                    } else {
                        "Container holds an index"@
                    }
                },
            },
    {
        if self.im.has_index(id.container_id) && self.get_value(id).is_ok() {
            return Err(c_err("Container holds an index"));
        }
        match (id.page_id, id.slot_id) {
            (Some(p), Some(s)) => {
                let r = HeapFile { c_id: id.container_id }.delete_val(&mut self.bp, p, s);
                proof {
                    if self.im.has(id.container_id) {
                        assert forall|c: ContainerId| #[trigger] self.bp.pages(c) == old(
                            self,
                        ).bp.pages(c) by {}
                        self.im.lemma_unchanged(&old(self).bp, &self.bp);
                    } else {
                        self.im.lemma_kept(&old(self).bp, &self.bp, id.container_id);
                    }
                }
                r
            },
            _ => Err(c_err("Value id without page or slot")),
        }
    }

    /// Replace the value stored under the id, and return the id under which it
    /// is stored now: a value that has outgrown its page moves. The pages of
    /// an index are not touched this way.
    pub fn update_value(&mut self, value: &[u8], id: ValueId) -> (r: Result<ValueId, CrustyError>)
        requires
            old(self).wf(),
        ensures
            final(self).wf(),
            final(self).im == old(self).im,
            final(self).stats == old(self).stats,
            final(self).bp.same_but(&old(self).bp, id.container_id),
            update_outcome(
                &old(self).bp,
                old(self).im.has(id.container_id),
                id,
                value@,
                r,
                final(self).bp.pages(id.container_id),
            ),
    {
        if self.im.has_index(id.container_id) && self.get_value(id).is_ok() {
            return Err(c_err("Container holds an index"));
        }
        match (id.page_id, id.slot_id) {
            (Some(p), Some(s)) => {
                let r = HeapFile { c_id: id.container_id }.update_val(&mut self.bp, p, s, value);
                proof {
                    if self.im.has(id.container_id) {
                        assert forall|c: ContainerId| #[trigger] self.bp.pages(c) == old(
                            self,
                        ).bp.pages(c) by {}
                        self.im.lemma_unchanged(&old(self).bp, &self.bp);
                    } else {
                        self.im.lemma_kept(&old(self).bp, &self.bp, id.container_id);
                    }
                }
                r
            },
            _ => Err(c_err("Value id without page or slot")),
        }
    }
}

/// What replacing the value under an id gives back and leaves behind.
pub open spec fn update_outcome(
    bp: &BufferPool,
    in_index: bool,
    id: ValueId,
    value: Seq<u8>,
    r: Result<ValueId, CrustyError>,
    after: Seq<PageView>,
) -> bool {
    let pages = bp.pages(id.container_id);
    let held = stored_at(bp, id);
    if held is None {
        &&& r matches Err(e)
        &&& e.message() == no_value(bp, id, "Update failed: slot not found"@)
        &&& after == pages
    } else if in_index {
        &&& r matches Err(e)
        &&& e.message() == "Container holds an index"@
        &&& after == pages
    } else {
        let p = id.page_id->0;
        let s = id.slot_id->0;
        let here = pages[p as int];
        if value.len() <= here.free_space() + page::value_len(held) {
            &&& r == Ok::<ValueId, CrustyError>(id)
            &&& after == pages.update(p as int, here.with_slot(s as int, page::as_value(value)))
        } else {
            heap_file::add_outcome(without_value(pages, p, s), id.container_id, value, r, after)
        }
    }
}

/// A deleted value is gone, and no other value changes.
pub proof fn lemma_deleted_is_gone(pages: Seq<PageView>, p: PageId, s: SlotId)
    requires
        heap_file::value_at(pages, p, s) is Some,
    ensures
        heap_file::value_at(without_value(pages, p, s), p, s) is None,
        heap_file::others_kept(pages, without_value(pages, p, s), p, s),
{
}

/// A replaced value is read back under the id that came back, and no other
/// value changes. Where it moved, nothing is left under its old id, and its
/// new id is one that was free.
pub proof fn lemma_updated_is_read(
    bp: &BufferPool,
    id: ValueId,
    value: Seq<u8>,
    new_id: ValueId,
    after: Seq<PageView>,
)
    requires
        bp.wf(),
        value.len() > 0,
        update_outcome(bp, false, id, value, Ok(new_id), after),
    ensures
        ({
            let pages = bp.pages(id.container_id);
            let (p, s) = (id.page_id->0, id.slot_id->0);
            let (q, t) = (new_id.page_id->0, new_id.slot_id->0);
            &&& id == ValueId::at(id.container_id, p, s)
            &&& new_id == ValueId::at(id.container_id, q, t)
            &&& heap_file::value_at(pages, p, s) is Some
            &&& heap_file::value_at(after, q, t) == Some(value)
            &&& new_id != id ==> {
                &&& q >= 1
                &&& heap_file::value_at(after, p, s) is None
                &&& heap_file::value_at(pages, q, t) is None
            }
            &&& forall|x: PageId, y: SlotId|
                (x, y) != (p, s) && (x, y) != (q, t) ==> #[trigger] heap_file::value_at(after, x, y)
                    == heap_file::value_at(pages, x, y)
        }),
{
    let pages = bp.pages(id.container_id);
    let (p, s) = (id.page_id->0, id.slot_id->0);
    let here = pages[p as int];
    bp.lemma_limits(id.container_id);
    if value.len() <= here.free_space() + page::value_len(stored_at(bp, id)) {
    } else {
        let without = without_value(pages, p, s);
        lemma_deleted_is_gone(pages, p, s);
        assert(heap_file::countable(without));
        heap_file::lemma_added_is_read(without, id.container_id, value);
        let (q, t) = (new_id.page_id->0, new_id.slot_id->0);
        assert(heap_file::value_at(without, q, t) is None);
        if (q, t) == (p, s) {
            // The page cannot hold the value, so it did not go back there.
            heap_file::lemma_first_with_room(without, 1, value.len());
            page::lemma_total_update(here.slots, s as int, None);
            assert(without[p as int].has_room(value.len()));
        }
        assert forall|x: PageId, y: SlotId|
            (x, y) != (p, s) && (x, y) != (q, t) implies #[trigger] heap_file::value_at(after, x, y)
            == heap_file::value_at(pages, x, y) by {
            assert(heap_file::value_at(after, x, y) == heap_file::value_at(without, x, y));
            assert(heap_file::value_at(without, x, y) == heap_file::value_at(pages, x, y));
        }
    }
}

/// A new value that fits beside the other values of its page keeps its place:
/// the old value counts as gone for that. A value of an index, or where none is
/// stored, is not replaced.
pub proof fn lemma_fitting_update_stays(
    bp: &BufferPool,
    in_index: bool,
    id: ValueId,
    value: Seq<u8>,
    r: Result<ValueId, CrustyError>,
    after: Seq<PageView>,
)
    requires
        bp.wf(),
        update_outcome(bp, in_index, id, value, r, after),
    ensures
        stored_at(bp, id) is None || in_index ==> r is Err && after == bp.pages(id.container_id),
        stored_at(bp, id) is Some && !in_index && bp.pages(
            id.container_id,
        )[(id.page_id->0) as int].ready && 24 + 4 * bp.pages(
            id.container_id,
        )[(id.page_id->0) as int].slots.len() + page::total_len(
            bp.pages(id.container_id)[(id.page_id->0) as int].slots,
        ) - (stored_at(bp, id)->0).len() + value.len() <= 4096 ==> r == Ok::<
            ValueId,
            CrustyError,
        >(id),
{
}

} // verus!
