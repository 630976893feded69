//! Slotted heap pages: variable-length values under stable slot ids.
use crate::common::ids::SlotId;
use crate::common::PAGE_SIZE;
use crate::heapstore::page;
use crate::heapstore::page::{
    Page, PageView, DELETED_BYTES_OFFSET, DELETED_SLOTS_OFFSET, FREE_SPACE_PTR_OFFSET,
    NUM_SLOTS_OFFSET, SLOTS_START, SLOT_METADATA_SIZE,
};
use vstd::prelude::*;

verus! {

/// A page that stores values of any length under slot ids.
///
/// Where the bytes of a value stand in the page does not matter, but the slot
/// id of a value never changes. The slot of a deleted value is used again, the
/// lowest one first, and so is the space that its bytes took. The header does
/// not shrink.
pub trait HeapPage: Sized {
    /// What the page holds.
    spec fn heap(&self) -> PageView;

    /// The page is laid out soundly.
    spec fn heap_wf(&self) -> bool;

    /// The bytes of the page.
    spec fn heap_bytes(&self) -> Seq<u8>;

    /// Get the total number of slots (active and deleted) on this page.
    fn get_num_slots(&self) -> (r: u16)
        ensures
            r == page::num_slots_of(self.heap_bytes()),
            self.heap_wf() ==> r == self.heap().slots.len(),
    ;

    /// Set the total number of slots (active and deleted) on this page. Only
    /// the count is written: slots that it adds hold whatever their entries
    /// hold.
    fn set_num_slots(&mut self, num_slots: u16)
        ensures
            final(self).heap_bytes() == page::with_u16(
                old(self).heap_bytes(),
                NUM_SLOTS_OFFSET as int,
                num_slots as int,
            ),
    ;

    /// Increment the total number of slots by one and return the new count.
    fn increment_num_slots(&mut self) -> (r: u16)
        requires
            page::num_slots_of(old(self).heap_bytes()) < u16::MAX,
        ensures
            r == page::num_slots_of(old(self).heap_bytes()) + 1,
            final(self).heap_bytes() == page::with_u16(
                old(self).heap_bytes(),
                NUM_SLOTS_OFFSET as int,
                r as int,
            ),
    ;

    /// Decrement the total number of slots by one and return the new count.
    fn decrement_num_slots(&mut self) -> (r: u16)
        requires
            page::num_slots_of(old(self).heap_bytes()) > 0,
        ensures
            r == page::num_slots_of(old(self).heap_bytes()) - 1,
            final(self).heap_bytes() == page::with_u16(
                old(self).heap_bytes(),
                NUM_SLOTS_OFFSET as int,
                r as int,
            ),
    ;

    /// Get the free space pointer: where the body starts, counted from the
    /// start of the page. Free space lies below it.
    fn get_free_space_ptr(&self) -> (r: u16)
        ensures
            r == page::free_space_ptr_of(self.heap_bytes()),
    ;

    /// Set the free space pointer.
    fn set_free_space_ptr(&mut self, ptr: u16)
        ensures
            final(self).heap_bytes() == page::with_u16(
                old(self).heap_bytes(),
                FREE_SPACE_PTR_OFFSET as int,
                ptr as int,
            ),
    ;

    /// Find the next free slot: the offset of the entry of the lowest slot
    /// without a value, or the offset behind the header if every slot has one.
    fn find_next_free_slot(&self) -> (r: usize)
        requires
            self.heap_wf(),
        ensures
            r == page::slot_entry(page::lowest_vacancy(self.heap().slots) as int),
    ;

    /// Initialize the page as a heap page without slots.
    fn init_heap_page(&mut self)
        ensures
            final(self).heap_wf(),
            final(self).heap() == PageView::empty(),
            final(self).heap_bytes().take(16) == old(self).heap_bytes().take(16),
    ;

    /// Attempts to add a new value to this page if there is space available.
    /// Returns the slot that it went to, the lowest one available, or `None`
    /// if there was not enough space. No other slot changes. An empty value
    /// leaves its slot vacant.
    fn add_value(&mut self, bytes: &[u8]) -> (r: Option<SlotId>)
        requires
            old(self).heap_wf(),
        ensures
            final(self).heap_wf(),
            final(self).heap_bytes().take(16) == old(self).heap_bytes().take(16),
            old(self).heap().has_room(bytes@.len()) ==> {
                &&& r == Some(page::lowest_vacancy(old(self).heap().slots) as u16)
                &&& page::lowest_vacancy(old(self).heap().slots) <= u16::MAX
                &&& final(self).heap() == old(self).heap().with_value(bytes@)
            },
            !old(self).heap().has_room(bytes@.len()) ==> {
                &&& r is None
                &&& final(self).heap() == old(self).heap()
            },
    ;

    /// Return the bytes for the slot id. If it is not valid then return None.
    fn get_value(&self, slot_id: SlotId) -> (r: Option<&[u8]>)
        requires
            self.heap_wf(),
        ensures
            match r {
                Some(b) => self.heap().value(slot_id as int) == Some(b@),
                None => self.heap().value(slot_id as int) is None,
            },
    ;

    /// Delete the value of the slot id. If it is not valid then return None.
    /// The slot and the space of the value are free to use afterwards.
    fn delete_value(&mut self, slot_id: SlotId) -> (r: Option<()>)
        requires
            old(self).heap_wf(),
        ensures
            final(self).heap_wf(),
            final(self).heap_bytes().take(16) == old(self).heap_bytes().take(16),
            r is Some <==> old(self).heap().value(slot_id as int) is Some,
            final(self).heap() == (if r is Some {
                old(self).heap().with_slot(slot_id as int, None)
            } else {
                old(self).heap()
            }),
    ;

    /// Update the value for the slot id. If it is not valid or there is not
    /// space on the page return None and leave the old value.
    fn update_value(&mut self, slot_id: SlotId, bytes: &[u8]) -> (r: Option<()>)
        requires
            old(self).heap_wf(),
        ensures
            final(self).heap_wf(),
            final(self).heap_bytes().take(16) == old(self).heap_bytes().take(16),
            r is Some <==> {
                &&& old(self).heap().value(slot_id as int) is Some
                &&& bytes@.len() <= old(self).heap().free_space() + page::value_len(
                    old(self).heap().value(slot_id as int),
                )
            },
            final(self).heap() == (if r is Some {
                old(self).heap().with_slot(slot_id as int, page::as_value(bytes@))
            } else {
                old(self).heap()
            }),
    ;

    /// The current size of the header for this page.
    fn get_header_size(&self) -> (r: usize)
        ensures
            r == page::header_end(self.heap_bytes()),
            self.heap_wf() ==> r == SLOTS_START + SLOT_METADATA_SIZE * self.heap().slots.len(),
    ;

    /// The total current free space in the page: what neither the header nor
    /// a value takes, including space that compaction reclaims. A page that
    /// was never initialized has none.
    fn get_free_space(&self) -> (r: usize)
        requires
            self.heap_wf(),
        ensures
            r == self.heap().free_space(),
    ;

    /// Create an iterator over the values of the page and their slot ids.
    fn iter(&self) -> (r: HeapPageIter<'_>)
        requires
            self.heap_wf(),
        ensures
            r.wf(),
            r.heap() == self.heap(),
            r.position() == 0,
    ;
}

/// Walks the values of a page in slot order.
pub struct HeapPageIter<'a> {
    page: &'a Page,
    slot: u32,
}

impl<'a> HeapPageIter<'a> {
    /// The page is sound.
    pub closed spec fn wf(&self) -> bool {
        self.page.wf()
    }

    /// What the page holds.
    pub closed spec fn heap(&self) -> PageView {
        self.page@
    }

    /// The slot at which the walk goes on.
    pub closed spec fn position(&self) -> int {
        self.slot as int
    }

    /// The next value and its slot id: the first occupied slot from the
    /// current position on. `None` once there is none left.
    pub fn next(&mut self) -> (r: Option<(&'a [u8], SlotId)>)
        requires
            old(self).wf(),
        ensures
            final(self).wf(),
            final(self).heap() == old(self).heap(),
            match r {
                Some((b, s)) => {
                    &&& old(self).position() <= s < old(self).heap().slots.len()
                    &&& old(self).heap().slots[s as int] == Some(b@)
                    &&& forall|j: int|
                        old(self).position() <= j < s
                            ==> #[trigger] old(self).heap().slots[j] is None
                    &&& final(self).position() == s + 1
                },
                None => {
                    &&& forall|j: int|
                        old(self).position() <= j < old(self).heap().slots.len()
                            ==> #[trigger] old(self).heap().slots[j] is None
                    &&& final(self).position() >= old(self).heap().slots.len()
                    &&& final(self).position() >= old(self).position()
                },
            },
    {
        let n: u32 = self.page.get_num_slots() as u32;
        let ghost from = self.slot as int;
        while self.slot < n
            invariant
                self.page == old(self).page,
                self.page.wf(),
                n == self.page@.slots.len(),
                n <= 65535,
                from == old(self).slot,
                from <= self.slot,
                forall|j: int| from <= j < self.slot && j < n ==> #[trigger] self.page@.slots[j] is None,
            decreases n - self.slot,
        {
            let s: u16 = self.slot as u16;
            self.slot = self.slot + 1;
            if let Some(b) = self.page.get_value(s) {
                return Some((b, s));
            }
        }
        None
    }
}

/// Equal entries and equal bodies mean equal values.
proof fn lemma_slot_kept(d: Seq<u8>, e: Seq<u8>, i: int, body: int)
    requires
        d.len() == 4096,
        e.len() == 4096,
        0 <= i,
        page::slot_entry(i) + 4 <= 4096,
        forall|k: int| page::slot_entry(i) <= k < page::slot_entry(i) + 4 ==> d[k] == e[k],
        page::slot_len(d, i) > 0 ==> {
            &&& body <= page::slot_start(d, i)
            &&& page::slot_start(d, i) + page::slot_len(d, i) <= 4096
        },
        forall|k: int| body <= k < 4096 ==> d[k] == e[k],
    ensures
        page::slot_start(d, i) == page::slot_start(e, i),
        page::slot_len(d, i) == page::slot_len(e, i),
        page::slot_value(d, i) == page::slot_value(e, i),
{
    let a = page::slot_start(d, i);
    let n = page::slot_len(d, i);
    if n > 0 {
        assert(d.subrange(a, a + n) =~= e.subrange(a, a + n));
    }
}

/// A cleared entry, counted, keeps the layout sound. The bytes of the value
/// either leave the body or are counted as dead.
proof fn lemma_slot_cleared(d: Seq<u8>, e: Seq<u8>, si: int)
    requires
        page::layout_ok(d),
        page::free_space_ptr_of(d) != 0,
        e.len() == 4096,
        0 <= si < page::num_slots_of(d),
        page::slot_len(d, si) > 0,
        forall|k: int|
            0 <= k < 4096 && !(18 <= k < 24) && !(page::slot_entry(si) + 2 <= k < page::slot_entry(si)
                + 4) ==> #[trigger] e[k] == d[k],
        page::slot_len(e, si) == 0,
        page::deleted_slots_of(e) == page::deleted_slots_of(d) + 1,
        if page::slot_start(d, si) == page::free_space_ptr_of(d) {
            &&& page::free_space_ptr_of(e) == page::free_space_ptr_of(d) + page::slot_len(d, si)
            &&& page::deleted_bytes_of(e) == page::deleted_bytes_of(d)
        } else {
            &&& page::free_space_ptr_of(e) == page::free_space_ptr_of(d)
            &&& page::deleted_bytes_of(e) == page::deleted_bytes_of(d) + page::slot_len(d, si)
        },
    ensures
        page::layout_ok(e),
        page::free_space_ptr_of(e) != 0,
        page::slot_values(e) == page::slot_values(d).update(si, None),
{
    let n = page::num_slots_of(d);
    let fsp = page::free_space_ptr_of(d);
    page::lemma_total_update(page::slot_values(d), si, None);
    assert(page::slot_values(d)[si] == page::slot_value(d, si));
    assert forall|i: int| 0 <= i < n && i != si implies {
        &&& page::slot_start(d, i) == page::slot_start(e, i)
        &&& page::slot_len(d, i) == page::slot_len(e, i)
        &&& #[trigger] page::slot_value(d, i) == page::slot_value(e, i)
    } by {
        lemma_slot_kept(d, e, i, fsp);
    }
    assert(page::slot_values(e) =~= page::slot_values(d).update(si, None));
    assert forall|i: int| 0 <= i < n && page::slot_len(e, i) > 0 implies {
        &&& page::free_space_ptr_of(e) <= #[trigger] page::slot_start(e, i)
        &&& page::slot_start(e, i) + page::slot_len(e, i) <= 4096
    } by {
        assert(page::slot_value(d, i) == page::slot_value(e, i));
        if i < si {
            assert(page::slots_apart(d, i, si));
        } else {
            assert(page::slots_apart(d, si, i));
        }
    }
    assert forall|i: int, j: int|
        0 <= i < j < n && page::slot_len(e, i) > 0 && page::slot_len(e, j) > 0
        implies #[trigger] page::slots_apart(e, i, j) by {
        assert(page::slot_value(d, i) == page::slot_value(e, i));
        assert(page::slot_value(d, j) == page::slot_value(e, j));
        assert(page::slots_apart(d, i, j));
    }
}

impl Page {
    /// Frees slot `s` and the bytes of its value.
    #[verifier::rlimit(30)]
    fn clear_slot(&mut self, s: u16)
        requires
            old(self).wf(),
            s < old(self)@.slots.len(),
            old(self)@.slots[s as int] is Some,
        ensures
            final(self).wf(),
            final(self)@ == old(self)@.with_slot(s as int, None),
            final(self).raw().take(16) == old(self).raw().take(16),
    {
        proof {
            self.lemma_layout();
        }
        let ghost d = self.raw();
        let ghost si = s as int;
        assert(page::slot_values(d)[si] == page::slot_value(d, si));
        let at: usize = SLOTS_START + SLOT_METADATA_SIZE * (s as usize);
        let start: u16 = self.get_u16(at);
        let len: u16 = self.get_u16(at + 2);
        let fsp: u16 = self.get_u16(FREE_SPACE_PTR_OFFSET);
        let dead: u16 = self.get_u16(DELETED_BYTES_OFFSET);
        let vacant: u16 = self.get_u16(DELETED_SLOTS_OFFSET);
        proof {
            page::lemma_total_update(page::slot_values(d), si, None);
            page::lemma_vacancies_bound(page::slot_values(d));
        }
        if start == fsp {
            self.set_u16(FREE_SPACE_PTR_OFFSET, fsp + len);
        } else {
            self.set_u16(DELETED_BYTES_OFFSET, dead + len);
        }
        self.set_u16(at + 2, 0);
        self.set_u16(DELETED_SLOTS_OFFSET, vacant + 1);
        proof {
            self.lemma_layout();
            lemma_slot_cleared(d, self.raw(), si);
            assert(self.raw().take(16) =~= d.take(16));
        }
    }
}

/// Writing a value below the body and its entry into a vacant slot keeps the
/// layout sound.
proof fn lemma_placed(d: Seq<u8>, e: Seq<u8>, si: int, bytes: Seq<u8>)
    requires
        page::layout_ok(d),
        page::free_space_ptr_of(d) != 0,
        e.len() == 4096,
        0 <= si < page::num_slots_of(d),
        page::slot_len(d, si) == 0,
        0 < bytes.len() <= page::free_space_ptr_of(d) - page::header_end(d),
        forall|k: int|
            0 <= k < 4096 && !(18 <= k < 20) && !(22 <= k < 24) && !(page::slot_entry(si) <= k
                < page::slot_entry(si) + 4) && !(page::free_space_ptr_of(d) - bytes.len() <= k
                < page::free_space_ptr_of(d)) ==> #[trigger] e[k] == d[k],
        e.subrange(page::free_space_ptr_of(d) - bytes.len(), page::free_space_ptr_of(d)) == bytes,
        page::free_space_ptr_of(e) == page::free_space_ptr_of(d) - bytes.len(),
        page::deleted_slots_of(e) == page::deleted_slots_of(d) - 1,
        page::slot_start(e, si) == page::free_space_ptr_of(d) - bytes.len(),
        page::slot_len(e, si) == bytes.len(),
    ensures
        page::layout_ok(e),
        page::slot_values(e) == page::slot_values(d).update(si, Some(bytes)),
{
    let n = page::num_slots_of(d);
    let fsp = page::free_space_ptr_of(d);
    page::lemma_total_update(page::slot_values(d), si, Some(bytes));
    assert(page::slot_values(d)[si] == page::slot_value(d, si));
    assert forall|i: int| 0 <= i < n && i != si implies {
        &&& page::slot_start(d, i) == page::slot_start(e, i)
        &&& page::slot_len(d, i) == page::slot_len(e, i)
        &&& #[trigger] page::slot_value(d, i) == page::slot_value(e, i)
    } by {
        lemma_slot_kept(d, e, i, fsp);
    }
    assert(page::slot_values(e) =~= page::slot_values(d).update(si, Some(bytes)));
    assert forall|i: int| 0 <= i < n && page::slot_len(e, i) > 0 implies {
        &&& page::free_space_ptr_of(e) <= #[trigger] page::slot_start(e, i)
        &&& page::slot_start(e, i) + page::slot_len(e, i) <= 4096
    } by {
        if i != si {
            assert(page::slot_value(d, i) == page::slot_value(e, i));
        }
    }
    assert forall|i: int, j: int|
        0 <= i < j < n && page::slot_len(e, i) > 0 && page::slot_len(e, j) > 0
        implies #[trigger] page::slots_apart(e, i, j) by {
        if i != si {
            assert(page::slot_value(d, i) == page::slot_value(e, i));
        }
        if j != si {
            assert(page::slot_value(d, j) == page::slot_value(e, j));
        }
        if i != si && j != si {
            assert(page::slots_apart(d, i, j));
        }
    }
}

/// The bytes of a page after `bytes` went right below the body and the vacant
/// slot `si` got them.
spec fn place_writes(d: Seq<u8>, si: int, bytes: Seq<u8>) -> Seq<u8> {
    let start = page::free_space_ptr_of(d) - bytes.len();
    let body = page::with_bytes(d, start, bytes);
    let moved = page::with_u16(body, FREE_SPACE_PTR_OFFSET as int, start);
    let placed = page::with_u16(moved, page::slot_entry(si), start);
    let sized = page::with_u16(placed, page::slot_entry(si) + 2, bytes.len() as int);
    page::with_u16(sized, DELETED_SLOTS_OFFSET as int, page::deleted_slots_of(d) - 1)
}

/// The writes that store a value in a vacant slot keep the layout sound.
proof fn lemma_place_writes(d: Seq<u8>, e: Seq<u8>, si: int, bytes: Seq<u8>)
    requires
        page::layout_ok(d),
        page::free_space_ptr_of(d) != 0,
        0 <= si < page::num_slots_of(d),
        page::slot_len(d, si) == 0,
        0 < bytes.len() <= page::free_space_ptr_of(d) - page::header_end(d),
        e == place_writes(d, si, bytes),
    ensures
        page::layout_ok(e),
        page::slot_values(e) == page::slot_values(d).update(si, Some(bytes)),
        page::free_space_ptr_of(e) != 0,
        e.take(16) == d.take(16),
{
    let fsp = page::free_space_ptr_of(d);
    let start = fsp - bytes.len();
    let at = page::slot_entry(si);
    page::lemma_total_update(page::slot_values(d), si, Some(bytes));
    assert(page::slot_values(d)[si] == page::slot_value(d, si));
    assert(e.len() == 4096);
    assert forall|k: int|
        0 <= k < 4096 && !(18 <= k < 20) && !(22 <= k < 24) && !(at <= k < at + 4) && !(start <= k
            < fsp) implies #[trigger] e[k] == d[k] by {}
    assert(e.subrange(start, fsp) =~= bytes);
    lemma_placed(d, e, si, bytes);
    assert(e.take(16) =~= d.take(16));
}

/// A vacant entry behind the header, counted, keeps the layout sound.
proof fn lemma_slot_pushed(d: Seq<u8>, e: Seq<u8>)
    requires
        page::layout_ok(d),
        page::free_space_ptr_of(d) != 0,
        e.len() == 4096,
        page::header_end(d) + 4 <= page::free_space_ptr_of(d),
        forall|k: int|
            0 <= k < 4096 && !(16 <= k < 18) && !(22 <= k < 24) && !(page::header_end(d) <= k
                < page::header_end(d) + 4) ==> #[trigger] e[k] == d[k],
        page::num_slots_of(e) == page::num_slots_of(d) + 1,
        page::deleted_slots_of(e) == page::deleted_slots_of(d) + 1,
        page::slot_len(e, page::num_slots_of(d)) == 0,
    ensures
        page::layout_ok(e),
        page::free_space_ptr_of(e) == page::free_space_ptr_of(d),
        page::slot_values(e) == page::slot_values(d).push(None),
{
    let n = page::num_slots_of(d);
    let fsp = page::free_space_ptr_of(d);
    page::lemma_total_push(page::slot_values(d), None);
    assert forall|i: int| 0 <= i < n implies {
        &&& page::slot_start(d, i) == page::slot_start(e, i)
        &&& page::slot_len(d, i) == page::slot_len(e, i)
        &&& #[trigger] page::slot_value(d, i) == page::slot_value(e, i)
    } by {
        lemma_slot_kept(d, e, i, fsp);
    }
    assert(page::slot_values(e) =~= page::slot_values(d).push(None));
    assert forall|i: int| 0 <= i < n + 1 && page::slot_len(e, i) > 0 implies {
        &&& page::free_space_ptr_of(e) <= #[trigger] page::slot_start(e, i)
        &&& page::slot_start(e, i) + page::slot_len(e, i) <= 4096
    } by {
        assert(page::slot_value(d, i) == page::slot_value(e, i));
    }
    assert forall|i: int, j: int|
        0 <= i < j < n + 1 && page::slot_len(e, i) > 0 && page::slot_len(e, j) > 0
        implies #[trigger] page::slots_apart(e, i, j) by {
        assert(page::slot_value(d, i) == page::slot_value(e, i));
        assert(page::slot_value(d, j) == page::slot_value(e, j));
        assert(page::slots_apart(d, i, j));
    }
}

/// The slots of `d` below `s` stand in `e`, from `pos` on, and apart.
spec fn moved_below(d: Seq<u8>, e: Seq<u8>, s: int, pos: int) -> bool {
    &&& forall|i: int|
        0 <= i < s && page::slot_len(d, i) > 0 ==> {
            &&& pos <= #[trigger] page::slot_start(e, i)
            &&& page::slot_start(e, i) + page::slot_len(d, i) <= 4096
            &&& page::slot_value(e, i) == page::slot_value(d, i)
        }
    &&& forall|i: int, j: int|
        0 <= i < j < s && page::slot_len(d, i) > 0 && page::slot_len(d, j) > 0
            ==> #[trigger] page::slots_apart(e, i, j)
}

/// One step of a compaction: the value of slot `s` was copied below `pos`.
proof fn lemma_moved(d: Seq<u8>, f: Seq<u8>, e: Seq<u8>, s: int, pos: int)
    requires
        d.len() == 4096,
        f.len() == 4096,
        e.len() == 4096,
        0 <= s < page::num_slots_of(d),
        page::header_end(d) <= pos - page::slot_len(d, s),
        pos <= 4096,
        page::slot_len(d, s) > 0,
        moved_below(d, f, s, pos),
        forall|i: int|
            0 <= i < page::num_slots_of(d) ==> page::slot_len(f, i) == #[trigger] page::slot_len(d, i),
        forall|k: int|
            0 <= k < 4096 && !(page::slot_entry(s) <= k < page::slot_entry(s) + 2) && !(pos - page::slot_len(
                d,
                s,
            ) <= k < pos) ==> #[trigger] e[k] == f[k],
        Some(e.subrange(pos - page::slot_len(d, s), pos)) == page::slot_value(d, s),
        page::slot_start(e, s) == pos - page::slot_len(d, s),
    ensures
        moved_below(d, e, s + 1, pos - page::slot_len(d, s)),
        forall|i: int|
            0 <= i < page::num_slots_of(d) ==> page::slot_len(e, i) == #[trigger] page::slot_len(d, i),
        forall|i: int|
            s < i < page::num_slots_of(d) ==> #[trigger] page::slot_start(e, i) == page::slot_start(f, i),
        forall|k: int| 0 <= k < 24 ==> e[k] == f[k],
{
    let n = page::num_slots_of(d);
    let to = pos - page::slot_len(d, s);
    assert forall|i: int| 0 <= i < n implies page::slot_len(e, i) == #[trigger] page::slot_len(d, i) by {
        assert(page::slot_len(f, i) == page::slot_len(d, i));
    }
    assert forall|i: int| 0 <= i < s + 1 && page::slot_len(d, i) > 0 implies {
        &&& to <= #[trigger] page::slot_start(e, i)
        &&& page::slot_start(e, i) + page::slot_len(d, i) <= 4096
        &&& page::slot_value(e, i) == page::slot_value(d, i)
    } by {
        assert(page::slot_len(e, i) == page::slot_len(d, i));
        if i < s {
            assert(pos <= page::slot_start(f, i));
            assert(page::slot_len(f, i) == page::slot_len(d, i));
            lemma_slot_kept(f, e, i, pos);
        }
    }
    assert forall|i: int, j: int|
        0 <= i < j < s + 1 && page::slot_len(d, i) > 0 && page::slot_len(d, j) > 0
        implies #[trigger] page::slots_apart(e, i, j) by {
        assert(page::slot_len(e, i) == page::slot_len(d, i));
        assert(page::slot_len(e, j) == page::slot_len(d, j));
        assert(page::slot_len(f, i) == page::slot_len(d, i));
        assert(page::slot_len(f, j) == page::slot_len(d, j));
        assert(pos <= page::slot_start(f, i));
        lemma_slot_kept(f, e, i, pos);
        if j < s {
            assert(pos <= page::slot_start(f, j));
            lemma_slot_kept(f, e, j, pos);
            assert(page::slots_apart(f, i, j));
        }
    }
}

impl Page {
    /// Free space between the header and the body.
    closed spec fn gap(&self) -> int {
        page::free_space_ptr_of(self.raw()) - page::header_end(self.raw())
    }

    /// Adds a vacant slot.
    fn push_slot(&mut self)
        requires
            old(self).wf(),
            old(self)@.ready,
            old(self).gap() >= 4,
        ensures
            final(self).wf(),
            final(self)@.ready,
            final(self)@.slots == old(self)@.slots.push(None),
            final(self).gap() == old(self).gap() - 4,
            final(self).raw().take(16) == old(self).raw().take(16),
    {
        proof {
            self.lemma_layout();
        }
        let ghost d = self.raw();
        let at: usize = self.get_header_size();
        let vacant: u16 = self.get_u16(DELETED_SLOTS_OFFSET);
        proof {
            page::lemma_vacancies_bound(page::slot_values(d));
        }
        self.set_u16(at, 0);
        self.set_u16(at + 2, 0);
        self.increment_num_slots();
        self.set_u16(DELETED_SLOTS_OFFSET, vacant + 1);
        proof {
            self.lemma_layout();
            lemma_slot_pushed(d, self.raw());
            assert(self.raw().take(16) =~= d.take(16));
        }
    }

    /// Stores `bytes` in the vacant slot `s`, right below the body.
    fn place(&mut self, s: u16, bytes: &[u8])
        requires
            old(self).wf(),
            old(self)@.ready,
            s < old(self)@.slots.len(),
            old(self)@.slots[s as int] is None,
            bytes@.len() <= old(self).gap(),
        ensures
            final(self).wf(),
            final(self)@ == old(self)@.with_slot(s as int, page::as_value(bytes@)),
            final(self).raw().take(16) == old(self).raw().take(16),
    {
        proof {
            self.lemma_layout();
        }
        let ghost d = self.raw();
        let ghost si = s as int;
        if bytes.len() == 0 {
            assert(page::slot_values(d) =~= page::slot_values(d).update(si, None));
            return;
        }
        let at: usize = SLOTS_START + SLOT_METADATA_SIZE * (s as usize);
        let fsp: usize = self.get_free_space_ptr() as usize;
        let vacant: u16 = self.get_u16(DELETED_SLOTS_OFFSET);
        let start: usize = fsp - bytes.len();
        proof {
            page::lemma_total_update(page::slot_values(d), si, Some(bytes@));
        }
        self.write_bytes(start, bytes);
        self.set_u16(FREE_SPACE_PTR_OFFSET, start as u16);
        self.set_u16(at, start as u16);
        self.set_u16(at + 2, bytes.len() as u16);
        self.set_u16(DELETED_SLOTS_OFFSET, vacant - 1);
        proof {
            self.lemma_layout();
            lemma_place_writes(d, self.raw(), si, bytes@);
        }
    }

    /// Moves all values to the end of the page, lower slots to higher
    /// offsets, so that no dead bytes are left between them.
    #[verifier::rlimit(30)]
    fn compact(&mut self)
        requires
            old(self).wf(),
            old(self)@.ready,
        ensures
            final(self).wf(),
            final(self)@ == old(self)@,
            final(self).gap() == old(self)@.free_space(),
            final(self).raw().take(16) == old(self).raw().take(16),
    {
        proof {
            self.lemma_layout();
        }
        let ghost d = self.raw();
        let ghost slots = page::slot_values(d);
        let n: u16 = self.get_num_slots();
        let header: usize = self.get_header_size();
        let mut fresh = self.duplicate();
        let mut pos: usize = PAGE_SIZE;
        let mut s: u16 = 0;
        proof {
            assert(slots.take(0) =~= Seq::<Option<Seq<u8>>>::empty());
        }
        while s < n
            invariant
                0 <= s <= n,
                self.raw() == d,
                page::layout_ok(d),
                page::free_space_ptr_of(d) != 0,
                n == page::num_slots_of(d),
                slots == page::slot_values(d),
                header == page::header_end(d),
                fresh.raw().len() == 4096,
                pos == 4096 - page::total_len(slots.take(s as int)),
                header <= pos <= 4096,
                // The header is untouched but for the starts of the slots below `s`.
                forall|k: int| 0 <= k < 24 ==> #[trigger] fresh.raw()[k] == d[k],
                forall|i: int| s <= i < n ==> page::slot_start(fresh.raw(), i) == #[trigger] page::slot_start(d, i),
                forall|i: int| 0 <= i < n ==> page::slot_len(fresh.raw(), i) == #[trigger] page::slot_len(d, i),
                moved_below(d, fresh.raw(), s as int, pos as int),
            decreases n - s,
        {
            let at: usize = SLOTS_START + SLOT_METADATA_SIZE * (s as usize);
            let start: usize = self.get_u16(at) as usize;
            let len: usize = self.get_u16(at + 2) as usize;
            let ghost si = s as int;
            let ghost before = fresh.raw();
            let ghost old_pos = pos;
            proof {
                assert(slots.take(si + 1).drop_last() =~= slots.take(si));
                page::lemma_total_prefix(slots, si + 1);
                assert(slots[si] == page::slot_value(d, si));
            }
            if len > 0 {
                pos = pos - len;
                fresh.write_bytes(pos, self.bytes(start, start + len));
                fresh.set_u16(at, pos as u16);
                proof {
                    let e = fresh.raw();
                    assert(e.subrange(pos as int, pos + len) =~= d.subrange(start as int, start + len));
                    lemma_moved(d, before, e, si, old_pos as int);
                }
            }
            s = s + 1;
        }
        let ghost moved = fresh.raw();
        fresh.set_u16(FREE_SPACE_PTR_OFFSET, pos as u16);
        fresh.set_u16(DELETED_BYTES_OFFSET, 0);
        proof {
            fresh.lemma_layout();
            let e = fresh.raw();
            assert(slots.take(n as int) =~= slots);
            assert forall|i: int| 0 <= i < n implies {
                &&& page::slot_start(e, i) == page::slot_start(moved, i)
                &&& page::slot_len(e, i) == page::slot_len(d, i)
                &&& #[trigger] page::slot_value(e, i) == page::slot_value(d, i)
            } by {
                assert(page::slot_len(moved, i) == page::slot_len(d, i));
                if page::slot_len(d, i) > 0 {
                    assert(pos <= page::slot_start(moved, i));
                }
                lemma_slot_kept(moved, e, i, pos as int);
            }
            assert(page::slot_values(e) =~= slots);
            assert forall|i: int| 0 <= i < n && page::slot_len(e, i) > 0 implies {
                &&& page::free_space_ptr_of(e) <= #[trigger] page::slot_start(e, i)
                &&& page::slot_start(e, i) + page::slot_len(e, i) <= 4096
            } by {
                assert(page::slot_value(e, i) == page::slot_value(d, i));
                assert(pos <= page::slot_start(moved, i));
            }
            assert forall|i: int, j: int|
                0 <= i < j < n && page::slot_len(e, i) > 0 && page::slot_len(e, j) > 0
                implies #[trigger] page::slots_apart(e, i, j) by {
                assert(page::slot_value(e, i) == page::slot_value(d, i));
                assert(page::slot_value(e, j) == page::slot_value(d, j));
                assert(page::slots_apart(moved, i, j));
            }
            assert(e.take(16) =~= d.take(16));
        }
        *self = fresh;
    }
}

impl HeapPage for Page {
    open spec fn heap(&self) -> PageView {
        self@
    }

    open spec fn heap_wf(&self) -> bool {
        self.wf()
    }

    open spec fn heap_bytes(&self) -> Seq<u8> {
        self.raw()
    }

    fn get_num_slots(&self) -> (r: u16) {
        proof {
            self.lemma_layout();
        }
        self.get_u16(NUM_SLOTS_OFFSET)
    }

    fn set_num_slots(&mut self, num_slots: u16) {
        self.set_u16(NUM_SLOTS_OFFSET, num_slots);
    }

    fn increment_num_slots(&mut self) -> (r: u16) {
        let new_count: u16 = self.get_num_slots() + 1;
        self.set_num_slots(new_count);
        new_count
    }

    fn decrement_num_slots(&mut self) -> (r: u16) {
        let new_count: u16 = self.get_num_slots() - 1;
        self.set_num_slots(new_count);
        new_count
    }

    fn get_free_space_ptr(&self) -> (r: u16) {
        self.get_u16(FREE_SPACE_PTR_OFFSET)
    }

    fn set_free_space_ptr(&mut self, ptr: u16) {
        self.set_u16(FREE_SPACE_PTR_OFFSET, ptr);
    }

    fn find_next_free_slot(&self) -> (r: usize) {
        proof {
            self.lemma_layout();
        }
        let end: usize = self.get_header_size();
        let mut offset: usize = SLOTS_START;
        let ghost mut k: int = 0;
        while offset < end
            invariant
                self.wf(),
                page::layout_ok(self.raw()),
                self@.slots == page::slot_values(self.raw()),
                end == page::header_end(self.raw()),
                end <= 4096,
                offset == page::slot_entry(k),
                0 <= k <= self@.slots.len(),
                forall|j: int| 0 <= j < k ==> #[trigger] self@.slots[j] is Some,
            decreases end - offset,
        {
            let length: u16 = self.get_u16(offset + 2);
            assert(self@.slots[k] == page::slot_value(self.raw(), k));
            if length == 0 {
                proof {
                    page::lemma_lowest_vacancy_is(self@.slots, k);
                }
                return offset;
            }
            offset = offset + SLOT_METADATA_SIZE;
            proof {
                k = k + 1;
            }
        }
        proof {
            page::lemma_lowest_vacancy_is(self@.slots, k);
        }
        end
    }

    fn init_heap_page(&mut self) {
        proof {
            self.lemma_layout();
        }
        self.set_u16(NUM_SLOTS_OFFSET, 0);
        self.set_u16(FREE_SPACE_PTR_OFFSET, PAGE_SIZE as u16);
        self.set_u16(DELETED_BYTES_OFFSET, 0);
        self.set_u16(DELETED_SLOTS_OFFSET, 0);
        proof {
            self.lemma_layout();
            assert(page::slot_values(self.raw()) =~= Seq::<Option<Seq<u8>>>::empty());
            assert(self.raw().take(16) =~= old(self).raw().take(16));
        }
    }

    fn add_value(&mut self, bytes: &[u8]) -> (r: Option<SlotId>) {
        proof {
            self.lemma_layout();
            page::lemma_lowest_vacancy(self@.slots);
        }
        let header: usize = self.get_header_size();
        let slot_offset: usize = self.find_next_free_slot();
        let reuse: bool = slot_offset < header;
        let space: usize = self.get_free_space();
        let entry: usize = if reuse {
            0
        } else {
            SLOT_METADATA_SIZE
        };
        if space < entry || bytes.len() > space - entry {
            return None;
        }
        let slot_id: u16 = ((slot_offset - SLOTS_START) / SLOT_METADATA_SIZE) as u16;
        if (self.get_free_space_ptr() as usize) - header < entry + bytes.len() {
            self.compact();
        }
        if !reuse {
            self.push_slot();
        }
        self.place(slot_id, bytes);
        proof {
            assert(self@.slots =~= old(self)@.with_value(bytes@).slots);
        }
        Some(slot_id)
    }

    fn get_value(&self, slot_id: SlotId) -> (r: Option<&[u8]>) {
        proof {
            self.lemma_layout();
        }
        let num_slots: u16 = self.get_num_slots();
        if slot_id >= num_slots {
            return None;
        }
        let at: usize = SLOTS_START + SLOT_METADATA_SIZE * (slot_id as usize);
        let data_offset: usize = self.get_u16(at) as usize;
        let data_length: usize = self.get_u16(at + 2) as usize;
        assert(self@.slots[slot_id as int] == page::slot_value(self.raw(), slot_id as int));
        if data_length == 0 {
            return None;
        }
        Some(self.bytes(data_offset, data_offset + data_length))
    }

    fn delete_value(&mut self, slot_id: SlotId) -> (r: Option<()>) {
        if self.get_value(slot_id).is_none() {
            return None;
        }
        self.clear_slot(slot_id);
        Some(())
    }

    fn update_value(&mut self, slot_id: SlotId, bytes: &[u8]) -> (r: Option<()>) {
        proof {
            self.lemma_layout();
        }
        let held: usize = match self.get_value(slot_id) {
            Some(b) => b.len(),
            None => {
                return None;
            },
        };
        if bytes.len() > self.get_free_space() + held {
            return None;
        }
        proof {
            page::lemma_total_update(self@.slots, slot_id as int, None);
        }
        self.clear_slot(slot_id);
        proof {
            self.lemma_layout();
        }
        if (self.get_free_space_ptr() as usize) - self.get_header_size() < bytes.len() {
            self.compact();
        }
        self.place(slot_id, bytes);
        proof {
            assert(self@.slots =~= old(self)@.slots.update(slot_id as int, page::as_value(bytes@)));
        }
        Some(())
    }

    fn get_header_size(&self) -> (r: usize) {
        proof {
            self.lemma_layout();
        }
        SLOTS_START + (self.get_num_slots() as usize) * SLOT_METADATA_SIZE
    }

    fn get_free_space(&self) -> (r: usize) {
        proof {
            self.lemma_layout();
        }
        let fsp: usize = self.get_free_space_ptr() as usize;
        if fsp == 0 {
            return 0;
        }
        let dead: usize = self.get_u16(DELETED_BYTES_OFFSET) as usize;
        fsp - self.get_header_size() + dead
    }

    fn iter(&self) -> (r: HeapPageIter<'_>) {
        HeapPageIter { page: self, slot: 0 }
    }
}

} // verus!
