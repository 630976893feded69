//! Heap files: the values of one container, spread over its pages.
//!
//! Page zero of the container is a header page that holds no values. The data
//! pages follow it.
use crate::common::error::{c_err, CrustyError};
use crate::common::ids::{ContainerId, PageId, SlotId, ValueId};
use crate::heapstore::buffer_pool::{BufferPool, PageFrameId};
use crate::heapstore::heap_page::HeapPage;
use crate::heapstore::page;
use crate::heapstore::page::{Page, PageView};
use vstd::prelude::*;
use vstd::slice::slice_to_vec;

verus! {

/// The heap file of a container. Its pages live in a buffer pool.
#[derive(Clone, Copy)]
pub struct HeapFile {
    pub c_id: ContainerId,
}

/// The value at (`page_id`, `slot_id`) of the given pages.
pub open spec fn value_at(pages: Seq<PageView>, page_id: PageId, slot_id: SlotId) -> Option<Seq<u8>> {
    if page_id < pages.len() {
        pages[page_id as int].value(slot_id as int)
    } else {
        None
    }
}

/// The first data page from `from` on with room for `n` more bytes; the number
/// of pages where there is none.
pub open spec fn first_with_room(pages: Seq<PageView>, from: int, n: nat) -> int
    decreases pages.len() - from,
{
    if from >= pages.len() {
        pages.len() as int
    } else if pages[from].has_room(n) {
        from
    } else {
        first_with_room(pages, from + 1, n)
    }
}

/// Pages after a value was added, and where it went: the first data page with
/// room takes it; without one a new page is allocated.
pub open spec fn added(pages: Seq<PageView>, c_id: ContainerId, bytes: Seq<u8>) -> (
    Seq<PageView>,
    ValueId,
) {
    let p = first_with_room(pages, 1, bytes.len());
    if p < pages.len() {
        (
            pages.update(p, pages[p].with_value(bytes)),
            ValueId::at(c_id, p as PageId, page::lowest_vacancy(pages[p].slots) as SlotId),
        )
    } else {
        (
            pages.push(PageView::empty().with_value(bytes)),
            ValueId::at(c_id, pages.len() as PageId, 0),
        )
    }
}

/// The values of `pages` from slot `s` of page `p` on, in order.
pub open spec fn values_from(c_id: ContainerId, pages: Seq<PageView>, p: int, s: int) -> Seq<
    (Seq<u8>, ValueId),
>
    decreases pages.len() - p, (if p < pages.len() { pages[p].slots.len() - s } else { 0 }),
    when 0 <= p && 0 <= s
{
    if p >= pages.len() {
        Seq::empty()
    } else if s >= pages[p].slots.len() {
        values_from(c_id, pages, p + 1, 0)
    } else {
        match pages[p].slots[s] {
            Some(b) => seq![(b, ValueId::at(c_id, p as PageId, s as SlotId))] + values_from(
                c_id,
                pages,
                p,
                s + 1,
            ),
            None => values_from(c_id, pages, p, s + 1),
        }
    }
}

/// The pages start with a header page, which is blank.
pub open spec fn has_header(pages: Seq<PageView>) -> bool {
    pages.len() > 0 && pages[0] == PageView::blank()
}

impl HeapFile {
    /// The container has a header page, which is blank.
    pub open spec fn wf(&self, bp: &BufferPool) -> bool {
        bp.wf() && has_header(bp.pages(self.c_id))
    }

    /// The page, for reading.
    fn get_page_for_read<'a>(&self, bp: &'a BufferPool, page_id: PageId) -> (r: &'a Page)
        requires
            bp.wf(),
            page_id < bp.pages(self.c_id).len(),
        ensures
            r.wf(),
            r@ == bp.pages(self.c_id)[page_id as int],
    {
        bp.get_page_for_read(PageFrameId::new(self.c_id, page_id)).unwrap()
    }

    /// The page, for writing.
    fn get_page_for_write<'a>(&self, bp: &'a mut BufferPool, page_id: PageId) -> (r: &'a mut Page)
        requires
            old(bp).wf(),
            page_id < old(bp).pages(self.c_id).len(),
        ensures
            r.wf(),
            r@ == old(bp).pages(self.c_id)[page_id as int],
            final(r).wf() && final(r).id() == r.id() ==> final(bp).wf(),
            final(bp).same_but(old(bp), self.c_id),
            final(bp).pages(self.c_id) == old(bp).pages(self.c_id).update(
                page_id as int,
                final(r)@,
            ),
    {
        bp.get_page_for_write(PageFrameId::new(self.c_id, page_id)).unwrap()
    }

    /// Create a brand-new heap file for container `c_id`: its next page, page
    /// zero of a new container, becomes the header page and stays zeroed.
    pub fn new(c_id: ContainerId, mem_pool: &mut BufferPool) -> (r: Result<Self, CrustyError>)
        requires
            old(mem_pool).wf(),
        ensures
            final(mem_pool).wf(),
            final(mem_pool).same_but(old(mem_pool), c_id),
            match r {
                Ok(f) => {
                    &&& f.c_id == c_id
                    &&& old(mem_pool).pages(c_id).len() == 0 || has_header(old(mem_pool).pages(c_id))
                        ==> f.wf(final(mem_pool))
                    &&& old(mem_pool).pages(c_id).len() < u32::MAX
                    &&& final(mem_pool).pages(c_id) == old(mem_pool).pages(c_id).push(
                        PageView::blank(),
                    )
                },
                Err(e) => {
                    &&& old(mem_pool).pages(c_id).len() == u32::MAX
                    &&& e.message() == "Out of page ids"@
                    &&& final(mem_pool).pages(c_id) == old(mem_pool).pages(c_id)
                },
            },
    {
        match mem_pool.create_new_page_for_write(c_id) {
            Ok(_) => Ok(HeapFile { c_id }),
            Err(e) => Err(e),
        }
    }

    /// Load an existing heap file. Its pages stay as they are.
    pub fn load(c_id: ContainerId, mem_pool: &BufferPool) -> (r: Result<Self, CrustyError>)
        ensures
            r == Ok::<HeapFile, CrustyError>(HeapFile { c_id }),
    {
        Ok(HeapFile { c_id })
    }

    /// Return the number of pages for this heap file, the header included.
    pub fn num_pages(&self, bp: &BufferPool) -> (r: PageId)
        requires
            bp.wf(),
        ensures
            r == bp.pages(self.c_id).len(),
    {
        match bp.get_max_page_id(self.c_id) {
            Some(n) => n,
            None => 0,
        }
    }

    /// Read a value at (page_id, slot_id) from the heap file.
    pub fn get_val(&self, bp: &BufferPool, page_id: PageId, slot_id: SlotId) -> (r: Result<
        Vec<u8>,
        CrustyError,
    >)
        requires
            bp.wf(),
        ensures
            match r {
                Ok(v) => {
                    &&& value_at(bp.pages(self.c_id), page_id, slot_id) == Some(v@)
                    &&& self.wf(bp) ==> page_id > 0
                },
                Err(e) => {
                    &&& value_at(bp.pages(self.c_id), page_id, slot_id) is None
                    &&& e.message() == if page_id >= bp.pages(self.c_id).len() {
                        "Page not found"@
                    } else {
                        "Value not found"@
                    }
                },
            },
    {
        if page_id >= self.num_pages(bp) {
            return Err(c_err("Page not found"));
        }
        match self.get_page_for_read(bp, page_id).get_value(slot_id) {
            Some(v) => Ok(slice_to_vec(v)),
            None => Err(c_err("Value not found")),
        }
    }

    /// Delete a value at (page_id, slot_id) from the heap file.
    pub fn delete_val(&self, bp: &mut BufferPool, page_id: PageId, slot_id: SlotId) -> (r: Result<
        (),
        CrustyError,
    >)
        requires
            old(bp).wf(),
        ensures
            final(bp).wf(),
            final(bp).same_but(old(bp), self.c_id),
            self.wf(old(bp)) ==> self.wf(final(bp)),
            match r {
                Ok(()) => {
                    &&& value_at(old(bp).pages(self.c_id), page_id, slot_id) is Some
                    &&& final(bp).pages(self.c_id) == old(bp).pages(self.c_id).update(
                        page_id as int,
                        old(bp).pages(self.c_id)[page_id as int].with_slot(slot_id as int, None),
                    )
                },
                Err(e) => {
                    &&& value_at(old(bp).pages(self.c_id), page_id, slot_id) is None
                    &&& e.message() == if page_id >= old(bp).pages(self.c_id).len() {
                        "Page not found"@
                    } else {
                        "Value not found or already deleted"@
                    }
                    &&& final(bp).pages(self.c_id) == old(bp).pages(self.c_id)
                },
            },
    {
        if page_id >= self.num_pages(bp) {
            return Err(c_err("Page not found"));
        }
        let page = self.get_page_for_write(bp, page_id);
        match page.delete_value(slot_id) {
            Some(_) => Ok(()),
            None => {
                assert(bp.pages(self.c_id) =~= old(bp).pages(self.c_id));
                Err(c_err("Value not found or already deleted"))
            },
        }
    }

    /// Update the value at (page_id, slot_id). Where the new value does not
    /// fit on its page, the old one is deleted and the new one added wherever
    /// there is room, under another id. If no page can hold it, the old value
    /// is gone and the addition's error comes back.
    pub fn update_val(&self, bp: &mut BufferPool, page_id: PageId, slot_id: SlotId, val: &[u8]) -> (r:
        Result<ValueId, CrustyError>)
        requires
            old(bp).wf(),
        ensures
            final(bp).wf(),
            final(bp).same_but(old(bp), self.c_id),
            self.wf(old(bp)) ==> self.wf(final(bp)),
            ({
                let pages = old(bp).pages(self.c_id);
                let here = pages[page_id as int];
                let held = value_at(pages, page_id, slot_id);
                let without = pages.update(page_id as int, here.with_slot(slot_id as int, None));
                if held is None {
                    &&& r matches Err(e)
                    &&& e.message() == if page_id >= pages.len() {
                        "Page not found"@
                    } else {
                        "Update failed: slot not found"@
                    }
                    &&& final(bp).pages(self.c_id) == pages
                } else if val@.len() <= here.free_space() + page::value_len(held) {
                    &&& r == Ok::<ValueId, CrustyError>(ValueId::at(self.c_id, page_id, slot_id))
                    &&& final(bp).pages(self.c_id) == pages.update(
                        page_id as int,
                        here.with_slot(slot_id as int, page::as_value(val@)),
                    )
                } else {
                    add_outcome(without, self.c_id, val@, r, final(bp).pages(self.c_id))
                }
            }),
    {
        if page_id >= self.num_pages(bp) {
            return Err(c_err("Page not found"));
        }
        let ghost pages = bp.pages(self.c_id);
        let ghost here = pages[page_id as int];
        {
            let page = self.get_page_for_write(bp, page_id);
            if page.update_value(slot_id, val).is_some() {
                return Ok(ValueId::new_slot(self.c_id, page_id, slot_id));
            }
            // Distinguish "slot not found / deleted" from "no space on page".
            if page.get_value(slot_id).is_none() {
                assert(bp.pages(self.c_id) =~= old(bp).pages(self.c_id));
                return Err(c_err("Update failed: slot not found"));
            }
            // The slot exists but the value does not fit in place: delete it
            // to free the space.
            if page.delete_value(slot_id).is_none() {
                return Err(c_err("Delete failed during update fallback"));
            }
        }
        assert(bp.pages(self.c_id) =~= pages.update(
            page_id as int,
            here.with_slot(slot_id as int, None),
        ));
        // Insert it again on any page that has room.
        self.add_val(bp, val)
    }

    /// Add a value: the first data page with room takes it, else a new page.
    /// A value that no page can hold is refused, after a page was allocated
    /// for it.
    pub fn add_val(&self, bp: &mut BufferPool, val: &[u8]) -> (r: Result<ValueId, CrustyError>)
        requires
            old(bp).wf(),
        ensures
            final(bp).wf(),
            final(bp).same_but(old(bp), self.c_id),
            self.wf(old(bp)) ==> self.wf(final(bp)),
            add_outcome(
                old(bp).pages(self.c_id),
                self.c_id,
                val@,
                r,
                final(bp).pages(self.c_id),
            ),
    {
        let ghost pages = bp.pages(self.c_id);
        let n: PageId = self.num_pages(bp);
        let mut page_id: PageId = 1;
        while page_id < n
            invariant
                bp.wf(),
                old(bp).wf(),
                pages == old(bp).pages(self.c_id),
                n == pages.len(),
                1 <= page_id,
                bp.pages(self.c_id) == pages,
                bp.same_but(old(bp), self.c_id),
                first_with_room(pages, 1, val@.len()) == first_with_room(
                    pages,
                    page_id as int,
                    val@.len(),
                ),
            decreases n - page_id,
        {
            let page = self.get_page_for_write(bp, page_id);
            if let Some(slot_id) = page.add_value(val) {
                return Ok(ValueId::new_slot(self.c_id, page_id, slot_id));
            }
            assert(bp.pages(self.c_id) =~= pages);
            page_id = page_id + 1;
        }
        // All existing pages are full (or there is no data page yet).
        let page_id: PageId = match bp.create_new_page_for_write(self.c_id) {
            Ok(id) => id,
            Err(e) => {
                return Err(e);
            },
        };
        let page = self.get_page_for_write(bp, page_id);
        page.init_heap_page();
        proof {
            page::lemma_lowest_vacancy(PageView::empty().slots);
        }
        match page.add_value(val) {
            Some(slot_id) => {
                assert(bp.pages(self.c_id) =~= pages.push(PageView::empty().with_value(val@)));
                Ok(ValueId::new_slot(self.c_id, page_id, slot_id))
            },
            None => {
                assert(bp.pages(self.c_id) =~= pages.push(PageView::empty()));
                Err(c_err("Value too large to fit in a single page"))
            },
        }
    }

    /// Add the values one after the other, up to the first that is refused.
    pub fn add_vals(&self, bp: &mut BufferPool, vals: &Vec<Vec<u8>>) -> (r: Result<
        Vec<ValueId>,
        CrustyError,
    >)
        requires
            old(bp).wf(),
        ensures
            final(bp).wf(),
            final(bp).same_but(old(bp), self.c_id),
            self.wf(old(bp)) ==> self.wf(final(bp)),
            r matches Ok(ids) ==> {
                let pages = old(bp).pages(self.c_id);
                &&& can_add_first(pages, self.c_id, vals@, vals@.len() as int)
                &&& ids@ == Seq::new(
                    vals@.len(),
                    |i: int|
                        added(after_adding(pages, self.c_id, vals@, i), self.c_id, vals@[i]@).1,
                )
                &&& final(bp).pages(self.c_id) == after_adding(
                    pages,
                    self.c_id,
                    vals@,
                    vals@.len() as int,
                )
            },
            r matches Ok(ids) ==> {
                &&& ids@.len() == vals@.len()
                &&& self.wf(old(bp)) && (forall|i: int|
                    0 <= i < vals@.len() ==> (#[trigger] vals@[i])@.len() > 0) ==> forall|i: int|
                    #![trigger ids@[i]]
                    0 <= i < vals@.len() ==> value_at(
                        final(bp).pages(self.c_id),
                        ids@[i].page_id->0,
                        ids@[i].slot_id->0,
                    ) == Some(vals@[i]@)
            },
            r matches Err(e) ==> some_refused(
                old(bp).pages(self.c_id),
                self.c_id,
                vals@,
                e,
                final(bp).pages(self.c_id),
            ),
    {
        let ghost pages = bp.pages(self.c_id);
        let ghost c = self.c_id;
        let mut val_ids: Vec<ValueId> = Vec::new();
        let mut i: usize = 0;
        proof {
            bp.lemma_limits(c);
        }
        while i < vals.len()
            invariant
                bp.wf(),
                bp.same_but(old(bp), self.c_id),
                pages == old(bp).pages(self.c_id),
                c == self.c_id,
                self.wf(old(bp)) ==> self.wf(bp),
                0 <= i <= vals@.len(),
                can_add_first(pages, c, vals@, i as int),
                bp.pages(c) == after_adding(pages, c, vals@, i as int),
                forall|j: int|
                    0 <= j <= i ==> countable(#[trigger] after_adding(pages, c, vals@, j)),
                val_ids@ == Seq::new(
                    i as nat,
                    |j: int| added(after_adding(pages, c, vals@, j), c, vals@[j]@).1,
                ),
            decreases vals@.len() - i,
        {
            match self.add_val(bp, &vals[i]) {
                Ok(id) => {
                    val_ids.push(id);
                },
                Err(e) => {
                    assert(refused_at(pages, c, vals@, i as int, e, bp.pages(c)));
                    assert(some_refused(pages, c, vals@, e, bp.pages(c)));
                    return Err(e);
                },
            }
            i = i + 1;
            assert(val_ids@ =~= Seq::new(
                i as nat,
                |j: int| added(after_adding(pages, c, vals@, j), c, vals@[j]@).1,
            ));
            proof {
                bp.lemma_limits(c);
            }
        }
        proof {
            let n = vals@.len() as int;
            if self.wf(old(bp)) && (forall|j: int|
                0 <= j < n ==> (#[trigger] vals@[j])@.len() > 0) {
                lemma_all_added_are_read(pages, c, vals@, n);
                assert forall|j: int|
                    #![trigger val_ids@[j]]
                    0 <= j < n implies value_at(
                    bp.pages(c),
                    val_ids@[j].page_id->0,
                    val_ids@[j].slot_id->0,
                ) == Some(vals@[j]@) by {
                    assert(read_back(pages, c, vals@, n, j));
                }
            }
        }
        Ok(val_ids)
    }

    /// Walk the values of the file from its first data page on.
    pub fn iter(&self) -> (r: HeapFileIter)
        ensures
            r.starts_at(*self, 1, 0),
            forall|bp: BufferPool, q: PageId, t: SlotId|
                bp.wf() && q > 0 && (#[trigger] value_at(bp.pages(self.c_id), q, t)) is Some
                    ==> r.remaining(&bp).contains(
                    (value_at(bp.pages(self.c_id), q, t)->0, ValueId::at(self.c_id, q, t)),
                ),
    {
        let r = HeapFileIter::new_from(*self, 1, 0);
        proof {
            assert forall|bp: BufferPool, q: PageId, t: SlotId|
                bp.wf() && q > 0 && (#[trigger] value_at(bp.pages(self.c_id), q, t)) is Some
                implies r.remaining(&bp).contains(
                (value_at(bp.pages(self.c_id), q, t)->0, ValueId::at(self.c_id, q, t)),
            ) by {
                bp.lemma_limits(self.c_id);
                r.lemma_starts_at(&bp, *self, 1, 0);
                lemma_walk(self.c_id, bp.pages(self.c_id), 1, 0);
                assert(names_value(
                    self.c_id,
                    bp.pages(self.c_id),
                    1,
                    0,
                    (value_at(bp.pages(self.c_id), q, t)->0, ValueId::at(self.c_id, q, t)),
                ));
            }
        }
        r
    }

    /// Walk the values of the file from the given page and slot on.
    pub fn iter_from(&self, page_id: PageId, slot_id: SlotId) -> (r: HeapFileIter)
        ensures
            r.starts_at(*self, page_id, slot_id),
    {
        HeapFileIter::new_from(*self, page_id, slot_id)
    }
}

/// Walks the values of a heap file in page and slot order.
pub struct HeapFileIter {
    heapfile: HeapFile,
    initialized: bool,
    finished: bool,
    first_page: PageId,
    current_page_id: PageId,
    current_slot_id: SlotId,
}

impl HeapFileIter {
    /// The file that is walked.
    pub closed spec fn file(&self) -> HeapFile {
        self.heapfile
    }

    /// The walk has come to the end of the file. It stays there.
    pub closed spec fn done(&self) -> bool {
        self.finished
    }

    /// The page on which the walk goes on.
    pub closed spec fn page_id(&self) -> int {
        self.current_page_id as int
    }

    /// The slot at which the walk goes on.
    pub closed spec fn slot_id(&self) -> int {
        self.current_slot_id as int
    }

    /// The iterator can go on over the pages of `bp`.
    pub closed spec fn wf(&self, bp: &BufferPool) -> bool {
        &&& !self.initialized ==> self.first_page == self.current_page_id && !self.finished
        &&& self.initialized && !self.finished ==> self.current_page_id < bp.pages(
            self.heapfile.c_id,
        ).len()
    }

    /// The iterator is fresh and starts at the given page and slot.
    pub closed spec fn starts_at(&self, file: HeapFile, page_id: PageId, slot_id: SlotId) -> bool {
        &&& self.heapfile == file
        &&& !self.initialized
        &&& !self.finished
        &&& self.first_page == page_id
        &&& self.current_page_id == page_id
        &&& self.current_slot_id == slot_id
    }

    /// The values that are still to come.
    pub open spec fn remaining(&self, bp: &BufferPool) -> Seq<(Seq<u8>, ValueId)> {
        if self.done() {
            Seq::empty()
        } else {
            values_from(
                self.file().c_id,
                bp.pages(self.file().c_id),
                self.page_id(),
                self.slot_id(),
            )
        }
    }

    /// A fresh iterator walks everything from where it starts.
    pub proof fn lemma_starts_at(
        &self,
        bp: &BufferPool,
        file: HeapFile,
        page_id: PageId,
        slot_id: SlotId,
    )
        requires
            self.starts_at(file, page_id, slot_id),
        ensures
            self.wf(bp),
            self.file() == file,
            self.remaining(bp) == values_from(
                file.c_id,
                bp.pages(file.c_id),
                page_id as int,
                slot_id as int,
            ),
    {
    }

    /// A walk goes on as before where only other containers changed.
    pub proof fn lemma_other_containers(&self, before: &BufferPool, after: &BufferPool)
        requires
            self.wf(before),
            after.pages(self.file().c_id) == before.pages(self.file().c_id),
        ensures
            self.wf(after),
            self.remaining(after) == self.remaining(before),
    {
    }

    fn new_from(heapfile: HeapFile, page_id: PageId, slot_id: SlotId) -> (r: Self)
        ensures
            r.starts_at(heapfile, page_id, slot_id),
    {
        HeapFileIter {
            heapfile,
            initialized: false,
            finished: false,
            first_page: page_id,
            current_page_id: page_id,
            current_slot_id: slot_id,
        }
    }

    fn initialize(&mut self, bp: &BufferPool)
        requires
            bp.wf(),
            old(self).wf(bp),
        ensures
            final(self).wf(bp),
            final(self).initialized,
            final(self).heapfile == old(self).heapfile,
            final(self).remaining(bp) == old(self).remaining(bp),
    {
        if self.initialized {
            return;
        }
        if self.first_page >= self.heapfile.num_pages(bp) {
            self.finished = true;
        }
        self.initialized = true;
    }

    /// The next value of the file and its id; `None` when there is none left.
    pub fn next(&mut self, bp: &BufferPool) -> (r: Option<(Vec<u8>, ValueId)>)
        requires
            bp.wf(),
            old(self).wf(bp),
        ensures
            final(self).wf(bp),
            final(self).file() == old(self).file(),
            match r {
                Some((val, id)) => {
                    &&& old(self).remaining(bp).len() > 0
                    &&& old(self).remaining(bp)[0] == (val@, id)
                    &&& final(self).remaining(bp) == old(self).remaining(bp).drop_first()
                },
                None => {
                    &&& old(self).remaining(bp).len() == 0
                    &&& final(self).done()
                },
            },
    {
        self.initialize(bp);
        if self.finished {
            return None;
        }
        let ghost c = self.heapfile.c_id;
        let ghost pages = bp.pages(c);
        let num_pages: PageId = self.heapfile.num_pages(bp);
        loop
            invariant
                bp.wf(),
                num_pages == pages.len(),
                self.initialized,
                !self.finished,
                self.heapfile == old(self).heapfile,
                c == self.heapfile.c_id,
                pages == bp.pages(c),
                self.current_page_id < pages.len(),
                old(self).remaining(bp) == values_from(
                    c,
                    pages,
                    self.current_page_id as int,
                    self.current_slot_id as int,
                ),
            decreases
                pages.len() - self.current_page_id,
                pages[self.current_page_id as int].slots.len() - self.current_slot_id,
        {
            let page = self.heapfile.get_page_for_read(bp, self.current_page_id);
            let num_slots: u16 = page.get_num_slots();
            if self.current_slot_id < num_slots {
                let slot_id: SlotId = self.current_slot_id;
                self.current_slot_id = self.current_slot_id + 1;
                if let Some(v) = page.get_value(slot_id) {
                    let val = slice_to_vec(v);
                    let id = ValueId::new_slot(self.heapfile.c_id, self.current_page_id, slot_id);
                    assert(old(self).remaining(bp).drop_first() =~= values_from(
                        c,
                        pages,
                        self.current_page_id as int,
                        self.current_slot_id as int,
                    ));
                    return Some((val, id));
                }
                // Deleted slot: go on with the next one.
            } else {
                // Page exhausted: advance to the next data page.
                self.current_slot_id = 0;
                self.current_page_id = self.current_page_id + 1;
                if self.current_page_id >= num_pages {
                    assert(values_from(c, pages, self.current_page_id as int, 0).len() == 0);
                    self.finished = true;
                    return None;
                }
            }
        }
    }
}

/// Whether a value of `n` bytes can be added: a data page has room for it, or
/// a new page can be had and has room.
pub open spec fn can_add(pages: Seq<PageView>, n: nat) -> bool {
    ||| first_with_room(pages, 1, n) < pages.len()
    ||| pages.len() < u32::MAX && PageView::empty().has_room(n)
}

/// The pages after the first `k` of `vals` were added one after the other.
pub open spec fn after_adding(
    pages: Seq<PageView>,
    c_id: ContainerId,
    vals: Seq<Vec<u8>>,
    k: int,
) -> Seq<PageView>
    decreases k,
{
    if k <= 0 {
        pages
    } else {
        added(after_adding(pages, c_id, vals, k - 1), c_id, vals[k - 1]@).0
    }
}

/// Each of the first `k` of `vals` could be added after those before it.
pub open spec fn can_add_first(
    pages: Seq<PageView>,
    c_id: ContainerId,
    vals: Seq<Vec<u8>>,
    k: int,
) -> bool {
    forall|i: int|
        0 <= i < k ==> can_add(#[trigger] after_adding(pages, c_id, vals, i), vals[i]@.len())
}

/// The first `k` of `vals` were added and the next one was refused with `e`.
pub open spec fn refused_at(
    pages: Seq<PageView>,
    c_id: ContainerId,
    vals: Seq<Vec<u8>>,
    k: int,
    e: CrustyError,
    after: Seq<PageView>,
) -> bool {
    &&& 0 <= k < vals.len()
    &&& can_add_first(pages, c_id, vals, k)
    &&& add_outcome(after_adding(pages, c_id, vals, k), c_id, vals[k]@, Err(e), after)
}

/// One of `vals` was refused with `e`, after those before it were added.
pub open spec fn some_refused(
    pages: Seq<PageView>,
    c_id: ContainerId,
    vals: Seq<Vec<u8>>,
    e: CrustyError,
    after: Seq<PageView>,
) -> bool {
    exists|k: int| #[trigger] refused_at(pages, c_id, vals, k, e, after)
}

/// What adding `bytes` to `pages` gives back and leaves behind.
pub open spec fn add_outcome(
    pages: Seq<PageView>,
    c_id: ContainerId,
    bytes: Seq<u8>,
    r: Result<ValueId, CrustyError>,
    after: Seq<PageView>,
) -> bool {
    if can_add(pages, bytes.len()) {
        &&& r == Ok::<ValueId, CrustyError>(added(pages, c_id, bytes).1)
        &&& after == added(pages, c_id, bytes).0
    } else if pages.len() < u32::MAX {
        &&& r matches Err(e)
        &&& e.message() == "Value too large to fit in a single page"@
        &&& after == pages.push(PageView::empty())
    } else {
        &&& r matches Err(e)
        &&& e.message() == "Out of page ids"@
        &&& after == pages
    }
}

/// Slot `s` of page `p` stands before slot `t` of page `q`.
pub open spec fn earlier(p: int, s: int, q: int, t: int) -> bool {
    p < q || p == q && s < t
}

/// Page ids count the pages, and slot ids the slots of each page.
pub open spec fn countable(pages: Seq<PageView>) -> bool {
    &&& pages.len() <= u32::MAX
    &&& forall|i: int| 0 <= i < pages.len() ==> (#[trigger] pages[i]).slots.len() <= u16::MAX
}

/// The id names a slot of the container from slot `s` of page `p` on, and the
/// slot holds the value.
pub open spec fn names_value(
    c_id: ContainerId,
    pages: Seq<PageView>,
    p: int,
    s: int,
    found: (Seq<u8>, ValueId),
) -> bool {
    &&& found.1 matches ValueId { container_id, page_id: Some(q), slot_id: Some(t) }
    &&& container_id == c_id
    &&& !earlier(q as int, t as int, p, s)
    &&& value_at(pages, q, t) == Some(found.0)
}

/// The first id stands before the second.
pub open spec fn ids_ascend(a: ValueId, b: ValueId) -> bool {
    earlier(
        (a.page_id->0) as int,
        (a.slot_id->0) as int,
        (b.page_id->0) as int,
        (b.slot_id->0) as int,
    )
}

/// A walk meets exactly the values that stand from where it starts on: each
/// id that comes names the value that comes with it, ids come in ascending
/// order and so never twice, and no value is left out.
pub proof fn lemma_walk(c_id: ContainerId, pages: Seq<PageView>, p: int, s: int)
    requires
        countable(pages),
        0 <= p,
        0 <= s,
    ensures
        forall|i: int|
            0 <= i < values_from(c_id, pages, p, s).len() ==> names_value(
                c_id,
                pages,
                p,
                s,
                #[trigger] values_from(c_id, pages, p, s)[i],
            ),
        forall|i: int, j: int|
            0 <= i < j < values_from(c_id, pages, p, s).len() ==> #[trigger] ids_ascend(
                values_from(c_id, pages, p, s)[i].1,
                values_from(c_id, pages, p, s)[j].1,
            ),
        forall|found: (Seq<u8>, ValueId)| #[trigger]
            names_value(c_id, pages, p, s, found) ==> values_from(c_id, pages, p, s).contains(found),
    decreases pages.len() - p, (if p < pages.len() { pages[p].slots.len() - s } else { 0 }),
{
    let all = values_from(c_id, pages, p, s);
    if p >= pages.len() {
    } else if s >= pages[p].slots.len() {
        lemma_walk(c_id, pages, p + 1, 0);
        let rest = values_from(c_id, pages, p + 1, 0);
        assert forall|i: int| 0 <= i < all.len() implies names_value(
            c_id,
            pages,
            p,
            s,
            #[trigger] all[i],
        ) by {
            assert(names_value(c_id, pages, p + 1, 0, rest[i]));
        }
        assert forall|found: (Seq<u8>, ValueId)| #[trigger]
            names_value(c_id, pages, p, s, found) implies all.contains(found) by {
            assert(names_value(c_id, pages, p + 1, 0, found));
        }
    } else {
        lemma_walk(c_id, pages, p, s + 1);
        let rest = values_from(c_id, pages, p, s + 1);
        let here = ValueId::at(c_id, p as PageId, s as SlotId);
        assert(pages[p].slots.len() <= u16::MAX);
        match pages[p].slots[s] {
            Some(b) => {
                assert(value_at(pages, p as PageId, s as SlotId) == Some(b));
                assert(all[0] == (b, here));
                assert forall|i: int| 0 <= i < all.len() implies names_value(
                    c_id,
                    pages,
                    p,
                    s,
                    #[trigger] all[i],
                ) by {
                    if i > 0 {
                        assert(all[i] == rest[i - 1]);
                    }
                }
                assert forall|i: int, j: int| 0 <= i < j < all.len() implies #[trigger] ids_ascend(
                    all[i].1,
                    all[j].1,
                ) by {
                    assert(all[j] == rest[j - 1]);
                    if i > 0 {
                        assert(all[i] == rest[i - 1]);
                        assert(ids_ascend(rest[i - 1].1, rest[j - 1].1));
                    } else {
                        assert(names_value(c_id, pages, p, s + 1, rest[j - 1]));
                    }
                }
                assert forall|found: (Seq<u8>, ValueId)| #[trigger]
                    names_value(c_id, pages, p, s, found) implies all.contains(found) by {
                    if found.1 == here {
                        assert(all[0] == found);
                    } else {
                        assert(names_value(c_id, pages, p, s + 1, found));
                        let i = choose|i: int| 0 <= i < rest.len() && rest[i] == found;
                        assert(all[i + 1] == found);
                    }
                }
            },
            None => {
                assert forall|i: int| 0 <= i < all.len() implies names_value(
                    c_id,
                    pages,
                    p,
                    s,
                    #[trigger] all[i],
                ) by {
                    assert(names_value(c_id, pages, p, s + 1, rest[i]));
                }
                assert forall|found: (Seq<u8>, ValueId)| #[trigger]
                    names_value(c_id, pages, p, s, found) implies all.contains(found) by {
                    assert(value_at(pages, p as PageId, s as SlotId) is None);
                    assert(names_value(c_id, pages, p, s + 1, found));
                }
            },
        }
    }
}

/// No slot but slot `s` of page `p` holds another value.
pub open spec fn others_kept(before: Seq<PageView>, after: Seq<PageView>, p: PageId, s: SlotId) -> bool {
    forall|q: PageId, t: SlotId|
        q != p || t != s ==> #[trigger] value_at(after, q, t) == value_at(before, q, t)
}

/// The first page with room is a data page with room, and no page before it has
/// room.
pub proof fn lemma_first_with_room(pages: Seq<PageView>, from: int, n: nat)
    requires
        0 <= from,
    ensures
        forall|q: int|
            from <= q < first_with_room(pages, from, n) ==> !(#[trigger] pages[q]).has_room(n),
        first_with_room(pages, from, n) < pages.len() ==> {
            &&& from <= first_with_room(pages, from, n)
            &&& pages[first_with_room(pages, from, n)].has_room(n)
        },
        first_with_room(pages, from, n) <= pages.len(),
    decreases pages.len() - from,
{
    if from < pages.len() && !pages[from].has_room(n) {
        lemma_first_with_room(pages, from + 1, n);
    }
}

/// An added value is read back under the id that it was given. The id is one
/// of a data page, and was free before. No other value changes.
pub proof fn lemma_added_is_read(pages: Seq<PageView>, c_id: ContainerId, bytes: Seq<u8>)
    requires
        countable(pages),
        can_add(pages, bytes.len()),
        bytes.len() > 0,
        pages.len() > 0,
    ensures
        ({
            let (after, id) = added(pages, c_id, bytes);
            let (p, s) = (id.page_id->0, id.slot_id->0);
            &&& id == ValueId::at(c_id, p, s)
            &&& p >= 1
            &&& value_at(pages, p, s) is None
            &&& value_at(after, p, s) == Some(bytes)
            &&& others_kept(pages, after, p, s)
        }),
{
    let p = first_with_room(pages, 1, bytes.len());
    let (after, id) = added(pages, c_id, bytes);
    lemma_first_with_room(pages, 1, bytes.len());
    if p < pages.len() {
        let here = pages[p];
        page::lemma_lowest_vacancy(here.slots);
        page::lemma_added_is_read(here, bytes);
        assert(here.slots.len() <= u16::MAX);
        assert forall|q: PageId, t: SlotId|
            q != id.page_id->0 || t != id.slot_id->0 implies #[trigger] value_at(after, q, t)
            == value_at(pages, q, t) by {
            if q == p {
                assert(here.with_value(bytes).value(t as int) == here.value(t as int));
            }
        }
    } else {
        let fresh = PageView::empty();
        page::lemma_lowest_vacancy(fresh.slots);
        page::lemma_added_is_read(fresh, bytes);
        assert forall|q: PageId, t: SlotId|
            q != id.page_id->0 || t != id.slot_id->0 implies #[trigger] value_at(after, q, t)
            == value_at(pages, q, t) by {
            if q == pages.len() {
                assert(fresh.with_value(bytes).value(t as int) == fresh.value(t as int));
            }
        }
    }
}

/// Value `i` is read back, under the id that it was given, once the first `k`
/// of `vals` were added.
pub open spec fn read_back(
    pages: Seq<PageView>,
    c_id: ContainerId,
    vals: Seq<Vec<u8>>,
    k: int,
    i: int,
) -> bool {
    let id = added(after_adding(pages, c_id, vals, i), c_id, vals[i]@).1;
    value_at(after_adding(pages, c_id, vals, k), id.page_id->0, id.slot_id->0) == Some(vals[i]@)
}

/// Values that were added one after the other are all read back, each under
/// the id that it was given.
pub proof fn lemma_all_added_are_read(
    pages: Seq<PageView>,
    c_id: ContainerId,
    vals: Seq<Vec<u8>>,
    k: int,
)
    requires
        countable(pages),
        pages.len() > 0,
        0 <= k <= vals.len(),
        can_add_first(pages, c_id, vals, k),
        forall|i: int| 0 <= i <= k ==> countable(#[trigger] after_adding(pages, c_id, vals, i)),
        forall|i: int| 0 <= i < k ==> (#[trigger] vals[i])@.len() > 0,
    ensures
        forall|i: int| 0 <= i < k ==> #[trigger] read_back(pages, c_id, vals, k, i),
        after_adding(pages, c_id, vals, k).len() > 0,
    decreases k,
{
    if k > 0 {
        let before = after_adding(pages, c_id, vals, k - 1);
        lemma_all_added_are_read(pages, c_id, vals, k - 1);
        lemma_added_is_read(before, c_id, vals[k - 1]@);
        assert forall|i: int| 0 <= i < k implies #[trigger] read_back(pages, c_id, vals, k, i) by {
            if i < k - 1 {
                assert(read_back(pages, c_id, vals, k - 1, i));
                lemma_still_read(
                    before,
                    c_id,
                    vals[k - 1]@,
                    added(after_adding(pages, c_id, vals, i), c_id, vals[i]@).1,
                );
            }
        }
    }
}

/// What was read under an id is read there after a value was added.
proof fn lemma_still_read(pages: Seq<PageView>, c_id: ContainerId, bytes: Seq<u8>, id: ValueId)
    requires
        countable(pages),
        can_add(pages, bytes.len()),
        bytes.len() > 0,
        pages.len() > 0,
        value_at(pages, id.page_id->0, id.slot_id->0) is Some,
    ensures
        value_at(added(pages, c_id, bytes).0, id.page_id->0, id.slot_id->0) == value_at(
            pages,
            id.page_id->0,
            id.slot_id->0,
        ),
{
    lemma_added_is_read(pages, c_id, bytes);
}

/// The header page holds no value, and no value is ever added to it.
pub proof fn lemma_header_kept(pages: Seq<PageView>, c_id: ContainerId, bytes: Seq<u8>)
    requires
        has_header(pages),
    ensures
        forall|s: SlotId| #[trigger] value_at(pages, 0, s) is None,
        has_header(added(pages, c_id, bytes).0),
{
    lemma_first_with_room(pages, 1, bytes.len());
}

/// A value goes to the first data page with room for it, and there to the lowest
/// vacant slot. Where no data page has room, it goes to the first slot of a new
/// page, which comes last.
pub proof fn lemma_goes_to_the_first_room(
    pages: Seq<PageView>,
    c_id: ContainerId,
    bytes: Seq<u8>,
    q: int,
)
    requires
        countable(pages),
        pages.len() > 0,
        pages.len() < u32::MAX,
    ensures
        ({
            let (after, id) = added(pages, c_id, bytes);
            let p = (id.page_id->0) as int;
            &&& id.container_id == c_id
            &&& 1 <= q < pages.len() && pages[q].has_room(bytes.len()) ==> {
                &&& p <= q
                &&& pages[p].has_room(bytes.len())
                &&& after.len() == pages.len()
            }
            &&& (forall|k: int|
                1 <= k < pages.len() ==> !(#[trigger] pages[k]).has_room(bytes.len())) ==> {
                &&& p == pages.len()
                &&& id.slot_id == Some(0u16)
                &&& after.len() == pages.len() + 1
                &&& forall|k: int| 0 <= k < pages.len() ==> #[trigger] after[k] == pages[k]
            }
            &&& p < pages.len() ==> {
                let slots = pages[p].slots;
                let s = (id.slot_id->0) as int;
                &&& s <= slots.len()
                &&& s < slots.len() ==> slots[s] is None
                &&& forall|k: int| 0 <= k < s ==> #[trigger] slots[k] is Some
            }
        }),
{
    let n = bytes.len();
    let p = first_with_room(pages, 1, n);
    lemma_first_with_room(pages, 1, n);
    if p < pages.len() {
        assert(pages[p].slots.len() <= u16::MAX);
        page::lemma_lowest_vacancy(pages[p].slots);
        if 1 <= q < p {
            assert(!pages[q].has_room(n));
        }
    } else if 1 <= q < pages.len() {
        assert(!pages[q].has_room(n));
    }
}

/// A value can be added where some data page has room for it, or where a new
/// page can be had and the value fits in a page of its own: beside the header
/// and the entry of its slot.
pub proof fn lemma_can_add(pages: Seq<PageView>, n: nat)
    ensures
        can_add(pages, n) <==> {
            ||| exists|q: int| 1 <= q < pages.len() && (#[trigger] pages[q]).has_room(n)
            ||| pages.len() < u32::MAX && 24 + 4 + n <= 4096
        },
{
    lemma_first_with_room(pages, 1, n);
    page::lemma_room(PageView::empty(), n);
    let p = first_with_room(pages, 1, n);
    if p < pages.len() {
        assert(pages[p].has_room(n));
    }
}

/// A walk goes through the pages in order, and through each page slot by slot.
pub proof fn lemma_walk_order(c_id: ContainerId, pages: Seq<PageView>, p: int, s: int, i: int, j: int)
    requires
        countable(pages),
        0 <= p,
        0 <= s,
        0 <= i < j < values_from(c_id, pages, p, s).len(),
    ensures
        ({
            let a = values_from(c_id, pages, p, s)[i].1;
            let b = values_from(c_id, pages, p, s)[j].1;
            &&& a.page_id->0 <= b.page_id->0
            &&& a.page_id == b.page_id ==> a.slot_id->0 < b.slot_id->0
            &&& a.page_id->0 >= p
            &&& a.page_id->0 == p ==> a.slot_id->0 >= s
        }),
{
    lemma_walk(c_id, pages, p, s);
    let all = values_from(c_id, pages, p, s);
    assert(ids_ascend(all[i].1, all[j].1));
    assert(names_value(c_id, pages, p, s, all[i]));
    assert(names_value(c_id, pages, p, s, all[j]));
}

/// A value is added exactly where there is room for it: on a data page, or on a
/// page of its own as long as there are page ids. Where it is refused, no value
/// changes.
pub proof fn lemma_added_where_there_is_room(
    pages: Seq<PageView>,
    c_id: ContainerId,
    bytes: Seq<u8>,
    r: Result<ValueId, CrustyError>,
    after: Seq<PageView>,
)
    requires
        add_outcome(pages, c_id, bytes, r, after),
    ensures
        r is Ok <==> {
            ||| exists|q: int| 1 <= q < pages.len() && (#[trigger] pages[q]).has_room(bytes.len())
            ||| pages.len() < u32::MAX && 24 + 4 + bytes.len() <= 4096
        },
        r is Err ==> forall|p: PageId, s: SlotId| #[trigger]
            value_at(after, p, s) == value_at(pages, p, s),
{
    lemma_can_add(pages, bytes.len());
}

/// Values are added one after the other, up to the first one without room: where
/// one of them is refused, there is one without room once those before it were
/// added.
pub proof fn lemma_refused_for_want_of_room(
    pages: Seq<PageView>,
    c_id: ContainerId,
    vals: Seq<Vec<u8>>,
    e: CrustyError,
    after: Seq<PageView>,
) -> (k: int)
    requires
        some_refused(pages, c_id, vals, e, after),
    ensures
        0 <= k < vals.len(),
        ({
            let then = after_adding(pages, c_id, vals, k);
            &&& forall|q: int|
                1 <= q < then.len() ==> !(#[trigger] then[q]).has_room(vals[k]@.len())
            &&& then.len() >= u32::MAX || 24 + 4 + vals[k]@.len() > 4096
        }),
{
    let k = choose|k: int| #[trigger] refused_at(pages, c_id, vals, k, e, after);
    lemma_can_add(after_adding(pages, c_id, vals, k), vals[k]@.len());
    k
}

} // verus!
