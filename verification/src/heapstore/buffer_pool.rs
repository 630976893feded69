//! The pool of pages that heap files and indexes work on.
use crate::common::error::{c_err, CrustyError};
use crate::common::ids::{ContainerId, PageId};
use crate::heapstore::page::{Page, PageView};
use vstd::prelude::*;

verus! {

/// Names one page of one container.
#[derive(Clone, Copy)]
pub struct PageFrameId {
    pub c_id: ContainerId,
    pub page_id: PageId,
}

impl PageFrameId {
    pub fn new(c_id: ContainerId, page_id: PageId) -> (r: Self)
        ensures
            r.c_id == c_id,
            r.page_id == page_id,
    {
        PageFrameId { c_id, page_id }
    }
}

/// The pages of every container, by page id.
///
/// A container starts without pages and only ever grows. The page ids of a
/// container run from zero; there are at most `PageId::MAX` of them.
pub struct BufferPool {
    containers: Vec<Vec<Page>>,
}

impl BufferPool {
    /// What the pages of container `c` hold.
    pub closed spec fn pages(&self, c: ContainerId) -> Seq<PageView> {
        if c < self.containers@.len() {
            let pages = self.containers@[c as int]@;
            Seq::new(pages.len(), |i: int| pages[i]@)
        } else {
            Seq::empty()
        }
    }

    /// Every page is sound and carries its own page id, and page ids can count
    /// the pages.
    pub closed spec fn wf(&self) -> bool {
        forall|c: int|
            0 <= c < self.containers@.len() ==> {
                &&& (#[trigger] self.containers@[c])@.len() <= u32::MAX
                &&& forall|i: int|
                    0 <= i < self.containers@[c]@.len() ==> {
                        &&& (#[trigger] self.containers@[c]@[i]).wf()
                        &&& self.containers@[c]@[i].id() == i
                    }
            }
    }

    /// Nothing but container `c` differs.
    pub open spec fn same_but(&self, other: &BufferPool, c: ContainerId) -> bool {
        forall|k: ContainerId| k != c ==> #[trigger] self.pages(k) == other.pages(k)
    }

    /// Page ids count the pages of a container, and slot ids the slots of each
    /// page.
    pub proof fn lemma_limits(&self, c: ContainerId)
        requires
            self.wf(),
        ensures
            self.pages(c).len() <= u32::MAX,
            forall|i: int|
                0 <= i < self.pages(c).len() ==> (#[trigger] self.pages(c)[i]).slots.len()
                    <= u16::MAX,
    {
        assert forall|i: int| 0 <= i < self.pages(c).len() implies (#[trigger] self.pages(
            c,
        )[i]).slots.len() <= u16::MAX by {
            let page = &self.containers@[c as int]@[i];
            page.lemma_slot_count();
        }
    }

    /// A pool without pages.
    pub fn new() -> (r: Self)
        ensures
            r.wf(),
            forall|c: ContainerId| #[trigger] r.pages(c) == Seq::<PageView>::empty(),
    {
        BufferPool { containers: Vec::new() }
    }

    /// One more than the highest page id of the container; `None` for a
    /// container without pages.
    pub fn get_max_page_id(&self, c_id: ContainerId) -> (r: Option<PageId>)
        requires
            self.wf(),
        ensures
            match r {
                Some(n) => n > 0 && n == self.pages(c_id).len(),
                None => self.pages(c_id).len() == 0,
            },
    {
        let c: usize = c_id as usize;
        if c < self.containers.len() {
            let n: usize = self.containers[c].len();
            if n == 0 {
                None
            } else {
                Some(n as u32)
            }
        } else {
            None
        }
    }

    /// The number of pages of the container.
    pub fn num_pages(&self, c_id: ContainerId) -> (r: PageId)
        requires
            self.wf(),
        ensures
            r == self.pages(c_id).len(),
    {
        match self.get_max_page_id(c_id) {
            Some(n) => n,
            None => 0,
        }
    }

    /// Appends a zeroed page to the container and returns its id. Fails only
    /// when the container has used up its page ids.
    pub fn create_new_page_for_write(&mut self, c_id: ContainerId) -> (r: Result<
        PageId,
        CrustyError,
    >)
        requires
            old(self).wf(),
        ensures
            final(self).wf(),
            final(self).same_but(old(self), c_id),
            match r {
                Ok(id) => {
                    &&& old(self).pages(c_id).len() < u32::MAX
                    &&& id == old(self).pages(c_id).len()
                    &&& final(self).pages(c_id) == old(self).pages(c_id).push(PageView::blank())
                },
                Err(e) => {
                    &&& old(self).pages(c_id).len() == u32::MAX
                    &&& e.message() == "Out of page ids"@
                    &&& final(self).pages(c_id) == old(self).pages(c_id)
                },
            },
    {
        let c: usize = c_id as usize;
        let id: PageId = self.num_pages(c_id);
        if id == PageId::MAX {
            return Err(c_err("Out of page ids"));
        }
        while self.containers.len() <= c
            invariant
                self.wf(),
                c == c_id,
                forall|k: ContainerId| #[trigger] self.pages(k) == old(self).pages(k),
            decreases c + 1 - self.containers@.len(),
        {
            let ghost before = *self;
            self.containers.push(Vec::new());
            assert forall|k: ContainerId| #[trigger] self.pages(k) == old(self).pages(k) by {
                assert(before.pages(k) == old(self).pages(k));
                if k < before.containers@.len() {
                    assert(self.containers@[k as int] == before.containers@[k as int]);
                }
                assert(self.pages(k) =~= before.pages(k));
            }
        }
        let ghost before = *self;
        let page = Page::new(id);
        self.containers[c].push(page);
        proof {
            assert(self.pages(c_id) =~= before.pages(c_id).push(PageView::blank()));
            assert forall|k: ContainerId| k != c_id implies #[trigger] self.pages(k) == before.pages(k) by {
                if k < before.containers@.len() {
                    assert(self.containers@[k as int] == before.containers@[k as int]);
                }
            }
            assert forall|k: int| 0 <= k < self.containers@.len() implies {
                &&& (#[trigger] self.containers@[k])@.len() <= u32::MAX
                &&& forall|i: int|
                    0 <= i < self.containers@[k]@.len() ==> {
                        &&& (#[trigger] self.containers@[k]@[i]).wf()
                        &&& self.containers@[k]@[i].id() == i
                    }
            } by {
                if k != c {
                    assert(self.containers@[k] == before.containers@[k]);
                } else {
                    assert(before.containers@[k]@.len() == before.pages(c_id).len());
                }
            }
        }
        Ok(id)
    }

    /// The page, for reading. Fails only when there is no such page.
    pub fn get_page_for_read(&self, key: PageFrameId) -> (r: Result<&Page, CrustyError>)
        requires
            self.wf(),
        ensures
            match r {
                Ok(p) => {
                    &&& key.page_id < self.pages(key.c_id).len()
                    &&& p.wf()
                    &&& p@ == self.pages(key.c_id)[key.page_id as int]
                    &&& p.id() == key.page_id
                },
                Err(e) => {
                    &&& key.page_id >= self.pages(key.c_id).len()
                    &&& e.message() == "Page not found"@
                },
            },
    {
        let c: usize = key.c_id as usize;
        let p: usize = key.page_id as usize;
        if c < self.containers.len() && p < self.containers[c].len() {
            Ok(&self.containers[c][p])
        } else {
            Err(c_err("Page not found"))
        }
    }

    /// The page, for writing. Fails only when there is no such page.
    pub fn get_page_for_write(&mut self, key: PageFrameId) -> (r: Result<&mut Page, CrustyError>)
        requires
            old(self).wf(),
        ensures
            match r {
                Ok(p) => {
                    &&& key.page_id < old(self).pages(key.c_id).len()
                    &&& p.wf()
                    &&& p@ == old(self).pages(key.c_id)[key.page_id as int]
                    &&& p.id() == key.page_id
                    &&& final(p).wf() && final(p).id() == p.id() ==> final(self).wf()
                    &&& final(self).same_but(old(self), key.c_id)
                    &&& final(self).pages(key.c_id) == old(self).pages(key.c_id).update(
                        key.page_id as int,
                        final(p)@,
                    )
                },
                Err(e) => {
                    &&& key.page_id >= old(self).pages(key.c_id).len()
                    &&& e.message() == "Page not found"@
                    &&& *final(self) == *old(self)
                },
            },
    {
        let c: usize = key.c_id as usize;
        let p: usize = key.page_id as usize;
        if c < self.containers.len() && p < self.containers[c].len() {
            Ok(&mut self.containers[c][p])
        } else {
            Err(c_err("Page not found"))
        }
    }
}

} // verus!
