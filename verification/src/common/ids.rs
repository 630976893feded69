use vstd::prelude::*;

verus! {

/// Identifies a container: a table or an index.
pub type ContainerId = u16;

/// Identifies a page within its container.
pub type PageId = u32;

/// Identifies a slot within its page.
pub type SlotId = u16;

/// Offset of a column within its table, or the id of a column in a plan.
pub type ColumnId = usize;

/// Identifies a group of a memo.
pub type GroupId = usize;

/// Names a stored value: its container and, once it is placed, its page and
/// slot.
#[derive(Clone, Copy, Debug, PartialEq, Eq, Structural)]
pub struct ValueId {
    pub container_id: ContainerId,
    pub page_id: Option<PageId>,
    pub slot_id: Option<SlotId>,
}

impl ValueId {
    /// The value in the given slot.
    pub open spec fn at(container_id: ContainerId, page_id: PageId, slot_id: SlotId) -> ValueId {
        ValueId { container_id, page_id: Some(page_id), slot_id: Some(slot_id) }
    }

    /// The value in the given slot.
    pub fn new_slot(container_id: ContainerId, page_id: PageId, slot_id: SlotId) -> (r: Self)
        ensures
            r == ValueId::at(container_id, page_id, slot_id),
    {
        ValueId { container_id, page_id: Some(page_id), slot_id: Some(slot_id) }
    }
}

/// Names a transaction.
#[derive(Clone, Copy, Debug, PartialEq, Eq, Structural)]
pub struct TransactionId {
    pub tid: u64,
}

impl TransactionId {
    /// The number of the transaction.
    pub fn id(&self) -> (r: u64)
        ensures
            r == self.tid,
    {
        self.tid
    }
}

} // verus!
