//! Fixed-size pages and the byte layout of a slotted page.
//!
//! A page starts with a fixed header of sixteen bytes that belongs to the page
//! itself (its id comes first). Eight bytes of heap metadata follow, four
//! little-endian `u16` counters: the number of slots, the free space pointer,
//! the number of dead bytes in the body and the number of vacant slots. Behind
//! the metadata stands one four-byte entry per slot: where its value starts,
//! counted from the start of the page, and how many bytes it has. The header
//! grows upwards, the body grows downwards from the end of the page.
use crate::common::ids::PageId;
use vstd::prelude::*;
use vstd::slice::slice_subrange;

verus! {

/// Bytes taken by the page's own header.
pub const PAGE_FIXED_HEADER_LEN: usize = 16;

/// Bytes of heap metadata behind the page's own header.
pub const HEAP_PAGE_FIXED_METADATA_SIZE: usize = 8;

/// Bytes of metadata per slot.
pub const SLOT_METADATA_SIZE: usize = 4;

/// Where the slot entries start.
pub const SLOTS_START: usize = 24;

/// Where the slot count is stored.
pub const NUM_SLOTS_OFFSET: usize = 16;

/// Where the free space pointer is stored.
pub const FREE_SPACE_PTR_OFFSET: usize = 18;

/// Where the number of dead body bytes is stored.
pub const DELETED_BYTES_OFFSET: usize = 20;

/// Where the number of vacant slots is stored.
pub const DELETED_SLOTS_OFFSET: usize = 22;

/// The little-endian `u16` at offset `o`.
pub open spec fn u16_at(d: Seq<u8>, o: int) -> int {
    d[o] as int + 256 * (d[o + 1] as int)
}

/// `d` with the little-endian form of `v` at offset `o`.
pub open spec fn with_u16(d: Seq<u8>, o: int, v: int) -> Seq<u8> {
    d.update(o, (v % 256) as u8).update(o + 1, (v / 256) as u8)
}

/// `d` with `bytes` written over it from offset `o` on.
pub open spec fn with_bytes(d: Seq<u8>, o: int, bytes: Seq<u8>) -> Seq<u8> {
    Seq::new(
        d.len(),
        |i: int|
            if o <= i < o + bytes.len() {
                bytes[i - o]
            } else {
                d[i]
            },
    )
}

/// The little-endian `u32` at offset `o`.
pub open spec fn u32_at(d: Seq<u8>, o: int) -> int {
    d[o] as int + 256 * (d[o + 1] as int) + 65536 * (d[o + 2] as int) + 16777216 * (d[o + 3] as int)
}

/// The number of slots, occupied and vacant.
pub open spec fn num_slots_of(d: Seq<u8>) -> int {
    u16_at(d, NUM_SLOTS_OFFSET as int)
}

/// Where the body starts: free space ends here.
pub open spec fn free_space_ptr_of(d: Seq<u8>) -> int {
    u16_at(d, FREE_SPACE_PTR_OFFSET as int)
}

/// The number of body bytes that belong to no value.
pub open spec fn deleted_bytes_of(d: Seq<u8>) -> int {
    u16_at(d, DELETED_BYTES_OFFSET as int)
}

/// The number of slots without a value.
pub open spec fn deleted_slots_of(d: Seq<u8>) -> int {
    u16_at(d, DELETED_SLOTS_OFFSET as int)
}

/// Where the entry of slot `i` stands.
pub open spec fn slot_entry(i: int) -> int {
    SLOTS_START + SLOT_METADATA_SIZE * i
}

/// Where the value of slot `i` starts.
pub open spec fn slot_start(d: Seq<u8>, i: int) -> int {
    u16_at(d, slot_entry(i))
}

/// The number of bytes of the value of slot `i`; zero for a vacant slot.
pub open spec fn slot_len(d: Seq<u8>, i: int) -> int {
    u16_at(d, slot_entry(i) + 2)
}

/// Where the header ends.
pub open spec fn header_end(d: Seq<u8>) -> int {
    slot_entry(num_slots_of(d))
}

/// The value that slot `i` holds.
pub open spec fn slot_value(d: Seq<u8>, i: int) -> Option<Seq<u8>> {
    if slot_len(d, i) == 0 {
        None
    } else {
        Some(d.subrange(slot_start(d, i), slot_start(d, i) + slot_len(d, i)))
    }
}

/// The values of all slots, by slot id.
pub open spec fn slot_values(d: Seq<u8>) -> Seq<Option<Seq<u8>>> {
    Seq::new(num_slots_of(d) as nat, |i: int| slot_value(d, i))
}

/// Body bytes that `v` takes.
pub open spec fn value_len(v: Option<Seq<u8>>) -> nat {
    match v {
        Some(b) => b.len(),
        None => 0,
    }
}

/// Body bytes that the values of all slots take.
pub open spec fn total_len(slots: Seq<Option<Seq<u8>>>) -> nat
    decreases slots.len(),
{
    if slots.len() == 0 {
        0
    } else {
        total_len(slots.drop_last()) + value_len(slots.last())
    }
}

/// The number of slots without a value.
pub open spec fn vacancies(slots: Seq<Option<Seq<u8>>>) -> nat
    decreases slots.len(),
{
    if slots.len() == 0 {
        0
    } else {
        vacancies(slots.drop_last()) + (if slots.last() is None {
            1nat
        } else {
            0nat
        })
    }
}

/// The lowest slot without a value; the slot count where every slot has one.
pub open spec fn lowest_vacancy(slots: Seq<Option<Seq<u8>>>) -> nat
    decreases slots.len(),
{
    if slots.len() == 0 {
        0
    } else if slots[0] is None {
        0
    } else {
        1 + lowest_vacancy(slots.drop_first())
    }
}

/// The values of slots `i` and `j` share no byte.
pub open spec fn slots_apart(d: Seq<u8>, i: int, j: int) -> bool {
    ||| slot_start(d, i) + slot_len(d, i) <= slot_start(d, j)
    ||| slot_start(d, j) + slot_len(d, j) <= slot_start(d, i)
}

/// The layout of a page is sound. A page on which `init_heap_page` was never
/// called has a free space pointer of zero and no slots.
pub open spec fn layout_ok(d: Seq<u8>) -> bool {
    &&& d.len() == 4096
    &&& if free_space_ptr_of(d) == 0 {
        &&& num_slots_of(d) == 0
        &&& deleted_bytes_of(d) == 0
        &&& deleted_slots_of(d) == 0
    } else {
        &&& header_end(d) <= free_space_ptr_of(d) <= 4096
        &&& deleted_bytes_of(d) + total_len(slot_values(d)) == 4096 - free_space_ptr_of(d)
        &&& deleted_slots_of(d) == vacancies(slot_values(d))
        &&& forall|i: int|
            0 <= i < num_slots_of(d) && slot_len(d, i) > 0 ==> {
                &&& free_space_ptr_of(d) <= #[trigger] slot_start(d, i)
                &&& slot_start(d, i) + slot_len(d, i) <= 4096
            }
        &&& forall|i: int, j: int|
            0 <= i < j < num_slots_of(d) && slot_len(d, i) > 0 && slot_len(d, j) > 0
                ==> #[trigger] slots_apart(d, i, j)
    }
}

/// What a slotted page holds.
#[verifier::ext_equal]
pub struct PageView {
    /// Whether the page was initialised as a heap page.
    pub ready: bool,
    /// The value of each slot.
    pub slots: Seq<Option<Seq<u8>>>,
}

impl PageView {
    /// An initialised page without slots.
    pub open spec fn empty() -> PageView {
        PageView { ready: true, slots: Seq::empty() }
    }

    /// A page that was never initialised.
    pub open spec fn blank() -> PageView {
        PageView { ready: false, slots: Seq::empty() }
    }

    /// Bytes that neither the header nor a value takes.
    pub open spec fn free_space(self) -> int {
        if self.ready {
            4096 - SLOTS_START - SLOT_METADATA_SIZE * self.slots.len() - total_len(self.slots)
        } else {
            0
        }
    }

    /// The value of slot `s`, where there is one.
    pub open spec fn value(self, s: int) -> Option<Seq<u8>> {
        if 0 <= s < self.slots.len() {
            self.slots[s]
        } else {
            None
        }
    }

    /// Free space that adding a value of `n` bytes takes: a vacant slot is
    /// used again, a new one needs room for its entry.
    pub open spec fn cost_of_adding(self, n: nat) -> nat {
        if vacancies(self.slots) > 0 {
            n
        } else {
            n + SLOT_METADATA_SIZE as nat
        }
    }

    /// Whether a value of `n` bytes can be added.
    pub open spec fn has_room(self, n: nat) -> bool {
        self.cost_of_adding(n) <= self.free_space()
    }

    /// The page after `bytes` went to its lowest vacant slot, or to a new one.
    pub open spec fn with_value(self, bytes: Seq<u8>) -> PageView {
        let s = lowest_vacancy(self.slots) as int;
        PageView {
            slots: if s < self.slots.len() {
                self.slots.update(s, as_value(bytes))
            } else {
                self.slots.push(as_value(bytes))
            },
            ..self
        }
    }

    /// The page after slot `s` got `v`.
    pub open spec fn with_slot(self, s: int, v: Option<Seq<u8>>) -> PageView {
        PageView { slots: self.slots.update(s, v), ..self }
    }
}

/// What a slot holds after `bytes` were stored in it: a slot of length zero
/// is vacant, so an empty value is no value.
pub open spec fn as_value(bytes: Seq<u8>) -> Option<Seq<u8>> {
    if bytes.len() == 0 {
        None
    } else {
        Some(bytes)
    }
}

/// A page of bytes.
pub struct Page {
    pub(crate) data: [u8; 4096],
}

impl View for Page {
    type V = PageView;

    closed spec fn view(&self) -> PageView {
        PageView {
            ready: free_space_ptr_of(self.data@) != 0,
            slots: slot_values(self.data@),
        }
    }
}

impl Page {
    /// The bytes of the page.
    pub closed spec fn raw(&self) -> Seq<u8> {
        self.data@
    }

    /// The page's bytes are laid out soundly.
    pub closed spec fn wf(&self) -> bool {
        layout_ok(self.data@)
    }

    /// The page's own id.
    pub open spec fn id(&self) -> int {
        u32_at(self.raw().take(PAGE_FIXED_HEADER_LEN as int), 0)
    }

    /// A zeroed page with the given id.
    pub fn new(page_id: PageId) -> (p: Page)
        ensures
            p.wf(),
            p@ == PageView::blank(),
            p.id() == page_id,
    {
        let mut data: [u8; 4096] = [0u8; 4096];
        data[0] = (page_id % 256) as u8;
        data[1] = ((page_id / 256) % 256) as u8;
        data[2] = ((page_id / 65536) % 256) as u8;
        data[3] = (page_id / 16777216) as u8;
        let p = Page { data };
        assert(slot_values(p.data@) =~= Seq::<Option<Seq<u8>>>::empty());
        p
    }

    /// The id that the page was made with.
    pub fn get_page_id(&self) -> (r: PageId)
        ensures
            r == self.id(),
    {
        let b0: u32 = self.data[0] as u32;
        let b1: u32 = self.data[1] as u32;
        let b2: u32 = self.data[2] as u32;
        let b3: u32 = self.data[3] as u32;
        b0 + 256 * b1 + 65536 * b2 + 16777216 * b3
    }

    pub(crate) fn get_u16(&self, o: usize) -> (r: u16)
        requires
            o + 1 < 4096,
        ensures
            r == u16_at(self.raw(), o as int),
    {
        let lo: u16 = self.data[o] as u16;
        let hi: u16 = self.data[o + 1] as u16;
        lo + 256 * hi
    }

    pub(crate) fn set_u16(&mut self, o: usize, v: u16)
        requires
            o + 1 < 4096,
        ensures
            final(self).raw() == with_u16(old(self).raw(), o as int, v as int),
            final(self).raw().len() == 4096,
            u16_at(final(self).raw(), o as int) == v,
    {
        self.data[o] = (v % 256) as u8;
        self.data[o + 1] = (v / 256) as u8;
    }

    pub(crate) fn duplicate(&self) -> (p: Page)
        ensures
            p.raw() == self.raw(),
    {
        Page { data: self.data }
    }

    pub(crate) fn bytes(&self, from: usize, to: usize) -> (r: &[u8])
        requires
            from <= to <= 4096,
        ensures
            r@ == self.raw().subrange(from as int, to as int),
    {
        slice_subrange(self.data.as_slice(), from, to)
    }

    pub(crate) fn write_bytes(&mut self, o: usize, bytes: &[u8])
        requires
            o + bytes@.len() <= 4096,
        ensures
            final(self).raw() == with_bytes(old(self).raw(), o as int, bytes@),
            final(self).raw().len() == 4096,
    {
        let n: usize = bytes.len();
        let ghost before = self.data@;
        for k in 0..n
            invariant
                n == bytes@.len(),
                o + n <= 4096,
                before.len() == 4096,
                self.data@.len() == 4096,
                forall|i: int| 0 <= i < 4096 ==> #[trigger] self.data@[i] == (if o <= i < o + k {
                    bytes@[i - o]
                } else {
                    before[i]
                }),
        {
            self.data[o + k] = bytes[k];
        }
        assert(self.data@ =~= with_bytes(before, o as int, bytes@));
    }

    /// A page has room for so many slots and no more, and what it holds fits.
    pub proof fn lemma_slot_count(&self)
        requires
            self.wf(),
        ensures
            self@.slots.len() <= 1018,
            self@.free_space() >= 0,
    {
    }

    /// How the view and the well-formedness of a page follow from its bytes.
    pub(crate) proof fn lemma_layout(&self)
        ensures
            self.raw().len() == 4096,
            self@ == (PageView {
                ready: free_space_ptr_of(self.raw()) != 0,
                slots: slot_values(self.raw()),
            }),
            self.wf() == layout_ok(self.raw()),
            self.id() == u32_at(self.raw(), 0),
    {
    }
}

/// Replacing one slot changes the sum of the lengths by the difference.
pub proof fn lemma_total_update(s: Seq<Option<Seq<u8>>>, i: int, v: Option<Seq<u8>>)
    requires
        0 <= i < s.len(),
    ensures
        total_len(s.update(i, v)) == total_len(s) - value_len(s[i]) + value_len(v),
        vacancies(s.update(i, v)) == vacancies(s) - (if s[i] is None {
            1int
        } else {
            0
        }) + (if v is None {
            1int
        } else {
            0
        }),
        value_len(s[i]) <= total_len(s),
        s[i] is None ==> vacancies(s) >= 1,
    decreases s.len(),
{
    let u = s.update(i, v);
    if i == s.len() - 1 {
        assert(u.drop_last() =~= s.drop_last());
    } else {
        assert(u.drop_last() =~= s.drop_last().update(i, v));
        lemma_total_update(s.drop_last(), i, v);
    }
}

/// A new slot adds its own length.
pub proof fn lemma_total_push(s: Seq<Option<Seq<u8>>>, v: Option<Seq<u8>>)
    ensures
        total_len(s.push(v)) == total_len(s) + value_len(v),
        vacancies(s.push(v)) == vacancies(s) + (if v is None {
            1nat
        } else {
            0nat
        }),
{
    assert(s.push(v).drop_last() =~= s);
}

/// A prefix takes no more bytes than the whole.
pub proof fn lemma_total_prefix(s: Seq<Option<Seq<u8>>>, k: int)
    requires
        0 <= k <= s.len(),
    ensures
        total_len(s.take(k)) <= total_len(s),
    decreases s.len(),
{
    if k == s.len() {
        assert(s.take(k) =~= s);
    } else {
        assert(s.drop_last().take(k) =~= s.take(k));
        lemma_total_prefix(s.drop_last(), k);
    }
}

/// There are no more vacancies than slots.
pub proof fn lemma_vacancies_bound(s: Seq<Option<Seq<u8>>>)
    ensures
        vacancies(s) <= s.len(),
    decreases s.len(),
{
    if s.len() > 0 {
        lemma_vacancies_bound(s.drop_last());
    }
}

/// The lowest vacancy is vacant, everything below it is occupied, and there is
/// one exactly when vacancies are counted.
pub proof fn lemma_lowest_vacancy(s: Seq<Option<Seq<u8>>>)
    ensures
        lowest_vacancy(s) <= s.len(),
        lowest_vacancy(s) < s.len() ==> s[lowest_vacancy(s) as int] is None,
        forall|j: int| 0 <= j < lowest_vacancy(s) ==> #[trigger] s[j] is Some,
        lowest_vacancy(s) < s.len() <==> vacancies(s) > 0,
    decreases s.len(),
{
    if s.len() > 0 {
        let t = s.drop_first();
        lemma_lowest_vacancy(t);
        assert forall|j: int| 0 <= j < lowest_vacancy(s) implies #[trigger] s[j] is Some by {
            if j > 0 {
                assert(t[j - 1] == s[j]);
            }
        }
        if s[0] is None {
            lemma_total_update(s, 0, None);
        } else if lowest_vacancy(s) < s.len() {
            lemma_total_update(s, lowest_vacancy(s) as int, None);
        } else {
            lemma_no_vacancies(s);
        }
    }
}

proof fn lemma_no_vacancies(s: Seq<Option<Seq<u8>>>)
    requires
        forall|j: int| 0 <= j < s.len() ==> #[trigger] s[j] is Some,
    ensures
        vacancies(s) == 0,
    decreases s.len(),
{
    if s.len() > 0 {
        assert forall|j: int| 0 <= j < s.drop_last().len() implies #[trigger] s.drop_last()[j] is Some by {
            assert(s[j] is Some);
        }
        lemma_no_vacancies(s.drop_last());
    }
}

/// The lowest vacancy is the only slot that is vacant with nothing vacant
/// below it.
pub proof fn lemma_lowest_vacancy_is(s: Seq<Option<Seq<u8>>>, k: int)
    requires
        0 <= k <= s.len(),
        forall|j: int| 0 <= j < k ==> #[trigger] s[j] is Some,
        k < s.len() ==> s[k] is None,
    ensures
        lowest_vacancy(s) == k,
{
    lemma_lowest_vacancy(s);
    let l = lowest_vacancy(s) as int;
    if l < k {
        assert(s[l] is Some);
    }
    if k < l {
        assert(s[k] is Some);
    }
}

/// What was added is read back from its slot, which held nothing before. Every
/// other slot keeps what it holds, and the page loses as much free space as
/// the value and, for a new slot, its entry take.
pub proof fn lemma_added_is_read(pv: PageView, bytes: Seq<u8>)
    requires
        bytes.len() > 0,
    ensures
        pv.value(lowest_vacancy(pv.slots) as int) is None,
        pv.with_value(bytes).value(lowest_vacancy(pv.slots) as int) == Some(bytes),
        forall|t: int|
            t != lowest_vacancy(pv.slots) ==> #[trigger] pv.with_value(bytes).value(t) == pv.value(t),
        pv.ready ==> pv.with_value(bytes).free_space() == pv.free_space() - pv.cost_of_adding(
            bytes.len(),
        ),
{
    let s = lowest_vacancy(pv.slots) as int;
    lemma_lowest_vacancy(pv.slots);
    if s < pv.slots.len() {
        lemma_total_update(pv.slots, s, Some(bytes));
    } else {
        lemma_total_push(pv.slots, Some(bytes));
    }
}

/// A deleted value is gone and its bytes are free again: every other slot
/// keeps what it holds, and a value of the same length can be added at once,
/// to a slot no higher than the one that was freed.
pub proof fn lemma_deleted_is_free(pv: PageView, s: int)
    requires
        pv.ready,
        pv.free_space() >= 0,
        pv.value(s) is Some,
    ensures
        pv.with_slot(s, None).value(s) is None,
        forall|t: int| t != s ==> #[trigger] pv.with_slot(s, None).value(t) == pv.value(t),
        pv.with_slot(s, None).free_space() == pv.free_space() + value_len(pv.value(s)),
        pv.with_slot(s, None).has_room(value_len(pv.value(s))),
        lowest_vacancy(pv.with_slot(s, None).slots) <= s,
{
    let after = pv.with_slot(s, None);
    lemma_total_update(pv.slots, s, None);
    lemma_lowest_vacancy(after.slots);
    if lowest_vacancy(after.slots) > s {
        assert(after.slots[s] is Some);
    }
}

/// What a slot was updated to is read back from it. Every other slot keeps
/// what it holds, and the free space changes by the difference in length.
pub proof fn lemma_updated_is_read(pv: PageView, s: int, bytes: Seq<u8>)
    requires
        pv.ready,
        pv.value(s) is Some,
        bytes.len() > 0,
    ensures
        pv.with_slot(s, as_value(bytes)).value(s) == Some(bytes),
        forall|t: int|
            t != s ==> #[trigger] pv.with_slot(s, as_value(bytes)).value(t) == pv.value(t),
        pv.with_slot(s, as_value(bytes)).free_space() == pv.free_space() + value_len(pv.value(s))
            - bytes.len(),
{
    lemma_total_update(pv.slots, s, Some(bytes));
}

/// Where everything stands in the bytes of a page. The id of the page comes
/// first, in four bytes. Every counter and offset has two bytes, the lesser one
/// first: sixteen bytes into the page the number of slots, the free space pointer, the number of dead bytes and the number of
/// vacant slots, and behind them, four bytes for each slot, where its value
/// starts and how long it is.
pub proof fn lemma_bytes_of_a_page(d: Seq<u8>, i: int)
    requires
        d.len() == 4096,
        0 <= i < 1018,
    ensures
        num_slots_of(d) == d[16] + 256 * d[17],
        free_space_ptr_of(d) == d[18] + 256 * d[19],
        deleted_bytes_of(d) == d[20] + 256 * d[21],
        deleted_slots_of(d) == d[22] + 256 * d[23],
        slot_entry(i) == 24 + 4 * i,
        slot_start(d, i) == d[24 + 4 * i] + 256 * d[25 + 4 * i],
        slot_len(d, i) == d[26 + 4 * i] + 256 * d[27 + 4 * i],
        header_end(d) == 24 + 4 * (d[16] + 256 * d[17]),
        u32_at(d, 0) == d[0] + 256 * d[1] + 65536 * d[2] + 16777216 * d[3],
{
}

/// What was written as a number is read back, and no other byte changes.
pub proof fn lemma_written_is_read(d: Seq<u8>, o: int, v: int)
    requires
        0 <= o,
        o + 1 < d.len(),
        0 <= v < 0x1_0000,
    ensures
        u16_at(with_u16(d, o, v), o) == v,
        with_u16(d, o, v)[o] == v % 256,
        with_u16(d, o, v).len() == d.len(),
        forall|k: int|
            0 <= k < d.len() && k != o && k != o + 1 ==> #[trigger] with_u16(d, o, v)[k] == d[k],
{
}

/// The bytes of a value end where the value of a slot ends, and they stand in
/// the order in which they were stored.
pub proof fn lemma_value_bytes(d: Seq<u8>, i: int, k: int)
    requires
        slot_len(d, i) > 0,
        0 <= slot_start(d, i),
        slot_start(d, i) + slot_len(d, i) <= d.len(),
        0 <= k < slot_len(d, i),
    ensures
        slot_value(d, i) is Some,
        slot_value(d, i)->0.len() == slot_len(d, i),
        slot_value(d, i)->0[k] == d[slot_start(d, i) + k],
{
}

/// A page has room for a value where the value fits beside its header, the four
/// bytes of each slot and the values that it holds. A value that gets a new slot
/// needs four bytes more; it gets one only where no slot is vacant. A page that
/// was never initialised has no room. All other bytes of a page are free.
pub proof fn lemma_room(pv: PageView, n: nat)
    ensures
        pv.ready && (exists|s: int| 0 <= s < pv.slots.len() && #[trigger] pv.slots[s] is None) ==> (
        pv.has_room(n) <==> 24 + 4 * pv.slots.len() + total_len(pv.slots) + n <= 4096),
        pv.ready && (forall|s: int| 0 <= s < pv.slots.len() ==> #[trigger] pv.slots[s] is Some) ==> (
        pv.has_room(n) <==> 24 + 4 * pv.slots.len() + total_len(pv.slots) + n + 4 <= 4096),
        !pv.ready && pv.slots.len() == 0 ==> !pv.has_room(n),
        pv.ready ==> pv.free_space() + 24 + 4 * pv.slots.len() + total_len(pv.slots) == 4096,
        !pv.ready ==> pv.free_space() == 0,
{
    lemma_lowest_vacancy(pv.slots);
    if exists|s: int| 0 <= s < pv.slots.len() && #[trigger] pv.slots[s] is None {
        let s = choose|s: int| 0 <= s < pv.slots.len() && #[trigger] pv.slots[s] is None;
        lemma_total_update(pv.slots, s, None);
    }
    if forall|s: int| 0 <= s < pv.slots.len() ==> #[trigger] pv.slots[s] is Some {
        lemma_no_vacancies(pv.slots);
    }
}

/// The values of a page take as many bytes as they are long: none where there
/// are no slots, and for each slot more the bytes of its value.
pub proof fn lemma_total(slots: Seq<Option<Seq<u8>>>, b: Seq<u8>)
    ensures
        total_len(Seq::empty()) == 0,
        total_len(slots.push(Some(b))) == total_len(slots) + b.len(),
        total_len(slots.push(None)) == total_len(slots),
        as_value(b) is None <==> b.len() == 0,
{
    lemma_total_push(slots, Some(b));
    lemma_total_push(slots, None);
}

} // verus!
