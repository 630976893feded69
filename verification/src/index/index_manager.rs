//! The live indexes of the database.
use crate::common::error::{c_err, CrustyError};
use crate::common::field;
use crate::common::field::Field;
use crate::common::ids::{ColumnId, ContainerId, TransactionId, ValueId};
use crate::common::text;
use crate::common::text::decimal_text;
use crate::common::tuple;
use crate::common::tuple::Tuple;
use crate::heapstore::buffer_pool::BufferPool;
use crate::heapstore::heap_file;
use crate::heapstore::heap_file::HeapFile;
use crate::index::codec;
use crate::index::codec::Key;
use crate::index::node::{Item, MAX_KEY_LEN};
use crate::index::tree::TreeIndex;
use crate::queryexe::consistency;
use dashmap::DashMap;
use std::hash::RandomState;
use vstd::multiset::Multiset;
use vstd::prelude::*;
use vstd::string::*;

verus! {

/// An index's id is also the id of the storage container its B+Tree pages live
/// in.
pub type IndexId = ContainerId;

/// The concurrent map of `dashmap`.
#[verifier::external_type_specification]
#[verifier::external_body]
#[verifier::reject_recursive_types(K)]
#[verifier::reject_recursive_types(V)]
#[verifier::reject_recursive_types(S)]
pub struct ExDashMap<K, V, S>(DashMap<K, V, S>);

/// What a map of index ids to containers holds.
pub uninterp spec fn held(m: DashMap<u16, u16, RandomState>) -> Map<u16, u16>;

/// A map without keys.
pub open spec fn nothing() -> Map<u16, u16> {
    Map::empty()
}

/// Calls `DashMap::new`: the map holds nothing.
#[verifier::external_body]
fn new_map() -> (m: DashMap<u16, u16, RandomState>)
    ensures
        held(m) == nothing(),
{
    DashMap::new()
}

/// Calls `DashMap::insert`: the key leads to the value, whatever it led to
/// before. The call may block while a reference into the map is alive; the
/// exclusive borrow leaves none.
#[verifier::external_body]
fn map_insert(m: &mut DashMap<u16, u16, RandomState>, key: u16, value: u16)
    ensures
        held(*final(m)) == held(*old(m)).insert(key, value),
{
    m.insert(key, value);
}

/// Calls `DashMap::get` and copies the value that the key leads to, if it
/// leads to one.
#[verifier::external_body]
fn map_get(m: &DashMap<u16, u16, RandomState>, key: u16) -> (r: Option<u16>)
    ensures
        match r {
            Some(v) => held(*m).contains_key(key) && v == held(*m)[key],
            None => !held(*m).contains_key(key),
        },
{
    match m.get(&key) {
        Some(entry) => Some(*entry.value()),
        None => None,
    }
}

/// Calls `DashMap::clear`: the map holds nothing afterwards.
#[verifier::external_body]
fn map_clear(m: &mut DashMap<u16, u16, RandomState>)
    ensures
        held(*final(m)) == nothing(),
{
    m.clear();
}

/// Manages every live B+Tree index in the database: creation (including the
/// initial scan-and-build over existing rows), and per-row maintenance
/// (insert/delete) called from the mutator and the Update/Delete operators.
pub struct IndexManager {
    trees: DashMap<u16, u16, RandomState>,
}

/// What is said of an index that is not there.
pub open spec fn not_found(index_id: IndexId) -> Seq<char> {
    "Index "@ + text::decimal(index_id as nat) + " not found"@
}

/// The key of a stored row; `None` where the bytes are no row or the row has
/// no such columns.
pub open spec fn row_key(bytes: Seq<u8>, columns: Seq<ColumnId>) -> Option<Key> {
    match tuple::tuple_of(bytes) {
        Some(fields) => if tuple::columns_fit(fields.len(), columns) {
            Some(tuple::key_of(fields, columns))
        } else {
            None
        },
        None => None,
    }
}

/// A stored row can be indexed.
pub open spec fn row_fits(bytes: Seq<u8>, columns: Seq<ColumnId>) -> bool {
    row_key(bytes, columns) matches Some(k) && codec::key_len(k) <= MAX_KEY_LEN
}

/// The items of the first `k` rows.
pub open spec fn row_items(
    rows: Seq<(Seq<u8>, ValueId)>,
    columns: Seq<ColumnId>,
    k: int,
) -> Multiset<Item>
    decreases k,
{
    if k <= 0 {
        Multiset::empty()
    } else {
        row_items(rows, columns, k - 1).insert((row_key(rows[k - 1].0, columns)->0, rows[k - 1].1))
    }
}

/// Row `k` is the first one that cannot be indexed, and what is said of it.
pub open spec fn refused_row(
    rows: Seq<(Seq<u8>, ValueId)>,
    columns: Seq<ColumnId>,
    k: int,
    message: Seq<char>,
) -> bool {
    &&& 0 <= k < rows.len()
    &&& forall|i: int| 0 <= i < k ==> row_fits((#[trigger] rows[i]).0, columns)
    &&& !row_fits(rows[k].0, columns)
    &&& message == match tuple::tuple_of(rows[k].0) {
        None => "tuple decode error"@,
        Some(fields) => if tuple::columns_fit(fields.len(), columns) {
            "index key too large"@
        } else {
            "index column out of range"@
        },
    }
}

/// An index of `k` rows that were inserted one by one is no larger than this.
pub open spec fn built_within(bp: &BufferPool, index_id: IndexId, k: int) -> bool {
    &&& bp.pages(index_id).len() <= 2 + k * (2 * k + 3)
    &&& IndexManager::tree(index_id).height(bp) <= 1 + 2 * k
}

/// One more insertion keeps an index within the bounds of one more row.
proof fn lemma_built_step(before: &BufferPool, after: &BufferPool, index_id: IndexId, k: int)
    requires
        k >= 0,
        built_within(before, index_id, k),
        ({
            let tree = IndexManager::tree(index_id);
            &&& after.pages(index_id).len() <= before.pages(index_id).len() + tree.pages_at_most(before)
            &&& tree.height(after) <= tree.height(before) + 2
        }),
    ensures
        built_within(after, index_id, k + 1),
{
    assert(k * (2 * k + 3) + 4 * k + 5 == (k + 1) * (2 * (k + 1) + 3)) by (nonlinear_arith);
}

/// The build of an index stopped at row `k`, and what is said of it: the row
/// cannot be indexed, or there are not enough page ids left for it. The rows
/// before it are in the tree.
pub open spec fn build_stopped_at(
    bp: &BufferPool,
    index_id: IndexId,
    rows: Seq<(Seq<u8>, ValueId)>,
    columns: Seq<ColumnId>,
    k: int,
    message: Seq<char>,
) -> bool {
    &&& IndexManager::tree(index_id).wf(bp)
    &&& IndexManager::tree(index_id).entries(bp) == row_items(rows, columns, k)
    &&& built_within(bp, index_id, k)
    &&& {
        ||| refused_row(rows, columns, k, message)
        ||| {
            &&& 0 <= k < rows.len()
            &&& forall|i: int| 0 <= i <= k ==> row_fits((#[trigger] rows[i]).0, columns)
            &&& message == "Out of page ids"@
            &&& {
                let item = (row_key(rows[k].0, columns)->0, rows[k].1);
                &&& !IndexManager::tree(index_id).can_grow(bp, item)
                &&& IndexManager::tree(index_id).pages_needed(bp, item) <= IndexManager::tree(
                    index_id,
                ).pages_at_most(bp)
            }
        }
    }
}

/// The build of an index stopped at some row.
pub open spec fn build_stopped(
    bp: &BufferPool,
    index_id: IndexId,
    rows: Seq<(Seq<u8>, ValueId)>,
    columns: Seq<ColumnId>,
    message: Seq<char>,
) -> bool {
    exists|k: int| #[trigger] build_stopped_at(bp, index_id, rows, columns, k, message)
}

/// A table of at most this many rows is indexed without running out of page
/// ids, whatever its rows.
pub const FEW_ROWS: usize = 46_000;

/// The build of an index over few rows stops only at a row that cannot be
/// indexed.
pub proof fn lemma_few_rows_have_pages(
    bp: &BufferPool,
    index_id: IndexId,
    rows: Seq<(Seq<u8>, ValueId)>,
    columns: Seq<ColumnId>,
    message: Seq<char>,
)
    requires
        rows.len() <= FEW_ROWS,
        build_stopped(bp, index_id, rows, columns, message),
    ensures
        exists|k: int| #[trigger] refused_row(rows, columns, k, message),
{
    let k = choose|k: int| #[trigger] build_stopped_at(bp, index_id, rows, columns, k, message);
    if !refused_row(rows, columns, k, message) {
        assert(k * (2 * k + 3) <= 46_000 * (2 * 46_000 + 3)) by (nonlinear_arith)
            requires
                0 <= k <= 46_000,
        ;
    }
}

impl IndexManager {
    /// The live indexes, each with its container.
    pub closed spec fn ids(&self) -> Map<IndexId, ContainerId> {
        held(self.trees)
    }

    /// Whether the index is live.
    pub open spec fn has(&self, index_id: IndexId) -> bool {
        self.ids().contains_key(index_id)
    }

    /// The tree of an index.
    pub open spec fn tree(index_id: IndexId) -> TreeIndex {
        TreeIndex { c_id: index_id }
    }

    /// The container of every live index holds an index.
    pub open spec fn wf(&self, bp: &BufferPool) -> bool {
        &&& bp.wf()
        &&& forall|i: IndexId| #[trigger]
            self.has(i) ==> self.ids()[i] == i && Self::tree(i).wf(bp)
    }

    /// The items of an index.
    pub open spec fn entries(&self, bp: &BufferPool, index_id: IndexId) -> Multiset<Item> {
        Self::tree(index_id).entries(bp)
    }

    /// A manager without indexes.
    pub fn new() -> (r: Self)
        ensures
            r.ids() == Map::<IndexId, ContainerId>::empty(),
            forall|bp: BufferPool| #[trigger] bp.wf() ==> r.wf(&bp),
    {
        IndexManager { trees: new_map() }
    }

    /// Extract the (possibly composite) index key from a tuple, given the
    /// index's raw (0-based) column offsets.
    fn extract_key(row: &Tuple, columns: &[ColumnId]) -> (r: Result<Vec<Field>, CrustyError>)
        ensures
            match r {
                Ok(key) => {
                    &&& tuple::columns_fit(row@.fields.len(), columns@)
                    &&& field::views(key@) == tuple::key_of(row@.fields, columns@)
                },
                Err(e) => {
                    &&& !tuple::columns_fit(row@.fields.len(), columns@)
                    &&& e.message() == "index column out of range"@
                },
            },
    {
        row.extract_key(columns)
    }

    /// Create a brand-new B+Tree index in container `index_id` over `columns`
    /// (raw, 0-based attribute offsets) of table `table_id`, and populate it
    /// by scanning every existing row in the table. A row that cannot be
    /// indexed stops the scan, and the index does not become live.
    #[verifier::rlimit(30)]
    pub fn create_index(
        &mut self,
        bp: &mut BufferPool,
        index_id: IndexId,
        table_id: ContainerId,
        columns: &[ColumnId],
        _tid: TransactionId,
    ) -> (r: Result<(), CrustyError>)
        requires
            old(self).wf(old(bp)),
            old(bp).pages(index_id).len() == 0,
            index_id != table_id,
        ensures
            final(self).wf(final(bp)),
            final(bp).same_but(old(bp), index_id),
            ({
                let rows = heap_file::values_from(table_id, old(bp).pages(table_id), 1, 0);
                match r {
                    Ok(_) => {
                        &&& forall|i: int|
                            0 <= i < rows.len() ==> row_fits((#[trigger] rows[i]).0, columns@)
                        &&& final(self).ids() == old(self).ids().insert(index_id, index_id)
                        &&& final(self).entries(final(bp), index_id) == row_items(
                            rows,
                            columns@,
                            rows.len() as int,
                        )
                        &&& built_within(final(bp), index_id, rows.len() as int)
                        &&& consistency::items_of_rows(
                            table_id,
                            old(bp).pages(table_id),
                            columns@,
                            final(self).entries(final(bp), index_id),
                        )
                    },
                    Err(e) => {
                        &&& final(self).ids() == old(self).ids()
                        &&& build_stopped(final(bp), index_id, rows, columns@, e.message())
                    },
                }
            }),
    {
        let index = match TreeIndex::new(index_id, bp) {
            Ok(index) => index,
            Err(e) => {
                return Err(e);
            },
        };
        let ghost table = old(bp).pages(table_id);
        let ghost rows = heap_file::values_from(table_id, table, 1, 0);
        let ghost mut k: int = 0;
        let file = HeapFile { c_id: table_id };
        let mut iter = file.iter();
        proof {
            iter.lemma_starts_at(bp, file, 1, 0);
            assert(rows.skip(0) =~= rows);
            assert(!old(self).has(index_id)) by {
                if old(self).has(index_id) {
                    assert(Self::tree(index_id).wf(old(bp)));
                }
            }
        }
        loop
            invariant
                *self == *old(self),
                old(self).wf(old(bp)),
                !old(self).has(index_id),
                index_id != table_id,
                index == Self::tree(index_id),
                index.wf(bp),
                bp.same_but(old(bp), index_id),
                table == old(bp).pages(table_id),
                rows == heap_file::values_from(table_id, table, 1, 0),
                0 <= k <= rows.len(),
                iter.wf(bp),
                iter.file().c_id == table_id,
                iter.remaining(bp) == rows.skip(k),
                forall|i: int| 0 <= i < k ==> row_fits((#[trigger] rows[i]).0, columns@),
                index.entries(bp) == row_items(rows, columns@, k),
                built_within(bp, index_id, k),
            ensures
                k == rows.len(),
            decreases rows.len() - k,
        {
            let (bytes, rid) = match iter.next(bp) {
                Some(x) => x,
                None => {
                    assert(k == rows.len());
                    break;
                },
            };
            assert(rows[k] == (bytes@, rid));
            let row = match Tuple::from_bytes(&bytes) {
                Ok(row) => row,
                Err(e) => {
                    proof {
                        assert(build_stopped_at(bp, index_id, rows, columns@, k, e.message()));
                        self.lemma_kept(old(bp), bp, index_id);
                    }
                    return Err(e);
                },
            };
            let key = match Self::extract_key(&row, columns) {
                Ok(key) => key,
                Err(e) => {
                    proof {
                        assert(build_stopped_at(bp, index_id, rows, columns@, k, e.message()));
                        self.lemma_kept(old(bp), bp, index_id);
                    }
                    return Err(e);
                },
            };
            let ghost before = *bp;
            match index.insert(bp, key, rid) {
                Ok(_) => {},
                Err(e) => {
                    proof {
                        if codec::key_len(field::views(key@)) > MAX_KEY_LEN {
                            assert(refused_row(rows, columns@, k, e.message()));
                        }
                        assert(build_stopped_at(bp, index_id, rows, columns@, k, e.message()));
                        self.lemma_kept(old(bp), bp, index_id);
                    }
                    return Err(e);
                },
            }
            proof {
                iter.lemma_other_containers(&before, bp);
                lemma_built_step(&before, bp, index_id, k);
                assert(rows.skip(k).drop_first() =~= rows.skip(k + 1));
                k = k + 1;
            }
        }
        map_insert(&mut self.trees, index_id, index_id);
        proof {
            old(bp).lemma_limits(table_id);
            assert forall|i: int| 0 <= i < rows.len() implies row_key(
                (#[trigger] rows[i]).0,
                columns@,
            ) is Some by {
                assert(row_fits(rows[i].0, columns@));
            }
            consistency::lemma_walk_gives_items(table_id, table, columns@, rows);
            assert forall|i: IndexId| #[trigger] self.has(i) implies self.ids()[i] == i
                && Self::tree(i).wf(bp) by {
                if i != index_id {
                    assert(old(self).has(i));
                    assert(bp.pages(i) == old(bp).pages(i));
                }
            }
        }
        Ok(())
    }

    /// The live indexes stay sound while no page changes.
    pub proof fn lemma_unchanged(&self, before: &BufferPool, after: &BufferPool)
        requires
            self.wf(before),
            after.wf(),
            forall|c: ContainerId| #[trigger] after.pages(c) == before.pages(c),
        ensures
            self.wf(after),
    {
        assert forall|i: IndexId| #[trigger] self.has(i) implies self.ids()[i] == i && Self::tree(
            i,
        ).wf(after) by {
            assert(after.pages(i) == before.pages(i));
            assert(Self::tree(i).wf(before));
        }
    }

    /// The live indexes stay sound while another container changes.
    pub proof fn lemma_kept(&self, before: &BufferPool, after: &BufferPool, c_id: ContainerId)
        requires
            self.wf(before),
            !self.has(c_id),
            after.wf(),
            after.same_but(before, c_id),
        ensures
            self.wf(after),
    {
        assert forall|i: IndexId| #[trigger] self.has(i) implies self.ids()[i] == i && Self::tree(
            i,
        ).wf(after) by {
            assert(after.pages(i) == before.pages(i));
            assert(Self::tree(i).wf(before));
        }
    }

    /// Whether the container holds a live index.
    pub fn has_index(&self, index_id: IndexId) -> (r: bool)
        ensures
            r == self.has(index_id),
    {
        map_get(&self.trees, index_id).is_some()
    }

    fn get_tree(&self, index_id: IndexId) -> (r: Result<TreeIndex, CrustyError>)
        ensures
            match r {
                Ok(t) => self.has(index_id) && t.c_id == self.ids()[index_id],
                Err(e) => !self.has(index_id) && e.message() == not_found(index_id),
            },
    {
        match map_get(&self.trees, index_id) {
            Some(c_id) => Ok(TreeIndex::load(c_id)),
            None => {
                let mut message: String = "Index ".to_owned();
                message.append(decimal_text(index_id as u64).as_str());
                message.append(" not found");
                Err(c_err(message.as_str()))
            },
        }
    }

    /// Look up every `ValueId` stored under `key` in the given index.
    pub fn search(&self, bp: &BufferPool, index_id: IndexId, key: &[Field]) -> (r: Result<
        Vec<ValueId>,
        CrustyError,
    >)
        requires
            self.wf(bp),
        ensures
            match r {
                Ok(v) => {
                    &&& self.has(index_id)
                    &&& forall|rid: ValueId| #[trigger]
                        v@.to_multiset().count(rid) == self.entries(bp, index_id).count(
                            (field::views(key@), rid),
                        )
                    &&& v@ == Self::tree(index_id).ids_of(bp, field::views(key@))
                },
                Err(e) => !self.has(index_id) && e.message() == not_found(index_id),
            },
    {
        match self.get_tree(index_id) {
            Ok(index) => {
                assert(index == Self::tree(index_id));
                index.search(bp, key)
            },
            Err(e) => Err(e),
        }
    }

    /// Add one `(key, rid)` entry to the index. Called from insert/update paths.
    pub fn insert_entry(
        &self,
        bp: &mut BufferPool,
        index_id: IndexId,
        key: Vec<Field>,
        rid: ValueId,
    ) -> (r: Result<(), CrustyError>)
        requires
            self.wf(old(bp)),
        ensures
            self.wf(final(bp)),
            final(bp).same_but(old(bp), index_id),
            r is Ok <==> {
                &&& self.has(index_id)
                &&& codec::key_len(field::views(key@)) <= MAX_KEY_LEN
                &&& Self::tree(index_id).can_grow(old(bp), (field::views(key@), rid))
            },
            match r {
                Ok(_) => {
                    let tree = Self::tree(index_id);
                    &&& self.entries(final(bp), index_id) == self.entries(
                        old(bp),
                        index_id,
                    ).insert((field::views(key@), rid))
                    &&& final(bp).pages(index_id).len() == old(bp).pages(index_id).len()
                        + tree.pages_needed(old(bp), (field::views(key@), rid))
                    &&& tree.height(old(bp)) <= tree.height(final(bp)) <= tree.height(old(bp)) + 2
                },
                Err(e) => {
                    &&& final(bp).pages(index_id) == old(bp).pages(index_id)
                    &&& e.message() == if !self.has(index_id) {
                        not_found(index_id)
                    } else if codec::key_len(field::views(key@)) > MAX_KEY_LEN {
                        "index key too large"@
                    } else {
                        "Out of page ids"@
                    }
                },
            },
    {
        match self.get_tree(index_id) {
            Ok(index) => {
                assert(index == Self::tree(index_id));
                let r = index.insert(bp, key, rid);
                proof {
                    self.lemma_one_changed(old(bp), bp, index_id);
                }
                r
            },
            Err(e) => Err(e),
        }
    }

    /// The live indexes stay sound while one of them changes.
    proof fn lemma_one_changed(&self, before: &BufferPool, after: &BufferPool, index_id: IndexId)
        requires
            self.wf(before),
            Self::tree(index_id).wf(after),
            after.same_but(before, index_id),
        ensures
            self.wf(after),
    {
        assert forall|i: IndexId| #[trigger] self.has(i) implies self.ids()[i] == i && Self::tree(
            i,
        ).wf(after) by {
            if i != index_id {
                assert(after.pages(i) == before.pages(i));
                assert(Self::tree(i).wf(before));
            }
        }
    }

    /// Remove one `(key, rid)` entry from the index. Called from delete/update
    /// paths.
    pub fn delete_entry(
        &self,
        bp: &mut BufferPool,
        index_id: IndexId,
        key: &[Field],
        rid: ValueId,
    ) -> (r: Result<(), CrustyError>)
        requires
            self.wf(old(bp)),
        ensures
            self.wf(final(bp)),
            final(bp).same_but(old(bp), index_id),
            match r {
                Ok(_) => {
                    &&& self.has(index_id)
                    &&& self.entries(final(bp), index_id) == self.entries(
                        old(bp),
                        index_id,
                    ).remove((field::views(key@), rid))
                },
                Err(e) => {
                    &&& !self.has(index_id)
                    &&& e.message() == not_found(index_id)
                    &&& final(bp).pages(index_id) == old(bp).pages(index_id)
                },
            },
    {
        match self.get_tree(index_id) {
            Ok(index) => {
                assert(index == Self::tree(index_id));
                let r = index.delete(bp, key, rid);
                proof {
                    self.lemma_one_changed(old(bp), bp, index_id);
                }
                r
            },
            Err(e) => Err(e),
        }
    }

    /// Index pages live in the shared buffer pool, so there is nothing to
    /// persist here.
    pub fn shutdown(&self) -> (r: Result<(), CrustyError>)
        ensures
            r is Ok,
    {
        Ok(())
    }

    /// Drop every index handle; the pages stay where they are.
    pub fn reset(&mut self) -> (r: Result<(), CrustyError>)
        ensures
            r is Ok,
            final(self).ids() == Map::<IndexId, ContainerId>::empty(),
    {
        map_clear(&mut self.trees);
        Ok(())
    }
}

/// The build of an index stops only for a cause: a stored value that is no row,
/// a row without one of the columns, a key that is too large, or page ids that
/// have run out.
pub proof fn lemma_build_stops_for_cause(
    bp: &BufferPool,
    index_id: IndexId,
    rows: Seq<(Seq<u8>, ValueId)>,
    columns: Seq<ColumnId>,
    message: Seq<char>,
)
    requires
        build_stopped(bp, index_id, rows, columns, message),
    ensures
        ({
            ||| message == "Out of page ids"@
            ||| exists|k: int|
                0 <= k < rows.len() && match tuple::tuple_of((#[trigger] rows[k]).0) {
                    None => true,
                    Some(fields) => {
                        ||| exists|i: int|
                            0 <= i < columns.len() && (#[trigger] columns[i]) >= fields.len()
                        ||| codec::key_len(tuple::key_of(fields, columns)) > MAX_KEY_LEN
                    },
                }
        }),
{
    let k = choose|k: int| #[trigger] build_stopped_at(bp, index_id, rows, columns, k, message);
    if message != "Out of page ids"@ {
        assert(refused_row(rows, columns, k, message));
        let row = rows[k].0;
        if let Some(fields) = tuple::tuple_of(row) {
            if tuple::columns_fit(fields.len(), columns) {
                assert(codec::key_len(tuple::key_of(fields, columns)) > MAX_KEY_LEN);
            } else {
                assert(exists|i: int|
                    0 <= i < columns.len() && (#[trigger] columns[i]) >= fields.len());
            }
        }
    }
}

} // verus!
