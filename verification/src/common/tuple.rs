//! Tuples, the rows of tables.
use crate::common::error::{c_err, CrustyError};
use crate::common::field;
use crate::common::field::{Field, FieldView};
use crate::common::ids::{ColumnId, ValueId};
use crate::common::record;
use crate::common::record::{Record, RecordView};
use vstd::prelude::*;

verus! {

/// A row: its field values and, once it is stored, where.
#[derive(Debug, PartialEq, Eq)]
pub struct Tuple {
    pub value_id: Option<ValueId>,
    pub fields: Vec<Field>,
}

/// What a row holds.
#[verifier::ext_equal]
pub struct TupleView {
    pub value_id: Option<ValueId>,
    pub fields: Seq<FieldView>,
}

impl View for Tuple {
    type V = TupleView;

    open spec fn view(&self) -> TupleView {
        TupleView { value_id: self.value_id, fields: field::views(self.fields@) }
    }
}

/// What rows hold.
pub open spec fn tuple_views(tuples: Seq<Tuple>) -> Seq<TupleView> {
    Seq::new(tuples.len(), |i: int| tuples[i]@)
}

/// The stored form of the fields of a row.
pub open spec fn tuple_record(fields: Seq<FieldView>) -> RecordView {
    (4u8, Seq::empty(), record::all_to_plain(fields))
}

/// The fields of the row that the given bytes store.
pub open spec fn tuple_of(bytes: Seq<u8>) -> Option<Seq<FieldView>> {
    match record::cbor_read(bytes) {
        Ok(r) => if r.0 == 4 && r.1.len() == 0 {
            record::all_from_plain(r.2)
        } else {
            None
        },
        Err(_) => None,
    }
}

/// The fields at the given columns, in the order of the columns.
pub open spec fn key_of(fields: Seq<FieldView>, columns: Seq<ColumnId>) -> Seq<FieldView> {
    Seq::new(columns.len(), |i: int| fields[columns[i] as int])
}

/// Every column is one of the row.
pub open spec fn columns_fit(n: nat, columns: Seq<ColumnId>) -> bool {
    forall|i: int| 0 <= i < columns.len() ==> (#[trigger] columns[i]) < n
}

/// The fields of a row at the given columns are those of the key, one for one.
pub open spec fn fields_match(
    fields: Seq<FieldView>,
    columns: Seq<ColumnId>,
    key: Seq<FieldView>,
) -> bool {
    &&& key.len() == columns.len()
    &&& forall|i: int|
        0 <= i < columns.len() ==> (#[trigger] columns[i]) < fields.len() && key[i]
            == fields[columns[i] as int]
}

/// The key of a row has as many fields as there are columns, and its fields are
/// those of the row at these columns. No other key has them.
pub proof fn lemma_key_fields(
    fields: Seq<FieldView>,
    columns: Seq<ColumnId>,
    key: Seq<FieldView>,
)
    requires
        columns_fit(fields.len(), columns),
    ensures
        key_of(fields, columns) == key <==> fields_match(fields, columns, key),
{
    if fields_match(fields, columns, key) {
        assert(key_of(fields, columns) =~= key);
    }
    if key_of(fields, columns) == key {
        assert forall|i: int| 0 <= i < columns.len() implies (#[trigger] columns[i]) < fields.len()
            && key[i] == fields[columns[i] as int] by {}
    }
}

impl Tuple {
    /// A row that is not stored yet.
    pub fn new(fields: Vec<Field>) -> (r: Self)
        ensures
            r.value_id is None,
            r.fields == fields,
    {
        Tuple { value_id: None, fields }
    }

    /// The field at position `i`.
    pub fn get_field(&self, i: usize) -> (r: Option<&Field>)
        ensures
            match r {
                Some(f) => i < self@.fields.len() && f@ == self@.fields[i as int],
                None => i >= self@.fields.len(),
            },
    {
        if i < self.fields.len() {
            Some(&self.fields[i])
        } else {
            None
        }
    }

    /// Replaces the field at position `i`.
    pub fn set_field(&mut self, i: usize, f: Field)
        requires
            i < old(self)@.fields.len(),
        ensures
            final(self)@.value_id == old(self)@.value_id,
            final(self)@.fields == old(self)@.fields.update(i as int, f@),
    {
        self.fields.set(i, f);
        assert(self@.fields =~= old(self)@.fields.update(i as int, f@));
    }

    /// The same row again.
    pub fn duplicate(&self) -> (r: Self)
        ensures
            r@ == self@,
    {
        Tuple { value_id: self.value_id, fields: field::duplicate_fields(&self.fields) }
    }

    /// The stored form of the row.
    pub fn to_bytes(&self) -> (r: Vec<u8>)
        ensures
            r@ == record::cbor_bytes(tuple_record(self@.fields)),
            r@.len() == record::record_len(tuple_record(self@.fields)),
            r@.len() > 0,
            tuple_of(r@) == Some(self@.fields),
    {
        let nums: Vec<u64> = Vec::new();
        let rec: Record = (4, nums, record::fields_to_plain(&self.fields));
        proof {
            assert(record::record_view(rec).1 =~= tuple_record(self@.fields).1);
            assert(record::record_view(rec).2 =~= tuple_record(self@.fields).2);
            record::lemma_plain_round_trip(self@.fields);
        }
        match record::cbor_to_vec(&rec) {
            Ok(b) => b,
            Err(_) => Vec::new(),
        }
    }

    /// The row that the given bytes store, without its place.
    pub fn from_bytes(bytes: &[u8]) -> (r: Result<Self, CrustyError>)
        ensures
            match r {
                Ok(t) => {
                    &&& tuple_of(bytes@) == Some(t@.fields)
                    &&& t@.value_id is None
                },
                Err(e) => {
                    &&& tuple_of(bytes@) is None
                    &&& e.message() == "tuple decode error"@
                },
            },
    {
        let (tag, nums, plain) = match record::cbor_from_slice(bytes) {
            Ok(rec) => rec,
            Err(_) => {
                return Err(c_err("tuple decode error"));
            },
        };
        if tag == 4 && nums.len() == 0 {
            match record::fields_from_plain(plain) {
                Some(fields) => Ok(Tuple::new(fields)),
                None => Err(c_err("tuple decode error")),
            }
        } else {
            Err(c_err("tuple decode error"))
        }
    }

    /// The (possibly composite) index key of the row, given the index's raw
    /// (0-based) column offsets.
    pub fn extract_key(&self, columns: &[ColumnId]) -> (r: Result<Vec<Field>, CrustyError>)
        ensures
            r is Ok <==> forall|i: int|
                0 <= i < columns@.len() ==> (#[trigger] columns@[i]) < self@.fields.len(),
            match r {
                Ok(key) => {
                    &&& columns_fit(self@.fields.len(), columns@)
                    &&& field::views(key@) == key_of(self@.fields, columns@)
                    &&& key@.len() == columns@.len()
                    &&& forall|i: int|
                        0 <= i < columns@.len() ==> (#[trigger] key@[i])@
                            == self@.fields[columns@[i] as int]
                },
                Err(e) => {
                    &&& !columns_fit(self@.fields.len(), columns@)
                    &&& e.message() == "index column out of range"@
                },
            },
    {
        let mut key: Vec<Field> = Vec::new();
        let mut i: usize = 0;
        while i < columns.len()
            invariant
                i <= columns@.len(),
                key@.len() == i,
                forall|j: int| 0 <= j < i ==> (#[trigger] columns@[j]) < self@.fields.len(),
                forall|j: int|
                    0 <= j < i ==> (#[trigger] key@[j])@ == self@.fields[columns@[j] as int],
            decreases columns@.len() - i,
        {
            match self.get_field(columns[i]) {
                Some(f) => {
                    key.push(f.duplicate());
                },
                None => {
                    assert(columns@[i as int] >= self@.fields.len());
                    return Err(c_err("index column out of range"));
                },
            }
            i = i + 1;
        }
        assert(field::views(key@) =~= key_of(self@.fields, columns@));
        Ok(key)
    }
}

/// A row is read back from its stored form, field by field.
pub proof fn lemma_tuple_round_trip(fields: Seq<FieldView>, bytes: Seq<u8>)
    requires
        record::cbor_read(bytes) == Ok::<RecordView, Seq<char>>(tuple_record(fields)),
    ensures
        tuple_of(bytes) == Some(fields),
{
    record::lemma_plain_round_trip(fields);
}

/// What a row is tells its id and each of its fields.
pub proof fn lemma_row_tells(t: Tuple, i: int)
    ensures
        t@.value_id == t.value_id,
        t@.fields.len() == t.fields@.len(),
        0 <= i < t.fields@.len() ==> t@.fields[i] == t.fields@[i]@,
{
}

} // verus!
