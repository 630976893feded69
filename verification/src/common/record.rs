//! Records: a tag, numbers and fields, stored as CBOR.
use crate::common::field;
use crate::common::field::{Field, FieldView};
use vstd::prelude::*;
use vstd::string::*;
use vstd::utf8;

verus! {

/// A field as plain values: its kind, two numbers and a text. What a kind does
/// not use is zero or empty.
pub type PlainField = (u8, i64, i64, String);

/// What a plain field holds.
pub type PlainFieldView = (u8, i64, i64, Seq<char>);

/// A record as plain values: its tag, its numbers and its fields.
pub type Record = (u8, Vec<u64>, Vec<PlainField>);

/// What a record holds.
pub type RecordView = (u8, Seq<u64>, Seq<PlainFieldView>);

/// What plain fields hold.
pub open spec fn plain_views(fields: Seq<PlainField>) -> Seq<PlainFieldView> {
    Seq::new(fields.len(), |i: int| (fields[i].0, fields[i].1, fields[i].2, fields[i].3@))
}

/// What a record holds.
pub open spec fn record_view(r: Record) -> RecordView {
    (r.0, r.1@, plain_views(r.2@))
}

/// Bytes of the head of a CBOR item with argument `n`.
pub open spec fn head_len(n: int) -> nat {
    if n < 24 {
        1
    } else if n < 0x100 {
        2
    } else if n < 0x1_0000 {
        3
    } else if n < 0x1_0000_0000 {
        5
    } else {
        9
    }
}

/// Bytes of a CBOR integer. The argument of a negative one counts down from -1.
pub open spec fn int_len(n: int) -> nat {
    if n >= 0 {
        head_len(n)
    } else {
        head_len(-1 - n)
    }
}

/// Bytes of a field: an array of its kind, its numbers and its text.
pub open spec fn plain_field_len(f: PlainFieldView) -> nat {
    let text = utf8::encode_utf8(f.3).len();
    1 + head_len(f.0 as int) + int_len(f.1 as int) + int_len(f.2 as int) + head_len(text as int) + text
}

/// Bytes of the given numbers.
pub open spec fn nums_len(nums: Seq<u64>) -> nat
    decreases nums.len(),
{
    if nums.len() == 0 {
        0
    } else {
        nums_len(nums.drop_last()) + head_len(nums.last() as int)
    }
}

/// Bytes of the given fields.
pub open spec fn plain_fields_len(fields: Seq<PlainFieldView>) -> nat
    decreases fields.len(),
{
    if fields.len() == 0 {
        0
    } else {
        plain_fields_len(fields.drop_last()) + plain_field_len(fields.last())
    }
}

/// Bytes of a record: an array of its tag, the array of its numbers and the
/// array of its fields.
pub open spec fn record_len(r: RecordView) -> nat {
    1 + head_len(r.0 as int) + head_len(r.1.len() as int) + nums_len(r.1) + head_len(r.2.len() as int)
        + plain_fields_len(r.2)
}

/// The error type of `serde_cbor`.
#[verifier::external_type_specification]
#[verifier::external_body]
pub struct ExCborError(serde_cbor::Error);

/// What `serde_cbor::from_slice` reads from the given bytes as a record; where
/// it reports an error, what the error says of itself.
pub uninterp spec fn cbor_read(bytes: Seq<u8>) -> Result<RecordView, Seq<char>>;

/// The bytes that `serde_cbor::to_vec` writes for a record.
pub uninterp spec fn cbor_bytes(r: RecordView) -> Seq<u8>;

/// Calls `serde_cbor::to_vec` on a record. Writing to a vector reports no
/// error. `serde_cbor::from_slice` reads the record back from the bytes, and
/// each array, number and text has a head of the CBOR length.
#[verifier::external_body]
pub(crate) fn cbor_to_vec(r: &Record) -> (b: Result<Vec<u8>, serde_cbor::Error>)
    ensures
        b is Ok,
        b->Ok_0@ == cbor_bytes(record_view(*r)),
        cbor_read(b->Ok_0@) is Ok,
        cbor_read(b->Ok_0@)->Ok_0 == record_view(*r),
        b->Ok_0@.len() == record_len(record_view(*r)),
{
    serde_cbor::to_vec(r)
}

/// Calls `serde_cbor::from_slice` for a record. An error comes back as the text
/// that it gives of itself for debugging. Both the record and that text depend
/// on the bytes alone.
#[verifier::external_body]
pub(crate) fn cbor_from_slice(bytes: &[u8]) -> (r: Result<Record, String>)
    ensures
        match r {
            Ok(rec) => cbor_read(bytes@) is Ok && cbor_read(bytes@)->Ok_0 == record_view(rec),
            Err(text) => cbor_read(bytes@) is Err && cbor_read(bytes@)->Err_0 == text@,
        },
{
    match serde_cbor::from_slice(bytes) {
        Ok(rec) => Ok(rec),
        Err(e) => Err(format!("{:?}", e)),
    }
}

/// The plain values of a field.
pub open spec fn to_plain(f: FieldView) -> PlainFieldView {
    match f {
        FieldView::Null => (0u8, 0i64, 0i64, Seq::<char>::empty()),
        FieldView::BigInt(v) => (1u8, v, 0i64, Seq::<char>::empty()),
        FieldView::Decimal(v, s) => (2u8, v, s, Seq::<char>::empty()),
        FieldView::String(s) => (3u8, 0i64, 0i64, s),
    }
}

/// The field with the given plain values.
pub open spec fn from_plain(p: PlainFieldView) -> Option<FieldView> {
    if p.0 == 0 {
        Some(FieldView::Null)
    } else if p.0 == 1 {
        Some(FieldView::BigInt(p.1))
    } else if p.0 == 2 {
        Some(FieldView::Decimal(p.1, p.2))
    } else if p.0 == 3 {
        Some(FieldView::String(p.3))
    } else {
        None
    }
}

/// The plain values of fields.
pub open spec fn all_to_plain(fields: Seq<FieldView>) -> Seq<PlainFieldView> {
    Seq::new(fields.len(), |i: int| to_plain(fields[i]))
}

/// The fields with the given plain values, if each of them is one.
pub open spec fn all_from_plain(ps: Seq<PlainFieldView>) -> Option<Seq<FieldView>> {
    if forall|i: int| 0 <= i < ps.len() ==> from_plain(#[trigger] ps[i]) is Some {
        Some(Seq::new(ps.len(), |i: int| from_plain(ps[i])->0))
    } else {
        None
    }
}

/// Reading plain values gives back the fields that they were made from.
pub proof fn lemma_plain_round_trip(fields: Seq<FieldView>)
    ensures
        all_from_plain(all_to_plain(fields)) == Some(fields),
{
    let ps = all_to_plain(fields);
    assert forall|i: int| 0 <= i < ps.len() implies from_plain(#[trigger] ps[i]) == Some(fields[i]) by {}
    assert(Seq::new(ps.len(), |i: int| from_plain(ps[i])->0) =~= fields);
}

/// The plain values of the given fields.
pub fn fields_to_plain(fields: &[Field]) -> (r: Vec<PlainField>)
    ensures
        plain_views(r@) == all_to_plain(field::views(fields@)),
{
    let mut out: Vec<PlainField> = Vec::new();
    let mut i: usize = 0;
    while i < fields.len()
        invariant
            i <= fields@.len(),
            out@.len() == i,
            forall|j: int|
                0 <= j < i ==> plain_views(out@)[j] == to_plain(#[trigger] fields@[j]@),
        decreases fields@.len() - i,
    {
        let ghost before = out@;
        let p: PlainField = match &fields[i] {
            Field::Null => (0, 0, 0, String::new()),
            Field::BigInt(v) => (1, *v, 0, String::new()),
            Field::Decimal(v, s) => (2, *v, *s, String::new()),
            Field::String(s) => (3, 0, 0, s.clone()),
        };
        out.push(p);
        assert forall|j: int| 0 <= j < i + 1 implies plain_views(out@)[j] == to_plain(
            #[trigger] fields@[j]@,
        ) by {
            if j < i {
                assert(plain_views(before)[j] == to_plain(fields@[j]@));
            }
        }
        i = i + 1;
    }
    assert forall|j: int| 0 <= j < out@.len() implies plain_views(out@)[j] == all_to_plain(
        field::views(fields@),
    )[j] by {
        assert(plain_views(out@)[j] == to_plain(fields@[j]@));
    }
    assert(plain_views(out@) =~= all_to_plain(field::views(fields@)));
    out
}

/// The fields with the given plain values; `None` if one is of no kind.
pub fn fields_from_plain(ps: Vec<PlainField>) -> (r: Option<Vec<Field>>)
    ensures
        match r {
            Some(fields) => all_from_plain(plain_views(ps@)) == Some(field::views(fields@)),
            None => all_from_plain(plain_views(ps@)) is None,
        },
{
    let mut out: Vec<Field> = Vec::new();
    let ghost views = plain_views(ps@);
    let mut i: usize = 0;
    while i < ps.len()
        invariant
            i <= ps@.len(),
            views == plain_views(ps@),
            out@.len() == i,
            forall|j: int|
                0 <= j < i ==> from_plain(#[trigger] views[j]) == Some(out@[j]@),
        decreases ps@.len() - i,
    {
        let p = &ps[i];
        let ghost v = views[i as int];
        let f = if p.0 == 0 {
            Field::Null
        } else if p.0 == 1 {
            Field::BigInt(p.1)
        } else if p.0 == 2 {
            Field::Decimal(p.1, p.2)
        } else if p.0 == 3 {
            Field::String(p.3.clone())
        } else {
            assert(from_plain(v) is None);
            return None;
        };
        assert(from_plain(v) == Some(f@));
        out.push(f);
        i = i + 1;
    }
    assert(Seq::new(views.len(), |j: int| from_plain(views[j])->0) =~= field::views(out@));
    Some(out)
}

} // verus!
