//! Field values and their order.
use crate::common::order;
use crate::common::order::Standing;
use vstd::prelude::*;
use vstd::string::*;
use vstd::utf8;

verus! {

/// The value of one field of a tuple.
#[derive(Clone, Debug, PartialEq, Eq)]
pub enum Field {
    Null,
    BigInt(i64),
    /// A decimal number: its digits and how many of them follow the point.
    Decimal(i64, i64),
    String(String),
}

/// What a field holds.
pub enum FieldView {
    Null,
    BigInt(i64),
    Decimal(i64, i64),
    String(Seq<char>),
}

impl View for Field {
    type V = FieldView;

    open spec fn view(&self) -> FieldView {
        match self {
            Field::Null => FieldView::Null,
            Field::BigInt(v) => FieldView::BigInt(*v),
            Field::Decimal(v, s) => FieldView::Decimal(*v, *s),
            Field::String(s) => FieldView::String(s@),
        }
    }
}

/// What a row of fields holds.
pub open spec fn views(fields: Seq<Field>) -> Seq<FieldView> {
    Seq::new(fields.len(), |i: int| fields[i]@)
}

impl FieldView {
    /// Fields of different kinds stand in this order.
    pub open spec fn kind(self) -> int {
        match self {
            FieldView::Null => 0,
            FieldView::BigInt(_) => 1,
            FieldView::Decimal(_, _) => 2,
            FieldView::String(_) => 3,
        }
    }

    /// The order of fields: by kind, then by value. Strings go by their bytes.
    pub open spec fn before(self, other: FieldView) -> bool {
        match (self, other) {
            (FieldView::BigInt(a), FieldView::BigInt(b)) => a < b,
            (FieldView::Decimal(a, s), FieldView::Decimal(b, t)) => a < b || (a == b && s < t),
            (FieldView::String(a), FieldView::String(b)) => order::lex_before(
                byte_order(),
                utf8::encode_utf8(a),
                utf8::encode_utf8(b),
            ),
            _ => self.kind() < other.kind(),
        }
    }
}

/// The order of bytes.
pub open spec fn byte_order() -> spec_fn(u8, u8) -> bool {
    |a: u8, b: u8| a < b
}

/// The order of fields.
pub open spec fn field_order() -> spec_fn(FieldView, FieldView) -> bool {
    |a: FieldView, b: FieldView| a.before(b)
}

/// The order of keys: lexicographic over their fields.
#[verifier::opaque]
pub open spec fn key_before(a: Seq<FieldView>, b: Seq<FieldView>) -> bool {
    order::lex_before(field_order(), a, b)
}

/// `a` does not come after `b`.
pub open spec fn key_upto(a: Seq<FieldView>, b: Seq<FieldView>) -> bool {
    a == b || key_before(a, b)
}

/// Any two different fields are ordered, one way only.
pub proof fn lemma_field_order()
    ensures
        order::strict_total(field_order()),
{
    let lt = field_order();
    let bytes = byte_order();
    assert(order::strict_total(bytes));
    order::lemma_lex_strict_total(bytes);
    let strings = order::lex(bytes);
    assert forall|x: FieldView| !#[trigger] lt(x, x) by {
        if let FieldView::String(s) = x {
            assert(!strings(utf8::encode_utf8(s), utf8::encode_utf8(s)));
        }
    }
    assert forall|x: FieldView, y: FieldView, z: FieldView|
        #[trigger] lt(x, y) && #[trigger] lt(y, z) implies lt(x, z) by {
        if let FieldView::String(a) = x {
            if let FieldView::String(b) = y {
                if let FieldView::String(c) = z {
                    assert(strings(utf8::encode_utf8(a), utf8::encode_utf8(b)));
                    assert(strings(utf8::encode_utf8(b), utf8::encode_utf8(c)));
                }
            }
        }
    }
    assert forall|x: FieldView, y: FieldView| x == y || #[trigger] lt(x, y) || lt(y, x) by {
        if let FieldView::String(a) = x {
            if let FieldView::String(b) = y {
                utf8::encode_utf8_decode_utf8(a);
                utf8::encode_utf8_decode_utf8(b);
                let ea = utf8::encode_utf8(a);
                let eb = utf8::encode_utf8(b);
                assert(ea == eb || strings(ea, eb) || strings(eb, ea));
            }
        }
    }
}

/// Any two different keys are ordered, one way only.
pub proof fn lemma_key_order()
    ensures
        forall|x: Seq<FieldView>| !#[trigger] key_before(x, x),
        forall|x: Seq<FieldView>, y: Seq<FieldView>, z: Seq<FieldView>|
            #[trigger] key_before(x, y) && #[trigger] key_before(y, z) ==> key_before(x, z),
        forall|x: Seq<FieldView>, y: Seq<FieldView>|
            x == y || #[trigger] key_before(x, y) || key_before(y, x),
{
    reveal(key_before);
    lemma_field_order();
    order::lemma_lex_strict_total(field_order());
    let l = order::lex(field_order());
    assert forall|x: Seq<FieldView>| !#[trigger] key_before(x, x) by {
        assert(!l(x, x));
    }
    assert forall|x: Seq<FieldView>, y: Seq<FieldView>, z: Seq<FieldView>|
        #[trigger] key_before(x, y) && #[trigger] key_before(y, z) implies key_before(x, z) by {
        assert(l(x, y) && l(y, z));
    }
    assert forall|x: Seq<FieldView>, y: Seq<FieldView>|
        x == y || #[trigger] key_before(x, y) || key_before(y, x) by {
        assert(x == y || l(x, y) || l(y, x));
    }
}

fn standing_of_bytes(a: &[u8], b: &[u8]) -> (r: Standing)
    ensures
        match r {
            Standing::Below => order::lex_before(byte_order(), a@, b@),
            Standing::Same => a@ == b@,
            Standing::Above => order::lex_before(byte_order(), b@, a@),
        },
{
    let mut i: usize = 0;
    while i < a.len() && i < b.len()
        invariant
            order::agree_to(a@, b@, i as int),
        decreases a@.len() - i,
    {
        if a[i] < b[i] {
            assert(byte_order()(a@[i as int], b@[i as int]));
            return Standing::Below;
        }
        if b[i] < a[i] {
            assert(byte_order()(b@[i as int], a@[i as int]));
            assert(order::agree_to(b@, a@, i as int));
            return Standing::Above;
        }
        i = i + 1;
    }
    if i < b.len() {
        Standing::Below
    } else if i < a.len() {
        assert(order::agree_to(b@, a@, i as int));
        Standing::Above
    } else {
        assert(a@ =~= b@);
        Standing::Same
    }
}

fn standing_of_ints(a: i64, b: i64) -> (r: Standing)
    ensures
        match r {
            Standing::Below => a < b,
            Standing::Same => a == b,
            Standing::Above => a > b,
        },
{
    if a < b {
        Standing::Below
    } else if a == b {
        Standing::Same
    } else {
        Standing::Above
    }
}

impl Field {
    fn kind(&self) -> (r: i64)
        ensures
            r == self@.kind(),
    {
        match self {
            Field::Null => 0,
            Field::BigInt(_) => 1,
            Field::Decimal(_, _) => 2,
            Field::String(_) => 3,
        }
    }

    /// How this field stands to `other`.
    pub fn standing(&self, other: &Field) -> (r: Standing)
        ensures
            match r {
                Standing::Below => self@.before(other@),
                Standing::Same => self@ == other@,
                Standing::Above => other@.before(self@),
            },
    {
        match (self, other) {
            (Field::BigInt(a), Field::BigInt(b)) => standing_of_ints(*a, *b),
            (Field::Decimal(a, s), Field::Decimal(b, t)) => match standing_of_ints(*a, *b) {
                Standing::Same => standing_of_ints(*s, *t),
                r => r,
            },
            (Field::String(a), Field::String(b)) => {
                proof {
                    utf8::encode_utf8_decode_utf8(a@);
                    utf8::encode_utf8_decode_utf8(b@);
                }
                standing_of_bytes(a.as_str().as_bytes(), b.as_str().as_bytes())
            },
            _ => standing_of_ints(self.kind(), other.kind()),
        }
    }

    /// A field with the same value.
    pub fn duplicate(&self) -> (r: Field)
        ensures
            r@ == self@,
    {
        match self {
            Field::Null => Field::Null,
            Field::BigInt(v) => Field::BigInt(*v),
            Field::Decimal(v, s) => Field::Decimal(*v, *s),
            Field::String(s) => Field::String(s.clone()),
        }
    }
}

/// How key `a` stands to key `b`.
pub fn standing_of_keys(a: &[Field], b: &[Field]) -> (r: Standing)
    ensures
        match r {
            Standing::Below => key_before(views(a@), views(b@)),
            Standing::Same => views(a@) == views(b@),
            Standing::Above => key_before(views(b@), views(a@)),
        },
{
    reveal(key_before);
    let mut i: usize = 0;
    while i < a.len() && i < b.len()
        invariant
            i <= a@.len(),
            order::agree_to(views(a@), views(b@), i as int),
        decreases a@.len() - i,
    {
        reveal(key_before);
        match a[i].standing(&b[i]) {
            Standing::Below => {
                assert(field_order()(views(a@)[i as int], views(b@)[i as int]));
                return Standing::Below;
            },
            Standing::Above => {
                assert(field_order()(views(b@)[i as int], views(a@)[i as int]));
                assert(order::agree_to(views(b@), views(a@), i as int));
                return Standing::Above;
            },
            Standing::Same => {},
        }
        i = i + 1;
    }
    if i < b.len() {
        Standing::Below
    } else if i < a.len() {
        assert(order::agree_to(views(b@), views(a@), i as int));
        Standing::Above
    } else {
        assert(views(a@) =~= views(b@));
        Standing::Same
    }
}

/// The same fields again.
pub fn duplicate_fields(fields: &[Field]) -> (r: Vec<Field>)
    ensures
        views(r@) == views(fields@),
{
    let mut out: Vec<Field> = Vec::new();
    let mut i: usize = 0;
    while i < fields.len()
        invariant
            i <= fields@.len(),
            out@.len() == i,
            forall|j: int| 0 <= j < i ==> (#[trigger] out@[j])@ == fields@[j]@,
        decreases fields@.len() - i,
    {
        out.push(fields[i].duplicate());
        i = i + 1;
    }
    assert(views(out@) =~= views(fields@));
    out
}

/// What a field holds tells the field apart from every other.
pub proof fn lemma_view_tells(a: Field, b: Field)
    ensures
        a@ == b@ <==> match (a, b) {
            (Field::Null, Field::Null) => true,
            (Field::BigInt(v), Field::BigInt(w)) => v == w,
            (Field::Decimal(v, s), Field::Decimal(w, t)) => v == w && s == t,
            (Field::String(v), Field::String(w)) => v@ == w@,
            _ => false,
        },
{
}

/// Integers stand by their value, decimals by their digits and then by how many
/// of them follow the point. Nothing comes before a null, and a number before
/// every text.
pub proof fn lemma_order_of_numbers(f: FieldView, a: i64, b: i64, s: i64, t: i64, text: Seq<char>)
    ensures
        FieldView::BigInt(a).before(FieldView::BigInt(b)) <==> a < b,
        FieldView::Decimal(a, s).before(FieldView::Decimal(b, s)) <==> a < b,
        FieldView::Decimal(a, s).before(FieldView::Decimal(a, t)) <==> s < t,
        a < b ==> FieldView::Decimal(a, s).before(FieldView::Decimal(b, t)),
        !f.before(FieldView::Null),
        f != FieldView::Null ==> FieldView::Null.before(f),
        FieldView::BigInt(a).before(FieldView::Decimal(b, s)),
        FieldView::BigInt(a).before(FieldView::String(text)),
        FieldView::Decimal(a, s).before(FieldView::String(text)),
{
}

/// Texts stand by their bytes: where two texts have a number of bytes in common,
/// the first one comes before the other if it ends there, or goes on with the
/// lesser byte.
pub proof fn lemma_order_of_texts(a: Seq<char>, b: Seq<char>, n: int)
    requires
        0 <= n <= utf8::encode_utf8(a).len(),
        n < utf8::encode_utf8(b).len(),
        utf8::encode_utf8(a).take(n) == utf8::encode_utf8(b).take(n),
        n < utf8::encode_utf8(a).len() ==> utf8::encode_utf8(a)[n] < utf8::encode_utf8(b)[n],
    ensures
        FieldView::String(a).before(FieldView::String(b)),
        !FieldView::String(b).before(FieldView::String(a)),
{
    let (x, y) = (utf8::encode_utf8(a), utf8::encode_utf8(b));
    assert forall|j: int| 0 <= j < n implies #[trigger] x[j] == y[j] by {
        assert(x.take(n)[j] == y.take(n)[j]);
    }
    assert(order::agree_to(x, y, n));
    lemma_field_order();
    let lt = field_order();
    assert(lt(FieldView::String(a), FieldView::String(b)));
    if lt(FieldView::String(b), FieldView::String(a)) {
        assert(lt(FieldView::String(a), FieldView::String(a)));
    }
}

/// Keys stand by their first field, and by the rest of their fields where the
/// first ones are the same. A key without fields comes before every other.
pub proof fn lemma_order_of_keys(f: FieldView, g: FieldView, a: Seq<FieldView>, b: Seq<FieldView>)
    ensures
        key_before(seq![f] + a, seq![g] + b) <==> f.before(g) || f == g && key_before(a, b),
        key_before(Seq::empty(), seq![g] + b),
        !key_before(a, Seq::empty()),
{
    reveal(key_before);
    let (x, y) = (seq![f] + a, seq![g] + b);
    let lt = field_order();
    assert(order::agree_to(Seq::<FieldView>::empty(), y, 0));
    assert(order::agree_to(x, y, 0));
    if key_before(x, y) {
        let i = choose|i: int|
            {
                &&& #[trigger] order::agree_to(x, y, i)
                &&& i < y.len()
                &&& i == x.len() || lt(x[i], y[i])
            };
        if i > 0 {
            assert(x[0] == y[0]);
            assert forall|j: int| 0 <= j < i - 1 implies #[trigger] a[j] == b[j] by {
                assert(x[j + 1] == y[j + 1]);
            }
            assert(order::agree_to(a, b, i - 1));
        }
    }
    if f.before(g) {
        assert(lt(x[0], y[0]));
    }
    if f == g && key_before(a, b) {
        let i = choose|i: int|
            {
                &&& #[trigger] order::agree_to(a, b, i)
                &&& i < b.len()
                &&& i == a.len() || lt(a[i], b[i])
            };
        assert forall|j: int| 0 <= j < i + 1 implies #[trigger] x[j] == y[j] by {
            if j > 0 {
                assert(a[j - 1] == b[j - 1]);
            }
        }
        assert(order::agree_to(x, y, i + 1));
    }
}

} // verus!
