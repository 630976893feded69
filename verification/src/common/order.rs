//! Strict total orders and the lexicographic order that one induces.
use vstd::prelude::*;

verus! {

/// How one value stands to another in a strict total order.
#[derive(Clone, Copy, Debug, PartialEq, Eq, Structural)]
pub enum Standing {
    Below,
    Same,
    Above,
}

/// `lt` orders any two different values, one way only.
pub open spec fn strict_total<A>(lt: spec_fn(A, A) -> bool) -> bool {
    &&& forall|x: A| !#[trigger] lt(x, x)
    &&& forall|x: A, y: A, z: A| #[trigger] lt(x, y) && #[trigger] lt(y, z) ==> lt(x, z)
    &&& forall|x: A, y: A| x == y || #[trigger] lt(x, y) || lt(y, x)
}

/// `a` and `b` agree on their first `i` elements.
pub open spec fn agree_to<A>(a: Seq<A>, b: Seq<A>, i: int) -> bool {
    &&& 0 <= i <= a.len()
    &&& i <= b.len()
    &&& forall|j: int| 0 <= j < i ==> #[trigger] a[j] == b[j]
}

/// `a` comes before `b`: at the first position where they part, `a` ends or
/// has the smaller element.
pub open spec fn lex_before<A>(lt: spec_fn(A, A) -> bool, a: Seq<A>, b: Seq<A>) -> bool {
    exists|i: int|
        {
            &&& #[trigger] agree_to(a, b, i)
            &&& i < b.len()
            &&& i == a.len() || lt(a[i], b[i])
        }
}

/// The lexicographic order over `lt`.
pub open spec fn lex<A>(lt: spec_fn(A, A) -> bool) -> spec_fn(Seq<A>, Seq<A>) -> bool {
    |a: Seq<A>, b: Seq<A>| lex_before(lt, a, b)
}

proof fn lemma_lex_transitive<A>(lt: spec_fn(A, A) -> bool, a: Seq<A>, b: Seq<A>, c: Seq<A>)
    requires
        strict_total(lt),
        lex_before(lt, a, b),
        lex_before(lt, b, c),
    ensures
        lex_before(lt, a, c),
{
    let i = choose|i: int|
        {
            &&& #[trigger] agree_to(a, b, i)
            &&& i < b.len()
            &&& i == a.len() || lt(a[i], b[i])
        };
    let j = choose|j: int|
        {
            &&& #[trigger] agree_to(b, c, j)
            &&& j < c.len()
            &&& j == b.len() || lt(b[j], c[j])
        };
    let k = if i < j {
        i
    } else {
        j
    };
    assert forall|m: int| 0 <= m < k implies #[trigger] a[m] == c[m] by {
        assert(a[m] == b[m]);
        assert(b[m] == c[m]);
    }
    if i < j {
        assert(b[i] == c[i]);
    } else if j < i {
        assert(a[j] == b[j]);
    } else if i < a.len() {
        assert(lt(a[i], b[i]));
        assert(lt(b[i], c[i]));
    }
    assert(agree_to(a, c, k));
}

proof fn lemma_lex_decides<A>(lt: spec_fn(A, A) -> bool, a: Seq<A>, b: Seq<A>, i: int)
    requires
        strict_total(lt),
        agree_to(a, b, i),
    ensures
        a == b || lex_before(lt, a, b) || lex_before(lt, b, a),
    decreases a.len() - i,
{
    if i == a.len() && i == b.len() {
        assert(a =~= b);
    } else if i == a.len() {
    } else if i == b.len() {
        assert(agree_to(b, a, i));
    } else if a[i] == b[i] {
        lemma_lex_decides(lt, a, b, i + 1);
    } else if lt(a[i], b[i]) {
    } else {
        assert(lt(b[i], a[i]));
        assert(agree_to(b, a, i));
    }
}

/// The lexicographic order over a strict total order is one, too.
pub proof fn lemma_lex_strict_total<A>(lt: spec_fn(A, A) -> bool)
    requires
        strict_total(lt),
    ensures
        strict_total(lex(lt)),
{
    let l = lex(lt);
    assert forall|x: Seq<A>, y: Seq<A>, z: Seq<A>| #[trigger] l(x, y) && #[trigger] l(y, z) implies l(
        x,
        z,
    ) by {
        lemma_lex_transitive(lt, x, y, z);
    }
    assert forall|x: Seq<A>, y: Seq<A>| x == y || #[trigger] l(x, y) || l(y, x) by {
        lemma_lex_decides(lt, x, y, 0);
    }
}

} // verus!
