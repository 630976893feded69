//! The interface of operators.
use crate::common::error::CrustyError;
use crate::common::table::{AttributeView, TableSchema};
use crate::common::tuple::{Tuple, TupleView};
use crate::queryexe::managers::Managers;
use vstd::prelude::*;

verus! {

/// An operator: opened once, then asked for one row after the other. Which rows
/// those are is left to each operator.
pub trait OpIterator: Sized {
    /// Whether the operator was opened.
    open spec fn is_open(&self) -> bool {
        arbitrary()
    }

    /// The rows that are still to come. A row that cannot be had comes as an
    /// error in its place.
    open spec fn rows(&self, m: &Managers) -> Seq<TupleView> {
        arbitrary()
    }

    /// The operator changes nothing that is stored.
    open spec fn read_only(&self) -> bool {
        arbitrary()
    }

    /// The columns of its rows.
    open spec fn columns(&self) -> Seq<AttributeView> {
        arbitrary()
    }

    /// Opening the closed operator may give these rows.
    open spec fn opens_with(&self, m: &Managers, rows: Seq<TupleView>) -> bool {
        arbitrary()
    }

    /// Opening the operator may fail with `e`.
    open spec fn refuses(&self, m: &Managers, e: CrustyError) -> bool {
        arbitrary()
    }

    /// Asking the operator for its next row may fail with `e`.
    open spec fn stops(&self, m: &Managers, e: CrustyError) -> bool {
        arbitrary()
    }

    /// Configuring the operator may leave it like `after`.
    open spec fn configures_to(&self, will_rewind: bool, after: &Self) -> bool {
        arbitrary()
    }

    /// Closing the operator may leave it like `after` and answer `r`.
    open spec fn closes_to(&self, after: &Self, r: Result<(), CrustyError>) -> bool {
        arbitrary()
    }

    /// Says, before the operator is opened, whether it will be rewound.
    fn configure(&mut self, will_rewind: bool)
        ensures
            old(self).configures_to(will_rewind, final(self)),
            final(self).is_open() == old(self).is_open(),
            final(self).read_only() == old(self).read_only(),
            final(self).columns() == old(self).columns(),
            forall|m: Managers| #[trigger] final(self).rows(&m) == old(self).rows(&m),
            forall|m: Managers, rows: Seq<TupleView>| #[trigger]
                final(self).opens_with(&m, rows) == old(self).opens_with(&m, rows),
    ;

    /// Opens the operator. Opening an open operator does nothing.
    fn open(&mut self, m: &mut Managers) -> (r: Result<(), CrustyError>)
        requires
            old(m).wf(),
        ensures
            final(m).wf(),
            final(self).read_only() == old(self).read_only(),
            final(self).columns() == old(self).columns(),
            old(self).read_only() ==> *final(m) == *old(m),
            r is Ok ==> final(self).is_open(),
            r matches Err(e) ==> old(self).refuses(old(m), e),
            !old(self).is_open() && r is Ok ==> old(self).opens_with(
                old(m),
                final(self).rows(final(m)),
            ),
            old(self).is_open() ==> {
                &&& r is Ok
                &&& *final(m) == *old(m)
                &&& final(self).rows(final(m)) == old(self).rows(old(m))
            },
    ;

    /// The next row; `None` when there is none left.
    fn next(&mut self, m: &mut Managers) -> (r: Result<Option<Tuple>, CrustyError>)
        requires
            old(m).wf(),
            old(self).is_open(),
        ensures
            final(m).wf(),
            final(self).is_open(),
            final(self).read_only() == old(self).read_only(),
            final(self).columns() == old(self).columns(),
            old(self).read_only() ==> *final(m) == *old(m),
            r matches Err(e) ==> old(self).stops(old(m), e),
            match r {
                Ok(Some(t)) => {
                    &&& old(self).rows(old(m)).len() > 0
                    &&& t@ == old(self).rows(old(m))[0]
                    &&& final(self).rows(final(m)).len() == old(self).rows(old(m)).len() - 1
                    &&& old(self).read_only() ==> final(self).rows(final(m)) == old(self).rows(
                        old(m),
                    ).drop_first()
                },
                Ok(None) => {
                    &&& old(self).rows(old(m)).len() == 0
                    &&& final(self).rows(final(m)).len() == 0
                    &&& *final(m) == *old(m)
                },
                Err(_) => old(self).rows(old(m)).len() > 0,
            },
    ;

    /// Closes the operator. It can be opened again.
    fn close(&mut self) -> (r: Result<(), CrustyError>)
        ensures
            old(self).closes_to(final(self), r),
            final(self).read_only() == old(self).read_only(),
            final(self).columns() == old(self).columns(),
            r is Ok ==> !final(self).is_open(),
    ;

    /// Starts over with the first row, where the operator can.
    fn rewind(&mut self) -> (r: Result<(), CrustyError>)
        requires
            old(self).is_open(),
        ensures
            final(self).is_open(),
            final(self).read_only() == old(self).read_only(),
            final(self).columns() == old(self).columns(),
    ;

    /// The schema of its rows.
    fn get_schema(&self) -> (r: &TableSchema)
        ensures
            r@ == self.columns(),
    ;
}

/// These are the rows that an operator gives once it is opened, if it was not
/// open.
pub open spec fn gives_rows<C: OpIterator>(child: &C, m: &Managers, rows: Seq<TupleView>) -> bool {
    if child.is_open() {
        rows == child.rows(m)
    } else {
        child.opens_with(m, rows)
    }
}

/// Operators that are alike in what they give once they are open give the same
/// rows.
pub proof fn lemma_same_rows<C: OpIterator>(a: &C, b: &C, m: &Managers)
    requires
        a.is_open() == b.is_open(),
        a.rows(m) == b.rows(m),
        forall|rows: Seq<TupleView>| #[trigger] b.opens_with(m, rows) == a.opens_with(m, rows),
    ensures
        forall|rows: Seq<TupleView>| #[trigger] gives_rows(b, m, rows) == gives_rows(a, m, rows),
        forall|rows: Seq<TupleView>| #[trigger] gives_rows(a, m, rows) == gives_rows(b, m, rows),
{
    assert forall|rows: Seq<TupleView>| #[trigger] gives_rows(b, m, rows) == gives_rows(a, m, rows) by {
        assert(b.opens_with(m, rows) == a.opens_with(m, rows));
    }
}

/// An operator that was opened, and asked for some of its rows, may have come
/// to `now`, and what is stored to `n`: some of its rows are still to come. One
/// that only reads has left all that is stored as it was.
pub open spec fn comes_to<C: OpIterator>(child: &C, m: &Managers, now: &C, n: &Managers) -> bool {
    &&& now.is_open()
    &&& now.read_only() == child.read_only()
    &&& now.columns() == child.columns()
    &&& child.read_only() ==> *n == *m
    &&& exists|rows: Seq<TupleView>, k: int|
        {
            let rest = #[trigger] rows.skip(k);
            &&& 0 <= k < rows.len()
            &&& gives_rows(child, m, rows)
            &&& now.rows(n).len() == rest.len()
            &&& child.read_only() ==> now.rows(n) == rest
        }
}

/// Opening an operator and asking it for all its rows may fail with `e`: it
/// cannot be opened, or it stops on the way.
pub open spec fn drains_to_error<C: OpIterator>(child: &C, m: &Managers, e: CrustyError) -> bool {
    ||| child.refuses(m, e)
    ||| exists|now: C, n: Managers| #[trigger] comes_to(child, m, &now, &n) && now.stops(&n, e)
}

} // verus!
