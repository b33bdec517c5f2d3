//! Sequences of checks, of which the first that fails decides.

use vstd::prelude::*;

use crate::error::{ErrorView, QuilError};

verus! {

/// A check's answer: nothing to object, or an error.
pub type Answer = Result<(), QuilError>;

/// The mathematical value of an [`Answer`].
pub open spec fn answer(r: Answer) -> Result<(), ErrorView> {
    match r {
        Ok(()) => Ok(()),
        Err(e) => Err(e@),
    }
}

/// The answer that a check gives when only its success matters.
pub open spec fn success_of<T>(r: Result<T, QuilError>) -> Result<(), ErrorView> {
    match r {
        Ok(_) => Ok(()),
        Err(e) => Err(e@),
    }
}

/// The answer of a check that must also come out true.
pub open spec fn must_hold(r: Result<bool, QuilError>, otherwise: ErrorView) -> Result<
    (),
    ErrorView,
> {
    match r {
        Ok(true) => Ok(()),
        Ok(false) => Err(otherwise),
        Err(e) => Err(e@),
    }
}

/// The first error in the order of the checks, or success where there is none.
pub open spec fn first_err(rs: Seq<Result<(), ErrorView>>) -> Result<(), ErrorView>
    decreases rs.len(),
{
    if rs.len() == 0 {
        Ok(())
    } else {
        match first_err(rs.drop_last()) {
            Ok(()) => rs.last(),
            Err(e) => Err(e),
        }
    }
}

/// Once a prefix of the checks has failed, the rest does not matter.
pub proof fn lemma_first_err_prefix(rs: Seq<Result<(), ErrorView>>, n: int)
    requires
        0 <= n <= rs.len(),
        first_err(rs.take(n)) is Err,
    ensures
        first_err(rs) == first_err(rs.take(n)),
    decreases rs.len(),
{
    if n == rs.len() {
        assert(rs.take(n) =~= rs);
    } else {
        assert(rs.drop_last().take(n) =~= rs.take(n));
        lemma_first_err_prefix(rs.drop_last(), n);
    }
}

/// One more check behind a prefix.
pub proof fn lemma_first_err_step(rs: Seq<Result<(), ErrorView>>, n: int)
    requires
        0 <= n < rs.len(),
    ensures
        first_err(rs.take(n)) is Ok ==> first_err(rs.take(n + 1)) == rs[n],
        first_err(rs.take(n)) is Err ==> first_err(rs.take(n + 1)) == first_err(rs.take(n)),
{
    assert(rs.take(n + 1).drop_last() =~= rs.take(n));
    assert(rs.take(n + 1).last() == rs[n]);
}

/// All checks succeed exactly when each of them does.
pub proof fn lemma_first_err_ok(rs: Seq<Result<(), ErrorView>>)
    ensures
        first_err(rs) is Ok <==> (forall|i: int| 0 <= i < rs.len() ==> (#[trigger] rs[i]) is Ok),
    decreases rs.len(),
{
    if rs.len() > 0 {
        let rest = rs.drop_last();
        lemma_first_err_ok(rest);
        if first_err(rs) is Ok {
            assert forall|i: int| 0 <= i < rs.len() implies (#[trigger] rs[i]) is Ok by {
                if i < rest.len() {
                    assert(rest[i] is Ok);
                }
            }
        }
        if forall|i: int| 0 <= i < rs.len() ==> (#[trigger] rs[i]) is Ok {
            assert forall|i: int| 0 <= i < rest.len() implies (#[trigger] rest[i]) is Ok by {
                assert(rs[i] is Ok);
            }
            assert(rs.last() is Ok);
        }
    }
}

/// The chain of two checks.
pub open spec fn both(a: Result<(), ErrorView>, b: Result<(), ErrorView>) -> Result<
    (),
    ErrorView,
> {
    match a {
        Ok(()) => b,
        Err(e) => Err(e),
    }
}

/// Only the success of a result.
pub fn success<T>(r: &Result<T, QuilError>) -> (a: Answer)
    ensures
        answer(a) == success_of(*r),
{
    match r {
        Ok(_) => Ok(()),
        Err(e) => Err(e.duplicate()),
    }
}

/// Turns a verdict into an answer: false becomes the given error.
pub fn require_true(r: &Result<bool, QuilError>, otherwise: QuilError) -> (a: Answer)
    ensures
        answer(a) == must_hold(*r, otherwise@),
{
    match r {
        Ok(true) => Ok(()),
        Ok(false) => Err(otherwise),
        Err(e) => Err(e.duplicate()),
    }
}

} // verus!
