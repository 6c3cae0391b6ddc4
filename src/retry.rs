//! Decisions of the transaction retry engine. A unit of work runs in a
//! serializable transaction; when the store reports a serialization conflict
//! the whole unit runs again from scratch, and any other failure ends it.
use vstd::prelude::*;

verus! {

/// What to do after one attempt of a unit of work.
#[derive(Clone, Copy, Debug, PartialEq, Eq, Structural)]
pub enum RetryStep {
    /// Discard the transaction and run the unit again.
    Retry,
    /// Hand the result, success or failure, to the caller.
    Finish,
}

/// The error code by which the store reports a serialization conflict.
pub open spec fn serialization_failure_code() -> Seq<char> {
    seq!['4', '0', '0', '0', '1']
}

/// Whether a store error code reports a serialization conflict.
pub fn is_serialization_failure(code: &str) -> (r: bool)
    ensures
        r == (code@ == serialization_failure_code()),
{
    let expected = ['4', '0', '0', '0', '1'];
    if code.unicode_len() != 5 {
        return false;
    }
    let mut i: usize = 0;
    while i < 5
        invariant
            code@.len() == 5,
            i <= 5,
            expected@ == serialization_failure_code(),
            forall|k: int| 0 <= k < i ==> code@[k] == serialization_failure_code()[k],
        decreases 5 - i,
    {
        if code.get_char(i) != expected[i] {
            return false;
        }
        i = i + 1;
    }
    assert(code@ =~= serialization_failure_code());
    true
}

/// The step after an attempt. `failure` is `None` when the attempt committed,
/// and otherwise the store's error code, if the failure carried one.
pub fn next_step(failure: Option<Option<&str>>) -> (s: RetryStep)
    ensures
        s == RetryStep::Retry <==> (failure is Some && failure->0 is Some
            && failure->0->0@ == serialization_failure_code()),
{
    match failure {
        Some(Some(code)) => {
            if is_serialization_failure(code) {
                RetryStep::Retry
            } else {
                RetryStep::Finish
            }
        },
        _ => RetryStep::Finish,
    }
}

} // verus!
