//! The vector operations the iterative drop of a form tree relies on.
//!
//! A destructor may not unwind.  Growing a vector either succeeds or aborts
//! the process on allocation failure, and the worklist of a drop never holds
//! more entries than the tree being dropped already occupies in memory, so
//! its capacity cannot overflow: none of these calls unwinds.
use vstd::prelude::*;

verus! {

/// `Vec::new`: an empty worklist.  It allocates nothing.
#[verifier::external_body]
pub(crate) fn new_worklist<T>() -> (r: Vec<T>)
    ensures
        r@ == Seq::<T>::empty(),
    opens_invariants none
    no_unwind
{
    Vec::new()
}

/// `Vec::push`: appends `x` to `v`.
#[verifier::external_body]
pub(crate) fn push_pending<T>(v: &mut Vec<T>, x: T)
    ensures
        final(v)@ == old(v)@.push(x),
    opens_invariants none
    no_unwind
{
    v.push(x);
}

/// `Vec::pop`: removes and returns the last element of `v`, if any.
#[verifier::external_body]
pub(crate) fn pop_pending<T>(v: &mut Vec<T>) -> (r: Option<T>)
    ensures
        old(v)@.len() > 0 ==> r == Some(old(v)@.last()) && final(v)@ == old(v)@.drop_last(),
        old(v)@.len() == 0 ==> r is None && final(v)@ == old(v)@,
    opens_invariants none
    no_unwind
{
    v.pop()
}

} // verus!
