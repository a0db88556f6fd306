use std::rc::Rc;
use vstd::prelude::*;

verus! {

/// Calls `Rc::clone`, which hands out another pointer to the value that
/// `pointer` points to. The contract claims that the value seen through the
/// new pointer is the one seen through `pointer`.
#[verifier::external_body]
pub(crate) fn share<V>(pointer: &Rc<V>) -> (other: Rc<V>)
    ensures
        *other == **pointer,
{
    Rc::clone(pointer)
}

} // verus!
