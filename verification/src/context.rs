//! The notification context: an interface its users implement, held in an
//! explicit slot that is set exactly once.

use vstd::prelude::*;

verus! {

/// What the notification system needs from its surroundings; implemented
/// by the embedding application.
pub trait Context {

}

/// Install the context into its slot; the slot must still be empty.
pub fn set_context<C: Context>(slot: &mut Option<C>, context: C)
    requires
        (*old(slot)) is None,
    ensures
        *final(slot) == Some(context),
{
    *slot = Some(context);
}

} // verus!
