//! Type-erased extra state that an application keeps beside the loader.
use vstd::prelude::*;

verus! {

/// State of any type, held behind an `as_any` trait object and recovered by
/// type. Verus cannot see through the trait object, so the holder is opaque.
#[verifier::external_body]
pub struct StateDynObj {
    state: Box<dyn as_any::AsAny>,
}

impl StateDynObj {
    /// Relies on unsizing `Box<T>` into an `as_any::AsAny` trait object:
    /// erases the type of `state`.
    #[verifier::external_body]
    pub fn new<T: 'static>(state: T) -> (r: StateDynObj) {
        StateDynObj { state: Box::new(state) }
    }
}

/// Relies on as_any's `Downcast::downcast_mut`: a reference to the state as
/// `OT` where its concrete type is `OT`, and nothing otherwise.
#[verifier::external_body]
fn downcast_state<OT: 'static>(state: &mut StateDynObj) -> Option<&mut OT> {
    as_any::Downcast::downcast_mut::<OT>(state.state.as_mut())
}

/// The state as `OT`, if that is its concrete type.
pub fn downcast_mut<OT: 'static>(state: &mut StateDynObj) -> Option<&mut OT> {
    downcast_state::<OT>(state)
}

} // verus!
