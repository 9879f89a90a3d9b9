//! Detach an app from the DOM.
use vstd::prelude::*;

verus! {

/// Detach an app from the DOM.
pub trait Detach<Message> {
    /// Detach an app from the DOM.
    fn detach(&self);
}

} // verus!
