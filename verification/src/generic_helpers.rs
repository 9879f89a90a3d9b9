//! Default implementations used when building an app: they do nothing.
use vstd::prelude::*;
use crate::route::Route;

verus! {

/// A placeholder router that does nothing: it routes no url.
pub struct Router<Message> {
    message: std::marker::PhantomData<Message>,
}

impl<Message> Router<Message> {
    /// Create the placeholder router.
    pub fn new() -> Self {
        Router { message: std::marker::PhantomData }
    }
}

impl<Message> Route<Message> for Router<Message> {
    fn route(&self, _url: &str) -> (r: Option<Message>)
        ensures
            r == Option::<Message>::None,
    {
        None
    }
}

} // verus!
