//! Router trait for generating a message when the page url changes.
use vstd::prelude::*;

verus! {

/// Implement this trait on your router to allow for routing when the URL changes.
pub trait Route<Message> {
    /// Convert a new url to a message for the app.
    fn route(&self, url: &str) -> Option<Message>;
}

/// A placeholder router that does nothing: it routes no url.
impl<Message> Route<Message> for () {
    fn route(&self, _url: &str) -> Option<Message>
        returns
            None::<Message>,
    {
        None::<Message>
    }
}

} // verus!
