//! Building a self contained component that lives inside another app.
use vstd::prelude::*;

verus! {

/// A builder for a self contained component app that lives inside another app: the function
/// that maps a message of the parent to the component (`MapFn`), and the function that maps a
/// command of the component to a message of the parent (`UnmapFn`). A function that is not set
/// maps nothing.
pub struct ComponentBuilder<MapFn, UnmapFn> {
    map: Option<MapFn>,
    unmap: Option<UnmapFn>,
}

impl<MapFn, UnmapFn> ComponentBuilder<MapFn, UnmapFn> {
    /// The function that maps a message of the parent to the component, if set.
    pub closed spec fn map_spec(self) -> Option<MapFn> {
        self.map
    }

    /// The function that maps a command of the component to the parent, if set.
    pub closed spec fn unmap_spec(self) -> Option<UnmapFn> {
        self.unmap
    }

    /// A function to optionally map a message from the parent to the component.
    #[must_use]
    pub fn map(self, f: MapFn) -> (r: Self)
        ensures
            r.map_spec() == Some(f),
            r.unmap_spec() == self.unmap_spec(),
    {
        let mut s = self;
        s.map = Some(f);
        s
    }

    /// A function to optionally map a command from the component to the parent.
    #[must_use]
    pub fn unmap(self, f: UnmapFn) -> (r: Self)
        ensures
            r.unmap_spec() == Some(f),
            r.map_spec() == self.map_spec(),
    {
        let mut s = self;
        s.unmap = Some(f);
        s
    }

    /// Take the two functions apart.
    pub fn into_parts(self) -> (r: (Option<MapFn>, Option<UnmapFn>))
        ensures
            r == (self.map_spec(), self.unmap_spec()),
    {
        (self.map, self.unmap)
    }
}

impl<MapFn, UnmapFn> Default for ComponentBuilder<MapFn, UnmapFn> {
    fn default() -> (r: Self)
        ensures
            r.map_spec() is None,
            r.unmap_spec() is None,
    {
        ComponentBuilder { map: None, unmap: None }
    }
}

} // verus!
