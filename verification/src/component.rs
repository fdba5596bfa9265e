//! The registry of component names.

use crate::props::{lookup, put, Entries, Props};
use vstd::prelude::*;
use vstd::string::StringExecFns;

verus! {

/// The components that are known by name. Each registered name maps to a marker.
#[derive(Debug, PartialEq, Eq)]
pub struct ComponentRegistry {
    components: Props,
}

impl View for ComponentRegistry {
    type V = Entries;

    closed spec fn view(&self) -> Entries {
        self.components@
    }
}

/// The marker under which a registered component is kept.
pub open spec fn registered_marker() -> Seq<char> {
    "registered"@
}

impl ComponentRegistry {
    /// A registry without components.
    pub fn new() -> (r: Self)
        ensures
            r@ == Seq::<(Seq<char>, Seq<char>)>::empty(),
    {
        ComponentRegistry { components: Props::new() }
    }

    /// Registers the component `name`.
    pub fn register(&mut self, name: String)
        ensures
            final(self)@ == put(old(self)@, name@, registered_marker()),
    {
        self.components.insert(name, String::from_str("registered"));
    }

    /// The marker of the component `name`, where it is registered.
    pub fn get_component(&self, name: &str) -> (r: Option<&str>)
        ensures
            match r {
                Some(v) => lookup(self@, name@) == Some(v@),
                None => lookup(self@, name@) is None,
            },
    {
        match self.components.get(name) {
            Some(v) => Some(v.as_str()),
            None => None,
        }
    }
}

} // verus!
