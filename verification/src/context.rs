//! What a handler gets besides the request.
use vstd::prelude::*;

use crate::string_map::{lookup, Entries, StringMap};

verus! {

/// The context of a request: the parameters taken from its path.
pub struct Context {
    url_params: StringMap,
}

impl Context {
    /// The parameters, by name.
    pub closed spec fn params(&self) -> Entries {
        self.url_params@
    }

    /// The parameter called `name`.
    pub fn param(&self, name: &str) -> (r: Option<&String>)
        ensures
            match r {
                Some(v) => lookup(self.params(), name@) == Some(v@),
                None => lookup(self.params(), name@) is None,
            },
    {
        self.url_params.get(name)
    }
}

impl Default for Context {
    fn default() -> (r: Self)
        ensures
            r.params() == Seq::<(Seq<char>, Seq<char>)>::empty(),
    {
        Context { url_params: StringMap::new() }
    }
}

} // verus!
