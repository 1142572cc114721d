use vstd::prelude::*;
use crate::net::NetCfg;

verus! {

/// Looks dependencies up at one node.
pub struct OnlineDependencySearch {
    config: NetCfg,
}

impl OnlineDependencySearch {
    pub closed spec fn uri(&self) -> Seq<char> {
        self.config.base()
    }

    pub fn new(uri: String) -> (r: OnlineDependencySearch)
        ensures
            r.uri() == uri@,
    {
        let config = NetCfg::new(uri);
        OnlineDependencySearch { config }
    }
}

} // verus!
