//! The two well-known configuration paths, held as plain path strings.

use vstd::prelude::*;

verus! {

/// Where the templates live and where the global key file lies.
pub struct ConfigFiles {
    pub temple_home: String,
    pub temple_config: String,
}

impl ConfigFiles {
    /// Wraps the two paths.
    pub fn new(temple_home: String, temple_config: String) -> (r: ConfigFiles)
        ensures
            r.temple_home@ == temple_home@,
            r.temple_config@ == temple_config@,
    {
        ConfigFiles { temple_home, temple_config }
    }
}

} // verus!
