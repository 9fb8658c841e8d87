//! The choices the command-line subcommands carry, as plain data.

use vstd::prelude::*;

verus! {

/// Which configuration directory an initialization targets.
pub enum InitOpt {
    /// Create the global configuration directory.
    Global,
    /// Create a local configuration directory in the current directory.
    Local {
        /// Name the local folder without the leading dot.
        not_hidden: bool,
    },
}

/// Which configuration directory a removal targets.
pub enum DeinitOpt {
    /// Remove the global configuration directory.
    Global,
    /// Remove an existing local configuration directory.
    Local,
}

} // verus!
