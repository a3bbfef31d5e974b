//! The master's configuration: where it listens. Reading a configuration
//! file is I/O and stays outside; this is the value it produces.

use vstd::prelude::*;

verus! {

/// The master's listening address.
#[derive(Debug)]
pub struct Settings {
    pub port: u16,
    pub host: String,
}

} // verus!
