//! The command-line client's configuration: where the master listens.
//! Reading a configuration file is I/O and stays outside; this is the
//! value it produces.

use vstd::prelude::*;

verus! {

/// The master's address as the client reaches it.
#[derive(Debug)]
pub struct Settings {
    pub master_port: u16,
    pub master_host: String,
}

} // verus!
