//! Process settings that the server starts from.
use vstd::prelude::*;

verus! {

/// Where the server listens, as a `host:port` string.
pub struct Config {
    pub connection_string: String,
}

} // verus!
