//! Where the service listens.

use vstd::prelude::*;

verus! {

/// The address to listen on when none is configured.
pub const DEFAULT_LISTEN_ADDR: &'static str = "[::1]:50051";

/// The address to listen on: the configured one, or else the default.
pub fn listen_addr(configured: Option<String>) -> (addr: String)
    ensures
        addr@ == match configured {
            Some(text) => text@,
            None => DEFAULT_LISTEN_ADDR@,
        },
{
    match configured {
        Some(text) => text,
        None => DEFAULT_LISTEN_ADDR.to_owned(),
    }
}

} // verus!
