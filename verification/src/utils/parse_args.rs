//! What the bot needs to know to speak to the server.

use vstd::prelude::*;

verus! {

/// The name of the bot's account and the token that opens it.
#[derive(Debug)]
pub struct ApiInfo {
    pub user: String,
    pub token: String,
}

} // verus!
