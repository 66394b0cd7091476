//! Configuration the gateway runs with.

use vstd::prelude::*;

verus! {

/// The settings the gateway is started with: where the external identity
/// provider lives, the registration token it expects, and the shared secret
/// that authorizes minting and auditing invite codes.
pub struct Args {
    /// Base URL of the external identity provider.
    pub matrix_server_url: String,
    /// Registration token the identity provider expects.
    pub matrix_reg_token: String,
    /// Shared secret that authorizes the admin operations.
    pub admin_token: String,
}

} // verus!
