//! Connection settings for a manifest service.
//!
//! The transport itself (HTTP, TLS, header handling) lives outside this
//! crate; here stands only the data that configures it, and the rule that
//! picks the authentication method from the supplied credentials.

use vstd::prelude::*;

verus! {

/// How requests to the manifest service authenticate.
pub enum AuthMethod {
    /// Requests carry no authentication.
    NoAuth,
    /// HTTP basic authentication with a username and a password.
    HttpBasic { username: String, password: String },
}

/// What is needed to reach a manifest service: a base address, whether to
/// accept invalid TLS certificates, and an authentication method.
pub struct BindleConnectionInfo {
    /// Base address of the service.
    pub base_url: String,
    /// Whether invalid TLS certificates are accepted.
    pub allow_insecure: bool,
    /// The authentication method, fixed at construction time.
    pub auth: AuthMethod,
}

impl BindleConnectionInfo {
    /// Chooses basic authentication exactly when both a username and a
    /// password are supplied; any other combination yields no
    /// authentication.
    pub fn new(
        base_url: String,
        allow_insecure: bool,
        username: Option<String>,
        password: Option<String>,
    ) -> (info: Self)
        ensures
            info.base_url == base_url,
            info.allow_insecure == allow_insecure,
            match (username, password) {
                (Option::Some(u), Option::Some(p)) => info.auth == (AuthMethod::HttpBasic {
                    username: u,
                    password: p,
                }),
                _ => info.auth == AuthMethod::NoAuth,
            },
    {
        let auth = match (username, password) {
            (Option::Some(u), Option::Some(p)) => AuthMethod::HttpBasic {
                username: u,
                password: p,
            },
            _ => AuthMethod::NoAuth,
        };
        BindleConnectionInfo { base_url, allow_insecure, auth }
    }
}

} // verus!
