//! The Vault backend's configuration, from a
//! `vault://<mount>/<secret-path>` URI: the mount point and the
//! secret's path. The HTTP client, the server address and the token
//! live in the I/O shell; the request URL and the token probe order are
//! decided here.

use vstd::prelude::*;
use vstd::string::StringExecFns;
use crate::errors::SourceError;
use crate::sources::UriParts;

verus! {

pub struct VaultSource {
    pub mount_path: String,
    pub secret_path: String,
}

impl VaultSource {
    /// Extract the mount point (the URI's host, which must be present
    /// and non-empty) and the secret path (the path, as is).
    pub fn new(parts: &UriParts) -> (r: Result<VaultSource, SourceError>)
        ensures
            r is Ok <==> (parts.host matches Some(h) && h@.len() > 0),
            match r {
                Ok(v) => parts.host matches Some(h) && v.mount_path@ == h@ && v.secret_path@
                    == parts.path@,
                Err(e) => e matches SourceError::Construction(m) && (match parts.host {
                    None => m@ == "Vault URL missing host"@,
                    Some(h) => h@.len() == 0 && m@ == "Vault URL host cannot be empty"@,
                }),
            },
    {
        match &parts.host {
            None => Err(SourceError::Construction("Vault URL missing host".to_owned())),
            Some(h) => {
                if h.as_str().is_empty() {
                    Err(SourceError::Construction("Vault URL host cannot be empty".to_owned()))
                } else {
                    Ok(
                        VaultSource {
                            mount_path: h.clone(),
                            secret_path: parts.path.clone(),
                        },
                    )
                }
            },
        }
    }

    /// The full URL used to read and write the secret under a given
    /// server address: `<addr>/v1/<mount><path>`.
    pub fn url(&self, addr: &str) -> (r: String)
        ensures
            r@ == addr@ + "/v1/"@ + self.mount_path@ + self.secret_path@,
    {
        let mut m = addr.to_owned();
        m.append("/v1/");
        m.append(self.mount_path.as_str());
        m.append(self.secret_path.as_str());
        m
    }

    /// The token probe order: an explicitly set environment token wins
    /// over one read from the home directory's token file.
    pub fn select_token(env_token: Option<String>, file_token: Option<String>) -> (r: Option<
        String,
    >)
        ensures
            r == if env_token is Some {
                env_token
            } else {
                file_token
            },
    {
        match env_token {
            Some(t) => Some(t),
            None => file_token,
        }
    }
}

} // verus!
