//! The Kubernetes backend's configuration, from a
//! `k8s://<context>/<secret-name>` URI: the kubeconfig context and the
//! secret's name. Talking to the cluster is the I/O shell's work.

use vstd::prelude::*;
use crate::errors::SourceError;
use crate::sources::{UriParts, trim_slashes, trim_slashes_exec};

verus! {

pub struct K8sSource {
    pub context: String,
    pub secret_name: String,
}

impl K8sSource {
    /// Extract the context (the URI's host, which must be present and
    /// non-empty) and the secret name (the path, trimmed of '/').
    pub fn new(parts: &UriParts) -> (r: Result<K8sSource, SourceError>)
        ensures
            r is Ok <==> (parts.host matches Some(h) && h@.len() > 0),
            match r {
                Ok(k) => parts.host matches Some(h) && k.context@ == h@ && k.secret_name@
                    == trim_slashes(parts.path@),
                Err(e) => e matches SourceError::Construction(m) && (match parts.host {
                    None => m@ == "URL missing host for Kubernetes context"@,
                    Some(h) => h@.len() == 0 && m@ == "Kubernetes context cannot be empty"@,
                }),
            },
    {
        match &parts.host {
            None => Err(
                SourceError::Construction("URL missing host for Kubernetes context".to_owned()),
            ),
            Some(h) => {
                if h.as_str().is_empty() {
                    Err(SourceError::Construction("Kubernetes context cannot be empty".to_owned()))
                } else {
                    Ok(
                        K8sSource {
                            context: h.clone(),
                            secret_name: trim_slashes_exec(parts.path.as_str()),
                        },
                    )
                }
            },
        }
    }
}

} // verus!
