//! Sources: the uniform read/write capability over secret backends, and
//! the scheme-based dispatch that builds a backend's configuration from
//! a URI. The registry is fixed: `file`, `k8s`/`kubernetes`, `std`,
//! `vault`; anything else is rejected naming the offending scheme.

use vstd::prelude::*;
use vstd::string::StrSliceExecFns;
use crate::errors::SourceError;
use crate::secrets::Secrets;
use crate::byteseq::str_eq;

pub mod file;
pub mod k8s;
pub mod stdinout;
pub mod vault;

use file::FileSource;
use k8s::K8sSource;
use stdinout::StdInOutSource;
use vault::VaultSource;

verus! {

/// The plain parts of a parsed URI that dispatch reads: the scheme, the
/// host if there is one, and the path.
pub struct UriParts {
    pub scheme: String,
    pub host: Option<String>,
    pub path: String,
}

/// What parsing a URI string yields: `None` when the string is not an
/// absolute URI, otherwise its (scheme, host, path). Parsing depends on
/// the string alone.
pub uninterp spec fn uri_parse_of(uri: Seq<char>) -> Option<
    (Seq<char>, Option<Seq<char>>, Seq<char>),
>;

/// Relies on `url::Url::parse` (and `Url::scheme`, `Url::host_str`,
/// `Url::path`): parsing either fails or yields the URI's scheme,
/// optional host and path, as a function of the string alone.
#[verifier::external_body]
pub fn parse_uri(uri: &str) -> (r: Result<UriParts, SourceError>)
    ensures
        match r {
            Ok(p) => uri_parse_of(uri@) == Some((p.scheme@, p.host.deep_view(), p.path@)),
            Err(e) => uri_parse_of(uri@) is None && e is UriParse,
        },
{
    match url::Url::parse(uri) {
        Ok(u) => Ok(
            UriParts {
                scheme: u.scheme().to_string(),
                host: u.host_str().map(|h| h.to_string()),
                path: u.path().to_string(),
            },
        ),
        Err(e) => Err(SourceError::UriParse(e.to_string())),
    }
}

// ---------------------------------------------------------------------
// Trimming '/' off both ends, as file paths and secret names need it.
// ---------------------------------------------------------------------
pub open spec fn slash_start(s: Seq<char>) -> int
    decreases s.len(),
{
    if s.len() > 0 && s[0] == '/' {
        1 + slash_start(s.skip(1))
    } else {
        0
    }
}

pub open spec fn slash_end(s: Seq<char>) -> int
    decreases s.len(),
{
    if s.len() > 0 && s.last() == '/' {
        slash_end(s.drop_last())
    } else {
        s.len() as int
    }
}

/// The sequence with every leading and trailing '/' removed.
pub open spec fn trim_slashes(s: Seq<char>) -> Seq<char> {
    let t = s.skip(slash_start(s));
    t.take(slash_end(t))
}

/// Trim '/' off both ends of a string.
pub(crate) fn trim_slashes_exec(s: &str) -> (r: String)
    ensures
        r@ == trim_slashes(s@),
{
    let n = s.unicode_len();
    let mut a: usize = 0;
    proof {
        assert(s@.skip(0) =~= s@);
    }
    loop
        invariant
            n == s@.len(),
            a <= s@.len(),
            slash_start(s@) == a + slash_start(s@.skip(a as int)),
        ensures
            a <= s@.len(),
            a == slash_start(s@),
        decreases s@.len() - a,
    {
        if a == n {
            proof {
                assert(s@.skip(a as int) =~= Seq::<char>::empty());
            }
            break ;
        }
        let c = s.get_char(a);
        proof {
            assert(s@.skip(a as int)[0] == c);
        }
        if c == '/' {
            proof {
                assert(s@.skip(a as int).skip(1) =~= s@.skip(a + 1));
            }
            a = a + 1;
        } else {
            break ;
        }
    }
    let ghost t = s@.skip(a as int);
    let mut b: usize = n;
    proof {
        assert(t.take((s@.len() - a) as int) =~= t);
    }
    loop
        invariant
            n == s@.len(),
            a <= b <= s@.len(),
            t == s@.skip(a as int),
            slash_end(t) == slash_end(t.take(b - a)),
        ensures
            a <= b <= s@.len(),
            slash_end(t) == b - a,
        decreases b,
    {
        if b == a {
            proof {
                assert(t.take(0) =~= Seq::<char>::empty());
            }
            break ;
        }
        let c = s.get_char(b - 1);
        proof {
            assert(t.take(b - a)[b - a - 1] == s@[b - 1]);
            assert(t.take(b - a).last() == s@[b - 1]);
        }
        if c == '/' {
            proof {
                assert(t.take(b - a).drop_last() =~= t.take(b - a - 1));
            }
            b = b - 1;
        } else {
            break ;
        }
    }
    let sub = s.substring_char(a, b);
    proof {
        assert(sub@ =~= t.take(slash_end(t)));
    }
    sub.to_owned()
}

// ---------------------------------------------------------------------
// The capability every backend offers.
// ---------------------------------------------------------------------
/// A backend capable of reading and writing a whole secret collection.
/// The concrete backends implement this around their own I/O; the core
/// relies only on this contract.
pub trait Source {
    /// Read the full secret collection from the backend, or report why
    /// it could not be read.
    fn read_secrets(&self) -> (r: Result<Secrets, SourceError>)
        ensures
            match r {
                Ok(s) => s.wf(),
                Err(_) => true,
            },
    ;

    /// Replace the backend's contents with the given collection, whole,
    /// or report why it could not be written.
    fn write_secrets(&self, secrets: &Secrets) -> (r: Result<(), SourceError>)
        requires
            secrets.wf(),
    ;
}

// ---------------------------------------------------------------------
// Scheme dispatch.
// ---------------------------------------------------------------------
/// The configuration of one concrete backend, as dispatch builds it
/// from a URI. Turning a configuration into a running backend (opening
/// files, building clients) is the I/O shell's work.
pub enum SourceConfig {
    File(FileSource),
    K8s(K8sSource),
    Std(StdInOutSource),
    Vault(VaultSource),
}

/// The registry of known schemes.
pub open spec fn scheme_known(s: Seq<char>) -> bool {
    s == "file"@ || s == "k8s"@ || s == "kubernetes"@ || s == "std"@ || s == "vault"@
}

/// Whether a known scheme's backend accepts the URI's host part.
pub open spec fn construction_ok(scheme: Seq<char>, host: Option<Seq<char>>) -> bool {
    if scheme == "file"@ {
        host is Some
    } else if scheme == "k8s"@ || scheme == "kubernetes"@ || scheme == "vault"@ {
        host matches Some(h) && h.len() > 0
    } else {
        true
    }
}

/// Which configuration a successful dispatch yields, field by field.
pub open spec fn config_matches(
    scheme: Seq<char>,
    host: Option<Seq<char>>,
    path: Seq<char>,
    c: SourceConfig,
) -> bool {
    match c {
        SourceConfig::File(f) => scheme == "file"@ && (host matches Some(h) && f.path@
            == trim_slashes(h + path)),
        SourceConfig::K8s(k) => (scheme == "k8s"@ || scheme == "kubernetes"@) && (host matches Some(
            h,
        ) && h.len() > 0 && k.context@ == h && k.secret_name@ == trim_slashes(path)),
        SourceConfig::Std(_) => scheme == "std"@,
        SourceConfig::Vault(v) => scheme == "vault"@ && (host matches Some(h) && h.len() > 0
            && v.mount_path@ == h && v.secret_path@ == path),
    }
}

/// Which error a failed dispatch yields.
pub open spec fn error_matches(scheme: Seq<char>, host: Option<Seq<char>>, e: SourceError) -> bool {
    if !scheme_known(scheme) {
        e matches SourceError::UnsupportedScheme(s) && s@ == scheme
    } else if scheme == "file"@ {
        host is None && (e matches SourceError::Construction(m) && m@
            == "Unable to parse file path"@)
    } else if scheme == "k8s"@ || scheme == "kubernetes"@ {
        (e matches SourceError::Construction(m) && match host {
            None => m@ == "URL missing host for Kubernetes context"@,
            Some(h) => h.len() == 0 && m@ == "Kubernetes context cannot be empty"@,
        })
    } else if scheme == "vault"@ {
        (e matches SourceError::Construction(m) && match host {
            None => m@ == "Vault URL missing host"@,
            Some(h) => h.len() == 0 && m@ == "Vault URL host cannot be empty"@,
        })
    } else {
        false
    }
}

/// Whether a parse outcome leads to a successfully built configuration.
pub open spec fn parsed_source_ok(p: Option<(Seq<char>, Option<Seq<char>>, Seq<char>)>) -> bool {
    p matches Some(t) && scheme_known(t.0) && construction_ok(t.0, t.1)
}

/// The full contract of building a source from a URI string, relative
/// to what parsing yielded.
pub open spec fn source_new_matches(
    p: Option<(Seq<char>, Option<Seq<char>>, Seq<char>)>,
    r: Result<SourceConfig, SourceError>,
) -> bool {
    match r {
        Ok(c) => p matches Some(t) && config_matches(t.0, t.1, t.2, c),
        Err(e) => match p {
            None => e is UriParse,
            Some(t) => error_matches(t.0, t.1, e),
        },
    }
}

/// The five scheme names are pairwise distinct; spelling this out once
/// lets dispatch proofs resolve the registry's case analysis.
pub proof fn lemma_scheme_names_distinct()
    ensures
        "file"@ != "k8s"@,
        "file"@ != "kubernetes"@,
        "file"@ != "std"@,
        "file"@ != "vault"@,
        "k8s"@ != "kubernetes"@,
        "k8s"@ != "std"@,
        "k8s"@ != "vault"@,
        "kubernetes"@ != "std"@,
        "kubernetes"@ != "vault"@,
        "std"@ != "vault"@,
{
    broadcast use vstd::string::group_string_axioms;

    reveal_strlit("file");
    reveal_strlit("k8s");
    reveal_strlit("kubernetes");
    reveal_strlit("std");
    reveal_strlit("vault");
    assert("file"@.len() == 4);
    assert("k8s"@.len() == 3);
    assert("kubernetes"@.len() == 10);
    assert("std"@.len() == 3);
    assert("vault"@.len() == 5);
    assert("k8s"@[0] == 'k' && "std"@[0] == 's');
}

impl SourceConfig {
    /// Build the backend configuration selected by the parts' scheme.
    pub fn from_parts(parts: &UriParts) -> (r: Result<SourceConfig, SourceError>)
        ensures
            r is Ok <==> scheme_known(parts.scheme@) && construction_ok(
                parts.scheme@,
                parts.host.deep_view(),
            ),
            match r {
                Ok(c) => config_matches(parts.scheme@, parts.host.deep_view(), parts.path@, c),
                Err(e) => error_matches(parts.scheme@, parts.host.deep_view(), e),
            },
    {
        proof {
            lemma_scheme_names_distinct();
        }
        let scheme = parts.scheme.as_str();
        if str_eq(scheme, "file") {
            match FileSource::new(parts) {
                Ok(f) => Ok(SourceConfig::File(f)),
                Err(e) => Err(e),
            }
        } else if str_eq(scheme, "k8s") || str_eq(scheme, "kubernetes") {
            match K8sSource::new(parts) {
                Ok(k) => Ok(SourceConfig::K8s(k)),
                Err(e) => Err(e),
            }
        } else if str_eq(scheme, "std") {
            match StdInOutSource::new() {
                Ok(s) => Ok(SourceConfig::Std(s)),
                Err(e) => Err(e),
            }
        } else if str_eq(scheme, "vault") {
            match VaultSource::new(parts) {
                Ok(v) => Ok(SourceConfig::Vault(v)),
                Err(e) => Err(e),
            }
        } else {
            Err(SourceError::UnsupportedScheme(parts.scheme.clone()))
        }
    }

    /// Parse a URI and build the backend configuration it selects: the
    /// dispatch half of constructing a source.
    pub fn new(uri: &str) -> (r: Result<SourceConfig, SourceError>)
        ensures
            r is Ok <==> parsed_source_ok(uri_parse_of(uri@)),
            source_new_matches(uri_parse_of(uri@), r),
    {
        match parse_uri(uri) {
            Err(e) => Err(e),
            Ok(parts) => SourceConfig::from_parts(&parts),
        }
    }
}

} // verus!
