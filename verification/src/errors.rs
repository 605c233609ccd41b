//! The error taxonomy of the core: codec failures, source construction
//! failures and backend failures. Every variant renders a human-readable
//! message; nothing here is ever retried or recovered locally.

use vstd::prelude::*;
use vstd::string::StringExecFns;

verus! {

/// Why decoding a secrets byte stream failed.
#[derive(Clone, Copy, Debug, PartialEq, Eq, Structural)]
pub enum DecodeError {
    /// A non-blank, non-comment line has no `=` separator.
    MissingSeparator,
    /// The part left of `=` is empty after trimming.
    EmptyKey,
    /// The value token is not a well-formed escaped string literal.
    InvalidValue,
    /// A key or a decoded value is not valid UTF-8.
    InvalidUtf8,
}

impl DecodeError {
    /// A human-readable description of the failure.
    pub fn message(&self) -> (r: String)
        ensures
            match self {
                DecodeError::MissingSeparator => r@ == "line has no '=' separator"@,
                DecodeError::EmptyKey => r@ == "line has an empty key"@,
                DecodeError::InvalidValue => r@ == "value is not a well-formed escaped string"@,
                DecodeError::InvalidUtf8 => r@ == "key or value is not valid UTF-8"@,
            },
    {
        match self {
            DecodeError::MissingSeparator => "line has no '=' separator".to_owned(),
            DecodeError::EmptyKey => "line has an empty key".to_owned(),
            DecodeError::InvalidValue => "value is not a well-formed escaped string".to_owned(),
            DecodeError::InvalidUtf8 => "key or value is not valid UTF-8".to_owned(),
        }
    }
}

/// Raised when a byte-valued entry (as a Kubernetes secret carries
/// them) holds a value that is not valid UTF-8; names the offending
/// key.
#[derive(Debug)]
pub struct ValueUtf8Error {
    pub key: String,
}

impl ValueUtf8Error {
    pub fn message(&self) -> (r: String)
        ensures
            r@ == "Unable to decode UTF-8 value for key '"@ + self.key@ + "'"@,
    {
        let mut m = "Unable to decode UTF-8 value for key '".to_owned();
        m.append(self.key.as_str());
        m.append("'");
        m
    }
}

/// Why a source could not be built or used.
#[derive(Clone, Debug, PartialEq, Eq)]
pub enum SourceError {
    /// The URI string could not be parsed; carries the parser's words.
    UriParse(String),
    /// The URI's scheme is not in the registry; carries that scheme.
    UnsupportedScheme(String),
    /// A backend rejected the URI or its environment while being built.
    Construction(String),
    /// A backend failed while reading or writing; opaque to the core
    /// beyond its message.
    Backend(String),
}

/// The text `SourceError::message` renders, as a value contracts can
/// speak of.
pub open spec fn source_error_text(e: SourceError) -> Seq<char> {
    match e {
        SourceError::UriParse(d) => "unable to parse source URL: "@ + d@,
        SourceError::UnsupportedScheme(s) => "invalid source scheme: '"@ + s@
            + "', supported schemes: file, k8s|kubernetes, std, vault"@,
        SourceError::Construction(d) => d@,
        SourceError::Backend(d) => d@,
    }
}

impl SourceError {
    pub fn message(&self) -> (r: String)
        ensures
            r@ == source_error_text(*self),
    {
        match self {
            SourceError::UriParse(d) => {
                let mut m = "unable to parse source URL: ".to_owned();
                m.append(d.as_str());
                m
            },
            SourceError::UnsupportedScheme(s) => {
                let mut m = "invalid source scheme: '".to_owned();
                m.append(s.as_str());
                m.append("', supported schemes: file, k8s|kubernetes, std, vault");
                m
            },
            SourceError::Construction(d) => d.clone(),
            SourceError::Backend(d) => d.clone(),
        }
    }
}

/// Why the configuration or the command line was rejected.
#[derive(Clone, Debug, PartialEq, Eq)]
pub enum ConfigError {
    /// The named preset does not exist in the configuration.
    PresetNotFound(String),
    /// Neither a preset nor any endpoint argument was given.
    MissingArguments,
    /// A preset's origin URI does not parse; carries the preset name.
    InvalidPresetFrom(String),
    /// A preset's target URI does not parse; carries the preset name.
    InvalidPresetTo(String),
}

impl ConfigError {
    pub fn message(&self) -> (r: String)
        ensures
            match self {
                ConfigError::PresetNotFound(n) => r@ == "Preset '"@ + n@
                    + "' not found in config file"@,
                ConfigError::MissingArguments => r@
                    == "Must provide either a preset or both --from and --to arguments"@,
                ConfigError::InvalidPresetFrom(n) => r@ == "Invalid 'from' URL in preset '"@ + n@
                    + "'"@,
                ConfigError::InvalidPresetTo(n) => r@ == "Invalid 'to' URL in preset '"@ + n@
                    + "'"@,
            },
    {
        match self {
            ConfigError::PresetNotFound(n) => {
                let mut m = "Preset '".to_owned();
                m.append(n.as_str());
                m.append("' not found in config file");
                m
            },
            ConfigError::MissingArguments => {
                "Must provide either a preset or both --from and --to arguments".to_owned()
            },
            ConfigError::InvalidPresetFrom(n) => {
                let mut m = "Invalid 'from' URL in preset '".to_owned();
                m.append(n.as_str());
                m.append("'");
                m
            },
            ConfigError::InvalidPresetTo(n) => {
                let mut m = "Invalid 'to' URL in preset '".to_owned();
                m.append(n.as_str());
                m.append("'");
                m
            },
        }
    }
}

/// Why encoding failed: only ever because the underlying writer failed,
/// so this is raised by the I/O shell around the core, never by the
/// in-memory encoder itself.
#[derive(Debug)]
pub struct EncodeError {
    pub detail: String,
}

impl EncodeError {
    pub fn new(detail: String) -> (r: EncodeError)
        ensures
            r.detail == detail,
    {
        EncodeError { detail }
    }

    pub fn message(&self) -> (r: String)
        ensures
            r@ == self.detail@,
    {
        self.detail.clone()
    }
}

} // verus!
