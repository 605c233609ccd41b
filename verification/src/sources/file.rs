//! The file backend's configuration: a path on disk, taken from a
//! `file://<host><path>` URI. Reading and writing the file itself is
//! the I/O shell's work.

use vstd::prelude::*;
use vstd::string::StringExecFns;
use crate::errors::SourceError;
use crate::sources::{UriParts, trim_slashes, trim_slashes_exec};

verus! {

pub struct FileSource {
    pub path: String,
}

impl FileSource {
    /// Extract the file path from the URI parts: host and path
    /// concatenated, with surrounding '/' trimmed; a URI without a host
    /// carries no usable path.
    pub fn new(parts: &UriParts) -> (r: Result<FileSource, SourceError>)
        ensures
            r is Ok <==> parts.host is Some,
            match r {
                Ok(f) => parts.host matches Some(h) && f.path@ == trim_slashes(h@ + parts.path@),
                Err(e) => e matches SourceError::Construction(m) && m@
                    == "Unable to parse file path"@,
            },
    {
        match &parts.host {
            None => Err(SourceError::Construction("Unable to parse file path".to_owned())),
            Some(h) => {
                let mut full = h.clone();
                full.append(parts.path.as_str());
                Ok(FileSource { path: trim_slashes_exec(full.as_str()) })
            },
        }
    }
}

} // verus!
