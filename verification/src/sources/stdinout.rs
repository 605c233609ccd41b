//! The stream backend's configuration: secrets read from standard
//! input and written to standard output. It needs nothing from the URI.

use vstd::prelude::*;
use crate::errors::SourceError;

verus! {

pub struct StdInOutSource {}

impl StdInOutSource {
    pub fn new() -> (r: Result<StdInOutSource, SourceError>)
        ensures
            r is Ok,
    {
        Ok(StdInOutSource {  })
    }
}

} // verus!
