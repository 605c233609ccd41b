//! Jobs: planning which work to run from the command line, the piping
//! state and the configuration, and the job capability itself.

use vstd::prelude::*;
use vstd::string::StringExecFns;
use crate::config::Config;
use crate::errors::{SourceError, source_error_text};
use crate::sources::{SourceConfig, parsed_source_ok, source_new_matches, uri_parse_of};
use crate::byteseq::str_eq;

pub mod sync;

verus! {

/// A runnable unit of work.
pub trait Job {
    fn run(&self) -> Result<(), JobError>;
}

/// Raised when neither piping, the command line nor a preset supplies
/// a source for one side; names the missing flag.
#[derive(Clone, Copy, Debug)]
pub struct NoSourceProvidedError {
    pub field: &'static str,
}

impl NoSourceProvidedError {
    pub fn new(field: &'static str) -> (r: NoSourceProvidedError)
        ensures
            r.field == field,
    {
        NoSourceProvidedError { field }
    }

    pub fn message(&self) -> (r: String)
        ensures
            r@ == "unable to determine source, provide either `--"@ + self.field@
                + "` or a preset"@,
    {
        let mut m = "unable to determine source, provide either `--".to_owned();
        m.append(self.field);
        m.append("` or a preset");
        m
    }
}

/// Which side of the synchronisation a failure belongs to.
#[derive(Clone, Copy, Debug, PartialEq, Eq, Structural)]
pub enum Side {
    Origin,
    Target,
}

/// Why a job could not be planned or run.
#[derive(Clone, Debug)]
pub enum JobError {
    /// No origin or target source could be determined.
    NoSource(NoSourceProvidedError),
    /// Building one side's source failed.
    Construction(Side, SourceError),
    /// The origin failed to read.
    Read(SourceError),
    /// The target failed to write.
    Write(SourceError),
}

impl JobError {
    /// One line of context naming the failing stage and side, then the
    /// underlying failure's own words.
    pub fn message(&self) -> (r: String)
        ensures
            match self {
                JobError::NoSource(e) => r@ == "unable to determine source, provide either `--"@
                    + e.field@ + "` or a preset"@,
                JobError::Construction(side, e) => r@ == (match side {
                    Side::Origin => "could not build origin source: "@,
                    Side::Target => "could not build target source: "@,
                }) + source_error_text(*e),
                JobError::Read(e) => r@ == "Unable to read secrets: "@ + source_error_text(*e),
                JobError::Write(e) => r@ == "Unable to write secrets: "@ + source_error_text(*e),
            },
    {
        match self {
            JobError::NoSource(e) => e.message(),
            JobError::Construction(side, e) => {
                let mut m = match side {
                    Side::Origin => "could not build origin source: ".to_owned(),
                    Side::Target => "could not build target source: ".to_owned(),
                };
                m.append(e.message().as_str());
                m
            },
            JobError::Read(e) => {
                let mut m = "Unable to read secrets: ".to_owned();
                m.append(e.message().as_str());
                m
            },
            JobError::Write(e) => {
                let mut m = "Unable to write secrets: ".to_owned();
                m.append(e.message().as_str());
                m
            },
        }
    }
}

/// What the caller should run: the built-in config-writing job, or a
/// synchronisation between two configured sources.
pub enum JobPlan {
    Init,
    Sync(SourceConfig, SourceConfig),
}

/// Which URI drives one side: a piped stream wins, then the explicit
/// argument, then the preset.
pub open spec fn effective_uri(
    cli: Option<Seq<char>>,
    piped: bool,
    preset: Option<Seq<char>>,
) -> Option<Seq<char>> {
    if piped {
        Some("std://"@)
    } else if cli is Some {
        cli
    } else {
        preset
    }
}

/// Decide which job to run: the `init` preset is built in; otherwise
/// the origin URI is resolved and its source built, then the target
/// URI likewise, and the two become a sync job. Construction failures
/// are wrapped naming the side.
pub fn new_job(
    config: &Config,
    from: Option<String>,
    to: Option<String>,
    preset: Option<String>,
    stdin_is_terminal: bool,
    stdout_is_terminal: bool,
) -> (r: Result<JobPlan, JobError>)
    ensures
        ({
            let pname = preset.deep_view();
            let pcfg = match pname {
                Some(n) => config.preset_of(n),
                None => None,
            };
            let fu = effective_uri(
                from.deep_view(),
                !stdin_is_terminal,
                match pcfg {
                    Some(pc) => Some(pc.0),
                    None => None,
                },
            );
            let tu = effective_uri(
                to.deep_view(),
                !stdout_is_terminal,
                match pcfg {
                    Some(pc) => Some(pc.1),
                    None => None,
                },
            );
            if pname == Some("init"@) {
                r matches Ok(JobPlan::Init)
            } else {
                match r {
                    Ok(JobPlan::Init) => false,
                    Ok(JobPlan::Sync(o, t)) => ({
                        &&& fu matches Some(f0) && source_new_matches(
                            uri_parse_of(f0),
                            Ok::<SourceConfig, SourceError>(o),
                        )
                        &&& tu matches Some(t0) && source_new_matches(
                            uri_parse_of(t0),
                            Ok::<SourceConfig, SourceError>(t),
                        )
                    }),
                    Err(JobError::NoSource(e)) => ({
                        ||| fu is None && e.field@ == "from"@
                        ||| ((fu matches Some(f0) && parsed_source_ok(uri_parse_of(f0))) && tu
                            is None && e.field@ == "to"@)
                    }),
                    Err(JobError::Construction(side, cause)) => ({
                        ||| (side is Origin && (fu matches Some(f0) && !parsed_source_ok(
                            uri_parse_of(f0),
                        ) && source_new_matches(
                            uri_parse_of(f0),
                            Err::<SourceConfig, SourceError>(cause),
                        )))
                        ||| (side is Target && (fu matches Some(f0) && parsed_source_ok(
                            uri_parse_of(f0),
                        )) && (tu matches Some(t0) && !parsed_source_ok(uri_parse_of(t0))
                            && source_new_matches(
                            uri_parse_of(t0),
                            Err::<SourceConfig, SourceError>(cause),
                        )))
                    }),
                    Err(JobError::Read(_)) => false,
                    Err(JobError::Write(_)) => false,
                }
            }
        }),
{
    match &preset {
        Some(p) => {
            if str_eq(p.as_str(), "init") {
                return Ok(JobPlan::Init);
            }
        },
        None => {},
    }
    let preset_cfg = match &preset {
        Some(p) => config.get_preset(p.as_str()),
        None => None,
    };
    let from_uri: Option<String> = if !stdin_is_terminal {
        // piping in: read from the stream, whatever was asked
        Some("std://".to_owned())
    } else {
        match from {
            Some(u) => Some(u),
            None => match preset_cfg {
                Some(pc) => Some(pc.from.clone()),
                None => None,
            },
        }
    };
    let origin = match from_uri {
        None => {
            return Err(JobError::NoSource(NoSourceProvidedError::new("from")));
        },
        Some(u) => match SourceConfig::new(u.as_str()) {
            Ok(c) => c,
            Err(e) => {
                return Err(JobError::Construction(Side::Origin, e));
            },
        },
    };
    let to_uri: Option<String> = if !stdout_is_terminal {
        // piping out: write to the stream, whatever was asked
        Some("std://".to_owned())
    } else {
        match to {
            Some(u) => Some(u),
            None => match preset_cfg {
                Some(pc) => Some(pc.to.clone()),
                None => None,
            },
        }
    };
    let target = match to_uri {
        None => {
            return Err(JobError::NoSource(NoSourceProvidedError::new("to")));
        },
        Some(u) => match SourceConfig::new(u.as_str()) {
            Ok(c) => c,
            Err(e) => {
                return Err(JobError::Construction(Side::Target, e));
            },
        },
    };
    Ok(JobPlan::Sync(origin, target))
}

} // verus!
