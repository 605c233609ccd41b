//! Configuration: the command-line arguments and the preset table.
//! Loading the file and parsing its JSON is the I/O shell's work; what
//! the contents must satisfy is decided here.

use vstd::prelude::*;
use crate::errors::ConfigError;
use crate::byteseq::str_eq;
use crate::sources::{parse_uri, uri_parse_of};

verus! {

/// One preset: where to pull secrets from and where to push them.
pub struct PresetConfig {
    pub from: String,
    pub to: String,
}

/// The configuration: named presets, in file order.
pub struct Config {
    pub presets: Vec<(String, PresetConfig)>,
}

/// The command line: the config path, the two optional endpoints, and
/// an optional preset name.
pub struct Args {
    pub config: String,
    pub from: Option<String>,
    pub to: Option<String>,
    pub preset: Option<String>,
}

/// The (from, to) URIs of the first preset with this name.
pub open spec fn preset_in(presets: Seq<(String, PresetConfig)>, name: Seq<char>) -> Option<
    (Seq<char>, Seq<char>),
>
    decreases presets.len(),
{
    if presets.len() == 0 {
        None
    } else if presets[0].0@ == name {
        Some((presets[0].1.from@, presets[0].1.to@))
    } else {
        preset_in(presets.skip(1), name)
    }
}

impl Config {
    /// The (from, to) URIs of the preset with this name, if any.
    pub open spec fn preset_of(&self, name: Seq<char>) -> Option<(Seq<char>, Seq<char>)> {
        preset_in(self.presets@, name)
    }

    /// Look a preset up by name.
    pub fn get_preset(&self, name: &str) -> (r: Option<&PresetConfig>)
        ensures
            match r {
                Some(pc) => self.preset_of(name@) == Some((pc.from@, pc.to@)),
                None => self.preset_of(name@) is None,
            },
    {
        let mut i: usize = 0;
        proof {
            assert(self.presets@.skip(0) =~= self.presets@);
        }
        loop
            invariant
                i <= self.presets@.len(),
                preset_in(self.presets@, name@) == preset_in(self.presets@.skip(i as int), name@),
            decreases self.presets@.len() - i,
        {
            if i == self.presets.len() {
                proof {
                    assert(self.presets@.skip(i as int) =~= Seq::<(String, PresetConfig)>::empty());
                }
                return None;
            }
            proof {
                assert(self.presets@.skip(i as int)[0] == self.presets@[i as int]);
            }
            if str_eq(self.presets[i].0.as_str(), name) {
                return Some(&self.presets[i].1);
            }
            proof {
                assert(self.presets@.skip(i as int).skip(1) =~= self.presets@.skip(i + 1));
            }
            i = i + 1;
        }
    }

    /// Check that every preset's URIs parse, naming the first preset
    /// with one that does not.
    pub fn validate(&self) -> (r: Result<(), ConfigError>)
        ensures
            r is Ok <==> forall|i: int|
                0 <= i < self.presets@.len() ==> uri_parse_of(
                    (#[trigger] self.presets@[i]).1.from@,
                ) is Some && uri_parse_of(self.presets@[i].1.to@) is Some,
            match r {
                Ok(_) => true,
                Err(ConfigError::InvalidPresetFrom(n)) => exists|i: int|
                    0 <= i < self.presets@.len() && (#[trigger] self.presets@[i]).0@ == n@
                        && uri_parse_of(self.presets@[i].1.from@) is None,
                Err(ConfigError::InvalidPresetTo(n)) => exists|i: int|
                    0 <= i < self.presets@.len() && (#[trigger] self.presets@[i]).0@ == n@
                        && uri_parse_of(self.presets@[i].1.to@) is None,
                Err(_) => false,
            },
    {
        let mut i: usize = 0;
        while i < self.presets.len()
            invariant
                i <= self.presets@.len(),
                forall|j: int|
                    0 <= j < i ==> uri_parse_of((#[trigger] self.presets@[j]).1.from@) is Some
                        && uri_parse_of(self.presets@[j].1.to@) is Some,
            decreases self.presets@.len() - i,
        {
            match parse_uri(self.presets[i].1.from.as_str()) {
                Err(_) => {
                    proof {
                        assert(uri_parse_of(self.presets@[i as int].1.from@) is None);
                    }
                    return Err(ConfigError::InvalidPresetFrom(self.presets[i].0.clone()));
                },
                Ok(_) => {},
            }
            match parse_uri(self.presets[i].1.to.as_str()) {
                Err(_) => {
                    proof {
                        assert(uri_parse_of(self.presets@[i as int].1.to@) is None);
                    }
                    return Err(ConfigError::InvalidPresetTo(self.presets[i].0.clone()));
                },
                Ok(_) => {},
            }
            i = i + 1;
        }
        Ok(())
    }
}

impl Args {
    /// A named preset must exist (or be the built-in `init`); without a
    /// preset, at least one endpoint argument must be given.
    pub fn validate(&self, config: &Config) -> (r: Result<(), ConfigError>)
        ensures
            r is Ok <==> ((match self.preset {
                Some(p) => p@ == "init"@ || config.preset_of(p@) is Some,
                None => true,
            }) && !(self.preset is None && self.from is None && self.to is None)),
            match r {
                Ok(_) => true,
                Err(ConfigError::PresetNotFound(n)) => self.preset matches Some(p) && n@ == p@
                    && p@ != "init"@ && config.preset_of(p@) is None,
                Err(ConfigError::MissingArguments) => self.preset is None && self.from is None
                    && self.to is None,
                Err(_) => false,
            },
    {
        match &self.preset {
            Some(p) => {
                if !str_eq(p.as_str(), "init") {
                    match config.get_preset(p.as_str()) {
                        None => {
                            return Err(ConfigError::PresetNotFound(p.clone()));
                        },
                        Some(_) => {},
                    }
                }
            },
            None => {
                if self.from.is_none() && self.to.is_none() {
                    return Err(ConfigError::MissingArguments);
                }
            },
        }
        Ok(())
    }
}

} // verus!
