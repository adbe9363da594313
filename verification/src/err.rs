//! Error taxonomy for locating the inspection tool and parsing its report.

use vstd::prelude::*;
use vstd::string::StringExecFns;

verus! {

/// The two text sections that a dependency report must contain; a missing
/// section names which marker was absent.
#[derive(Clone, Copy, Debug, PartialEq, Eq, Structural)]
pub enum Section {
    Dependencies,
    Summary,
}

/// Failures surfaced by this crate.
///
/// Malformed summary lines are never an error: they are tolerated with a
/// zero count or skipped entirely, by design.
#[derive(Clone, Debug)]
pub enum DumpBinError {
    /// The external tool could not be spawned or its output not captured.
    Io(String),
    /// The configuration store, a subkey, or an expected value was
    /// unavailable while it was being read.
    Configuration(String),
    /// The scan finished without finding an existing inspection executable.
    NotFound,
    /// The captured report lacks one of the two required markers; carries
    /// which one, and the full raw text for diagnosis.
    MissingSection { section: Section, raw: String },
}

impl From<String> for DumpBinError {
    fn from(err: String) -> (r: Self) {
        DumpBinError::Configuration(err)
    }
}

impl vstd::std_specs::convert::FromSpecImpl<String> for DumpBinError {
    open spec fn obeys_from_spec() -> bool {
        true
    }

    open spec fn from_spec(err: String) -> Self {
        DumpBinError::Configuration(err)
    }
}

impl DumpBinError {
    /// A human-readable description of the failure.
    pub fn message(&self) -> (r: String)
        ensures
            r@ == match *self {
                DumpBinError::Io(ref e) => "I/O error: "@ + e@,
                DumpBinError::Configuration(ref e) => "Configuration error: "@ + e@,
                DumpBinError::NotFound => "No DumpBin found!"@,
                DumpBinError::MissingSection { section: Section::Dependencies, ref raw } => (
                    "Cannot find dependencies: "@ + raw@
                ),
                DumpBinError::MissingSection { section: Section::Summary, ref raw } => (
                    "Cannot find summary: "@ + raw@
                ),
            },
    {
        match self {
            DumpBinError::Io(e) => {
                let mut s = String::from_str("I/O error: ");
                s.append(e.as_str());
                s
            },
            DumpBinError::Configuration(e) => {
                let mut s = String::from_str("Configuration error: ");
                s.append(e.as_str());
                s
            },
            DumpBinError::NotFound => String::from_str("No DumpBin found!"),
            DumpBinError::MissingSection { section, raw } => {
                let mut s = match section {
                    Section::Dependencies => String::from_str("Cannot find dependencies: "),
                    Section::Summary => String::from_str("Cannot find summary: "),
                };
                s.append(raw.as_str());
                s
            },
        }
    }
}

} // verus!
