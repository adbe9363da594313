//! Locates the `dumpbin.exe` binary-inspection utility of an installed
//! Visual C++ toolchain and parses its textual `/DEPENDENTS` report into a
//! structured list of imported libraries and a (count, name) summary table.
//!
//! The verified core is the report parser and the locator's candidate
//! selection; reading the configuration registry and spawning the external
//! tool are left to an unverified shell around this crate.

pub mod dumpbin;
pub mod err;
pub mod text;
