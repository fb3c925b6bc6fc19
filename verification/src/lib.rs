//! Exporter core for Linux Pressure Stall Information (PSI) of cgroups.
//!
//! The crate holds the verified pipeline of a PSI metrics exporter: a parser
//! for the kernel's pressure-file line format, a walker over an in-memory
//! image of the cgroup tree that locates pressure files, an aggregator that
//! merges parsed records per service, and a snapshot builder that turns the
//! aggregate into a metric sample list under the two reporting policies.
//! All values are kept as exact integers (hundredths of a percent for the
//! averages, microseconds for the cumulative stall time); rendering them as
//! decimal numbers is the caller's concern.

pub mod aggregate;
pub mod locate;
pub mod parse;
pub mod snapshot;

pub use parse::PsiLine;
pub use parse::PsiRecord;
pub use parse::ParseError;
