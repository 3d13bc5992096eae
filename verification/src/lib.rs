//! Extract lint and type-check suppression comments from source files.
//!
//! Suppression ("ignore") directives — `# noqa`, `// eslint-disable-next-line`,
//! `#[allow(…)]`, … — are parsed natively: the tool whose rule is silenced is
//! never run. Every directive becomes an [`IgnoreDirective`]: which tool, which
//! rules, the stated reason, and exactly where it lives.
#![allow(unused_imports)]

pub mod text;
pub mod model;
pub mod source;
pub mod comments;
pub mod tools;
pub mod scan;
pub mod diff;
pub mod git;
pub mod cli;

pub use model::{IgnoreDirective, Report, ReportError, Scope, Suppressed, Tool, Change, REPORT_VERSION};


