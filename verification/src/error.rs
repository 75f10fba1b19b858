//! The library's error type.
use vstd::prelude::*;

use crate::text::{concat, push_str, to_owned};

verus! {

/// Errors of the package manager.
///
/// I/O, JSON and YAML failures carry the message of the underlying error.
#[derive(Debug)]
pub enum AlchemyError {
    ManifestParse(String),
    PackageNotFound(String),
    VersionNotFound(String, String),
    ResolutionFailed(String),
    IntegrityError(String, String, String),
    Network(String),
    Io(String),
    Json(String),
    Yaml(String),
    Other(String),
}

/// The text of an error, as it is shown to the user.
pub open spec fn spec_error_message(e: AlchemyError) -> Seq<char> {
    match e {
        AlchemyError::ManifestParse(s) => "Failed to parse package.json: "@ + s@,
        AlchemyError::PackageNotFound(s) => "Package not found: "@ + s@,
        AlchemyError::VersionNotFound(n, v) => "Version not found: "@ + n@ + "@"@ + v@,
        AlchemyError::ResolutionFailed(s) => "Resolution failed: "@ + s@,
        AlchemyError::IntegrityError(p, x, g) => "Integrity check failed for "@ + p@
            + ": expected "@ + x@ + ", got "@ + g@,
        AlchemyError::Network(s) => "Network error: "@ + s@,
        AlchemyError::Io(s) => "IO error: "@ + s@,
        AlchemyError::Json(s) => "JSON error: "@ + s@,
        AlchemyError::Yaml(s) => "YAML error: "@ + s@,
        AlchemyError::Other(s) => s@,
    }
}

impl AlchemyError {
    /// The text of the error, as it is shown to the user.
    pub fn message(&self) -> (r: String)
        ensures
            r@ == spec_error_message(*self),
    {
        match self {
            AlchemyError::ManifestParse(s) => concat("Failed to parse package.json: ", s.as_str()),
            AlchemyError::PackageNotFound(s) => concat("Package not found: ", s.as_str()),
            AlchemyError::VersionNotFound(n, v) => {
                let mut r = concat("Version not found: ", n.as_str());
                push_str(&mut r, "@");
                push_str(&mut r, v.as_str());
                r
            },
            AlchemyError::ResolutionFailed(s) => concat("Resolution failed: ", s.as_str()),
            AlchemyError::IntegrityError(p, x, g) => {
                let mut r = concat("Integrity check failed for ", p.as_str());
                push_str(&mut r, ": expected ");
                push_str(&mut r, x.as_str());
                push_str(&mut r, ", got ");
                push_str(&mut r, g.as_str());
                r
            },
            AlchemyError::Network(s) => concat("Network error: ", s.as_str()),
            AlchemyError::Io(s) => concat("IO error: ", s.as_str()),
            AlchemyError::Json(s) => concat("JSON error: ", s.as_str()),
            AlchemyError::Yaml(s) => concat("YAML error: ", s.as_str()),
            AlchemyError::Other(s) => to_owned(s.as_str()),
        }
    }
}

} // verus!
