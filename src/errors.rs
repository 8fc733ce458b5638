//! Errors of session creation and of the ratings sidecar.
use vstd::prelude::*;

verus! {

/// `std::io::Error`, carried through as an opaque value.
#[verifier::external_type_specification]
#[verifier::external_body]
pub struct ExIoError(std::io::Error);

/// `serde_yaml::Error`, carried through as an opaque value.
#[verifier::external_type_specification]
#[verifier::external_body]
pub struct ExYamlError(serde_yaml::Error);

/// Why a directory could not be opened as a session.
#[derive(Debug)]
pub enum DirLoadError {
    NotADirectory,
    NoRelevantImages,
    IoError(std::io::Error),
    RatingsLoadError(RatingsLoadError),
}

/// Why the ratings sidecar could not be loaded.
#[derive(Debug)]
pub enum RatingsLoadError {
    PathIsDir,
    FileOpenError(std::io::Error),
    /// The sidecar opens block collections at more columns than the parser
    /// is trusted with.
    TooDeeplyNested,
    DeserializeError(serde_yaml::Error),
}

/// Why the ratings sidecar could not be saved; the ratings held in memory
/// stay as they are.
#[derive(Debug)]
pub enum RatingsSaveError {
    SerializeError(serde_yaml::Error),
    WriteError(std::io::Error),
    PersistError(std::io::Error),
}

} // verus!
