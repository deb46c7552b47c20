//! What can go wrong when an object is written or read.
use vstd::prelude::*;
use vstd::string::StringExecFns;

verus! {

/// The four classes of failure.
#[derive(Clone, Copy, Debug, PartialEq, Eq)]
pub enum ErrorKind {
    /// Something that was asked for does not exist.
    NotFound,
    /// Stored bytes do not decode.
    Corrupt,
    /// Another process holds the repository.
    Conflict,
    /// The caller asked for something that cannot be done.
    InvalidInput,
}

/// Why an object could not be encoded or decoded.
#[derive(Clone, Copy, Debug, PartialEq, Eq)]
pub enum ObjectError {
    /// No NUL byte ends the header.
    InvalidFormat,
    /// Bytes that must be text are not well-formed UTF-8.
    InvalidUtf8,
    /// The header is not a tag and a length.
    InvalidHeader,
    /// The length in the header is not a number that fits a machine word.
    InvalidSize,
    /// The tag in the header names no kind of object.
    UnknownType,
    /// A tree entry lacks the space after its mode or the NUL after its name.
    InvalidTree,
    /// A tree entry ends before its twenty digest bytes.
    TruncatedTree,
    /// A commit has no `tree` line.
    MissingTree,
    /// A commit has no `author` line.
    MissingAuthor,
    /// A commit has no `timestamp` line.
    MissingTimestamp,
    /// A `timestamp` line does not hold a number.
    InvalidTimestamp,
    /// A tree entry's digest is not hexadecimal, so it cannot be encoded.
    InvalidHash,
}

impl ObjectError {
    /// The class of this failure: an undecodable object is corrupt, a digest that
    /// cannot be encoded is invalid input.
    pub open spec fn spec_kind(self) -> ErrorKind {
        match self {
            ObjectError::InvalidHash => ErrorKind::InvalidInput,
            _ => ErrorKind::Corrupt,
        }
    }

    /// The class of this failure.
    pub fn kind(&self) -> (r: ErrorKind)
        ensures
            r == self.spec_kind(),
    {
        match self {
            ObjectError::InvalidHash => ErrorKind::InvalidInput,
            _ => ErrorKind::Corrupt,
        }
    }

    /// This failure in words.
    pub open spec fn spec_message(self) -> Seq<char> {
        match self {
            ObjectError::InvalidFormat => "Invalid object format"@,
            ObjectError::InvalidUtf8 => "Invalid UTF-8 in object"@,
            ObjectError::InvalidHeader => "Invalid object header"@,
            ObjectError::InvalidSize => "Invalid object size"@,
            ObjectError::UnknownType => "Unknown object type"@,
            ObjectError::InvalidTree => "Invalid tree format"@,
            ObjectError::TruncatedTree => "Invalid tree format: hash too short"@,
            ObjectError::MissingTree => "Missing tree in commit"@,
            ObjectError::MissingAuthor => "Missing author in commit"@,
            ObjectError::MissingTimestamp => "Missing timestamp in commit"@,
            ObjectError::InvalidTimestamp => "Invalid timestamp in commit"@,
            ObjectError::InvalidHash => "Invalid hash in tree entry"@,
        }
    }

    /// This failure in words.
    pub fn message(&self) -> (r: String)
        ensures
            r@ == self.spec_message(),
    {
        match self {
            ObjectError::InvalidFormat => String::from_str("Invalid object format"),
            ObjectError::InvalidUtf8 => String::from_str("Invalid UTF-8 in object"),
            ObjectError::InvalidHeader => String::from_str("Invalid object header"),
            ObjectError::InvalidSize => String::from_str("Invalid object size"),
            ObjectError::UnknownType => String::from_str("Unknown object type"),
            ObjectError::InvalidTree => String::from_str("Invalid tree format"),
            ObjectError::TruncatedTree => String::from_str("Invalid tree format: hash too short"),
            ObjectError::MissingTree => String::from_str("Missing tree in commit"),
            ObjectError::MissingAuthor => String::from_str("Missing author in commit"),
            ObjectError::MissingTimestamp => String::from_str("Missing timestamp in commit"),
            ObjectError::InvalidTimestamp => String::from_str("Invalid timestamp in commit"),
            ObjectError::InvalidHash => String::from_str("Invalid hash in tree entry"),
        }
    }
}

/// Why an operation on a repository failed.
#[derive(Clone, Copy, Debug, PartialEq, Eq)]
pub enum RepoError {
    /// No repository here, nor in any directory above.
    NotARepository,
    /// There is a repository here already.
    RepositoryExists,
    /// No object is stored under the digest.
    ObjectNotFound,
    /// An object could not be encoded or decoded.
    Object(ObjectError),
    /// Nothing is staged, so there is nothing to commit.
    NothingToCommit,
    /// The configuration has no value for the key.
    KeyNotFound,
    /// Neither a key to read nor a key and a value to set were given.
    MissingKey,
    /// A configuration file is not text.
    InvalidConfig,
    /// One of the patterns that are always ignored does not compile.
    InvalidPattern,
    /// A commit holds a time that is no date.
    InvalidDate,
}

impl RepoError {
    /// The class of this failure.
    pub open spec fn spec_kind(self) -> ErrorKind {
        match self {
            RepoError::NotARepository => ErrorKind::NotFound,
            RepoError::ObjectNotFound => ErrorKind::NotFound,
            RepoError::Object(e) => e.spec_kind(),
            RepoError::InvalidConfig => ErrorKind::Corrupt,
            RepoError::InvalidDate => ErrorKind::Corrupt,
            _ => ErrorKind::InvalidInput,
        }
    }

    /// The class of this failure.
    pub fn kind(&self) -> (r: ErrorKind)
        ensures
            r == self.spec_kind(),
    {
        match self {
            RepoError::NotARepository => ErrorKind::NotFound,
            RepoError::ObjectNotFound => ErrorKind::NotFound,
            RepoError::Object(e) => e.kind(),
            RepoError::InvalidConfig => ErrorKind::Corrupt,
            RepoError::InvalidDate => ErrorKind::Corrupt,
            _ => ErrorKind::InvalidInput,
        }
    }

    /// This failure in words.
    pub open spec fn spec_message(self) -> Seq<char> {
        match self {
            RepoError::NotARepository =>
                "Not a VCS repository (or any of the parent directories)"@,
            RepoError::RepositoryExists => "Repository already exists"@,
            RepoError::ObjectNotFound => "Object not found"@,
            RepoError::Object(e) => e.spec_message(),
            RepoError::NothingToCommit => "Nothing to commit (use 'vcs add' to stage files)"@,
            RepoError::KeyNotFound => "Config key not found"@,
            RepoError::MissingKey => "Either specify a key to get, or key and value to set"@,
            RepoError::InvalidConfig => "Config file is not valid UTF-8"@,
            RepoError::InvalidPattern => "Invalid ignore pattern"@,
            RepoError::InvalidDate => "Invalid timestamp"@,
        }
    }

    /// This failure in words.
    pub fn message(&self) -> (r: String)
        ensures
            r@ == self.spec_message(),
    {
        match self {
            RepoError::NotARepository => String::from_str(
                "Not a VCS repository (or any of the parent directories)",
            ),
            RepoError::RepositoryExists => String::from_str("Repository already exists"),
            RepoError::ObjectNotFound => String::from_str("Object not found"),
            RepoError::Object(e) => e.message(),
            RepoError::NothingToCommit => String::from_str(
                "Nothing to commit (use 'vcs add' to stage files)",
            ),
            RepoError::KeyNotFound => String::from_str("Config key not found"),
            RepoError::MissingKey => String::from_str(
                "Either specify a key to get, or key and value to set",
            ),
            RepoError::InvalidConfig => String::from_str("Config file is not valid UTF-8"),
            RepoError::InvalidPattern => String::from_str("Invalid ignore pattern"),
            RepoError::InvalidDate => String::from_str("Invalid timestamp"),
        }
    }
}

} // verus!
