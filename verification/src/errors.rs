use vstd::prelude::*;

verus! {

/// Ghost counterpart of [`PermissionError`], with the string payloads as
/// character sequences. Contracts throughout the crate speak of this type.
pub enum ErrorModel {
    /// The input string is not syntactically valid JSON.
    InvalidJson,
    /// The JSON parses, but the document breaks the action-tree contract:
    /// the root is not an object, or some value is neither an object nor a
    /// boolean. Carries the offending key and a rendering of the value.
    MalformedTree { key: Seq<char>, value: Seq<char> },
    /// Nesting reached the maximum recursion depth.
    TooDeep,
    /// One action is, segment for segment, a strict prefix of another, so
    /// the set cannot be written as a tree of boolean leaves.
    ConflictingPath { action: Seq<char> },
    /// An algebra operation was invoked across two permissions whose scope
    /// fields differ.
    IncompatibleScope,
    /// A manager was asked to mint a permission whose actions are not a
    /// subset of its universe.
    ActionsNotInUniverse,
}

/// Everything a constructor or an algebra operation can report. Each
/// variant is surfaced synchronously to the immediate caller; no operation
/// retries or returns a partial result.
#[derive(Debug)]
pub enum PermissionError {
    /// The input string is not syntactically valid JSON.
    InvalidJson,
    /// The JSON parses but violates the action-tree contract; `key` is the
    /// offending key (empty for the document root) and `value` renders the
    /// offending value.
    MalformedTree { key: String, value: String },
    /// Nesting reached the maximum recursion depth.
    TooDeep,
    /// `action` is, segment for segment, a strict prefix of another action
    /// in the same set (or extends one), so the set has no tree form.
    ConflictingPath { action: String },
    /// The two permissions of an algebra operation carry different scopes.
    IncompatibleScope,
    /// The requested actions are not all contained in the manager's
    /// universe.
    ActionsNotInUniverse,
}

impl View for PermissionError {
    type V = ErrorModel;

    open spec fn view(&self) -> ErrorModel {
        match self {
            PermissionError::InvalidJson => ErrorModel::InvalidJson,
            PermissionError::MalformedTree { key, value } => ErrorModel::MalformedTree {
                key: key@,
                value: value@,
            },
            PermissionError::TooDeep => ErrorModel::TooDeep,
            PermissionError::ConflictingPath { action } => ErrorModel::ConflictingPath {
                action: action@,
            },
            PermissionError::IncompatibleScope => ErrorModel::IncompatibleScope,
            PermissionError::ActionsNotInUniverse => ErrorModel::ActionsNotInUniverse,
        }
    }
}

} // verus!
