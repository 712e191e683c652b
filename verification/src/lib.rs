//! Permissions modeled as immutable sets of divider-joined action
//! identifiers, a codec between such sets and a nested JSON tree of boolean
//! leaves, and a manager that mints and validates permissions against a
//! fixed universe of legal actions.

pub mod action_serialization;
pub mod action_set;
pub mod errors;
pub mod json;
pub mod permission;
pub mod permission_manager;
pub mod scope;
pub mod segments;

pub use action_set::ActionSet;
pub use permission::Permission;
pub use permission_manager::PermissionManager;

pub use errors::ErrorModel;
pub use errors::PermissionError;
pub use scope::ScopeId;
