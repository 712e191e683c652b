use vstd::prelude::*;

verus! {

/// An opaque scope identifier: a 128-bit token tying a permission to the
/// manager that minted it. Scope identifiers are never parsed or ordered;
/// they are only compared for equality.
#[derive(Clone, Copy, PartialEq, Eq, Structural, Debug)]
pub struct ScopeId {
    value: u128,
}

/// Relies on `uuid::Uuid::new_v4` and `uuid::Uuid::as_u128`: a freshly
/// generated random version-4 identifier, returned as its 128-bit value.
/// The value is random, so nothing is assumed about it; in particular two
/// calls are not promised to differ.
#[verifier::external_body]
fn random_id_value() -> u128 {
    uuid::Uuid::new_v4().as_u128()
}

impl ScopeId {
    /// Generates a new scope identifier. Used by `PermissionManager` at
    /// construction; available to callers that want to tag unmanaged
    /// permissions of their own.
    pub fn fresh() -> ScopeId {
        ScopeId { value: random_id_value() }
    }
}

} // verus!
