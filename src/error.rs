use vstd::prelude::*;

verus! {

/// Why a registry operation was refused. A refused operation leaves the
/// registry exactly as it was.
#[derive(Clone, Copy, Debug, PartialEq, Eq, Structural)]
pub enum RegistryError {
    /// Initialization was requested a second time.
    AlreadyInitialized,
    /// A mutating operation was requested before initialization.
    NotInitialized,
    /// The caller named the right principal but gave no valid proof of control.
    NotAuthorized,
    /// The caller is not the owner the operation requires.
    NotOwner,
    /// The caller is not the administrator.
    NotAdmin,
    /// A token with this identifier already exists.
    TokenAlreadyExists,
    /// No token with this identifier exists.
    TokenNotFound,
}

} // verus!
