//! Login-startup registration.
//!
//! Registering a login entry is a Windows registry operation that lives
//! outside the library; on this build the operations report themselves
//! unavailable, and a query reports no registration.

use vstd::prelude::*;

use crate::CoreError;

verus! {

/// Registration is not available here: always the unsupported error.
pub fn install(_executable: &Vec<u8>, _args: &Vec<u8>) -> (r: Result<(), CoreError>)
    ensures
        r == Result::<(), CoreError>::Err(CoreError::Unsupported),
{
    Err(CoreError::Unsupported)
}

/// Removal is not available here: always the unsupported error.
pub fn uninstall() -> (r: Result<(), CoreError>)
    ensures
        r == Result::<(), CoreError>::Err(CoreError::Unsupported),
{
    Err(CoreError::Unsupported)
}

/// Without a registry there is never a registration.
pub fn is_installed() -> (r: Result<bool, CoreError>)
    ensures
        r == Result::<bool, CoreError>::Ok(false),
{
    Ok(false)
}

} // verus!
