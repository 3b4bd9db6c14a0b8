//! One running copy of the application per session.
//!
//! On a system with named kernel objects a second copy finds the first and
//! hands over to it; this platform has none, so every start goes ahead.
use vstd::prelude::*;

verus! {

/// Declares `std::io::Error`, the standard library's I/O error, which a
/// failed claim reports; its contents stay hidden from proofs.
#[verifier::external_type_specification]
#[verifier::external_body]
pub struct ExIoError(std::io::Error);

/// Held for as long as this copy is the running one.
pub struct InstanceGuard {}

/// Claims the single running slot: `Ok(Some(guard))` when this copy may
/// run, `Ok(None)` when another copy already does. Here the claim always
/// succeeds.
pub fn acquire() -> (r: Result<Option<InstanceGuard>, std::io::Error>)
    ensures
        r matches Ok(Some(_)),
{
    Ok(Some(InstanceGuard {}))
}

} // verus!
