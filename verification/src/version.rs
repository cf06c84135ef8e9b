//! The version handshake: before any call, a consumer makes sure that the
//! provider implements a revision of the interface that it can use.

use abi_stable::sabi_types::VersionNumber;
use vstd::prelude::*;

verus! {

/// A `major.minor.patch` revision of the interface.
#[derive(Clone, Copy, Debug, PartialEq, Eq, Structural)]
pub struct InterfaceVersion {
    pub major: u32,
    pub minor: u32,
    pub patch: u32,
}

/// A consumer that was built against one revision bound a provider that
/// implements another, which it cannot use.
#[derive(Clone, Copy, Debug, PartialEq, Eq, Structural)]
pub struct VersionMismatch {
    pub consumer: InterfaceVersion,
    pub provider: InterfaceVersion,
}

/// Whether a consumer built against `consumer` can use a provider that
/// implements `provider`. Major revisions exclude each other; within one, the
/// provider must be at least as recent in its minor revision. Before 1.0 every
/// minor revision stands alone, and the provider must be at least as recent
/// in its patch.
pub open spec fn compatible(consumer: InterfaceVersion, provider: InterfaceVersion) -> bool {
    if consumer.major == 0 && provider.major == 0 {
        consumer.minor == provider.minor && consumer.patch <= provider.patch
    } else {
        consumer.major == provider.major && consumer.minor <= provider.minor
    }
}

/// Asks `abi_stable`'s `VersionNumber::is_compatible`, with the consumer's
/// revision as the receiver and the provider's as the implementor. The
/// contract repeats the rule that this method applies to the three numbers
/// of each side.
#[verifier::external_body]
fn is_compatible(consumer: InterfaceVersion, provider: InterfaceVersion) -> (usable: bool)
    ensures
        usable == compatible(consumer, provider),
{
    let user = VersionNumber { major: consumer.major, minor: consumer.minor, patch: consumer.patch };
    let implementor =
        VersionNumber { major: provider.major, minor: provider.minor, patch: provider.patch };
    user.is_compatible(implementor)
}

/// The handshake: succeeds exactly when the consumer can use the provider,
/// and names both revisions when it cannot.
pub fn negotiate(consumer: InterfaceVersion, provider: InterfaceVersion) -> (res: Result<
    (),
    VersionMismatch,
>)
    ensures
        res is Ok <==> compatible(consumer, provider),
        res is Err ==> res->Err_0 == (VersionMismatch { consumer, provider }),
{
    if is_compatible(consumer, provider) {
        Ok(())
    } else {
        Err(VersionMismatch { consumer, provider })
    }
}

/// Every revision can use itself.
pub proof fn law_revision_fits_itself(version: InterfaceVersion)
    ensures
        compatible(version, version),
{
}

} // verus!
