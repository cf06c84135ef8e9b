//! The channel through which identifiers leave the library.

use abi_stable::external_types::crossbeam_channel::RSender;
use abi_stable::std_types::RVec;
use vstd::prelude::*;
use crate::ids::ProjectionId;

verus! {

/// `abi_stable`'s sending end of a channel. Nothing is known of what is
/// inside one.
#[verifier::external_type_specification]
#[verifier::external_body]
#[verifier::reject_recursive_types(T)]
pub struct ExRSender<T>(RSender<T>);

/// `abi_stable`'s vector. Nothing is known of what is inside one.
#[verifier::external_type_specification]
#[verifier::external_body]
#[verifier::reject_recursive_types(T)]
pub struct ExRVec<T>(RVec<T>);

/// Hands `batch` to `RSender::send`, as the `RVec` that `RVec::from` makes of
/// it, and returns whether the channel took it. `send` waits while a bounded
/// channel is full and fails only once the receiving side is gone. Whether
/// it is gone nothing here can tell, so nothing is claimed of the result.
#[verifier::external_body]
pub(crate) fn send_batch(tx: &RSender<RVec<ProjectionId>>, batch: Vec<ProjectionId>) -> (accepted:
    bool) {
    tx.send(RVec::from(batch)).is_ok()
}

} // verus!
