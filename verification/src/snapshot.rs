//! Snapshot references of `microvm_runtime`, which the pool carries through
//! without looking inside.

use microvm_runtime::model::SnapshotRef;
use vstd::prelude::*;

verus! {

/// `microvm_runtime::model::SnapshotRef`: which snapshot a VM is restored from.
/// Opaque here.
#[verifier::external_type_specification]
#[verifier::external_body]
pub struct ExSnapshotRef(SnapshotRef);

/// `SnapshotRef::clone`, which `microvm_runtime` derives: the copy equals the
/// reference it was made from.
pub assume_specification[ <SnapshotRef as Clone>::clone ](snapshot: &SnapshotRef) -> (copy:
    SnapshotRef)
    ensures
        copy == *snapshot,
;

} // verus!
