//! Bucket identifier for warm pool entries.

use vstd::prelude::*;
use vstd::std_specs::cmp::PartialEqSpec;

verus! {

/// Identifier for a pool entry's bucket. Entries with the same `(stack_name,
/// version, vcpu_count, mem_size_mib)` share a bucket; different identities
/// have separate buckets, so a handoff never mixes them up.
///
/// The four fields are what a caller can count on in a pre-restored VM:
/// - `stack_name` and `version` pin the rootfs and sidecar image,
/// - `vcpu_count` and `mem_size_mib` pin the machine shape baked into the
///   snapshot (Firecracker rejects a restore into a differently shaped VM).
#[derive(Debug, Hash, Eq)]
pub struct StackKey {
    /// Logical stack identifier (e.g. `"node20"`, `"python311-pytorch"`).
    pub stack_name: String,
    /// Version of the stack (e.g. sidecar version, rootfs revision).
    pub version: String,
    /// vCPU count the snapshot was taken with.
    pub vcpu_count: u8,
    /// Memory size (MiB) the snapshot was taken with.
    pub mem_size_mib: u32,
}

/// The four fields of a [`StackKey`] as mathematical values.
pub struct StackKeyView {
    pub stack_name: Seq<char>,
    pub version: Seq<char>,
    pub vcpu_count: u8,
    pub mem_size_mib: u32,
}

impl View for StackKey {
    type V = StackKeyView;

    open spec fn view(&self) -> StackKeyView {
        StackKeyView {
            stack_name: self.stack_name@,
            version: self.version@,
            vcpu_count: self.vcpu_count,
            mem_size_mib: self.mem_size_mib,
        }
    }
}

impl Clone for StackKey {
    fn clone(&self) -> (copy: StackKey)
        ensures
            copy@ == self@,
    {
        StackKey {
            stack_name: self.stack_name.clone(),
            version: self.version.clone(),
            vcpu_count: self.vcpu_count,
            mem_size_mib: self.mem_size_mib,
        }
    }
}

impl PartialEq for StackKey {
    /// All four fields have to agree.
    fn eq(&self, other: &StackKey) -> (same: bool) {
        self.stack_name == other.stack_name && self.version == other.version && self.vcpu_count
            == other.vcpu_count && self.mem_size_mib == other.mem_size_mib
    }
}

impl vstd::std_specs::cmp::PartialEqSpecImpl for StackKey {
    open spec fn obeys_eq_spec() -> bool {
        true
    }

    open spec fn eq_spec(&self, other: &StackKey) -> bool {
        self@ == other@
    }
}

/// A key is told by its four fields: two keys are equal just when all four agree.
pub proof fn law_keys_agree_in_all_fields(a: StackKey, b: StackKey)
    ensures
        a@.stack_name == a.stack_name@,
        a@.version == a.version@,
        a@.vcpu_count == a.vcpu_count,
        a@.mem_size_mib == a.mem_size_mib,
        a@ == b@ <==> {
            &&& a.stack_name@ == b.stack_name@
            &&& a.version@ == b.version@
            &&& a.vcpu_count == b.vcpu_count
            &&& a.mem_size_mib == b.mem_size_mib
        },
        a.eq_spec(&b) <==> a@ == b@,
{
}

} // verus!
