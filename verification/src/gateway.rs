//! The update that switches a traffic split over: a partial update that
//! names the resource's kind and carries nothing but the new backends.

use vstd::prelude::*;
use vstd::string::StringExecFns;

use crate::backends::{backend_views, swap_backends, switched, Backend, TrafficSplitSpec};

verus! {

/// A partial update of a traffic split: what it says is put in place of
/// what the resource holds, and what it leaves out stays.
#[derive(Clone, Debug)]
pub struct MergePatch {
    pub api_version: String,
    pub kind: String,
    pub backends: Vec<Backend>,
}

/// The API group of traffic splits.
pub open spec fn api_group() -> Seq<char> {
    "split.smi-spec.io"@
}

/// The version of that group that this crate speaks.
pub open spec fn api_version_name() -> Seq<char> {
    "v1alpha1"@
}

/// Group and version as an update names them.
pub open spec fn api_version() -> Seq<char> {
    api_group() + "/"@ + api_version_name()
}

/// The kind of a traffic split.
pub open spec fn kind() -> Seq<char> {
    "TrafficSplit"@
}

/// The name under which this crate's updates are recorded.
pub open spec fn field_manager_name() -> Seq<char> {
    "linkerd_failover_patch"@
}

/// Gives the name under which updates are to be sent, always the same.
pub fn field_manager() -> (name: &'static str)
    ensures
        name@ == field_manager_name(),
{
    "linkerd_failover_patch"
}

/// Makes the update that puts `backends` in place.
pub fn merge_patch(backends: Vec<Backend>) -> (patch: MergePatch)
    ensures
        patch.api_version@ == api_version(),
        patch.kind@ == kind(),
        patch.backends == backends,
{
    let mut version = "split.smi-spec.io".to_owned();
    version.append("/");
    version.append("v1alpha1");
    MergePatch { api_version: version, kind: "TrafficSplit".to_owned(), backends }
}

/// Switches a traffic split over and makes the update that says so: the
/// backends of the update are those of the split, with all weight moved
/// from `watched` to `failover`.
pub fn failover_patch(split: TrafficSplitSpec, watched: &str, failover: &str) -> (patch: MergePatch)
    ensures
        patch.api_version@ == api_version(),
        patch.kind@ == kind(),
        backend_views(patch.backends@) == switched(
            backend_views(split.backends@),
            watched@,
            failover@,
        ),
{
    let mut backends = split.backends;
    swap_backends(&mut backends, watched, failover);
    merge_patch(backends)
}

} // verus!
