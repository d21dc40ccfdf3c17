//! The weighted backends of a traffic split, and the switch that moves all
//! traffic from the watched service to its failover.

use vstd::prelude::*;

verus! {

/// One weighted entry of a traffic split.
#[derive(Clone, Debug)]
pub struct Backend {
    pub service: String,
    pub weight: u32,
}

/// What a [`Backend`] stands for: a service name and a weight.
pub struct BackendView {
    pub service: Seq<char>,
    pub weight: nat,
}

impl View for Backend {
    type V = BackendView;

    open spec fn view(&self) -> BackendView {
        BackendView { service: self.service@, weight: self.weight as nat }
    }
}

/// The backend list of a traffic split, in the order the resource gives it.
#[derive(Clone, Debug)]
pub struct TrafficSplitSpec {
    pub backends: Vec<Backend>,
}

impl Default for TrafficSplitSpec {
    /// A traffic split without backends.
    fn default() -> (split: TrafficSplitSpec)
        ensures
            split.backends@.len() == 0,
    {
        TrafficSplitSpec { backends: Vec::new() }
    }
}

/// The views of a list of backends, entry by entry.
pub open spec fn backend_views(backends: Seq<Backend>) -> Seq<BackendView> {
    backends.map_values(|b: Backend| b@)
}

/// One backend after the switch: the watched service loses all weight, the
/// failover service gets weight one, any other entry stays as it is. Where
/// both names are the same, the entry counts as watched.
pub open spec fn switch_one(backend: BackendView, watched: Seq<char>, failover: Seq<char>)
    -> BackendView {
    if backend.service == watched {
        BackendView { service: backend.service, weight: 0 }
    } else if backend.service == failover {
        BackendView { service: backend.service, weight: 1 }
    } else {
        backend
    }
}

/// The whole list after the switch: every entry switched on its own, in place.
pub open spec fn switched(backends: Seq<BackendView>, watched: Seq<char>, failover: Seq<char>)
    -> Seq<BackendView> {
    backends.map_values(|b: BackendView| switch_one(b, watched, failover))
}

/// Moves all weight from `watched` to `failover`, touching nothing else.
pub fn swap_backends(backends: &mut Vec<Backend>, watched: &str, failover: &str)
    ensures
        final(backends)@.len() == old(backends)@.len(),
        forall|i: int|
            0 <= i < old(backends)@.len() ==> (#[trigger] final(backends)@[i])@ == switch_one(
                old(backends)@[i]@,
                watched@,
                failover@,
            ),
        backend_views(final(backends)@) == switched(
            backend_views(old(backends)@),
            watched@,
            failover@,
        ),
{
    let watched_name = watched.to_owned();
    let failover_name = failover.to_owned();
    let mut i: usize = 0;
    while i < backends.len()
        invariant
            i <= backends.len(),
            backends.len() == old(backends).len(),
            watched_name@ == watched@,
            failover_name@ == failover@,
            forall|j: int|
                0 <= j < i ==> (#[trigger] backends@[j])@ == switch_one(
                    old(backends)@[j]@,
                    watched@,
                    failover@,
                ),
            forall|j: int| i <= j < backends.len() ==> (#[trigger] backends@[j]) == old(backends)@[j],
        decreases backends.len() - i,
    {
        if backends[i].service == watched_name {
            backends[i].weight = 0;
        } else if backends[i].service == failover_name {
            backends[i].weight = 1;
        }
        i += 1;
    }
    assert(backend_views(backends@) =~= switched(
        backend_views(old(backends)@),
        watched@,
        failover@,
    ));
}

/// The service names of a list of backends, in order.
pub open spec fn service_names(backends: Seq<BackendView>) -> Seq<Seq<char>> {
    backends.map_values(|b: BackendView| b.service)
}

/// Switching a second time with the same two names changes nothing more.
pub proof fn lemma_switch_idempotent(
    backends: Seq<BackendView>,
    watched: Seq<char>,
    failover: Seq<char>,
)
    ensures
        switched(switched(backends, watched, failover), watched, failover) == switched(
            backends,
            watched,
            failover,
        ),
{
    assert(switched(switched(backends, watched, failover), watched, failover) =~= switched(
        backends,
        watched,
        failover,
    ));
}

/// The switch keeps the length of the list and every service name in its
/// place; an entry that bears neither name keeps its weight too.
pub proof fn lemma_switch_keeps_names(
    backends: Seq<BackendView>,
    watched: Seq<char>,
    failover: Seq<char>,
)
    ensures
        switched(backends, watched, failover).len() == backends.len(),
        service_names(switched(backends, watched, failover)) == service_names(backends),
        forall|i: int|
            0 <= i < backends.len() && backends[i].service != watched && backends[i].service
                != failover ==> #[trigger] switched(backends, watched, failover)[i] == backends[i],
{
    assert(service_names(switched(backends, watched, failover)) =~= service_names(backends));
}

/// Where no entry bears either name, the switch returns the list unchanged.
pub proof fn lemma_switch_absent_names(
    backends: Seq<BackendView>,
    watched: Seq<char>,
    failover: Seq<char>,
)
    requires
        forall|i: int|
            0 <= i < backends.len() ==> (#[trigger] backends[i]).service != watched
                && backends[i].service != failover,
    ensures
        switched(backends, watched, failover) == backends,
{
    assert(switched(backends, watched, failover) =~= backends);
}

} // verus!
