//! Finding the endpoints of the watched service: the query that selects its
//! pods, and the addresses of the pods that have one.
//!
//! Only the first entry of a service's selector is used to find its pods.
//! A service with a selector of several entries is matched more widely than
//! its selector says.

use vstd::prelude::*;
use vstd::string::StringExecFns;

use crate::errors::FailoverError;

verus! {

/// One entry of a service's selector.
#[derive(Clone, Debug)]
pub struct SelectorEntry {
    pub key: String,
    pub value: String,
}

/// What a [`SelectorEntry`] stands for.
pub struct SelectorEntryView {
    pub key: Seq<char>,
    pub value: Seq<char>,
}

impl View for SelectorEntry {
    type V = SelectorEntryView;

    open spec fn view(&self) -> SelectorEntryView {
        SelectorEntryView { key: self.key@, value: self.value@ }
    }
}

/// What is known of a pod's state.
#[derive(Clone, Debug)]
pub struct PodStatusInfo {
    pub pod_ip: Option<String>,
}

/// What is known of a pod.
#[derive(Clone, Debug)]
pub struct PodInfo {
    pub name: Option<String>,
    pub status: Option<PodStatusInfo>,
}

/// The endpoints found among a list of pods.
#[derive(Clone, Debug)]
pub struct Endpoints {
    /// The addresses of the pods that have one, in the order of the pods.
    pub addresses: Vec<String>,
    /// The positions, in the list, of the pods that have none.
    pub skipped: Vec<usize>,
}

/// The query that selects the pods with the entry's label: `key=value`.
pub open spec fn selector_query(entry: SelectorEntryView) -> Seq<char> {
    entry.key + "="@ + entry.value
}

/// The query for a service's pods: that of the first entry of its selector,
/// and a missing selector where the service has none or an empty one.
pub open spec fn query_for(selector: Option<Seq<SelectorEntry>>) -> Result<
    Seq<char>,
    FailoverError,
> {
    match selector {
        Some(entries) => {
            if entries.len() > 0 {
                Ok(selector_query(entries[0]@))
            } else {
                Err(FailoverError::SelectorMissing)
            }
        },
        None => Err(FailoverError::SelectorMissing),
    }
}

/// The address of a pod, if it has a status and an address in it.
pub open spec fn address_of(pod: PodInfo) -> Option<Seq<char>> {
    match pod.status {
        Some(status) => {
            match status.pod_ip {
                Some(address) => Some(address@),
                None => None,
            }
        },
        None => None,
    }
}

/// The addresses of the pods that have one, in the order of the pods.
pub open spec fn addresses_of(pods: Seq<PodInfo>) -> Seq<Seq<char>>
    decreases pods.len(),
{
    if pods.len() == 0 {
        Seq::empty()
    } else {
        match address_of(pods.last()) {
            Some(address) => addresses_of(pods.drop_last()).push(address),
            None => addresses_of(pods.drop_last()),
        }
    }
}

/// The positions of the pods that have no address, in rising order.
pub open spec fn skipped_of(pods: Seq<PodInfo>) -> Seq<usize>
    decreases pods.len(),
{
    if pods.len() == 0 {
        Seq::empty()
    } else {
        match address_of(pods.last()) {
            Some(_) => skipped_of(pods.drop_last()),
            None => skipped_of(pods.drop_last()).push((pods.len() - 1) as usize),
        }
    }
}

/// The texts that a list of strings holds.
pub open spec fn texts(strings: Seq<String>) -> Seq<Seq<char>> {
    strings.map_values(|s: String| s@)
}

/// Every pod is either among the addresses or among the skipped.
pub proof fn lemma_every_pod_accounted(pods: Seq<PodInfo>)
    ensures
        addresses_of(pods).len() + skipped_of(pods).len() == pods.len(),
    decreases pods.len(),
{
    if pods.len() > 0 {
        lemma_every_pod_accounted(pods.drop_last());
    }
}

/// The entries that a selector holds, if there is one.
pub open spec fn entries_of(selector: Option<&Vec<SelectorEntry>>) -> Option<Seq<SelectorEntry>> {
    match selector {
        Some(entries) => Some(entries@),
        None => None,
    }
}

/// Writes the query that selects the pods of a service from its selector.
pub fn label_selector(selector: Option<&Vec<SelectorEntry>>) -> (r: Result<String, FailoverError>)
    ensures
        match r {
            Ok(query) => query_for(entries_of(selector)) == Ok::<Seq<char>, FailoverError>(query@),
            Err(error) => query_for(entries_of(selector)) == Err::<Seq<char>, FailoverError>(error),
        },
{
    match selector {
        Some(entries) => {
            if entries.len() > 0 {
                let mut query = entries[0].key.clone();
                query.append("=");
                query.append(entries[0].value.as_str());
                Ok(query)
            } else {
                Err(FailoverError::SelectorMissing)
            }
        },
        None => Err(FailoverError::SelectorMissing),
    }
}

/// Gives the address of a pod, or says that its status is missing.
pub fn pod_address(pod: &PodInfo) -> (r: Result<&String, FailoverError>)
    ensures
        match r {
            Ok(address) => address_of(*pod) == Some(address@),
            Err(error) => address_of(*pod) is None && error == FailoverError::StatusMissing,
        },
{
    match &pod.status {
        Some(status) => {
            match &status.pod_ip {
                Some(address) => Ok(address),
                None => Err(FailoverError::StatusMissing),
            }
        },
        None => Err(FailoverError::StatusMissing),
    }
}

/// Collects the addresses of the pods that have one, and notes which pods
/// have none.
pub fn endpoint_addresses(pods: &Vec<PodInfo>) -> (found: Endpoints)
    ensures
        texts(found.addresses@) == addresses_of(pods@),
        found.skipped@ == skipped_of(pods@),
        found.addresses@.len() + found.skipped@.len() == pods@.len(),
{
    let mut addresses: Vec<String> = Vec::new();
    let mut skipped: Vec<usize> = Vec::new();
    let mut i: usize = 0;
    while i < pods.len()
        invariant
            i <= pods.len(),
            texts(addresses@) == addresses_of(pods@.take(i as int)),
            skipped@ == skipped_of(pods@.take(i as int)),
        decreases pods.len() - i,
    {
        proof {
            let now = pods@.take(i + 1);
            assert(now.drop_last() =~= pods@.take(i as int));
            assert(now.last() == pods@[i as int]);
        }
        let ghost before = texts(addresses@);
        match pod_address(&pods[i]) {
            Ok(address) => {
                let copy = address.clone();
                addresses.push(copy);
                assert(texts(addresses@) =~= before.push(address@));
            },
            Err(_) => {
                skipped.push(i);
            },
        }
        i += 1;
    }
    proof {
        assert(pods@.take(i as int) =~= pods@);
        lemma_every_pod_accounted(pods@);
        assert(texts(addresses@).len() == addresses@.len());
    }
    Endpoints { addresses, skipped }
}

} // verus!
