//! One tick's totals over all endpoints.
//!
//! Every endpoint is asked for its metrics; one that gives none, or gives
//! something that is no text, adds nothing to the totals and stops nothing.

use vstd::prelude::*;
use vstd::string::StringExecFns;

use crate::errors::FailoverError;
use crate::metrics::{scan_metrics, scrape_of, MetricSample, Scrape};
use crate::text::{add_saturating, saturate};
use crate::totals::{lemma_total_concat, lemma_total_permutation, lemma_total_push, total};

verus! {

/// The totals of one tick over all endpoints.
#[derive(Clone, Copy, Debug, PartialEq, Eq, Structural)]
pub struct AggregateSample {
    pub total_success: u64,
    pub total_failure: u64,
}

/// What was had from one endpoint at one tick.
pub type EndpointOutcome = Result<MetricSample, FailoverError>;

/// The successes that one endpoint adds: its count, or nothing where it
/// failed.
pub open spec fn success_from(outcome: EndpointOutcome) -> nat {
    match outcome {
        Ok(sample) => sample.success as nat,
        Err(_) => 0,
    }
}

/// The failures that one endpoint adds: its count, or nothing where it
/// failed.
pub open spec fn failure_from(outcome: EndpointOutcome) -> nat {
    match outcome {
        Ok(sample) => sample.failure as nat,
        Err(_) => 0,
    }
}

/// The successes of all endpoints together.
pub open spec fn total_success(outcomes: Seq<EndpointOutcome>) -> nat {
    total(outcomes.map_values(|o: EndpointOutcome| success_from(o)))
}

/// The failures of all endpoints together.
pub open spec fn total_failure(outcomes: Seq<EndpointOutcome>) -> nat {
    total(outcomes.map_values(|o: EndpointOutcome| failure_from(o)))
}

/// Where the metrics of an endpoint are to be had.
pub open spec fn metrics_url_of(endpoint: Seq<char>) -> Seq<char> {
    "http://"@ + endpoint + ":4191/metrics"@
}

/// Gives the address at which an endpoint serves its metrics.
pub fn metrics_url(endpoint: &str) -> (url: String)
    ensures
        url@ == metrics_url_of(endpoint@),
{
    let mut url = "http://".to_owned();
    url.append(endpoint);
    url.append(":4191/metrics");
    url
}

/// What an endpoint's answer comes to: a failed fetch where it is no UTF-8
/// text, and what the payload counts otherwise.
pub open spec fn scrape_result(body: Seq<u8>) -> Result<Scrape, FailoverError> {
    if vstd::utf8::valid_utf8(body) {
        Ok(scrape_of(body))
    } else {
        Err(FailoverError::FetchError)
    }
}

/// Tells whether `bytes` are well-formed UTF-8.
///
/// Calls `core::str::from_utf8` and reports whether it accepted the bytes;
/// that it accepts exactly the well-formed UTF-8 strings is taken from its
/// documentation and not proved here.
#[verifier::external_body]
fn is_utf8(bytes: &[u8]) -> (r: bool)
    ensures
        r == vstd::utf8::valid_utf8(bytes@),
{
    core::str::from_utf8(bytes).is_ok()
}

/// Reads what an endpoint answered. An answer that is no UTF-8 text is a
/// failed fetch; any text is read as a metrics payload.
pub fn scrape_body(body: &[u8]) -> (r: Result<Scrape, FailoverError>)
    ensures
        r == scrape_result(body@),
{
    if is_utf8(body) {
        Ok(scan_metrics(body))
    } else {
        Err(FailoverError::FetchError)
    }
}

/// Sums what the endpoints gave at one tick. An endpoint that failed adds
/// nothing.
pub fn aggregate(outcomes: &Vec<EndpointOutcome>) -> (sample: AggregateSample)
    ensures
        sample.total_success == saturate(total_success(outcomes@)),
        sample.total_failure == saturate(total_failure(outcomes@)),
{
    let mut success: u64 = 0;
    let mut failure: u64 = 0;
    let mut i: usize = 0;
    while i < outcomes.len()
        invariant
            i <= outcomes.len(),
            success == saturate(total_success(outcomes@.take(i as int))),
            failure == saturate(total_failure(outcomes@.take(i as int))),
        decreases outcomes.len() - i,
    {
        proof {
            let before = outcomes@.take(i as int);
            let now = outcomes@.take(i + 1);
            let outcome = outcomes@[i as int];
            assert(now =~= before.push(outcome));
            assert(now.map_values(|o: EndpointOutcome| success_from(o)) =~= before.map_values(
                |o: EndpointOutcome| success_from(o),
            ).push(success_from(outcome)));
            assert(now.map_values(|o: EndpointOutcome| failure_from(o)) =~= before.map_values(
                |o: EndpointOutcome| failure_from(o),
            ).push(failure_from(outcome)));
            lemma_total_push(
                before.map_values(|o: EndpointOutcome| success_from(o)),
                success_from(outcome),
            );
            lemma_total_push(
                before.map_values(|o: EndpointOutcome| failure_from(o)),
                failure_from(outcome),
            );
        }
        match &outcomes[i] {
            Ok(sample) => {
                success = add_saturating(success, sample.success);
                failure = add_saturating(failure, sample.failure);
            },
            Err(_) => {},
        }
        i += 1;
    }
    assert(outcomes@.take(i as int) =~= outcomes@);
    AggregateSample { total_success: success, total_failure: failure }
}

/// Endpoints may be summed in groups: the totals of two lists of outcomes
/// put together are the totals of the one plus the totals of the other.
pub proof fn lemma_aggregate_concat(first: Seq<EndpointOutcome>, second: Seq<EndpointOutcome>)
    ensures
        total_success(first + second) == total_success(first) + total_success(second),
        total_failure(first + second) == total_failure(first) + total_failure(second),
{
    let successes = |o: EndpointOutcome| success_from(o);
    let failures = |o: EndpointOutcome| failure_from(o);
    assert((first + second).map_values(successes) =~= first.map_values(successes)
        + second.map_values(successes));
    assert((first + second).map_values(failures) =~= first.map_values(failures)
        + second.map_values(failures));
    lemma_total_concat(first.map_values(successes), second.map_values(successes));
    lemma_total_concat(first.map_values(failures), second.map_values(failures));
}

/// The order of the endpoints does not matter: two lists that hold the same
/// outcomes equally often have the same totals.
pub proof fn lemma_aggregate_permutation(
    first: Seq<EndpointOutcome>,
    second: Seq<EndpointOutcome>,
)
    requires
        first.to_multiset() == second.to_multiset(),
    ensures
        total_success(first) == total_success(second),
        total_failure(first) == total_failure(second),
{
    lemma_total_permutation(first, second, |o: EndpointOutcome| success_from(o));
    lemma_total_permutation(first, second, |o: EndpointOutcome| failure_from(o));
}

} // verus!
