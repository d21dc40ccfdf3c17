//! The polling loop's decisions: when a tick's success rate has dropped
//! below the threshold, and what the monitor does then.
//!
//! The success rate of a tick is its successes over its successes and
//! failures together. A tick without any request has no rate, and no rate
//! is never below a threshold.

use vstd::prelude::*;

use crate::aggregate::AggregateSample;

verus! {

/// Seconds between two ticks.
pub const POLL_INTERVAL_SECS: u64 = 5;

/// The lowest success rate that is still good enough, as a fraction.
#[derive(Clone, Copy, Debug)]
pub struct Threshold {
    numerator: u64,
    denominator: u64,
}

/// What a [`Threshold`] stands for: `numerator / denominator`.
pub struct ThresholdView {
    pub numerator: nat,
    pub denominator: nat,
}

impl View for Threshold {
    type V = ThresholdView;

    closed spec fn view(&self) -> ThresholdView {
        ThresholdView { numerator: self.numerator as nat, denominator: self.denominator as nat }
    }
}

/// The rate `success / (success + failure)` is defined and strictly below
/// `numerator / denominator`.
pub open spec fn rate_below(success: nat, failure: nat, threshold: ThresholdView) -> bool {
    success + failure > 0 && success * threshold.denominator < threshold.numerator * (success
        + failure)
}

/// The success rate of a tick is below the threshold.
pub open spec fn breached(sample: AggregateSample, threshold: ThresholdView) -> bool {
    rate_below(sample.total_success as nat, sample.total_failure as nat, threshold)
}

/// Where the monitor stands.
#[derive(Clone, Copy, Debug, PartialEq, Eq, Structural)]
pub enum MonitorState {
    /// Still watching.
    Polling,
    /// The threshold was breached; nothing follows.
    Stopped,
}

/// What the caller is to do after a tick.
#[derive(Clone, Copy, Debug, PartialEq, Eq, Structural)]
pub enum MonitorAction {
    /// Wait that many seconds, then take the next tick.
    Sleep { seconds: u64 },
    /// Stop watching and switch the traffic over.
    Failover,
    /// The monitor had stopped before: there is nothing to do.
    Finished,
}

/// One step of the monitor: a polling monitor stops on a breach and asks for
/// the failover, and otherwise waits for the next tick; a stopped monitor
/// stays stopped.
pub open spec fn step(state: MonitorState, breach: bool) -> (MonitorState, MonitorAction) {
    match state {
        MonitorState::Polling => {
            if breach {
                (MonitorState::Stopped, MonitorAction::Failover)
            } else {
                (MonitorState::Polling, MonitorAction::Sleep { seconds: POLL_INTERVAL_SECS })
            }
        },
        MonitorState::Stopped => (MonitorState::Stopped, MonitorAction::Finished),
    }
}

/// Where the monitor stands after a run of ticks.
pub open spec fn run(
    state: MonitorState,
    samples: Seq<AggregateSample>,
    threshold: ThresholdView,
) -> MonitorState
    decreases samples.len(),
{
    if samples.len() == 0 {
        state
    } else {
        step(run(state, samples.drop_last(), threshold), breached(samples.last(), threshold)).0
    }
}

impl Threshold {
    #[verifier::type_invariant]
    spec fn well_formed(self) -> bool {
        self.denominator > 0
    }

    /// The threshold `numerator / denominator`. There is none with a zero
    /// denominator.
    pub fn new(numerator: u64, denominator: u64) -> (r: Option<Threshold>)
        ensures
            r is Some <==> denominator > 0,
            r matches Some(threshold) ==> threshold@ == (ThresholdView {
                numerator: numerator as nat,
                denominator: denominator as nat,
            }),
    {
        if denominator == 0 {
            None
        } else {
            Some(Threshold { numerator, denominator })
        }
    }

    /// The number above the line.
    pub fn numerator(&self) -> (n: u64)
        ensures
            n == self@.numerator,
    {
        self.numerator
    }

    /// The number below the line, never zero.
    pub fn denominator(&self) -> (d: u64)
        ensures
            d == self@.denominator,
            d > 0,
    {
        proof {
            use_type_invariant(self);
        }
        self.denominator
    }
}

/// Tells whether a tick's success rate is below the threshold. A tick
/// without requests never is.
pub fn breaches(sample: &AggregateSample, threshold: &Threshold) -> (r: bool)
    ensures
        r == breached(*sample, threshold@),
{
    let success = sample.total_success as u128;
    let failure = sample.total_failure as u128;
    let numerator = threshold.numerator() as u128;
    let denominator = threshold.denominator() as u128;
    if success + failure == 0 {
        false
    } else if numerator > denominator {
        proof {
            lemma_rate_at_most_one(success as nat, failure as nat, threshold@);
        }
        true
    } else {
        let room = denominator - numerator;
        proof {
            lemma_products_fit(success as nat, room as nat);
            lemma_products_fit(numerator as nat, failure as nat);
            lemma_rate_by_difference(success as nat, failure as nat, threshold@);
        }
        success * room < numerator * failure
    }
}

/// Takes one tick: says where the monitor stands afterwards and what the
/// caller is to do.
pub fn tick(state: MonitorState, sample: &AggregateSample, threshold: &Threshold) -> (r: (
    MonitorState,
    MonitorAction,
))
    ensures
        r == step(state, breached(*sample, threshold@)),
{
    match state {
        MonitorState::Polling => {
            if breaches(sample, threshold) {
                (MonitorState::Stopped, MonitorAction::Failover)
            } else {
                (MonitorState::Polling, MonitorAction::Sleep { seconds: POLL_INTERVAL_SECS })
            }
        },
        MonitorState::Stopped => (MonitorState::Stopped, MonitorAction::Finished),
    }
}

/// The product of two 64-bit numbers fits in 128 bits.
proof fn lemma_products_fit(a: nat, b: nat)
    requires
        a <= u64::MAX,
        b <= u64::MAX,
    ensures
        a * b <= u128::MAX,
{
    assert(a * b <= 0xffff_ffff_ffff_ffff * 0xffff_ffff_ffff_ffff) by (nonlinear_arith)
        requires
            a <= 0xffff_ffff_ffff_ffff,
            b <= 0xffff_ffff_ffff_ffff,
    ;
}

/// A rate is at most one: a threshold above one has every defined rate
/// below it.
pub proof fn lemma_rate_at_most_one(success: nat, failure: nat, threshold: ThresholdView)
    requires
        success + failure > 0,
        threshold.numerator > threshold.denominator,
    ensures
        rate_below(success, failure, threshold),
{
    assert(success * threshold.denominator < threshold.numerator * (success + failure))
        by (nonlinear_arith)
        requires
            success + failure > 0,
            threshold.numerator > threshold.denominator,
    ;
}

/// For a threshold of at most one, the rate is below it exactly where the
/// successes times what the threshold leaves to one are fewer than the
/// failures times the threshold.
pub proof fn lemma_rate_by_difference(success: nat, failure: nat, threshold: ThresholdView)
    requires
        success + failure > 0,
        threshold.numerator <= threshold.denominator,
    ensures
        rate_below(success, failure, threshold) <==> success * (threshold.denominator
            - threshold.numerator) < threshold.numerator * failure,
{
    let n = threshold.numerator as int;
    let d = threshold.denominator as int;
    let s = success as int;
    let f = failure as int;
    assert(s * (d - n) == s * d - s * n) by (nonlinear_arith);
    assert(n * (s + f) == s * n + n * f) by (nonlinear_arith);
}

/// A tick without requests never breaches a threshold.
pub proof fn lemma_no_traffic_no_breach(threshold: ThresholdView)
    ensures
        !breached(AggregateSample { total_success: 0, total_failure: 0 }, threshold),
{
}

/// A monitor that has stopped stays stopped, whatever the ticks bring.
pub proof fn lemma_stopped_is_terminal(samples: Seq<AggregateSample>, threshold: ThresholdView)
    ensures
        run(MonitorState::Stopped, samples, threshold) == MonitorState::Stopped,
    decreases samples.len(),
{
    if samples.len() > 0 {
        lemma_stopped_is_terminal(samples.drop_last(), threshold);
    }
}

/// The monitor keeps polling exactly as long as no tick breaches the
/// threshold, and is stopped from the first breach on.
pub proof fn lemma_stops_at_first_breach(samples: Seq<AggregateSample>, threshold: ThresholdView)
    ensures
        run(MonitorState::Polling, samples, threshold) == MonitorState::Stopped <==> exists|
            i: int,
        |
            0 <= i < samples.len() && breached(#[trigger] samples[i], threshold),
    decreases samples.len(),
{
    if samples.len() > 0 {
        let before = samples.drop_last();
        lemma_stops_at_first_breach(before, threshold);
        if run(MonitorState::Polling, samples, threshold) == MonitorState::Stopped {
            if breached(samples.last(), threshold) {
                assert(breached(samples[samples.len() - 1], threshold));
            } else {
                let i = choose|i: int| 0 <= i < before.len() && breached(#[trigger] before[i], threshold);
                assert(breached(samples[i], threshold));
            }
        }
        if exists|i: int| 0 <= i < samples.len() && breached(#[trigger] samples[i], threshold) {
            let i = choose|i: int| 0 <= i < samples.len() && breached(#[trigger] samples[i], threshold);
            if i < before.len() {
                assert(breached(before[i], threshold));
            }
        }
    }
}

} // verus!
