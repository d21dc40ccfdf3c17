//! Failover decisions for a service-mesh traffic split.
//!
//! The crate watches the success rate of a service through the request
//! counters of its pods and, once the rate drops below a threshold, moves
//! all traffic of a traffic split to a failover service. It decides and
//! computes; asking the platform and the pods is left to the caller.
//!
//! * [`resolver`]: the query for the pods of the watched service, and their
//!   addresses.
//! * [`record`] and [`metrics`]: what a metrics payload counts.
//! * [`aggregate`]: one tick's totals over all endpoints.
//! * [`monitor`]: whether a tick breaches the threshold, and what follows.
//! * [`backends`] and [`gateway`]: the switch of the backends' weights, and
//!   the update that carries it.
//! * [`errors`]: what can go wrong, and what ends the run.
//! * [`text`] and [`totals`]: bytes, numbers and sums.

pub mod aggregate;
pub mod backends;
pub mod errors;
pub mod gateway;
pub mod metrics;
pub mod monitor;
pub mod record;
pub mod resolver;
pub mod text;
pub mod totals;
