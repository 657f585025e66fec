//! Routing of logging events to sinks built on demand.
//!
//! A configuration template, whose strings may hold `${mdc(key)}`
//! placeholders, is compiled once. For each event the values of the keys it
//! refers to form a routing key; a cache maps routing keys to shared sink
//! handles, under an idle timeout or a least-recently-used bound. On a miss
//! the template is expanded against the context, and the sink built from it is
//! stored for the next events with the same routing key.
use vstd::prelude::*;

pub mod cache;
pub mod context;
pub mod order;
pub mod parser;
pub mod router;
pub mod template;
pub mod text;
pub mod value;

verus! {

/// The default idle timeout of the cache, in seconds: two minutes.
pub fn idle_time_default() -> (r: u64)
    ensures
        r == 120,
{
    120
}

} // verus!
