//! Laws of a run: how often it writes to the log.

use vstd::prelude::*;

use crate::cycle::{next, writes, writes_left, Cycle, Event, Phase, Step};
use crate::setting::Config;

verus! {

/// A step that writes uses up one of the writes that are left, and no step adds to them.
pub proof fn lemma_step_uses_write(config: &Config, state: Cycle, event: &Event)
    ensures
        ({
            let (after, step) = next(config, state, event);
            writes_left(config, after) + (if step == Step::Write {
                1nat
            } else {
                0nat
            }) <= writes_left(config, state)
        }),
{
}

/// From any state, a run writes no more often than cycles remain, whatever happens outside.
pub proof fn law_writes_bounded(config: &Config, state: Cycle, events: Seq<Event>)
    ensures
        writes(config, state, events) <= writes_left(config, state),
    decreases events.len(),
{
    if events.len() > 0 {
        let (after, step) = next(config, state, &events.first());
        lemma_step_uses_write(config, state, &events.first());
        law_writes_bounded(config, after, events.drop_first());
    }
}

/// A new run writes at most `iteration` times.
pub proof fn law_run_writes_at_most_iteration(config: &Config, events: Seq<Event>)
    ensures
        writes(config, Cycle { completed: 0, phase: Phase::Ready }, events) <= config.iteration,
{
    law_writes_bounded(config, Cycle { completed: 0, phase: Phase::Ready }, events);
}

/// With no iterations configured nothing is ever written: the log stays as it is.
pub proof fn law_no_iteration_no_write(config: &Config, state: Cycle, events: Seq<Event>)
    requires
        config.iteration == 0,
    ensures
        writes(config, state, events) == 0,
{
    law_writes_bounded(config, state, events);
}

} // verus!
