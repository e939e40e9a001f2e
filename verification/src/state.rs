//! The durable state of the engine.

use crate::mode::Mode;
use crate::stats::MonStats;
use crate::tally::{Counts, Name};
use vstd::prelude::*;

verus! {

/// The engine's durable state as mathematics.
pub struct StateView {
    /// Cumulative count of creature detections ever recorded.
    pub encounters: nat,
    /// The names detected on the most recent entry into an encounter.
    pub last_encounter: Seq<Name>,
    /// The current phase.
    pub mode: Mode,
    /// How often each species was recorded.
    pub mon_stats: Counts,
}

/// The engine's durable state: one value, owned by the caller and handed to
/// each polling cycle.
#[derive(Debug)]
pub struct EncounterState {
    pub encounters: u32,
    pub last_encounter: Vec<String>,
    pub mode: Mode,
    pub mon_stats: MonStats,
}

/// The state of a fresh session: nothing recorded, phase `Init`.
pub open spec fn initial_state() -> StateView {
    StateView {
        encounters: 0,
        last_encounter: Seq::empty(),
        mode: Mode::Init,
        mon_stats: Map::empty(),
    }
}

impl View for EncounterState {
    type V = StateView;

    open spec fn view(&self) -> StateView {
        StateView {
            encounters: self.encounters as nat,
            last_encounter: self.last_encounter.deep_view(),
            mode: self.mode,
            mon_stats: self.mon_stats@,
        }
    }
}

impl Default for EncounterState {
    /// The state of a fresh session.
    fn default() -> (state: EncounterState)
        ensures
            state@ == initial_state(),
    {
        let state = EncounterState {
            encounters: 0,
            last_encounter: Vec::new(),
            mode: Mode::Init,
            mon_stats: MonStats::new(),
        };
        assert(state.last_encounter.deep_view() =~= Seq::<Name>::empty());
        state
    }
}

} // verus!
