//! The encounter state machine: folds the observations of one polling cycle
//! into the durable state.

use crate::mode::Mode;
use crate::state::{initial_state, EncounterState, StateView};
use crate::tally::{
    count_of, counts_fit, lemma_tally_grows, lemma_tally_step, lemma_tally_sum, sum_counts, tally,
    Name,
};
use vstd::prelude::*;

verus! {

/// One more than the frames that a polling cycle samples.
pub const ENCOUNTER_DETECT_FRAMES: usize = 4;

/// Pause after the frames of one polling cycle, in milliseconds.
pub const SLEEP_TIME_MS: u64 = 400;

/// What one frame showed: the candidate names found in it, in order.
pub type Observation = Seq<Name>;

/// No frame of the cycle showed a name.
pub open spec fn none_seen(frames: Seq<Observation>) -> bool {
    forall|i: int| 0 <= i < frames.len() ==> (#[trigger] frames[i]).len() == 0
}

/// The observation a cycle acts on: the longest one that is not empty, and
/// among several of that length the latest. Empty where no frame showed a
/// name.
pub open spec fn longest(frames: Seq<Observation>) -> Observation
    decreases frames.len(),
{
    if frames.len() == 0 {
        Seq::empty()
    } else {
        let earlier = longest(frames.drop_last());
        let last = frames.last();
        if last.len() > 0 && last.len() >= earlier.len() {
            last
        } else {
            earlier
        }
    }
}

/// `at` is the frame a cycle acts on: it showed a name, no frame showed
/// more names, and every later frame showed fewer.
pub open spec fn is_pick(frames: Seq<Observation>, at: int) -> bool {
    &&& 0 <= at < frames.len()
    &&& frames[at].len() > 0
    &&& forall|i: int| 0 <= i < frames.len() ==> (#[trigger] frames[i]).len() <= frames[at].len()
    &&& forall|i: int| at < i < frames.len() ==> (#[trigger] frames[i]).len() < frames[at].len()
}

/// The state after one polling cycle that sampled `frames`.
///
/// In `Encounter` the machine returns to `Walk` only if every frame was
/// empty. In `Walk` it enters `Encounter` if any frame showed a name, and
/// records the longest observation. `Init` and `Pause` change nothing.
pub open spec fn after_cycle(state: StateView, frames: Seq<Observation>) -> StateView {
    match state.mode {
        Mode::Encounter => if none_seen(frames) {
            StateView {
                encounters: state.encounters,
                last_encounter: state.last_encounter,
                mode: Mode::Walk,
                mon_stats: state.mon_stats,
            }
        } else {
            state
        },
        Mode::Walk => if none_seen(frames) {
            state
        } else {
            StateView {
                encounters: state.encounters + longest(frames).len(),
                last_encounter: longest(frames),
                mode: Mode::Encounter,
                mon_stats: tally(state.mon_stats, longest(frames)),
            }
        },
        Mode::Init | Mode::Pause => state,
    }
}

/// Every counter of the state fits the machine's counter width.
pub open spec fn fits(state: StateView) -> bool {
    state.encounters <= u32::MAX && counts_fit(state.mon_stats)
}

/// The failure of a polling cycle to record its observation.
#[derive(Clone, Copy, Debug, PartialEq, Eq)]
pub enum EncounterError {
    /// A counter would exceed the largest value it can hold.
    CounterOverflow,
}

/// What the caller has to do around one polling cycle.
#[derive(Clone, Copy, Debug, PartialEq, Eq)]
pub struct CyclePlan {
    /// Frames to capture and read, one after the other.
    pub frames: usize,
    /// Pause after the last frame, in milliseconds.
    pub sleep_millis: u64,
    /// Whether the state is written to its file when the cycle is over.
    pub persist: bool,
}

/// The plan of a cycle that starts in `mode`: nothing to sample in `Init`
/// and `Pause`, else one frame fewer than `ENCOUNTER_DETECT_FRAMES` and
/// then the pause. The state is written after every cycle.
pub open spec fn plan_of(mode: Mode) -> CyclePlan {
    if mode.is_sampling() {
        CyclePlan {
            frames: (ENCOUNTER_DETECT_FRAMES - 1) as usize,
            sleep_millis: SLEEP_TIME_MS,
            persist: true,
        }
    } else {
        CyclePlan { frames: 0, sleep_millis: 0, persist: true }
    }
}

/// Plans the cycle that starts in `mode`.
pub fn plan_cycle(mode: Mode) -> (plan: CyclePlan)
    ensures
        plan == plan_of(mode),
{
    if mode.samples() {
        CyclePlan { frames: ENCOUNTER_DETECT_FRAMES - 1, sleep_millis: SLEEP_TIME_MS, persist: true }
    } else {
        CyclePlan { frames: 0, sleep_millis: 0, persist: true }
    }
}

/// Picks the frame whose observation the cycle acts on, if any frame
/// showed a name.
pub fn pick_longest(frames: &Vec<Vec<String>>) -> (pick: Option<usize>)
    ensures
        pick is None <==> none_seen(frames.deep_view()),
        pick matches Some(at) ==> is_pick(frames.deep_view(), at as int)
            && frames[at as int].deep_view() == longest(frames.deep_view()),
{
    let ghost all = frames.deep_view();
    let mut best: Option<usize> = None;
    let mut next: usize = 0;
    while next < frames.len()
        invariant
            next <= frames.len(),
            all == frames.deep_view(),
            match best {
                Some(at) => is_pick(all.take(next as int), at as int) && frames[at as int].deep_view()
                    == longest(all.take(next as int)),
                None => none_seen(all.take(next as int)) && longest(all.take(next as int)).len()
                    == 0,
            },
        decreases frames.len() - next,
    {
        let seen = frames[next].len();
        let better = match best {
            Some(at) => seen > 0 && seen >= frames[at].len(),
            None => seen > 0,
        };
        proof {
            let upto = all.take(next + 1);
            assert(upto.drop_last() =~= all.take(next as int));
            assert(upto.last() == frames[next as int].deep_view());
            match best {
                None => {
                    lemma_pick_starts(upto);
                },
                Some(at) => {
                    lemma_pick_extends(upto, at as int);
                    assert(upto[at as int] == frames[at as int].deep_view());
                },
            }
        }
        if better {
            best = Some(next);
        }
        next += 1;
    }
    proof {
        assert(all.take(next as int) =~= all);
        if let Some(at) = best {
            assert(all[at as int].len() > 0);
        }
    }
    best
}

/// Folds the observations of one polling cycle into the state.
///
/// Succeeds exactly where every counter of the resulting state fits; the
/// state is then the one `after_cycle` describes. Where a counter would
/// overflow, nothing is changed.
pub fn encounter_process(state: &mut EncounterState, frames: &Vec<Vec<String>>) -> (result: Result<
    (),
    EncounterError,
>)
    ensures
        result is Ok <==> fits(after_cycle(old(state)@, frames.deep_view())),
        result is Ok ==> final(state)@ == after_cycle(old(state)@, frames.deep_view()),
        result is Err ==> *final(state) == *old(state),
        final(state).encounters >= old(state).encounters,
{
    proof {
        state.mon_stats.lemma_shape();
    }
    match state.mode {
        Mode::Encounter => {
            if pick_longest(frames).is_none() {
                state.mode = Mode::Walk;
            }
            Ok(())
        },
        Mode::Walk => {
            match pick_longest(frames) {
                None => Ok(()),
                Some(at) => {
                    let chosen = &frames[at];
                    let ghost names = chosen.deep_view();
                    let ghost counts = state.mon_stats@;
                    let seen = chosen.len();
                    if seen > (u32::MAX - state.encounters) as usize {
                        return Err(EncounterError::CounterOverflow);
                    }
                    let mut stats = state.mon_stats.clone();
                    let mut done: usize = 0;
                    while done < seen
                        invariant
                            done <= seen == chosen.len(),
                            *state == *old(state),
                            state.mode == Mode::Walk,
                            counts == state.mon_stats@,
                            names == chosen.deep_view(),
                            names == longest(frames.deep_view()),
                            !none_seen(frames.deep_view()),
                            stats@ == tally(counts, names.take(done as int)),
                        decreases seen - done,
                    {
                        proof {
                            lemma_tally_step(counts, names, done as int);
                            lemma_tally_grows(counts, names, done + 1, names[done as int]);
                        }
                        if !stats.record(chosen[done].as_str()) {
                            proof {
                                let name = names[done as int];
                                assert(count_of(tally(counts, names), name) > u32::MAX);
                                assert(tally(counts, names)[name] > u32::MAX);
                            }
                            return Err(EncounterError::CounterOverflow);
                        }
                        done += 1;
                    }
                    proof {
                        assert(names.take(done as int) =~= names);
                        stats.lemma_shape();
                    }
                    state.encounters = state.encounters + seen as u32;
                    state.last_encounter = chosen.clone();
                    state.mode = Mode::Encounter;
                    state.mon_stats = stats;
                    assert(state.last_encounter.deep_view() =~= names);
                    Ok(())
                },
            }
        },
        Mode::Init | Mode::Pause => Ok(()),
    }
}

/// A cycle whose earlier frames showed no name: its last frame is the
/// pick if it showed one, and else no frame showed a name.
pub proof fn lemma_pick_starts(frames: Seq<Observation>)
    requires
        frames.len() > 0,
        none_seen(frames.drop_last()),
    ensures
        frames.last().len() > 0 ==> is_pick(frames, frames.len() - 1),
        frames.last().len() == 0 ==> none_seen(frames),
{
    let front = frames.drop_last();
    assert forall|i: int| 0 <= i < frames.len() - 1 implies (#[trigger] frames[i]).len() == 0 by {
        assert(front[i].len() == 0);
    }
}

/// A cycle whose earlier frames have a pick: its last frame is the pick if
/// it showed no fewer names, and else the pick stays.
pub proof fn lemma_pick_extends(frames: Seq<Observation>, at: int)
    requires
        frames.len() > 0,
        is_pick(frames.drop_last(), at),
    ensures
        frames.last().len() >= frames[at].len() ==> is_pick(frames, frames.len() - 1),
        frames.last().len() < frames[at].len() ==> is_pick(frames, at),
{
    let front = frames.drop_last();
    assert(front[at] == frames[at]);
    assert forall|i: int| 0 <= i < frames.len() - 1 implies (#[trigger] frames[i]).len()
        <= frames[at].len() by {
        assert(front[i].len() <= front[at].len());
    }
    assert forall|i: int| at < i < frames.len() - 1 implies (#[trigger] frames[i]).len()
        < frames[at].len() by {
        assert(front[i].len() < front[at].len());
    }
}

/// Where no frame showed a name the chosen observation is empty; otherwise
/// it is the observation of the frame that is the pick.
pub proof fn lemma_longest_is_a_pick(frames: Seq<Observation>)
    ensures
        none_seen(frames) ==> longest(frames).len() == 0,
        !none_seen(frames) ==> exists|at: int|
            is_pick(frames, at) && #[trigger] frames[at] == longest(frames),
    decreases frames.len(),
{
    if frames.len() > 0 {
        let front = frames.drop_last();
        let top = frames.len() - 1;
        lemma_longest_is_a_pick(front);
        if none_seen(front) {
            lemma_pick_starts(frames);
            if frames.last().len() > 0 {
                assert(frames[top] == longest(frames));
                assert(!none_seen(frames));
            }
        } else {
            let before = choose|at: int| is_pick(front, at) && #[trigger] front[at] == longest(front);
            lemma_pick_extends(frames, before);
            assert(front[before] == frames[before]);
            if frames.last().len() >= frames[before].len() {
                assert(frames[top] == longest(frames));
            } else {
                assert(frames[before] == longest(frames));
            }
            assert(!none_seen(frames)) by {
                if none_seen(frames) {
                    assert(frames[before].len() == 0);
                }
            }
        }
    }
}

/// The pick is unique: the chosen observation is the one of any frame that
/// is the pick.
pub proof fn lemma_pick_is_longest(frames: Seq<Observation>, at: int)
    requires
        is_pick(frames, at),
    ensures
        longest(frames) == frames[at],
        !none_seen(frames),
{
    lemma_longest_is_a_pick(frames);
    if none_seen(frames) {
        assert(frames[at].len() == 0);
    }
    let other = choose|other: int| is_pick(frames, other) && #[trigger] frames[other] == longest(frames);
    if other < at {
        assert(frames[at].len() < frames[other].len());
        assert(frames[other].len() <= frames[at].len());
    } else if at < other {
        assert(frames[other].len() < frames[at].len());
        assert(frames[at].len() <= frames[other].len());
    }
}

/// An encounter ends only when every frame of the cycle was empty: one
/// frame that showed a name keeps the machine in `Encounter`. Nothing but
/// the phase changes.
pub proof fn lemma_encounter_ends_when_all_empty(state: StateView, frames: Seq<Observation>)
    requires
        state.mode == Mode::Encounter,
    ensures
        none_seen(frames) ==> after_cycle(state, frames).mode == Mode::Walk,
        !none_seen(frames) ==> after_cycle(state, frames).mode == Mode::Encounter,
        after_cycle(state, frames).encounters == state.encounters,
        after_cycle(state, frames).last_encounter == state.last_encounter,
        after_cycle(state, frames).mon_stats == state.mon_stats,
{
}

/// An encounter starts as soon as any frame of the cycle showed a name,
/// and what is recorded is the pick: `encounters` grows by the number of
/// its names, `last_encounter` becomes the pick, and every name of it is
/// counted once for each time it occurs. Without a name nothing changes.
pub proof fn lemma_encounter_starts_with_any_frame(state: StateView, frames: Seq<Observation>)
    requires
        state.mode == Mode::Walk,
    ensures
        none_seen(frames) ==> after_cycle(state, frames) == state,
        !none_seen(frames) ==> {
            let next = after_cycle(state, frames);
            &&& next.mode == Mode::Encounter
            &&& next.last_encounter == longest(frames)
            &&& next.encounters == state.encounters + longest(frames).len()
            &&& next.encounters > state.encounters
            &&& next.mon_stats == tally(state.mon_stats, longest(frames))
            &&& exists|at: int| is_pick(frames, at) && #[trigger] frames[at] == longest(frames)
        },
{
    lemma_longest_is_a_pick(frames);
}

/// `Init` and `Pause` are sticky: a cycle that starts in either samples no
/// frame and leaves the state as it is, whatever is handed to it; the
/// state is written all the same.
pub proof fn lemma_idle_is_sticky(state: StateView, frames: Seq<Observation>)
    requires
        state.mode == Mode::Pause || state.mode == Mode::Init,
    ensures
        plan_of(state.mode).frames == 0,
        plan_of(state.mode).persist,
        after_cycle(state, frames) == state,
{
}

/// The state never loses an encounter in a cycle.
pub proof fn lemma_cycle_never_forgets(state: StateView, frames: Seq<Observation>)
    ensures
        after_cycle(state, frames).encounters >= state.encounters,
{
}

/// The counters are in balance: the per-species counts sum to `encounters`.
pub open spec fn balanced(state: StateView) -> bool {
    state.mon_stats.dom().finite() && sum_counts(state.mon_stats) == state.encounters
}

/// A fresh session starts in balance.
pub proof fn lemma_initial_state_is_balanced()
    ensures
        balanced(initial_state()),
{
    assert(initial_state().mon_stats.dom() =~= Set::<Name>::empty());
}

/// A cycle keeps the counters in balance.
pub proof fn lemma_cycle_keeps_balance(state: StateView, frames: Seq<Observation>)
    requires
        balanced(state),
    ensures
        balanced(after_cycle(state, frames)),
{
    lemma_tally_sum(state.mon_stats, longest(frames));
}

/// One polling cycle as the machine sees it: the phase that an outside
/// actor set before it, if any, and the observations of its frames.
pub struct CycleInput {
    pub forced_mode: Option<Mode>,
    pub frames: Seq<Observation>,
}

/// The state at the start of a cycle: as the cycle before left it, in the
/// phase that an outside actor set since, if any.
pub open spec fn entering(state: StateView, forced_mode: Option<Mode>) -> StateView {
    match forced_mode {
        Some(mode) => StateView {
            encounters: state.encounters,
            last_encounter: state.last_encounter,
            mode,
            mon_stats: state.mon_stats,
        },
        None => state,
    }
}

/// The state after a sequence of polling cycles.
pub open spec fn after_cycles(state: StateView, cycles: Seq<CycleInput>) -> StateView
    decreases cycles.len(),
{
    if cycles.len() == 0 {
        state
    } else {
        let cycle = cycles.last();
        after_cycle(entering(after_cycles(state, cycles.drop_last()), cycle.forced_mode), cycle.frames)
    }
}

/// `encounters` never decreases across any sequence of cycles: after more
/// cycles it is at least what it was after fewer.
pub proof fn lemma_encounters_never_decrease(state: StateView, cycles: Seq<CycleInput>, fewer: int)
    requires
        0 <= fewer <= cycles.len(),
    ensures
        state.encounters <= after_cycles(state, cycles.take(fewer)).encounters,
        after_cycles(state, cycles.take(fewer)).encounters <= after_cycles(state, cycles).encounters,
    decreases cycles.len(),
{
    if cycles.len() == 0 {
        assert(cycles.take(fewer) =~= cycles);
    } else if fewer == cycles.len() {
        assert(cycles.take(fewer) =~= cycles);
        lemma_encounters_never_decrease(state, cycles.drop_last(), 0);
    } else {
        lemma_encounters_never_decrease(state, cycles.drop_last(), fewer);
        assert(cycles.drop_last().take(fewer) =~= cycles.take(fewer));
    }
}

/// Any sequence of cycles keeps the counters in balance.
pub proof fn lemma_cycles_keep_balance(state: StateView, cycles: Seq<CycleInput>)
    requires
        balanced(state),
    ensures
        balanced(after_cycles(state, cycles)),
    decreases cycles.len(),
{
    if cycles.len() > 0 {
        let cycle = cycles.last();
        lemma_cycles_keep_balance(state, cycles.drop_last());
        lemma_cycle_keeps_balance(
            entering(after_cycles(state, cycles.drop_last()), cycle.forced_mode),
            cycle.frames,
        );
    }
}

} // verus!
