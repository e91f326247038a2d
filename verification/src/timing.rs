//! Per-stage build timings: the on/off switch.
//!
//! Timings are off by default. They are turned on by the `TACHIOM_TIMINGS`
//! environment variable (any value other than `0`, `false` or the empty string),
//! which is consulted on the first query only, or explicitly with [`set_enabled`],
//! which overrides the variable.

use vstd::prelude::*;

verus! {

/// The three states of the timing switch.
#[derive(Clone, Copy, Debug, PartialEq, Eq, Structural)]
pub enum TimingSwitch {
    /// Neither set explicitly nor resolved from the environment yet.
    Unset,
    /// Timings are not reported.
    Off,
    /// Timings are reported.
    On,
}

/// The timing switch as a value: the process-wide copy of it lives with the caller.
#[derive(Clone, Copy, Debug)]
pub struct TimingState {
    pub switch: TimingSwitch,
}

/// Whether the value of `TACHIOM_TIMINGS` (its bytes, as the platform encodes them)
/// turns timings on: any value other than the empty string, `0` or `false` does.
pub open spec fn env_value_enables(value: Seq<u8>) -> bool {
    !(value == Seq::<u8>::empty() || value == seq![48u8] || value == seq![102u8, 97u8, 108u8, 115u8, 101u8])
}

/// What `TACHIOM_TIMINGS` decides: an absent variable leaves timings off; a present one
/// turns them on unless it is empty, `0` or `false` (a value that is not Unicode turns
/// them on).
pub open spec fn env_enables(value: Option<Seq<u8>>) -> bool {
    match value {
        Some(v) => env_value_enables(v),
        None => false,
    }
}

pub open spec fn switch_for(on: bool) -> TimingSwitch {
    if on { TimingSwitch::On } else { TimingSwitch::Off }
}

/// A query of the switch in state `switch`, with `TACHIOM_TIMINGS` holding `env`:
/// whether timings are on, and the state afterwards.
pub open spec fn query_switch(switch: TimingSwitch, env: Option<Seq<u8>>) -> (bool, TimingSwitch) {
    match switch {
        TimingSwitch::Unset => (env_enables(env), switch_for(env_enables(env))),
        TimingSwitch::On => (true, TimingSwitch::On),
        TimingSwitch::Off => (false, TimingSwitch::Off),
    }
}

/// Setting the switch overrides the environment: whatever `TACHIOM_TIMINGS` holds,
/// a query after `set_enabled(enabled)` answers `enabled` and leaves the switch as set.
pub proof fn lemma_set_enabled_overrides(enabled: bool, env: Option<Seq<u8>>)
    ensures
        query_switch(switch_for(enabled), env) == (enabled, switch_for(enabled)),
{
}

/// The environment is consulted once: after the first query, later queries answer as
/// the first did, whatever the environment holds then.
pub proof fn lemma_first_query_decides(first: Option<Seq<u8>>, later: Option<Seq<u8>>)
    ensures
        ({
            let (on, after) = query_switch(TimingSwitch::Unset, first);
            query_switch(after, later) == (on, after)
        }),
{
}

/// Timings are off unless the environment turns them on.
pub proof fn lemma_off_by_default()
    ensures
        query_switch(TimingSwitch::Unset, None).0 == false,
        query_switch(TimingSwitch::Unset, Some(Seq::<u8>::empty())).0 == false,
{
}

impl TimingState {
    /// A switch that has not been set or resolved yet.
    pub fn new() -> (s: Self)
        ensures
            s.switch == TimingSwitch::Unset,
    {
        TimingState { switch: TimingSwitch::Unset }
    }
}

/// Turn stage timings on or off, overriding `TACHIOM_TIMINGS`.
pub fn set_enabled(state: &mut TimingState, enabled: bool)
    ensures
        final(state).switch == switch_for(enabled),
{
    state.switch = if enabled { TimingSwitch::On } else { TimingSwitch::Off };
}

fn bytes_equal(a: &[u8], b: &[u8]) -> (eq: bool)
    ensures
        eq == (a@ == b@),
{
    if a.len() != b.len() {
        return false;
    }
    let mut i: usize = 0;
    while i < a.len()
        invariant
            a@.len() == b@.len(),
            0 <= i <= a@.len(),
            forall|j: int| 0 <= j < i ==> a@[j] == b@[j],
        decreases a@.len() - i,
    {
        if a[i] != b[i] {
            return false;
        }
        i = i + 1;
    }
    assert(a@ =~= b@);
    true
}

/// Whether the value of `TACHIOM_TIMINGS`, given by its bytes, turns timings on.
pub fn env_value_turns_on(value: &[u8]) -> (on: bool)
    ensures
        on == env_value_enables(value@),
{
    let bytes = value;
    let zero: [u8; 1] = [48u8];
    let no: [u8; 5] = [102u8, 97u8, 108u8, 115u8, 101u8];
    let is_zero = bytes_equal(bytes, zero.as_slice());
    let is_false = bytes_equal(bytes, no.as_slice());
    assert(zero@ =~= seq![48u8]);
    assert(no@ =~= seq![102u8, 97u8, 108u8, 115u8, 101u8]);
    if bytes.len() == 0 {
        assert(value@ =~= Seq::<u8>::empty());
    }
    !(bytes.len() == 0 || is_zero || is_false)
}

/// Whether stage timings are currently reported.
///
/// On the first query (the switch still unset) the value of `TACHIOM_TIMINGS`,
/// `env_value` (its bytes; `None` when the variable is absent), decides, and the
/// decision is recorded; afterwards `env_value` is not consulted.
pub fn enabled(state: &mut TimingState, env_value: Option<&[u8]>) -> (on: bool)
    ensures
        (on, final(state).switch) == query_switch(old(state).switch, match env_value {
            Some(v) => Some(v@),
            None => None,
        }),
{
    match state.switch {
        TimingSwitch::Unset => {
            let on = match env_value {
                Some(v) => env_value_turns_on(v),
                None => false,
            };
            state.switch = if on { TimingSwitch::On } else { TimingSwitch::Off };
            on
        },
        TimingSwitch::On => true,
        TimingSwitch::Off => false,
    }
}

} // verus!
