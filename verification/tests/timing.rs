use tachiom::timing::{enabled, env_value_turns_on, set_enabled, TimingState, TimingSwitch};

#[test]
fn environment_decides_on_first_query() {
    let mut state = TimingState::new();
    assert!(enabled(&mut state, Some(&b"1"[..])));
    assert_eq!(state.switch, TimingSwitch::On);
    assert!(enabled(&mut state, Some(&b"0"[..])));
    assert!(enabled(&mut state, None));
}

#[test]
fn off_by_default() {
    let mut state = TimingState::new();
    assert!(!enabled(&mut state, None));
    assert!(!enabled(&mut state, Some(&b"1"[..])));
}

#[test]
fn set_enabled_overrides_environment() {
    let mut state = TimingState::new();
    set_enabled(&mut state, false);
    assert!(!enabled(&mut state, Some(&b"1"[..])));
    set_enabled(&mut state, true);
    assert!(enabled(&mut state, Some(&b"0"[..])));
}

#[test]
fn values_that_turn_timings_off() {
    assert!(!env_value_turns_on(b""));
    assert!(!env_value_turns_on(b"0"));
    assert!(!env_value_turns_on(b"false"));
    assert!(env_value_turns_on(b"FALSE"));
    assert!(env_value_turns_on(b"yes"));
    assert!(env_value_turns_on(b"00"));
}

#[test]
fn a_value_that_is_not_unicode_turns_timings_on() {
    assert!(env_value_turns_on(&[0xff, 0xfe]));
    let mut state = TimingState::new();
    assert!(enabled(&mut state, Some(&[0x80u8][..])));
}
