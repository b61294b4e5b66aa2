//! Wire codes for run states, transmission modes and delays.

use twincat::error::AdsError;
use twincat::notifications::{time_to_beckhoff, AdsTransmissionMode, Time};
use twincat::state::State;

#[test]
fn state_to_beckhoff_to_state() {
    let states = vec![
        State::Invalid,
        State::Idle,
        State::Reset,
        State::Init,
        State::Start,
        State::Run,
        State::Stop,
        State::SaveCfg,
        State::LoadCfg,
        State::PowerFailure,
        State::PowerGood,
        State::Error,
        State::Shutdown,
        State::Suspend,
        State::Resume,
        State::Config,
        State::Reconfig,
        State::Stopping,
        State::MaxStates,
    ];
    for state in states {
        assert_eq!(state, State::from_beckhoff(state.to_beckhoff()).unwrap());
    }
}

#[test]
fn unknown_state_codes_are_malformed() {
    assert_eq!(State::from_beckhoff(99).unwrap_err(), AdsError::MalformedData);
    assert_eq!(State::from_beckhoff(-1).unwrap_err(), AdsError::MalformedData);
}

#[test]
fn transmission_modes_have_distinct_codes() {
    let modes = vec![
        AdsTransmissionMode::None_,
        AdsTransmissionMode::ClientCycle,
        AdsTransmissionMode::ClientOnChange,
        AdsTransmissionMode::Cyclic,
        AdsTransmissionMode::OnChange,
    ];
    let mut seen: Vec<i32> = Vec::new();
    for mode in modes {
        let code = mode.to_beckhoff();
        assert!(!seen.contains(&code));
        seen.push(code);
    }
}

#[test]
fn times_encode_as_hundreds_of_nanoseconds() {
    assert_eq!(time_to_beckhoff(&None).unwrap(), 0);
    assert_eq!(time_to_beckhoff(&Some(Time::Seconds(2))).unwrap(), 20000000);
    assert_eq!(
        time_to_beckhoff(&Some(Time::MilliSeconds(5))).unwrap(),
        50000
    );
    assert_eq!(time_to_beckhoff(&Some(Time::MicroSeconds(7))).unwrap(), 70);
    assert_eq!(
        time_to_beckhoff(&Some(Time::NanoSeconds(200))).unwrap(),
        2
    );
    assert_eq!(
        time_to_beckhoff(&Some(Time::MilliSeconds(429497))).unwrap_err(),
        AdsError::InvalidArgument
    );
    assert_eq!(
        time_to_beckhoff(&Some(Time::MicroSeconds(429496730))).unwrap_err(),
        AdsError::InvalidArgument
    );
    assert_eq!(
        time_to_beckhoff(&Some(Time::NanoSeconds(150))).unwrap_err(),
        AdsError::InvalidArgument
    );
}
