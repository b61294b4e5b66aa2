//! The run state of a device, and its wire codes.
//!
//! The state word travels as a small integer; the codes below are the
//! ADS state numbers in their documented order, starting at zero.

use vstd::prelude::*;

use crate::error::AdsError;

verus! {

/// The run state a device reports or is commanded into.
#[derive(Clone, Copy, Debug, PartialEq, Eq, Structural)]
pub enum State {
    Invalid,
    Idle,
    Reset,
    Init,
    Start,
    Run,
    Stop,
    SaveCfg,
    LoadCfg,
    PowerFailure,
    PowerGood,
    Error,
    Shutdown,
    Suspend,
    Resume,
    Config,
    Reconfig,
    Stopping,
    MaxStates,
}

impl State {
    /// The wire code of this state.
    pub open spec fn spec_to_code(self) -> i32 {
        match self {
            State::Invalid => 0,
            State::Idle => 1,
            State::Reset => 2,
            State::Init => 3,
            State::Start => 4,
            State::Run => 5,
            State::Stop => 6,
            State::SaveCfg => 7,
            State::LoadCfg => 8,
            State::PowerFailure => 9,
            State::PowerGood => 10,
            State::Error => 11,
            State::Shutdown => 12,
            State::Suspend => 13,
            State::Resume => 14,
            State::Config => 15,
            State::Reconfig => 16,
            State::Stopping => 17,
            State::MaxStates => 18,
        }
    }

    /// Decodes a state word; codes outside the documented set are
    /// malformed.
    pub fn from_beckhoff(state: i32) -> (r: Result<State, AdsError>)
        ensures
            match r {
                Ok(s) => s.spec_to_code() == state,
                Err(e) => e == AdsError::MalformedData && !(0 <= state <= 18),
            },
    {
        if state == 0 {
            Ok(State::Invalid)
        } else if state == 1 {
            Ok(State::Idle)
        } else if state == 2 {
            Ok(State::Reset)
        } else if state == 3 {
            Ok(State::Init)
        } else if state == 4 {
            Ok(State::Start)
        } else if state == 5 {
            Ok(State::Run)
        } else if state == 6 {
            Ok(State::Stop)
        } else if state == 7 {
            Ok(State::SaveCfg)
        } else if state == 8 {
            Ok(State::LoadCfg)
        } else if state == 9 {
            Ok(State::PowerFailure)
        } else if state == 10 {
            Ok(State::PowerGood)
        } else if state == 11 {
            Ok(State::Error)
        } else if state == 12 {
            Ok(State::Shutdown)
        } else if state == 13 {
            Ok(State::Suspend)
        } else if state == 14 {
            Ok(State::Resume)
        } else if state == 15 {
            Ok(State::Config)
        } else if state == 16 {
            Ok(State::Reconfig)
        } else if state == 17 {
            Ok(State::Stopping)
        } else if state == 18 {
            Ok(State::MaxStates)
        } else {
            Err(AdsError::MalformedData)
        }
    }

    /// Encodes this state as its wire code.
    pub fn to_beckhoff(&self) -> (r: i32)
        ensures
            r == self.spec_to_code(),
    {
        match self {
            State::Invalid => 0,
            State::Idle => 1,
            State::Reset => 2,
            State::Init => 3,
            State::Start => 4,
            State::Run => 5,
            State::Stop => 6,
            State::SaveCfg => 7,
            State::LoadCfg => 8,
            State::PowerFailure => 9,
            State::PowerGood => 10,
            State::Error => 11,
            State::Shutdown => 12,
            State::Suspend => 13,
            State::Resume => 14,
            State::Config => 15,
            State::Reconfig => 16,
            State::Stopping => 17,
            State::MaxStates => 18,
        }
    }
}

/// Decoding a state's own wire code gives the state back: the codes are
/// a faithful embedding.
pub proof fn lemma_state_round_trip(s: State)
    ensures
        State::spec_to_code(s) >= 0,
        forall|t: State, u: State| t.spec_to_code() == u.spec_to_code() ==> t == u,
{
}

} // verus!
