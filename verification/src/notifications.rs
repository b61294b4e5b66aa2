//! Notification bookkeeping: transmission modes, delay encoding and the
//! registry of requested notifications.
//!
//! Delivering notifications is transport work and happens outside this
//! crate; what is verified here is the pure bookkeeping: how modes and
//! delays encode into wire words, and which handles a deletion request
//! must release.

use vstd::prelude::*;

use crate::error::AdsError;
use crate::text::str_eq;

verus! {

broadcast use vstd::std_specs::vec::group_vec_axioms, vstd::seq::group_seq_axioms;

/// When the device transmits a notification sample.
#[derive(Clone, Copy, Debug, PartialEq, Eq, Structural)]
pub enum AdsTransmissionMode {
    None_,
    ClientCycle,
    ClientOnChange,
    Cyclic,
    OnChange,
}

impl AdsTransmissionMode {
    /// The wire code of this mode.
    pub open spec fn spec_to_code(self) -> i32 {
        match self {
            AdsTransmissionMode::None_ => 0,
            AdsTransmissionMode::ClientCycle => 1,
            AdsTransmissionMode::ClientOnChange => 2,
            AdsTransmissionMode::Cyclic => 3,
            AdsTransmissionMode::OnChange => 4,
        }
    }

    /// Encodes this mode as its wire code.
    pub fn to_beckhoff(&self) -> (r: i32)
        ensures
            r == self.spec_to_code(),
    {
        match self {
            AdsTransmissionMode::None_ => 0,
            AdsTransmissionMode::ClientCycle => 1,
            AdsTransmissionMode::ClientOnChange => 2,
            AdsTransmissionMode::Cyclic => 3,
            AdsTransmissionMode::OnChange => 4,
        }
    }
}

/// A notification delay or cycle time, in the caller's preferred unit.
#[derive(Clone, Copy, Debug, PartialEq, Eq, Structural)]
pub enum Time {
    Seconds(u8),
    /// Must not exceed 429 496 milliseconds.
    MilliSeconds(u32),
    /// Must not exceed 429 496 729 microseconds.
    MicroSeconds(u32),
    /// Must be a multiple of 100 nanoseconds.
    NanoSeconds(u32),
}

/// The wire word of a time value: hundreds of nanoseconds, with `None`
/// standing for zero.  Values too large for the word, and nanosecond
/// counts that are not multiples of 100, are rejected.
pub open spec fn spec_time_to_code(time: Option<Time>) -> Result<u32, AdsError> {
    match time {
        None => Ok(0u32),
        Some(Time::Seconds(s)) => Ok((s as u32 * 10000000) as u32),
        Some(Time::MilliSeconds(ms)) => if ms > 429496 {
            Err(AdsError::InvalidArgument)
        } else {
            Ok((ms * 10000) as u32)
        },
        Some(Time::MicroSeconds(us)) => if us > 429496729 {
            Err(AdsError::InvalidArgument)
        } else {
            Ok((us * 10) as u32)
        },
        Some(Time::NanoSeconds(ns)) => if ns % 100 != 0 {
            Err(AdsError::InvalidArgument)
        } else {
            Ok((ns / 100) as u32)
        },
    }
}

/// Encodes a time value as its wire word.
pub fn time_to_beckhoff(time: &Option<Time>) -> (r: Result<u32, AdsError>)
    ensures
        r == spec_time_to_code(*time),
{
    match time {
        None => Ok(0),
        Some(Time::Seconds(s)) => Ok(*s as u32 * 10000000),
        Some(Time::MilliSeconds(ms)) => {
            if *ms > 429496 {
                Err(AdsError::InvalidArgument)
            } else {
                Ok(*ms * 10000)
            }
        },
        Some(Time::MicroSeconds(us)) => {
            if *us > 429496729 {
                Err(AdsError::InvalidArgument)
            } else {
                Ok(*us * 10)
            }
        },
        Some(Time::NanoSeconds(ns)) => {
            if *ns % 100 != 0 {
                Err(AdsError::InvalidArgument)
            } else {
                Ok(*ns / 100)
            }
        },
    }
}

/// One requested notification: the value's name and the two handles the
/// transport obtained for it.
pub struct NotificationEntry {
    /// The full path of the watched value.
    pub name: String,
    /// The device's handle for the value.
    pub value_handle: u32,
    /// The device's handle for this notification request.
    pub notification_handle: u32,
}

/// The image of one registry entry.
pub struct NotificationEntryV {
    pub name: Seq<char>,
    pub value_handle: u32,
    pub notification_handle: u32,
}

impl View for NotificationEntry {
    type V = NotificationEntryV;

    open spec fn view(&self) -> NotificationEntryV {
        NotificationEntryV {
            name: self.name@,
            value_handle: self.value_handle,
            notification_handle: self.notification_handle,
        }
    }
}

/// The images of the registry's entries, in order.
pub open spec fn views_of_entries(v: Seq<NotificationEntry>) -> Seq<NotificationEntryV> {
    v.map_values(|e: NotificationEntry| e@)
}

/// The registry of currently requested notifications for one session.
pub struct NotificationRegistry {
    /// The requests in registration order.
    pub entries: Vec<NotificationEntry>,
}

impl View for NotificationRegistry {
    type V = Seq<NotificationEntryV>;

    open spec fn view(&self) -> Seq<NotificationEntryV> {
        views_of_entries(self.entries@)
    }
}

/// The entries of `s` whose name is not `name`, in order.
pub open spec fn spec_keep_others(s: Seq<NotificationEntryV>, name: Seq<char>) -> Seq<
    NotificationEntryV,
>
    decreases s.len(),
{
    if s.len() == 0 {
        Seq::empty()
    } else {
        let rest = spec_keep_others(s.drop_first(), name);
        if s[0].name == name {
            rest
        } else {
            seq![s[0]] + rest
        }
    }
}

/// The handle pairs of the entries of `s` named `name`, in registration
/// order.
pub open spec fn spec_handles_for(s: Seq<NotificationEntryV>, name: Seq<char>) -> Seq<(u32, u32)>
    decreases s.len(),
{
    if s.len() == 0 {
        Seq::empty()
    } else {
        let rest = spec_handles_for(s.drop_first(), name);
        if s[0].name == name {
            seq![(s[0].value_handle, s[0].notification_handle)] + rest
        } else {
            rest
        }
    }
}

/// The position of the most recently registered entry with this
/// notification handle.
pub open spec fn spec_last_with_handle(s: Seq<NotificationEntryV>, handle: u32) -> Option<int>
    decreases s.len(),
{
    if s.len() == 0 {
        None
    } else if s.last().notification_handle == handle {
        Some(s.len() - 1)
    } else {
        spec_last_with_handle(s.drop_last(), handle)
    }
}

impl NotificationRegistry {
    /// An empty registry.
    pub fn new() -> (r: NotificationRegistry)
        ensures
            r@ == Seq::<NotificationEntryV>::empty(),
    {
        let entries: Vec<NotificationEntry> = Vec::new();
        assert(views_of_entries(entries@) =~= Seq::<NotificationEntryV>::empty());
        NotificationRegistry { entries }
    }

    /// Records one granted notification request.
    pub fn register(&mut self, name: String, value_handle: u32, notification_handle: u32)
        ensures
            final(self)@ == old(self)@.push(
                NotificationEntryV { name: name@, value_handle, notification_handle },
            ),
    {
        let ghost before = self@;
        self.entries.push(NotificationEntry { name, value_handle, notification_handle });
        proof {
            assert(views_of_entries(self.entries@) =~= before.push(self.entries@.last()@));
        }
    }

    /// Removes every request for `value_name` and returns the handle
    /// pairs the transport must release, in registration order.  When
    /// no request matches, nothing changes and the name is not found.
    pub fn delete_notifications_for_value(&mut self, value_name: &str) -> (r: Result<
        Vec<(u32, u32)>,
        AdsError,
    >)
        ensures
            match r {
                Ok(handles) => ({
                    &&& handles@ == spec_handles_for(old(self)@, value_name@)
                    &&& handles@.len() > 0
                    &&& final(self)@ == spec_keep_others(old(self)@, value_name@)
                }),
                Err(e) => ({
                    &&& e == AdsError::NotFound
                    &&& spec_handles_for(old(self)@, value_name@) == Seq::<(u32, u32)>::empty()
                    &&& final(self)@ == old(self)@
                }),
            },
    {
        let ghost before = self@;
        let mut kept: Vec<NotificationEntry> = Vec::new();
        let mut handles: Vec<(u32, u32)> = Vec::new();
        let n = self.entries.len();
        let mut i: usize = 0;
        proof {
            assert(views_of_entries(kept@) =~= Seq::<NotificationEntryV>::empty());
            assert(before.subrange(0, before.len() as int) =~= before);
            match spec_handles_for(before, value_name@) {
                _ => {},
            }
            assert(handles@ + spec_handles_for(
                before.subrange(0, before.len() as int),
                value_name@,
            ) =~= spec_handles_for(before, value_name@));
            assert(views_of_entries(kept@) + spec_keep_others(
                before.subrange(0, before.len() as int),
                value_name@,
            ) =~= spec_keep_others(before, value_name@));
        }
        while i < n
            invariant
                i <= n,
                n == self.entries.len(),
                before == views_of_entries(self.entries@),
                before.len() == n,
                forall|k: int| 0 <= k < n ==> before[k] == (#[trigger] self.entries@[k])@,
                spec_handles_for(before, value_name@) == handles@ + spec_handles_for(
                    before.subrange(i as int, n as int),
                    value_name@,
                ),
                spec_keep_others(before, value_name@) == views_of_entries(kept@)
                    + spec_keep_others(before.subrange(i as int, n as int), value_name@),
            decreases n - i,
        {
            let ghost window = before.subrange(i as int, n as int);
            proof {
                assert(window[0] == before[i as int]);
                assert(window.drop_first() =~= before.subrange(i + 1, n as int));
            }
            let entry = &self.entries[i];
            if str_eq(entry.name.as_str(), value_name) {
                let ghost hs = handles@;
                handles.push((entry.value_handle, entry.notification_handle));
                proof {
                    assert(hs + (seq![
                        (before[i as int].value_handle, before[i as int].notification_handle),
                    ] + spec_handles_for(window.drop_first(), value_name@)) =~= (hs + seq![
                        (before[i as int].value_handle, before[i as int].notification_handle),
                    ]) + spec_handles_for(window.drop_first(), value_name@));
                    assert(hs + seq![
                        (before[i as int].value_handle, before[i as int].notification_handle),
                    ] =~= handles@);
                }
            } else {
                let ghost ks = views_of_entries(kept@);
                kept.push(
                    NotificationEntry {
                        name: entry.name.clone(),
                        value_handle: entry.value_handle,
                        notification_handle: entry.notification_handle,
                    },
                );
                proof {
                    assert(views_of_entries(kept@) =~= ks.push(before[i as int]));
                    assert(ks + (seq![before[i as int]] + spec_keep_others(
                        window.drop_first(),
                        value_name@,
                    )) =~= ks.push(before[i as int]) + spec_keep_others(
                        window.drop_first(),
                        value_name@,
                    ));
                }
            }
            i = i + 1;
        }
        proof {
            assert(before.subrange(n as int, n as int) =~= Seq::<NotificationEntryV>::empty());
            assert(handles@ + Seq::<(u32, u32)>::empty() =~= handles@);
            assert(views_of_entries(kept@) + Seq::<NotificationEntryV>::empty()
                =~= views_of_entries(kept@));
        }
        if handles.len() == 0 {
            return Err(AdsError::NotFound);
        }
        self.entries = kept;
        Ok(handles)
    }

    /// Removes the most recently registered request with this
    /// notification handle and returns its handle pair.
    pub fn delete_notification_with_handle(&mut self, notification_handle: u32) -> (r: Result<
        (u32, u32),
        AdsError,
    >)
        ensures
            match r {
                Ok(pair) => ({
                    &&& spec_last_with_handle(old(self)@, notification_handle) is Some
                    &&& ({
                        let idx = spec_last_with_handle(old(self)@, notification_handle)->Some_0;
                        &&& pair.0 == old(self)@[idx].value_handle
                        &&& pair.1 == notification_handle
                        &&& final(self)@ == old(self)@.remove(idx)
                    })
                }),
                Err(e) => ({
                    &&& e == AdsError::NotFound
                    &&& spec_last_with_handle(old(self)@, notification_handle) is None
                    &&& final(self)@ == old(self)@
                }),
            },
    {
        let ghost before = self@;
        let n = self.entries.len();
        let mut i: usize = n;
        proof {
            assert(before.subrange(0, n as int) =~= before);
        }
        while i > 0
            invariant
                i <= n,
                n == self.entries.len(),
                before == old(self)@,
                before == views_of_entries(self.entries@),
                before.len() == n,
                forall|k: int| 0 <= k < n ==> before[k] == (#[trigger] self.entries@[k])@,
                spec_last_with_handle(before, notification_handle) == spec_last_with_handle(
                    before.subrange(0, i as int),
                    notification_handle,
                ),
            decreases i,
        {
            proof {
                assert(before.subrange(0, i as int).last() == before[i - 1]);
                assert(before.subrange(0, i as int).drop_last() =~= before.subrange(0, i - 1));
            }
            if self.entries[i - 1].notification_handle == notification_handle {
                proof {
                    assert(before.subrange(0, i as int).len() == i);
                    assert(before.subrange(0, i as int).last().notification_handle
                        == notification_handle);
                    assert(spec_last_with_handle(before, notification_handle) == Some(
                        i - 1 as int,
                    ));
                }
                let value_handle = self.entries[i - 1].value_handle;
                let _ = self.entries.remove(i - 1);
                proof {
                    assert(views_of_entries(self.entries@) =~= before.remove(i - 1));
                }
                return Ok((value_handle, notification_handle));
            }
            i = i - 1;
        }
        proof {
            assert(before.subrange(0, 0) =~= Seq::<NotificationEntryV>::empty());
        }
        Err(AdsError::NotFound)
    }

    /// Removes every request, returning the handle pairs to release in
    /// registration order.
    pub fn drop_notification_requests(&mut self) -> (r: Vec<(u32, u32)>)
        ensures
            final(self)@ == Seq::<NotificationEntryV>::empty(),
            r@ == Seq::new(
                old(self)@.len(),
                |k: int| (old(self)@[k].value_handle, old(self)@[k].notification_handle),
            ),
    {
        let ghost before = self@;
        let mut handles: Vec<(u32, u32)> = Vec::new();
        let n = self.entries.len();
        let mut i: usize = 0;
        while i < n
            invariant
                i <= n,
                n == self.entries.len(),
                before == views_of_entries(self.entries@),
                before.len() == n,
                forall|k: int| 0 <= k < n ==> before[k] == (#[trigger] self.entries@[k])@,
                handles@.len() == i,
                forall|k: int|
                    0 <= k < i ==> (#[trigger] handles@[k]) == (
                        before[k].value_handle,
                        before[k].notification_handle,
                    ),
            decreases n - i,
        {
            let entry = &self.entries[i];
            handles.push((entry.value_handle, entry.notification_handle));
            i = i + 1;
        }
        self.entries = Vec::new();
        proof {
            assert(views_of_entries(self.entries@) =~= Seq::<NotificationEntryV>::empty());
            assert(handles@ =~= Seq::new(
                before.len(),
                |k: int| (before[k].value_handle, before[k].notification_handle),
            ));
        }
        handles
    }
}

} // verus!
