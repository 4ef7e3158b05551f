use vstd::prelude::*;

verus! {

/// An instant is a count of whole seconds since the Unix epoch.  The
/// renderer's time formatter takes a signed 64-bit count of seconds, so only
/// instants that fit in that type can ever be formatted; the store rejects
/// anything larger as corrupt.
pub open spec fn valid_instant(t: u64) -> bool {
    t <= i64::MAX as u64
}

/// The durable record that survives across invocations: when the service was
/// last seen online, and when it was last seen online with at least one
/// player present.  Either instant may be absent (never observed).
#[derive(Clone, Copy, PartialEq, Eq, Debug)]
pub struct PersistedState {
    pub last_online_at: Option<u64>,
    pub last_players_seen_at: Option<u64>,
}

impl PersistedState {
    /// Every instant held by the record can be formatted.
    pub open spec fn wf(self) -> bool {
        &&& match self.last_online_at {
            Some(t) => valid_instant(t),
            None => true,
        }
        &&& match self.last_players_seen_at {
            Some(t) => valid_instant(t),
            None => true,
        }
    }
}

/// The state a fresh installation starts from, and the state substituted for
/// a missing or unreadable store: nothing has ever been observed.
pub open spec fn default_state_spec() -> PersistedState {
    PersistedState { last_online_at: None, last_players_seen_at: None }
}

pub fn default_state() -> (s: PersistedState)
    ensures
        s == default_state_spec(),
{
    PersistedState { last_online_at: None, last_players_seen_at: None }
}

} // verus!
