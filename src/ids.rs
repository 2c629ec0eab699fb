use vstd::prelude::*;

verus! {

/// Identifies one game session. Sessions order first by owner, then by
/// start time, then by seed, which is also the order of their store keys.
#[derive(Clone, Copy, Debug, PartialEq, Eq, Structural, Hash)]
pub struct SessionId {
    pub owner: u128,
    pub seed: u64,
    pub start_time: u64,
}

/// What the directory keeps of each session.
#[derive(Clone, Copy, Debug, PartialEq, Eq, Structural)]
pub struct SessionMeta {
    pub in_progress: bool,
    pub segment_count: u64,
}

/// The order of sessions: by owner, then start time, then seed.
pub open spec fn id_less(a: SessionId, b: SessionId) -> bool {
    a.owner < b.owner || (a.owner == b.owner && (a.start_time < b.start_time || (
    a.start_time == b.start_time && a.seed < b.seed)))
}

/// Whether `a` sorts strictly before `b`.
pub fn session_precedes(a: &SessionId, b: &SessionId) -> (r: bool)
    ensures
        r == id_less(*a, *b),
{
    a.owner < b.owner || (a.owner == b.owner && (a.start_time < b.start_time || (a.start_time
        == b.start_time && a.seed < b.seed)))
}

/// A pairing of two distinct players, who play one session each with a
/// shared seed and start time. `first` waited, `second` joined.
#[derive(Clone, Debug)]
pub struct MatchRecord {
    pub seed: u64,
    pub start_time: u64,
    pub first: u128,
    pub second: u128,
    pub title: String,
}

impl MatchRecord {
    /// The session that the record implies for its first player.
    pub open spec fn first_session(&self) -> SessionId {
        SessionId { owner: self.first, seed: self.seed, start_time: self.start_time }
    }

    /// The session that the record implies for its second player.
    pub open spec fn second_session(&self) -> SessionId {
        SessionId { owner: self.second, seed: self.seed, start_time: self.start_time }
    }

    /// The two implied sessions, first player's then second player's.
    pub fn sessions(&self) -> (r: (SessionId, SessionId))
        ensures
            r.0 == self.first_session(),
            r.1 == self.second_session(),
    {
        (
            SessionId { owner: self.first, seed: self.seed, start_time: self.start_time },
            SessionId { owner: self.second, seed: self.seed, start_time: self.start_time },
        )
    }

    /// The two sessions as `viewer` sees them side by side: the second
    /// player sees their own board on the left, anyone else sees the first
    /// player's board there.
    pub fn board_sides(&self, viewer: u128) -> (r: (SessionId, SessionId))
        ensures
            r == if viewer == self.second {
                (self.second_session(), self.first_session())
            } else {
                (self.first_session(), self.second_session())
            },
    {
        let (s0, s1) = self.sessions();
        if viewer == self.second {
            (s1, s0)
        } else {
            (s0, s1)
        }
    }
}

} // verus!
