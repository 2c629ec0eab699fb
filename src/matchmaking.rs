use vstd::prelude::*;
use vstd::string::StringExecFns;

use crate::entropy::{fresh_match_id, fresh_seed};
use crate::ids::{MatchRecord, SessionId};
use crate::ledger::{create_db_match_entry, fresh_view, Ledger, SessionView};
use crate::segment::Rules;

verus! {

/// The lower-case hexadecimal digit for `d`, which is below 16.
pub open spec fn hex_digit(d: nat) -> char {
    seq!['0', '1', '2', '3', '4', '5', '6', '7', '8', '9', 'a', 'b', 'c', 'd', 'e', 'f'][d as int]
}

/// The last `n` hexadecimal digits of `x`, most significant first.
pub open spec fn hex_of(x: nat, n: nat) -> Seq<char>
    decreases n,
{
    if n == 0 {
        Seq::empty()
    } else {
        hex_of(x / 16, (n - 1) as nat).push(hex_digit(x % 16))
    }
}

/// The text of a player id as uuid prints it: 32 lower-case hex digits,
/// most significant first, in groups of 8, 4, 4, 4 and 12 joined by hyphens.
#[verifier::opaque]
pub open spec fn uuid_text_of(id: u128) -> Seq<char> {
    let x = id as nat;
    hex_of(x / 0x1_0000_0000_0000_0000_0000_0000, 8) + "-"@ + hex_of(
        x / 0x1_0000_0000_0000_0000_0000,
        4,
    ) + "-"@ + hex_of(x / 0x1_0000_0000_0000_0000, 4) + "-"@ + hex_of(x / 0x1_0000_0000_0000, 4)
        + "-"@ + hex_of(x, 12)
}

/// Relies on uuid::Uuid::from_u128, which keeps the id's bytes most
/// significant first, and uuid's `Display`, which writes them as lower-case
/// hex in the hyphenated 8-4-4-4-12 form.
#[verifier::external_body]
fn uuid_text(id: u128) -> (r: String)
    ensures
        r@ == uuid_text_of(id),
{
    uuid::Uuid::from_u128(id).to_string()
}

/// The title of a match between two players, given their printed ids.
pub open spec fn title_text(first: Seq<char>, second: Seq<char>) -> Seq<char> {
    "1v1 "@ + first + " vs. "@ + second
}

/// The title of a match between `first` and `second`.
pub open spec fn match_title(first: u128, second: u128) -> Seq<char> {
    title_text(uuid_text_of(first), uuid_text_of(second))
}

/// Builds a match title from the two players' printed ids.
pub fn compose_title(first: &str, second: &str) -> (r: String)
    ensures
        r@ == title_text(first@, second@),
{
    let mut t = String::from_str("1v1 ");
    t.append(first);
    t.append(" vs. ");
    t.append(second);
    t
}

/// The record of a match in which `first` waited and `second` joined.
pub fn pair_players(first: u128, second: u128, seed: u64, now: u64) -> (r: MatchRecord)
    ensures
        r.first == first,
        r.second == second,
        r.seed == seed,
        r.start_time == now,
        r.title@ == match_title(first, second),
{
    let a = uuid_text(first);
    let b = uuid_text(second);
    let title = compose_title(a.as_str(), b.as_str());
    MatchRecord { seed, start_time: now, first, second, title }
}

/// Why a call to find a match failed.
#[derive(Clone, Copy, Debug, PartialEq, Eq, Structural)]
pub enum MatchError {
    /// The caller is already the one waiting.
    AlreadyQueued,
    /// The store refused the new match: its id or one of its sessions was
    /// already taken. The waiting player stays queued.
    StoreRefused,
}

/// Whether `owner` has a stored session started at `time`, whatever its seed.
pub open spec fn has_session_started_at<R: Rules>(
    m: Map<SessionId, SessionView<R>>,
    owner: u128,
    time: u64,
) -> bool {
    exists|seed: u64| #[trigger] m.contains_key(SessionId { owner, seed, start_time: time })
}

/// What a call to find a match decides, given who is waiting.
pub enum QueueStep {
    /// Nobody waits: the caller takes the slot and waits.
    Wait,
    /// Someone else waits: the caller pairs with them.
    Pair(u128),
    /// The caller is the one waiting already.
    Reject,
}

/// What a call by `caller` does, given who waits.
pub open spec fn decide(slot: Option<u128>, caller: u128) -> QueueStep {
    match slot {
        None => QueueStep::Wait,
        Some(w) => if w == caller {
            QueueStep::Reject
        } else {
            QueueStep::Pair(w)
        },
    }
}

/// Who waits after the call, where it succeeds.
pub open spec fn slot_after(slot: Option<u128>, caller: u128) -> Option<u128> {
    match decide(slot, caller) {
        QueueStep::Wait => Some(caller),
        QueueStep::Pair(_) => None,
        QueueStep::Reject => slot,
    }
}

/// The outcome of a successful call to find a match.
pub enum Arrival {
    /// The caller now waits for a partner.
    Wait,
    /// The caller was paired: the record stored under `id`.
    Paired { id: u128, record: MatchRecord },
}

/// The rendezvous where players wait for a partner: at most one waits.
pub struct MatchQueue {
    waiting: Option<u128>,
}

impl MatchQueue {
    /// Who waits, if anyone.
    pub closed spec fn slot(&self) -> Option<u128> {
        self.waiting
    }

    /// An empty rendezvous.
    pub fn new() -> (r: Self)
        ensures
            r.slot() is None,
    {
        MatchQueue { waiting: None }
    }

    /// Who waits, if anyone.
    pub fn waiting(&self) -> (r: Option<u128>)
        ensures
            r == self.slot(),
    {
        self.waiting
    }

    /// Leaves the queue: the slot is vacated only where `caller` holds it.
    pub fn cancel(&mut self, caller: u128) -> (r: bool)
        ensures
            r == (old(self).slot() == Some(caller)),
            final(self).slot() == if r {
                None
            } else {
                old(self).slot()
            },
    {
        match self.waiting {
            Some(w) => if w == caller {
                self.waiting = None;
                true
            } else {
                false
            },
            None => false,
        }
    }
}

/// One call to find a match, as one atomic step over the queue and store.
///
/// Where nobody waits, the caller takes the slot. Where the caller waits
/// already, the call is refused. Where another player waits, a record is
/// made with the waiting player first and the caller second, a fresh seed,
/// a fresh id and the start time `now`; it is stored with its two sessions,
/// opened fresh, and the slot is emptied. The store may refuse it only
/// where a random id or seed collides: it already holds a match, or a
/// session of either player started at `now`; then nothing changes.
pub fn start_match<R: Rules>(
    queue: &mut MatchQueue,
    ledger: &mut Ledger<R>,
    caller: u128,
    now: u64,
) -> (r: Result<Arrival, MatchError>)
    requires
        old(ledger).wf(),
    ensures
        final(ledger).wf(),
        match decide(old(queue).slot(), caller) {
            QueueStep::Wait => {
                &&& r is Ok && r->Ok_0 is Wait
                &&& final(queue).slot() == Some(caller)
                &&& final(ledger).sessions() == old(ledger).sessions()
                &&& final(ledger).match_entries() == old(ledger).match_entries()
            },
            QueueStep::Reject => {
                &&& r == Err::<Arrival, MatchError>(MatchError::AlreadyQueued)
                &&& final(queue).slot() == old(queue).slot()
                &&& final(ledger).sessions() == old(ledger).sessions()
                &&& final(ledger).match_entries() == old(ledger).match_entries()
            },
            QueueStep::Pair(w) => match r {
                Ok(Arrival::Paired { id, record }) => {
                    &&& record.first == w
                    &&& record.second == caller
                    &&& record.start_time == now
                    &&& record.title@ == match_title(w, caller)
                    &&& final(queue).slot() is None
                    &&& final(ledger).sessions() == old(ledger).sessions().insert(
                        record.first_session(),
                        fresh_view(),
                    ).insert(record.second_session(), fresh_view())
                    &&& exists|p: int|
                        0 <= p <= old(ledger).match_entries().len()
                            && final(ledger).match_entries()
                            == #[trigger] old(ledger).match_entries().insert(p, (id, record))
                },
                Err(MatchError::StoreRefused) => {
                    &&& final(queue).slot() == old(queue).slot()
                    &&& final(ledger).sessions() == old(ledger).sessions()
                    &&& final(ledger).match_entries() == old(ledger).match_entries()
                    &&& (old(ledger).match_entries().len() > 0 || has_session_started_at(
                        old(ledger).sessions(),
                        w,
                        now,
                    ) || has_session_started_at(old(ledger).sessions(), caller, now))
                },
                _ => false,
            },
        },
{
    match queue.waiting {
        None => {
            queue.waiting = Some(caller);
            Ok(Arrival::Wait)
        },
        Some(w) => {
            if w == caller {
                return Err(MatchError::AlreadyQueued);
            }
            let seed = fresh_seed();
            let id = fresh_match_id();
            let record = pair_players(w, caller, seed, now);
            let kept = MatchRecord {
                seed: record.seed,
                start_time: record.start_time,
                first: record.first,
                second: record.second,
                title: record.title.clone(),
            };
            assert(kept == record);
            if create_db_match_entry(ledger, id, kept) {
                proof {
                    let p = choose|p: int|
                        0 <= p <= old(ledger).match_entries().len() && ledger.match_entries()
                            == #[trigger] old(ledger).match_entries().insert(p, (id, kept));
                    assert(ledger.match_entries() == old(ledger).match_entries().insert(
                        p,
                        (id, record),
                    ));
                }
                queue.waiting = None;
                Ok(Arrival::Paired { id, record })
            } else {
                proof {
                    let s0 = SessionId { owner: w, seed, start_time: now };
                    let s1 = SessionId { owner: caller, seed, start_time: now };
                    assert(kept.first_session() == s0 && kept.second_session() == s1);
                    if old(ledger).match_entries().len() == 0 {
                        if old(ledger).sessions().contains_key(s0) {
                            assert(has_session_started_at(old(ledger).sessions(), w, now));
                        } else {
                            assert(old(ledger).sessions().contains_key(s1));
                            assert(has_session_started_at(old(ledger).sessions(), caller, now));
                        }
                    }
                }
                Err(MatchError::StoreRefused)
            }
        },
    }
}

/// The rendezvous pairs players one slot at a time: a first caller waits; a
/// second, distinct caller pairs with them and empties the slot, so that a
/// third caller waits afresh; a caller who is already waiting is refused.
pub proof fn lemma_rendezvous(a: u128, b: u128, c: u128)
    requires
        a != b,
    ensures
        decide(None, a) is Wait,
        slot_after(None, a) == Some(a),
        decide(Some(a), b) == QueueStep::Pair(a),
        slot_after(Some(a), b) is None,
        decide(slot_after(Some(a), b), c) is Wait,
        decide(Some(a), a) is Reject,
        slot_after(Some(a), a) == Some(a),
{
}

} // verus!
