use vstd::prelude::*;

use crate::ids::SessionId;
use crate::ledger::{
    append_verdict, appended, check_segment, fresh_view, lemma_append_keeps_session_ok, session_ok,
    Ledger, SessionView,
};
use crate::segment::{ends_over, replay, updates_in, Rules, Segment};

verus! {

/// The session obtained by appending `segs` in order to `v`, or `None` where
/// one of them is refused.
pub open spec fn append_all<R: Rules>(v: SessionView<R>, segs: Seq<Segment<R::Delta>>) -> Option<
    SessionView<R>,
>
    decreases segs.len(),
{
    if segs.len() == 0 {
        Some(v)
    } else {
        match append_all(v, segs.drop_last()) {
            Some(w) => if check_segment(w, segs.last()) is Ok {
                Some(appended(w, segs.last()))
            } else {
                None
            },
            None => None,
        }
    }
}

pub open spec fn has_game_over<D>(segs: Seq<Segment<D>>) -> bool {
    exists|i: int| 0 <= i < segs.len() && #[trigger] segs[i] is GameOver
}

/// After N accepted appends to a fresh session, its counter is N, it is in
/// progress exactly when none of them was `GameOver`, its log is those
/// segments, and its persisted snapshot is what replaying them from scratch
/// gives.
pub proof fn lemma_appends_from_fresh<R: Rules>(segs: Seq<Segment<R::Delta>>)
    requires
        append_all(fresh_view::<R>(), segs) is Some,
    ensures
        ({
            let w = append_all(fresh_view::<R>(), segs).unwrap();
            &&& w.meta.segment_count == segs.len()
            &&& w.meta.in_progress == !has_game_over(segs)
            &&& w.segments == segs
            &&& w.snapshot == replay::<R>(segs)
            &&& session_ok(w)
        }),
    decreases segs.len(),
{
    if segs.len() == 0 {
        assert(session_ok(fresh_view::<R>()));
    } else {
        let p = segs.drop_last();
        lemma_appends_from_fresh::<R>(p);
        let w = append_all(fresh_view::<R>(), p).unwrap();
        lemma_append_keeps_session_ok(w, segs.last());
        assert(w.segments.push(segs.last()) =~= segs);
        if segs.last() is GameOver {
            assert(has_game_over(segs)) by {
                assert(segs[segs.len() - 1] is GameOver);
            }
        } else {
            assert(has_game_over(segs) == has_game_over(p)) by {
                if has_game_over(segs) {
                    let i = choose|i: int| 0 <= i < segs.len() && #[trigger] segs[i] is GameOver;
                    assert(p[i] is GameOver);
                }
                if has_game_over(p) {
                    let i = choose|i: int| 0 <= i < p.len() && #[trigger] p[i] is GameOver;
                    assert(segs[i] is GameOver);
                }
            }
            if has_game_over(p) {
                let i = choose|i: int| 0 <= i < p.len() && #[trigger] p[i] is GameOver;
                assert(crate::segment::fits_at(p, i));
                assert(ends_over(p));
            }
        }
    }
}

/// An update whose index is not the number of updates already logged is
/// refused, whatever the session holds.
pub proof fn lemma_out_of_order_update_refused<R: Rules>(
    cur: Option<SessionView<R>>,
    sid: SessionId,
    idx: u64,
    delta: R::Delta,
    timestamp: u64,
    caller: u128,
)
    requires
        cur is None || idx != updates_in(cur.unwrap().segments),
    ensures
        append_verdict(cur, sid, Segment::Update { idx, delta, timestamp }, caller) is Err,
{
}

/// `GameOver` is accepted only where the replayed state reports the game as
/// over, and once it is accepted every further segment is refused.
pub proof fn lemma_game_over_gate<R: Rules>(v: SessionView<R>, next: Segment<R::Delta>)
    requires
        session_ok(v),
    ensures
        check_segment(v, Segment::GameOver) is Ok ==> replay::<R>(v.segments).unwrap().spec_over(),
        check_segment(v, Segment::GameOver) is Ok ==> check_segment(
            appended(v, Segment::GameOver),
            next,
        ) is Err,
{
    if check_segment(v, Segment::GameOver) is Ok {
        let w = appended(v, Segment::GameOver);
        assert(ends_over(w.segments));
    }
}

/// The snapshot the store persisted for a session is what replaying its
/// whole log from scratch gives.
pub proof fn lemma_snapshot_is_replay<R: Rules>(ledger: &Ledger<R>, sid: SessionId)
    requires
        ledger.wf(),
        ledger.sessions().contains_key(sid),
    ensures
        ledger.sessions()[sid].snapshot == replay::<R>(ledger.sessions()[sid].segments),
{
    ledger.lemma_sessions_ok(sid);
}

/// A freshly opened session, as a match opens them, takes its owner's
/// `Init` at once.
pub proof fn lemma_fresh_session_takes_init<R: Rules>(sid: SessionId, seed: u64, start_time: u64)
    ensures
        append_verdict(
            Some(fresh_view::<R>()),
            sid,
            Segment::<R::Delta>::Init { seed, start_time },
            sid.owner,
        ) is Ok,
{
}

} // verus!
