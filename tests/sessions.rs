use game_sessions::ids::{SessionId, SessionMeta};
use game_sessions::ledger::{
    append_game_segment, create_db_match_entry, create_new_game_id, get_all_segments_for_game,
    get_last_full_game_state, get_match_info, get_match_list, get_segment_count, open_session,
    retire_session,
    AppendError, Ledger,
};
use game_sessions::matchmaking::{
    compose_title, pair_players, start_match, Arrival, MatchError, MatchQueue,
};
use game_sessions::ranking::{get_all_games, sort_by_rank, Order, Scope, PAGE_SIZE};
use game_sessions::segment::{replay_segments, Rules, Segment};

/// A small engine: each update adds cleared lines; ten lines end the game;
/// an update of 99 lines is illegal.
#[derive(Clone, Debug, PartialEq)]
struct Tally {
    seed: u64,
    start: u64,
    lines: u64,
    over: bool,
}

impl Rules for Tally {
    type Delta = u64;

    fn start(seed: u64, start_time: u64) -> Tally {
        Tally { seed, start: start_time, lines: 0, over: false }
    }

    fn step(&self, delta: &u64) -> Option<Tally> {
        if self.over || *delta == 99 {
            return None;
        }
        let lines = self.lines + *delta;
        Some(Tally { seed: self.seed, start: self.start, lines, over: lines >= 10 })
    }

    fn is_over(&self) -> bool {
        self.over
    }

    fn spec_start(seed: u64, start_time: u64) -> Tally {
        Tally::start(seed, start_time)
    }

    fn spec_step(self, delta: u64) -> Option<Tally> {
        self.step(&delta)
    }

    fn spec_over(self) -> bool {
        self.is_over()
    }
}

const A: u128 = 0xaaaa;
const B: u128 = 0xbbbb;
const C: u128 = 0xcccc;

fn upd(idx: u64, delta: u64) -> Segment<u64> {
    Segment::Update { idx, delta, timestamp: 1000 + idx }
}

fn init(sid: &SessionId) -> Segment<u64> {
    Segment::Init { seed: sid.seed, start_time: sid.start_time }
}

fn meta(l: &Ledger<Tally>, sid: SessionId) -> SessionMeta {
    get_segment_count(l, sid).expect("session is stored")
}

#[test]
fn full_session_lifecycle() {
    let mut l: Ledger<Tally> = Ledger::new();
    let sid = create_new_game_id(&mut l, A, 5_000).expect("fresh id");
    assert_eq!(sid.owner, A);
    assert_eq!(sid.start_time, 5_000);
    assert_eq!(meta(&l, sid), SessionMeta { in_progress: true, segment_count: 0 });
    assert_eq!(append_game_segment(&mut l, sid, init(&sid), A), Ok(()));
    assert_eq!(meta(&l, sid).segment_count, 1);
    assert_eq!(append_game_segment(&mut l, sid, upd(0, 4), A), Ok(()));
    assert_eq!(meta(&l, sid).segment_count, 2);
    assert_eq!(append_game_segment(&mut l, sid, upd(1, 6), A), Ok(()));
    assert_eq!(meta(&l, sid).segment_count, 3);
    assert_eq!(append_game_segment(&mut l, sid, Segment::GameOver, A), Ok(()));
    assert_eq!(meta(&l, sid), SessionMeta { in_progress: false, segment_count: 4 });
    assert_eq!(
        append_game_segment(&mut l, sid, upd(2, 1), A),
        Err(AppendError::AlreadyOver)
    );
    assert_eq!(meta(&l, sid).segment_count, 4);
}

#[test]
fn count_tracks_appends_and_in_progress() {
    let mut l: Ledger<Tally> = Ledger::new();
    let sid = SessionId { owner: A, seed: 3, start_time: 10 };
    assert_eq!(append_game_segment(&mut l, sid, init(&sid), A), Ok(()));
    for i in 0..5u64 {
        assert_eq!(append_game_segment(&mut l, sid, upd(i, 1), A), Ok(()));
        assert_eq!(meta(&l, sid), SessionMeta { in_progress: true, segment_count: i + 2 });
    }
    assert_eq!(append_game_segment(&mut l, sid, upd(5, 5), A), Ok(()));
    assert_eq!(append_game_segment(&mut l, sid, Segment::GameOver, A), Ok(()));
    assert_eq!(meta(&l, sid), SessionMeta { in_progress: false, segment_count: 8 });
}

#[test]
fn out_of_order_updates_are_refused() {
    let mut l: Ledger<Tally> = Ledger::new();
    let sid = SessionId { owner: A, seed: 1, start_time: 1 };
    assert_eq!(append_game_segment(&mut l, sid, init(&sid), A), Ok(()));
    assert_eq!(append_game_segment(&mut l, sid, upd(1, 1), A), Err(AppendError::OutOfOrder));
    assert_eq!(append_game_segment(&mut l, sid, upd(0, 1), A), Ok(()));
    assert_eq!(append_game_segment(&mut l, sid, upd(0, 1), A), Err(AppendError::OutOfOrder));
    assert_eq!(append_game_segment(&mut l, sid, upd(2, 1), A), Err(AppendError::OutOfOrder));
    assert_eq!(append_game_segment(&mut l, sid, upd(1, 1), A), Ok(()));
    assert_eq!(meta(&l, sid).segment_count, 3);
}

#[test]
fn validation_errors() {
    let mut l: Ledger<Tally> = Ledger::new();
    let sid = SessionId { owner: A, seed: 1, start_time: 1 };
    assert_eq!(append_game_segment(&mut l, sid, init(&sid), B), Err(AppendError::NotOwner));
    assert_eq!(append_game_segment(&mut l, sid, upd(0, 1), A), Err(AppendError::SessionNotFound));
    assert!(get_segment_count(&l, sid).is_none());
    assert!(open_session(&mut l, sid));
    assert!(!open_session(&mut l, sid));
    assert_eq!(append_game_segment(&mut l, sid, upd(0, 1), A), Err(AppendError::MissingInit));
    assert_eq!(
        append_game_segment(&mut l, sid, Segment::GameOver, A),
        Err(AppendError::MissingInit)
    );
    assert_eq!(append_game_segment(&mut l, sid, init(&sid), A), Ok(()));
    assert_eq!(append_game_segment(&mut l, sid, init(&sid), A), Err(AppendError::InitNotFirst));
    assert_eq!(append_game_segment(&mut l, sid, Segment::GameOver, A), Err(AppendError::NotOver));
    assert_eq!(append_game_segment(&mut l, sid, upd(0, 99), A), Err(AppendError::RulesRejected));
    assert_eq!(meta(&l, sid), SessionMeta { in_progress: true, segment_count: 1 });
    assert_eq!(append_game_segment(&mut l, sid, upd(0, 12), A), Ok(()));
    assert_eq!(append_game_segment(&mut l, sid, Segment::GameOver, A), Ok(()));
    assert_eq!(
        append_game_segment(&mut l, sid, Segment::GameOver, A),
        Err(AppendError::AlreadyOver)
    );
    assert_eq!(append_game_segment(&mut l, sid, init(&sid), A), Err(AppendError::InitNotFirst));
}

#[test]
fn replay_matches_persisted_snapshot() {
    let mut l: Ledger<Tally> = Ledger::new();
    let sid = SessionId { owner: B, seed: 77, start_time: 123 };
    assert!(get_last_full_game_state(&l, sid).is_none());
    assert_eq!(append_game_segment(&mut l, sid, init(&sid), B), Ok(()));
    assert_eq!(append_game_segment(&mut l, sid, upd(0, 3), B), Ok(()));
    assert_eq!(append_game_segment(&mut l, sid, upd(1, 4), B), Ok(()));
    let segs = get_all_segments_for_game(&l, sid).expect("stored");
    assert_eq!(segs.len(), 3);
    let fresh = replay_segments::<Tally>(segs).expect("replayed");
    let stored = get_last_full_game_state(&l, sid).expect("snapshot");
    assert_eq!(&fresh, stored);
    assert_eq!(stored, &Tally { seed: 77, start: 123, lines: 7, over: false });
}

#[test]
fn segments_come_back_in_order() {
    let mut l: Ledger<Tally> = Ledger::new();
    let sid = SessionId { owner: C, seed: 5, start_time: 9 };
    assert!(get_all_segments_for_game(&l, sid).is_none());
    assert_eq!(append_game_segment(&mut l, sid, init(&sid), C), Ok(()));
    for i in 0..3u64 {
        assert_eq!(append_game_segment(&mut l, sid, upd(i, 1), C), Ok(()));
    }
    let segs = get_all_segments_for_game(&l, sid).expect("stored");
    assert!(matches!(segs[0], Segment::Init { seed: 5, start_time: 9 }));
    for i in 0..3usize {
        match &segs[i + 1] {
            Segment::Update { idx, .. } => assert_eq!(*idx, i as u64),
            _ => panic!("expected an update"),
        }
    }
}

#[test]
fn new_session_retires_owner_sessions() {
    let mut l: Ledger<Tally> = Ledger::new();
    let first = create_new_game_id(&mut l, A, 100).expect("fresh id");
    let other = create_new_game_id(&mut l, B, 100).expect("fresh id");
    let second = create_new_game_id(&mut l, A, 200).expect("fresh id");
    assert!(!meta(&l, first).in_progress);
    assert!(meta(&l, other).in_progress);
    assert!(meta(&l, second).in_progress);
}

fn played(l: &mut Ledger<Tally>, owner: u128, start_time: u64, updates: u64) -> SessionId {
    let sid = SessionId { owner, seed: 1, start_time };
    assert_eq!(append_game_segment(l, sid, init(&sid), owner), Ok(()));
    for i in 0..updates {
        assert_eq!(append_game_segment(l, sid, upd(i, 0), owner), Ok(()));
    }
    sid
}

#[test]
fn best_of_owner_is_sorted_truncated_and_scoped() {
    let mut l: Ledger<Tally> = Ledger::new();
    for k in 0..12u64 {
        played(&mut l, A, 1000 + k, (k * 7) % 12);
    }
    played(&mut l, B, 5, 20);
    let r = get_all_games(&l, Scope::SessionsOfOwner(A), Order::ByProgressBest);
    assert_eq!(r.len(), PAGE_SIZE);
    for w in r.windows(2) {
        assert!(w[0].1.segment_count >= w[1].1.segment_count);
    }
    assert!(r.iter().all(|e| e.0.owner == A));
    assert_eq!(r[0].1.segment_count, 12);
    let all = get_all_games(&l, Scope::AllSessions, Order::ByProgressBest);
    assert_eq!(all[0].0.owner, B);
    assert_eq!(all[0].1.segment_count, 21);
}

#[test]
fn recent_listing_buckets_start_times() {
    let mut l: Ledger<Tally> = Ledger::new();
    let old = played(&mut l, A, 100_000, 0);
    let newer = played(&mut l, A, 300_000, 0);
    let tie = played(&mut l, B, 350_000, 0);
    let r = get_all_games(&l, Scope::AllSessions, Order::ByActivityRecent);
    assert_eq!(r.len(), 3);
    assert_eq!(r[0].0, newer);
    assert_eq!(r[1].0, tie);
    assert_eq!(r[2].0, old);
    let mine = get_all_games(&l, Scope::SessionsOfOwner(B), Order::ByActivityRecent);
    assert_eq!(mine.len(), 1);
    assert_eq!(mine[0].0, tie);
}

#[test]
fn empty_listing() {
    let l: Ledger<Tally> = Ledger::new();
    assert!(get_all_games(&l, Scope::AllSessions, Order::ByProgressBest).is_empty());
    assert!(sort_by_rank(Order::ByProgressBest, Vec::new()).is_empty());
}

#[test]
fn two_players_pair_into_one_match() {
    let mut l: Ledger<Tally> = Ledger::new();
    let mut q = MatchQueue::new();
    assert!(matches!(start_match(&mut q, &mut l, A, 777), Ok(Arrival::Wait)));
    assert_eq!(q.waiting(), Some(A));
    let paired = start_match(&mut q, &mut l, B, 778);
    let (id, record) = match paired {
        Ok(Arrival::Paired { id, record }) => (id, record),
        _ => panic!("expected a pairing"),
    };
    assert_eq!(q.waiting(), None);
    assert_eq!(record.first, A);
    assert_eq!(record.second, B);
    assert_eq!(record.start_time, 778);
    assert_eq!(get_match_list(&l).len(), 1);
    let stored = get_match_info(&l, id).expect("stored");
    assert_eq!(stored.first, A);
    assert_eq!(stored.second, B);
    assert_eq!(stored.title, record.title);
    let (s0, s1) = record.sessions();
    assert_eq!(s0.owner, A);
    assert_eq!(s1.owner, B);
    assert_eq!(s0.seed, s1.seed);
    for s in [s0, s1] {
        assert_eq!(meta(&l, s), SessionMeta { in_progress: true, segment_count: 0 });
    }
    assert_eq!(append_game_segment(&mut l, s0, init(&s0), A), Ok(()));
    assert_eq!(append_game_segment(&mut l, s1, init(&s1), B), Ok(()));
}

#[test]
fn queued_player_cannot_queue_twice() {
    let mut l: Ledger<Tally> = Ledger::new();
    let mut q = MatchQueue::new();
    assert!(matches!(start_match(&mut q, &mut l, A, 1), Ok(Arrival::Wait)));
    assert!(matches!(start_match(&mut q, &mut l, A, 2), Err(MatchError::AlreadyQueued)));
    assert!(matches!(start_match(&mut q, &mut l, B, 3), Ok(Arrival::Paired { .. })));
    assert!(matches!(start_match(&mut q, &mut l, C, 4), Ok(Arrival::Wait)));
    assert_eq!(q.waiting(), Some(C));
    assert_eq!(get_match_list(&l).len(), 1);
}

#[test]
fn cancel_vacates_only_own_slot() {
    let mut q = MatchQueue::new();
    let mut l: Ledger<Tally> = Ledger::new();
    assert!(!q.cancel(A));
    assert!(matches!(start_match(&mut q, &mut l, A, 1), Ok(Arrival::Wait)));
    assert!(!q.cancel(B));
    assert_eq!(q.waiting(), Some(A));
    assert!(q.cancel(A));
    assert_eq!(q.waiting(), None);
}

#[test]
fn match_title_names_both_players() {
    let r = pair_players(1, 2, 9, 10);
    assert_eq!(
        r.title,
        "1v1 00000000-0000-0000-0000-000000000001 vs. 00000000-0000-0000-0000-000000000002"
    );
    assert_eq!(compose_title("x", "y"), "1v1 x vs. y");
}

#[test]
fn match_entry_is_all_or_nothing() {
    let mut l: Ledger<Tally> = Ledger::new();
    let rec = pair_players(A, B, 4, 50);
    let taken = SessionId { owner: B, seed: 4, start_time: 50 };
    assert!(open_session(&mut l, taken));
    assert!(!create_db_match_entry(&mut l, 1, rec.clone()));
    assert!(get_match_info(&l, 1).is_none());
    assert!(get_segment_count(&l, SessionId { owner: A, seed: 4, start_time: 50 }).is_none());
    let same = pair_players(A, A, 4, 60);
    assert!(!create_db_match_entry(&mut l, 2, same));
    let ok = pair_players(A, C, 4, 70);
    assert!(create_db_match_entry(&mut l, 3, ok.clone()));
    assert!(!create_db_match_entry(&mut l, 3, pair_players(B, C, 5, 80)));
    assert_eq!(get_match_list(&l).len(), 1);
}

#[test]
fn each_player_sees_own_board_left() {
    let rec = pair_players(A, B, 4, 50);
    let (l, r) = rec.board_sides(B);
    assert_eq!((l.owner, r.owner), (B, A));
    let (l, r) = rec.board_sides(A);
    assert_eq!((l.owner, r.owner), (A, B));
    let (l, r) = rec.board_sides(C);
    assert_eq!((l.owner, r.owner), (A, B));
    assert_eq!(l.seed, 4);
    assert_eq!(r.start_time, 50);
}

#[test]
fn refusal_after_game_over_reads_already_over() {
    assert_eq!(AppendError::AlreadyOver.reason(), "session already over");
    assert_eq!(AppendError::NotOwner.reason(), "caller does not own the session");
    assert_ne!(AppendError::OutOfOrder.reason(), AppendError::NotOver.reason());
}

#[test]
fn matches_are_listed_by_id() {
    let mut l: Ledger<Tally> = Ledger::new();
    assert!(create_db_match_entry(&mut l, 30, pair_players(A, B, 1, 10)));
    assert!(create_db_match_entry(&mut l, 10, pair_players(A, B, 2, 20)));
    assert!(create_db_match_entry(&mut l, 20, pair_players(B, C, 3, 30)));
    let ids: Vec<u128> = get_match_list(&l).iter().map(|e| e.0).collect();
    assert_eq!(ids, vec![10, 20, 30]);
    assert_eq!(get_match_info(&l, 20).expect("stored").first, B);
}

#[test]
fn listing_holds_each_session_once() {
    let mut l: Ledger<Tally> = Ledger::new();
    for k in 0..5u64 {
        played(&mut l, A, 10 + k, k);
    }
    let r = get_all_games(&l, Scope::SessionsOfOwner(A), Order::ByActivityRecent);
    assert_eq!(r.len(), 5);
    for i in 0..r.len() {
        for j in i + 1..r.len() {
            assert_ne!(r[i].0, r[j].0);
        }
    }
}

#[test]
fn retired_session_keeps_its_log() {
    let mut l: Ledger<Tally> = Ledger::new();
    let sid = played(&mut l, A, 40, 2);
    assert!(retire_session(&mut l, sid));
    assert_eq!(meta(&l, sid), SessionMeta { in_progress: false, segment_count: 3 });
    assert!(!retire_session(&mut l, SessionId { owner: B, seed: 0, start_time: 0 }));
}
