use vstd::prelude::*;

use crate::entropy::fresh_seed;
use crate::ids::{id_less, session_precedes, MatchRecord, SessionId, SessionMeta};
use crate::segment::{
    ends_over, fits_at, lemma_updates_of_open_log, replay, updates_in,
    valid_log, Rules, Segment,
};

verus! {

/// Why an append was refused. Nothing is written when one is returned.
#[derive(Clone, Copy, Debug, PartialEq, Eq, Structural)]
pub enum AppendError {
    /// The caller does not own the session.
    NotOwner,
    /// The session is unknown and the segment is not an `Init`.
    SessionNotFound,
    /// An `Init` arrived after the first segment.
    InitNotFirst,
    /// An `Update` or `GameOver` arrived before any `Init`.
    MissingInit,
    /// An `Update` whose index is not the number of updates so far.
    OutOfOrder,
    /// The session was already closed by `GameOver`.
    AlreadyOver,
    /// `GameOver` arrived while the state does not report the game as over.
    NotOver,
    /// The engine refused the update.
    RulesRejected,
    /// The log holds as many segments as its counter can count.
    LogFull,
}

/// The reason shown to a caller for each refusal.
pub open spec fn reason_text(e: AppendError) -> Seq<char> {
    match e {
        AppendError::NotOwner => "caller does not own the session"@,
        AppendError::SessionNotFound => "session not found"@,
        AppendError::InitNotFirst => "only the first segment may be init"@,
        AppendError::MissingInit => "session has no init segment yet"@,
        AppendError::OutOfOrder => "segment index is missing or duplicate"@,
        AppendError::AlreadyOver => "session already over"@,
        AppendError::NotOver => "game over sent but the state is not over"@,
        AppendError::RulesRejected => "the game rules refused the update"@,
        AppendError::LogFull => "session log is full"@,
    }
}

impl AppendError {
    /// The reason shown to the caller.
    pub fn reason(&self) -> (r: &'static str)
        ensures
            r@ == reason_text(*self),
    {
        match self {
            AppendError::NotOwner => "caller does not own the session",
            AppendError::SessionNotFound => "session not found",
            AppendError::InitNotFirst => "only the first segment may be init",
            AppendError::MissingInit => "session has no init segment yet",
            AppendError::OutOfOrder => "segment index is missing or duplicate",
            AppendError::AlreadyOver => "session already over",
            AppendError::NotOver => "game over sent but the state is not over",
            AppendError::RulesRejected => "the game rules refused the update",
            AppendError::LogFull => "session log is full",
        }
    }
}

/// One session as the store holds it.
pub struct SessionRecord<R: Rules> {
    pub id: SessionId,
    pub meta: SessionMeta,
    pub segments: Vec<Segment<R::Delta>>,
    pub snapshot: Option<R>,
}

/// The model of one session: its directory entry, its log and the state
/// persisted after the last append.
pub struct SessionView<R: Rules> {
    pub meta: SessionMeta,
    pub segments: Seq<Segment<R::Delta>>,
    pub snapshot: Option<R>,
}

impl<R: Rules> SessionRecord<R> {
    /// The record without its id.
    pub open spec fn model(&self) -> SessionView<R> {
        SessionView { meta: self.meta, segments: self.segments@, snapshot: self.snapshot }
    }
}

/// A session just created: empty log, counted zero, in progress.
pub open spec fn fresh_view<R: Rules>() -> SessionView<R> {
    SessionView {
        meta: SessionMeta { in_progress: true, segment_count: 0 },
        segments: Seq::empty(),
        snapshot: None,
    }
}

/// What every stored session satisfies: the counter counts the log, the log
/// is well-shaped, the snapshot is the log replayed, and a closed log is not
/// in progress.
pub open spec fn session_ok<R: Rules>(v: SessionView<R>) -> bool {
    &&& v.segments.len() == v.meta.segment_count
    &&& valid_log(v.segments)
    &&& v.snapshot == replay::<R>(v.segments)
    &&& (ends_over(v.segments) ==> !v.meta.in_progress)
    &&& (v.segments.len() > 0 ==> v.snapshot is Some)
}

/// The verdict on appending `seg` to a stored session `v`.
pub open spec fn check_segment<R: Rules>(v: SessionView<R>, seg: Segment<R::Delta>) -> Result<
    (),
    AppendError,
> {
    let segs = v.segments;
    if segs.len() >= u64::MAX {
        Err(AppendError::LogFull)
    } else {
        match seg {
            Segment::Init { .. } => if segs.len() == 0 {
                Ok(())
            } else {
                Err(AppendError::InitNotFirst)
            },
            Segment::Update { idx, delta, .. } => if segs.len() == 0 {
                Err(AppendError::MissingInit)
            } else if ends_over(segs) {
                Err(AppendError::AlreadyOver)
            } else if idx != updates_in(segs) {
                Err(AppendError::OutOfOrder)
            } else if v.snapshot.unwrap().spec_step(delta) is None {
                Err(AppendError::RulesRejected)
            } else {
                Ok(())
            },
            Segment::GameOver => if segs.len() == 0 {
                Err(AppendError::MissingInit)
            } else if ends_over(segs) {
                Err(AppendError::AlreadyOver)
            } else if !v.snapshot.unwrap().spec_over() {
                Err(AppendError::NotOver)
            } else {
                Ok(())
            },
        }
    }
}

/// The verdict on an append by `caller` to `sid`, where `cur` is the stored
/// session, if any.
pub open spec fn append_verdict<R: Rules>(
    cur: Option<SessionView<R>>,
    sid: SessionId,
    seg: Segment<R::Delta>,
    caller: u128,
) -> Result<(), AppendError> {
    if caller != sid.owner {
        Err(AppendError::NotOwner)
    } else {
        match cur {
            None => if seg is Init {
                Ok(())
            } else {
                Err(AppendError::SessionNotFound)
            },
            Some(v) => check_segment(v, seg),
        }
    }
}

/// The state after one more segment, computed from the previous one.
pub open spec fn next_snapshot<R: Rules>(prev: Option<R>, seg: Segment<R::Delta>) -> Option<R> {
    match seg {
        Segment::Init { seed, start_time } => Some(R::spec_start(seed, start_time)),
        Segment::Update { delta, .. } => match prev {
            Some(p) => p.spec_step(delta),
            None => None,
        },
        Segment::GameOver => prev,
    }
}

/// The session after an accepted append: one more segment counted, in
/// progress unless the segment is `GameOver`, the snapshot stepped once.
pub open spec fn appended<R: Rules>(v: SessionView<R>, seg: Segment<R::Delta>) -> SessionView<R> {
    SessionView {
        meta: SessionMeta {
            in_progress: !(seg is GameOver),
            segment_count: (v.meta.segment_count + 1) as u64,
        },
        segments: v.segments.push(seg),
        snapshot: next_snapshot(v.snapshot, seg),
    }
}

/// Records sorted strictly by session order, hence with distinct ids.
pub open spec fn sorted_ids<R: Rules>(recs: Seq<SessionRecord<R>>) -> bool {
    forall|i: int, j: int|
        0 <= i < j < recs.len() ==> id_less(#[trigger] recs[i].id, #[trigger] recs[j].id)
}

pub open spec fn holds_id<R: Rules>(recs: Seq<SessionRecord<R>>, k: SessionId) -> bool {
    exists|i: int| 0 <= i < recs.len() && #[trigger] recs[i].id == k
}

/// The sessions of a sequence of records, by id.
pub open spec fn view_of<R: Rules>(recs: Seq<SessionRecord<R>>) -> Map<SessionId, SessionView<R>> {
    Map::new(
        |k: SessionId| holds_id(recs, k),
        |k: SessionId| recs[choose|i: int| 0 <= i < recs.len() && #[trigger] recs[i].id == k].model(),
    )
}

proof fn lemma_view_get<R: Rules>(recs: Seq<SessionRecord<R>>, i: int)
    requires
        sorted_ids(recs),
        0 <= i < recs.len(),
    ensures
        view_of(recs).contains_key(recs[i].id),
        view_of(recs)[recs[i].id] == recs[i].model(),
{
    let k = recs[i].id;
    assert(holds_id(recs, k));
    let j = choose|j: int| 0 <= j < recs.len() && #[trigger] recs[j].id == k;
    if j < i {
        assert(id_less(recs[j].id, recs[i].id));
    } else if i < j {
        assert(id_less(recs[i].id, recs[j].id));
    }
}

proof fn lemma_view_update<R: Rules>(recs: Seq<SessionRecord<R>>, i: int, r: SessionRecord<R>)
    requires
        sorted_ids(recs),
        0 <= i < recs.len(),
        r.id == recs[i].id,
    ensures
        sorted_ids(recs.update(i, r)),
        view_of(recs.update(i, r)) =~= view_of(recs).insert(r.id, r.model()),
{
    let n = recs.update(i, r);
    assert forall|a: int, b: int| 0 <= a < b < n.len() implies id_less(
        #[trigger] n[a].id,
        #[trigger] n[b].id,
    ) by {
        assert(id_less(recs[a].id, recs[b].id));
    }
    assert forall|k: SessionId| #[trigger] holds_id(n, k) == (holds_id(recs, k) || k == r.id) by {
        if holds_id(recs, k) {
            let j = choose|j: int| 0 <= j < recs.len() && #[trigger] recs[j].id == k;
            assert(n[j].id == k);
        }
        if holds_id(n, k) {
            let j = choose|j: int| 0 <= j < n.len() && #[trigger] n[j].id == k;
            assert(recs[j].id == k);
        }
        if k == r.id {
            assert(n[i].id == k);
        }
    }
    assert forall|k: SessionId| #[trigger] view_of(n).contains_key(k) implies view_of(n)[k]
        == view_of(recs).insert(r.id, r.model())[k] by {
        let j = choose|j: int| 0 <= j < n.len() && #[trigger] n[j].id == k;
        lemma_view_get(n, j);
        if j != i {
            lemma_view_get(recs, j);
        }
    }
}

proof fn lemma_view_insert<R: Rules>(recs: Seq<SessionRecord<R>>, p: int, r: SessionRecord<R>)
    requires
        sorted_ids(recs),
        0 <= p <= recs.len(),
        forall|a: int| 0 <= a < p ==> id_less(#[trigger] recs[a].id, r.id),
        forall|b: int| p <= b < recs.len() ==> id_less(r.id, #[trigger] recs[b].id),
    ensures
        sorted_ids(recs.insert(p, r)),
        !holds_id(recs, r.id),
        view_of(recs.insert(p, r)) =~= view_of(recs).insert(r.id, r.model()),
{
    let n = recs.insert(p, r);
    assert forall|a: int, b: int| 0 <= a < b < n.len() implies id_less(
        #[trigger] n[a].id,
        #[trigger] n[b].id,
    ) by {
        if b < p {
            assert(id_less(recs[a].id, recs[b].id));
        } else if b == p {
            assert(id_less(recs[a].id, r.id));
        } else if a < p {
            assert(id_less(recs[a].id, r.id));
            assert(id_less(r.id, recs[b - 1].id));
        } else if a == p {
            assert(id_less(r.id, recs[b - 1].id));
        } else {
            assert(id_less(recs[a - 1].id, recs[b - 1].id));
        }
    }
    if holds_id(recs, r.id) {
        let j = choose|j: int| 0 <= j < recs.len() && #[trigger] recs[j].id == r.id;
        assert(id_less(recs[j].id, r.id) || id_less(r.id, recs[j].id));
    }
    assert forall|k: SessionId| #[trigger] holds_id(n, k) == (holds_id(recs, k) || k == r.id) by {
        if holds_id(recs, k) {
            let j = choose|j: int| 0 <= j < recs.len() && #[trigger] recs[j].id == k;
            if j < p {
                assert(n[j].id == k);
            } else {
                assert(n[j + 1].id == k);
            }
        }
        if holds_id(n, k) {
            let j = choose|j: int| 0 <= j < n.len() && #[trigger] n[j].id == k;
            if j < p {
                assert(recs[j].id == k);
            } else if j > p {
                assert(recs[j - 1].id == k);
            }
        }
        if k == r.id {
            assert(n[p].id == k);
        }
    }
    assert forall|k: SessionId| #[trigger] view_of(n).contains_key(k) implies view_of(n)[k]
        == view_of(recs).insert(r.id, r.model())[k] by {
        let j = choose|j: int| 0 <= j < n.len() && #[trigger] n[j].id == k;
        lemma_view_get(n, j);
        if j < p {
            lemma_view_get(recs, j);
        } else if j > p {
            lemma_view_get(recs, j - 1);
        }
    }
}

/// An accepted append keeps a session consistent.
pub proof fn lemma_append_keeps_session_ok<R: Rules>(v: SessionView<R>, seg: Segment<R::Delta>)
    requires
        session_ok(v),
        check_segment(v, seg) is Ok,
    ensures
        session_ok(appended(v, seg)),
        appended(v, seg).snapshot == replay::<R>(v.segments.push(seg)),
{
    let old_segs = v.segments;
    let w = appended(v, seg);
    let n = old_segs.len();
    assert(w.segments.drop_last() =~= old_segs);
    if n > 0 {
        assert(fits_at(old_segs, n - 1));
        if !ends_over(old_segs) {
            lemma_updates_of_open_log(old_segs);
        }
    }
    assert forall|i: int| 0 <= i < w.segments.len() implies #[trigger] fits_at(w.segments, i) by {
        if i < n {
            assert(fits_at(old_segs, i));
        }
    }
}

/// The stored session `sid`, if any.
pub open spec fn stored<R: Rules>(m: Map<SessionId, SessionView<R>>, sid: SessionId) -> Option<
    SessionView<R>,
> {
    if m.contains_key(sid) {
        Some(m[sid])
    } else {
        None
    }
}

/// The stored session `sid`, or a fresh one where none is stored.
pub open spec fn current<R: Rules>(m: Map<SessionId, SessionView<R>>, sid: SessionId) -> SessionView<R> {
    if m.contains_key(sid) {
        m[sid]
    } else {
        fresh_view()
    }
}

proof fn lemma_absent<R: Rules>(recs: Seq<SessionRecord<R>>, p: int, k: SessionId)
    requires
        sorted_ids(recs),
        0 <= p <= recs.len(),
        forall|a: int| 0 <= a < p ==> id_less(#[trigger] recs[a].id, k),
        forall|b: int| p <= b < recs.len() ==> id_less(k, #[trigger] recs[b].id),
    ensures
        !view_of(recs).contains_key(k),
{
    if holds_id(recs, k) {
        let j = choose|j: int| 0 <= j < recs.len() && #[trigger] recs[j].id == k;
        assert(id_less(recs[j].id, k) || id_less(k, recs[j].id));
    }
}

/// Match entries in strictly ascending id order, hence with distinct ids.
pub open spec fn match_ids_ascending(s: Seq<(u128, MatchRecord)>) -> bool {
    forall|i: int, j: int| 0 <= i < j < s.len() ==> #[trigger] s[i].0 < #[trigger] s[j].0
}

/// The store of sessions and matches.
pub struct Ledger<R: Rules> {
    sessions: Vec<SessionRecord<R>>,
    matches: Vec<(u128, MatchRecord)>,
}

impl<R: Rules> Ledger<R> {
    /// The session records in session order.
    pub closed spec fn records(&self) -> Seq<SessionRecord<R>> {
        self.sessions@
    }

    /// The match records with their ids, in ascending id order.
    pub closed spec fn match_entries(&self) -> Seq<(u128, MatchRecord)> {
        self.matches@
    }

    /// Every session's id and directory entry, in session order.
    pub open spec fn directory(&self) -> Seq<(SessionId, SessionMeta)> {
        self.records().map_values(|rec: SessionRecord<R>| (rec.id, rec.meta))
    }

    /// The directory lists each stored session once, with its entry, in
    /// strictly increasing session order.
    pub proof fn lemma_directory(&self)
        requires
            self.wf(),
        ensures
            forall|i: int|
                0 <= i < self.directory().len() ==> self.sessions().contains_key(
                    #[trigger] self.directory()[i].0,
                ) && self.sessions()[self.directory()[i].0].meta == self.directory()[i].1,
            forall|k: SessionId|
                #[trigger] self.sessions().contains_key(k) ==> exists|i: int|
                    0 <= i < self.directory().len() && #[trigger] self.directory()[i].0 == k,
            forall|i: int, j: int|
                0 <= i < j < self.directory().len() ==> id_less(
                    #[trigger] self.directory()[i].0,
                    #[trigger] self.directory()[j].0,
                ),
    {
        let recs = self.records();
        let d = self.directory();
        assert forall|i: int| 0 <= i < d.len() implies self.sessions().contains_key(
            #[trigger] d[i].0,
        ) && self.sessions()[d[i].0].meta == d[i].1 by {
            lemma_view_get(recs, i);
        }
        assert forall|k: SessionId| #[trigger] self.sessions().contains_key(k) implies exists|i: int|
            0 <= i < d.len() && #[trigger] d[i].0 == k by {
            let j = choose|j: int| 0 <= j < recs.len() && #[trigger] recs[j].id == k;
            assert(d[j].0 == k);
        }
        assert forall|i: int, j: int| 0 <= i < j < d.len() implies id_less(
            #[trigger] d[i].0,
            #[trigger] d[j].0,
        ) by {
            assert(id_less(recs[i].id, recs[j].id));
        }
    }

    /// The stored sessions, by id.
    pub open spec fn sessions(&self) -> Map<SessionId, SessionView<R>> {
        view_of(self.records())
    }

    /// Records in strict session order, each consistent; matches in strictly
    /// ascending id order.
    pub open spec fn wf(&self) -> bool {
        &&& sorted_ids(self.records())
        &&& forall|i: int|
            0 <= i < self.records().len() ==> session_ok(#[trigger] self.records()[i].model())
        &&& match_ids_ascending(self.match_entries())
    }

    /// Every stored session of a well-formed store is consistent.
    pub proof fn lemma_sessions_ok(&self, sid: SessionId)
        requires
            self.wf(),
            self.sessions().contains_key(sid),
        ensures
            session_ok(self.sessions()[sid]),
    {
        let recs = self.records();
        let j = choose|j: int| 0 <= j < recs.len() && #[trigger] recs[j].id == sid;
        lemma_view_get(recs, j);
    }

    /// An empty store.
    pub fn new() -> (r: Self)
        ensures
            r.wf(),
            r.sessions() == Map::<SessionId, SessionView<R>>::empty(),
            r.match_entries() == Seq::<(u128, MatchRecord)>::empty(),
    {
        let r = Ledger { sessions: Vec::new(), matches: Vec::new() };
        assert(r.sessions() =~= Map::<SessionId, SessionView<R>>::empty());
        r
    }

    /// Where `sid` stands in session order, and whether it is stored there.
    fn locate(&self, sid: &SessionId) -> (r: (usize, bool))
        requires
            self.wf(),
        ensures
            r.0 <= self.records().len(),
            forall|a: int| 0 <= a < r.0 ==> id_less(#[trigger] self.records()[a].id, *sid),
            r.1 ==> r.0 < self.records().len() && self.records()[r.0 as int].id == *sid,
            r.1 ==> self.sessions().contains_key(*sid) && self.sessions()[*sid]
                == self.records()[r.0 as int].model(),
            !r.1 ==> forall|b: int|
                r.0 <= b < self.records().len() ==> id_less(*sid, #[trigger] self.records()[b].id),
            !r.1 ==> !self.sessions().contains_key(*sid),
    {
        let mut i: usize = 0;
        while i < self.sessions.len() && session_precedes(&self.sessions[i].id, sid)
            invariant
                self.wf(),
                i <= self.sessions@.len(),
                forall|a: int| 0 <= a < i ==> id_less(#[trigger] self.sessions@[a].id, *sid),
            decreases self.sessions@.len() - i,
        {
            i = i + 1;
        }
        if i < self.sessions.len() {
            let k = self.sessions[i].id;
            if k.owner == sid.owner && k.start_time == sid.start_time && k.seed == sid.seed {
                proof {
                    lemma_view_get(self.records(), i as int);
                }
                return (i, true);
            }
        }
        proof {
            assert forall|b: int| i <= b < self.records().len() implies id_less(
                *sid,
                #[trigger] self.records()[b].id,
            ) by {
                if b > i {
                    assert(id_less(self.records()[i as int].id, self.records()[b].id));
                }
            }
            lemma_absent(self.records(), i as int, *sid);
        }
        (i, false)
    }
}

/// Appends one segment to a session's log on behalf of `caller`.
///
/// The verdict is `append_verdict`: only the owner may append, an unknown
/// session is opened only by `Init`, and the segment must fit the log. On
/// success the session gains the segment, its counter grows by one, it is in
/// progress unless the segment is `GameOver`, and its snapshot is stepped
/// once; on a refusal nothing changes.
pub fn append_game_segment<R: Rules>(
    ledger: &mut Ledger<R>,
    sid: SessionId,
    seg: Segment<R::Delta>,
    caller: u128,
) -> (r: Result<(), AppendError>)
    requires
        old(ledger).wf(),
    ensures
        final(ledger).wf(),
        r == append_verdict(stored(old(ledger).sessions(), sid), sid, seg, caller),
        r is Ok ==> final(ledger).sessions() == old(ledger).sessions().insert(
            sid,
            appended(current(old(ledger).sessions(), sid), seg),
        ),
        r is Err ==> final(ledger).sessions() == old(ledger).sessions(),
        final(ledger).match_entries() == old(ledger).match_entries(),
{
    if caller != sid.owner {
        return Err(AppendError::NotOwner);
    }
    let (i, found) = ledger.locate(&sid);
    if !found {
        match &seg {
            Segment::Init { seed, start_time } => {
                let state = R::start(*seed, *start_time);
                let mut segments: Vec<Segment<R::Delta>> = Vec::new();
                segments.push(seg);
                let rec = SessionRecord {
                    id: sid,
                    meta: SessionMeta { in_progress: true, segment_count: 1 },
                    segments,
                    snapshot: Some(state),
                };
                proof {
                    lemma_view_insert(ledger.records(), i as int, rec);
                    lemma_append_keeps_session_ok(fresh_view::<R>(), seg);
                    assert(rec.model() == appended(fresh_view::<R>(), seg));
                }
                ledger.sessions.insert(i, rec);
                proof {
                    assert(ledger.records() =~= old(ledger).records().insert(i as int, rec));
                    assert(sorted_ids(ledger.records()));
                    assert(ledger.match_entries() == old(ledger).match_entries());
                    assert forall|a: int| 0 <= a < ledger.records().len() implies session_ok(
                        #[trigger] ledger.records()[a].model(),
                    ) by {
                        if a < i {
                            assert(ledger.records()[a] == old(ledger).records()[a]);
                        } else if a > i {
                            assert(ledger.records()[a] == old(ledger).records()[a - 1]);
                        }
                    }
                }
                return Ok(());
            },
            _ => {
                return Err(AppendError::SessionNotFound);
            },
        }
    }
    proof {
        assert(session_ok(ledger.records()[i as int].model()));
    }
    let count = ledger.sessions[i].meta.segment_count;
    if count == u64::MAX {
        return Err(AppendError::LogFull);
    }
    let n = ledger.sessions[i].segments.len();
    let ghost v = ledger.records()[i as int].model();
    proof {
        if n > 0 {
            assert(fits_at(v.segments, n - 1));
            if !ends_over(v.segments) {
                lemma_updates_of_open_log(v.segments);
            }
        }
    }
    let mut replacement: Option<R> = None;
    let closing: bool;
    match &seg {
        Segment::Init { seed, start_time } => {
            if n != 0 {
                return Err(AppendError::InitNotFirst);
            }
            replacement = Some(R::start(*seed, *start_time));
            closing = false;
        },
        Segment::Update { idx, delta, .. } => {
            if n == 0 {
                return Err(AppendError::MissingInit);
            }
            match &ledger.sessions[i].segments[n - 1] {
                Segment::GameOver => {
                    return Err(AppendError::AlreadyOver);
                },
                Segment::Init { .. } => {
                    if *idx != 0 {
                        return Err(AppendError::OutOfOrder);
                    }
                },
                Segment::Update { idx: prev, .. } => {
                    if *prev + 1 != *idx {
                        return Err(AppendError::OutOfOrder);
                    }
                },
            }
            match &ledger.sessions[i].snapshot {
                Some(state) => {
                    replacement = state.step(delta);
                    if replacement.is_none() {
                        return Err(AppendError::RulesRejected);
                    }
                },
                None => {
                    return Err(AppendError::RulesRejected);
                },
            }
            closing = false;
        },
        Segment::GameOver => {
            if n == 0 {
                return Err(AppendError::MissingInit);
            }
            if let Segment::GameOver = &ledger.sessions[i].segments[n - 1] {
                return Err(AppendError::AlreadyOver);
            }
            match &ledger.sessions[i].snapshot {
                Some(state) => {
                    if !state.is_over() {
                        return Err(AppendError::NotOver);
                    }
                },
                None => {
                    return Err(AppendError::NotOver);
                },
            }
            closing = true;
        },
    }
    proof {
        lemma_append_keeps_session_ok(v, seg);
    }
    let mut rec = ledger.sessions.remove(i);
    rec.segments.push(seg);
    rec.meta = SessionMeta { in_progress: !closing, segment_count: count + 1 };
    if !closing {
        rec.snapshot = replacement;
    }
    proof {
        assert(rec.model() == appended(v, seg));
        lemma_view_update(old(ledger).records(), i as int, rec);
    }
    ledger.sessions.insert(i, rec);
    proof {
        assert(ledger.records() =~= old(ledger).records().update(i as int, rec));
        assert(sorted_ids(ledger.records()));
        assert(ledger.match_entries() == old(ledger).match_entries());
        assert forall|a: int| 0 <= a < ledger.records().len() implies session_ok(
            #[trigger] ledger.records()[a].model(),
        ) by {
            if a != i {
                assert(ledger.records()[a] == old(ledger).records()[a]);
            }
        }
    }
    Ok(())
}

/// A session as it stands after its owner opened a new one: no longer in
/// progress, all else kept.
pub open spec fn retired<R: Rules>(v: SessionView<R>) -> SessionView<R> {
    SessionView {
        meta: SessionMeta { in_progress: false, segment_count: v.meta.segment_count },
        segments: v.segments,
        snapshot: v.snapshot,
    }
}

/// The sessions after retiring all of `owner`'s.
pub open spec fn retire_all<R: Rules>(m: Map<SessionId, SessionView<R>>, owner: u128) -> Map<
    SessionId,
    SessionView<R>,
> {
    Map::new(
        |k: SessionId| m.contains_key(k),
        |k: SessionId|
            if k.owner == owner {
                retired(m[k])
            } else {
                m[k]
            },
    )
}

proof fn lemma_view_pointwise<R: Rules>(a: Seq<SessionRecord<R>>, b: Seq<SessionRecord<R>>)
    requires
        sorted_ids(a),
        a.len() == b.len(),
        forall|i: int| 0 <= i < a.len() ==> #[trigger] b[i].id == a[i].id,
    ensures
        sorted_ids(b),
        forall|k: SessionId| #[trigger] view_of(b).contains_key(k) == view_of(a).contains_key(k),
        forall|i: int|
            0 <= i < a.len() ==> view_of(a)[a[i].id] == a[i].model() && view_of(b)[a[i].id]
                == #[trigger] b[i].model(),
{
    assert forall|i: int, j: int| 0 <= i < j < b.len() implies id_less(
        #[trigger] b[i].id,
        #[trigger] b[j].id,
    ) by {
        assert(id_less(a[i].id, a[j].id));
    }
    assert forall|k: SessionId| #[trigger] view_of(b).contains_key(k) == view_of(a).contains_key(
        k,
    ) by {
        if holds_id(a, k) {
            let j = choose|j: int| 0 <= j < a.len() && #[trigger] a[j].id == k;
            assert(b[j].id == k);
        }
        if holds_id(b, k) {
            let j = choose|j: int| 0 <= j < b.len() && #[trigger] b[j].id == k;
            assert(a[j].id == k);
        }
    }
    assert forall|i: int| 0 <= i < a.len() implies view_of(a)[a[i].id] == a[i].model()
        && view_of(b)[a[i].id] == #[trigger] b[i].model() by {
        lemma_view_get(a, i);
        lemma_view_get(b, i);
    }
}

/// Marks every session of `owner` as no longer in progress.
fn retire_sessions_of<R: Rules>(ledger: &mut Ledger<R>, owner: u128)
    requires
        old(ledger).wf(),
    ensures
        final(ledger).wf(),
        final(ledger).sessions() == retire_all(old(ledger).sessions(), owner),
        final(ledger).match_entries() == old(ledger).match_entries(),
{
    let ghost start = ledger.records();
    let mut i: usize = 0;
    while i < ledger.sessions.len()
        invariant
            0 <= i <= ledger.records().len(),
            ledger.records().len() == start.len(),
            sorted_ids(start),
            forall|a: int| 0 <= a < start.len() ==> session_ok(#[trigger] start[a].model()),
            forall|a: int| 0 <= a < start.len() ==> #[trigger] ledger.records()[a].id == start[a].id,
            forall|a: int|
                0 <= a < i ==> #[trigger] ledger.records()[a].model() == if start[a].id.owner
                    == owner {
                    retired(start[a].model())
                } else {
                    start[a].model()
                },
            forall|a: int| i <= a < start.len() ==> #[trigger] ledger.records()[a] == start[a],
            ledger.match_entries() == old(ledger).match_entries(),
            match_ids_ascending(ledger.match_entries()),
        decreases start.len() - i,
    {
        if ledger.sessions[i].id.owner == owner {
            let mut rec = ledger.sessions.remove(i);
            rec.meta = SessionMeta { in_progress: false, segment_count: rec.meta.segment_count };
            ledger.sessions.insert(i, rec);
        }
        i = i + 1;
    }
    proof {
        let now = ledger.records();
        lemma_view_pointwise(start, now);
        assert forall|a: int| 0 <= a < now.len() implies session_ok(#[trigger] now[a].model()) by {
            assert(session_ok(start[a].model()));
        }
        let target = retire_all(old(ledger).sessions(), owner);
        assert forall|k: SessionId| #[trigger] ledger.sessions().contains_key(k) implies ledger.sessions()[k]
            == target[k] by {
            let j = choose|j: int| 0 <= j < now.len() && #[trigger] now[j].id == k;
            assert(now[j].model() == ledger.sessions()[now[j].id]);
        }
        assert(ledger.sessions() =~= target);
    }
}

/// Marks the stored session `sid` as no longer in progress, keeping all else.
/// Refused, with nothing changed, where `sid` is not stored.
pub fn retire_session<R: Rules>(ledger: &mut Ledger<R>, sid: SessionId) -> (r: bool)
    requires
        old(ledger).wf(),
    ensures
        final(ledger).wf(),
        r == old(ledger).sessions().contains_key(sid),
        r ==> final(ledger).sessions() == old(ledger).sessions().insert(
            sid,
            retired(old(ledger).sessions()[sid]),
        ),
        !r ==> final(ledger).sessions() == old(ledger).sessions(),
        final(ledger).match_entries() == old(ledger).match_entries(),
{
    let (i, found) = ledger.locate(&sid);
    if !found {
        return false;
    }
    let mut rec = ledger.sessions.remove(i);
    rec.meta = SessionMeta { in_progress: false, segment_count: rec.meta.segment_count };
    proof {
        assert(rec.model() == retired(old(ledger).sessions()[sid]));
        lemma_view_update(old(ledger).records(), i as int, rec);
        assert(session_ok(old(ledger).records()[i as int].model()));
    }
    ledger.sessions.insert(i, rec);
    proof {
        assert(ledger.records() =~= old(ledger).records().update(i as int, rec));
        assert(ledger.match_entries() == old(ledger).match_entries());
        assert forall|a: int| 0 <= a < ledger.records().len() implies session_ok(
            #[trigger] ledger.records()[a].model(),
        ) by {
            if a != i {
                assert(ledger.records()[a] == old(ledger).records()[a]);
            }
        }
    }
    true
}

/// Opens the fresh session `sid`: counted zero, in progress, empty log.
/// Refused, with nothing changed, where `sid` is already stored.
pub fn open_session<R: Rules>(ledger: &mut Ledger<R>, sid: SessionId) -> (r: bool)
    requires
        old(ledger).wf(),
    ensures
        final(ledger).wf(),
        r == !old(ledger).sessions().contains_key(sid),
        r ==> final(ledger).sessions() == old(ledger).sessions().insert(sid, fresh_view()),
        !r ==> final(ledger).sessions() == old(ledger).sessions(),
        final(ledger).match_entries() == old(ledger).match_entries(),
{
    let (i, found) = ledger.locate(&sid);
    if found {
        return false;
    }
    let rec = SessionRecord {
        id: sid,
        meta: SessionMeta { in_progress: true, segment_count: 0 },
        segments: Vec::new(),
        snapshot: None,
    };
    proof {
        lemma_view_insert(ledger.records(), i as int, rec);
        assert(rec.model() == fresh_view::<R>());
        assert(valid_log(rec.segments@));
    }
    ledger.sessions.insert(i, rec);
    proof {
        assert(ledger.records() =~= old(ledger).records().insert(i as int, rec));
        assert(ledger.match_entries() == old(ledger).match_entries());
        assert forall|a: int| 0 <= a < ledger.records().len() implies session_ok(
            #[trigger] ledger.records()[a].model(),
        ) by {
            if a < i {
                assert(ledger.records()[a] == old(ledger).records()[a]);
            } else if a > i {
                assert(ledger.records()[a] == old(ledger).records()[a - 1]);
            }
        }
    }
    true
}

/// Opens a new session for `owner` started at `now`, with a freshly drawn
/// seed, after retiring every session of `owner` still in progress.
///
/// Returns the new id; `None` only where the drawn id is already stored,
/// in which case the retirement alone took place.
pub fn create_new_game_id<R: Rules>(ledger: &mut Ledger<R>, owner: u128, now: u64) -> (r: Option<
    SessionId,
>)
    requires
        old(ledger).wf(),
    ensures
        final(ledger).wf(),
        match r {
            Some(sid) => {
                &&& sid.owner == owner
                &&& sid.start_time == now
                &&& !retire_all(old(ledger).sessions(), owner).contains_key(sid)
                &&& final(ledger).sessions() == retire_all(old(ledger).sessions(), owner).insert(
                    sid,
                    fresh_view(),
                )
            },
            None => {
                &&& final(ledger).sessions() == retire_all(old(ledger).sessions(), owner)
                &&& exists|seed: u64|
                    retire_all(old(ledger).sessions(), owner).contains_key(
                        SessionId { owner, seed, start_time: now },
                    )
            },
        },
        final(ledger).match_entries() == old(ledger).match_entries(),
{
    retire_sessions_of(ledger, owner);
    let seed = fresh_seed();
    let sid = SessionId { owner, seed, start_time: now };
    if open_session(ledger, sid) {
        Some(sid)
    } else {
        None
    }
}

/// Stores a match record under `id`, in id order, and opens the two
/// sessions it implies, both or neither. Refused, with nothing changed, where
/// the two players are the same, `id` is taken, or either session is already
/// stored.
pub fn create_db_match_entry<R: Rules>(ledger: &mut Ledger<R>, id: u128, rec: MatchRecord) -> (r:
    bool)
    requires
        old(ledger).wf(),
    ensures
        final(ledger).wf(),
        r == (rec.first != rec.second && !old(ledger).sessions().contains_key(rec.first_session())
            && !old(ledger).sessions().contains_key(rec.second_session()) && forall|i: int|
            0 <= i < old(ledger).match_entries().len() ==> #[trigger] old(
            ledger,
        ).match_entries()[i].0 != id),
        r ==> final(ledger).sessions() == old(ledger).sessions().insert(
            rec.first_session(),
            fresh_view(),
        ).insert(rec.second_session(), fresh_view()),
        r ==> exists|p: int|
            0 <= p <= old(ledger).match_entries().len() && final(ledger).match_entries()
                == #[trigger] old(ledger).match_entries().insert(p, (id, rec)),
        !r ==> final(ledger).sessions() == old(ledger).sessions(),
        !r ==> final(ledger).match_entries() == old(ledger).match_entries(),
{
    if rec.first == rec.second {
        return false;
    }
    let mut i: usize = 0;
    while i < ledger.matches.len() && ledger.matches[i].0 < id
        invariant
            *ledger == *old(ledger),
            ledger.wf(),
            i <= ledger.match_entries().len(),
            forall|a: int| 0 <= a < i ==> #[trigger] ledger.match_entries()[a].0 < id,
        decreases ledger.match_entries().len() - i,
    {
        i = i + 1;
    }
    if i < ledger.matches.len() && ledger.matches[i].0 == id {
        return false;
    }
    proof {
        assert forall|b: int| i <= b < ledger.match_entries().len() implies id
            < #[trigger] ledger.match_entries()[b].0 by {
            if b > i {
                assert(ledger.match_entries()[i as int].0 < ledger.match_entries()[b].0);
            }
        }
    }
    let (s0, s1) = rec.sessions();
    let (_, found0) = ledger.locate(&s0);
    let (_, found1) = ledger.locate(&s1);
    if found0 || found1 {
        return false;
    }
    let opened0 = open_session(ledger, s0);
    let opened1 = open_session(ledger, s1);
    assert(opened0 && opened1);
    ledger.matches.insert(i, (id, rec));
    proof {
        let o = old(ledger).match_entries();
        let n = ledger.match_entries();
        assert(n == o.insert(i as int, (id, rec)));
        assert forall|a: int, b: int| 0 <= a < b < n.len() implies #[trigger] n[a].0
            < #[trigger] n[b].0 by {
            if b < i {
                assert(o[a].0 < o[b].0);
            } else if b == i {
                assert(o[a].0 < id);
            } else if a < i {
                assert(o[a].0 < id);
                assert(id < o[b - 1].0);
            } else if a == i {
                assert(id < o[b - 1].0);
            } else {
                assert(o[a - 1].0 < o[b - 1].0);
            }
        }
    }
    true
}

/// The directory entry of a session, if it is stored.
pub fn get_segment_count<R: Rules>(ledger: &Ledger<R>, sid: SessionId) -> (r: Option<SessionMeta>)
    requires
        ledger.wf(),
    ensures
        r == (if ledger.sessions().contains_key(sid) {
            Some(ledger.sessions()[sid].meta)
        } else {
            None
        }),
{
    let (i, found) = ledger.locate(&sid);
    if found {
        Some(ledger.sessions[i].meta)
    } else {
        None
    }
}

/// The snapshot persisted after the last append, if the session is stored
/// and has one.
pub fn get_last_full_game_state<R: Rules>(ledger: &Ledger<R>, sid: SessionId) -> (r: Option<&R>)
    requires
        ledger.wf(),
    ensures
        match r {
            Some(s) => ledger.sessions().contains_key(sid) && ledger.sessions()[sid].snapshot
                == Some(*s),
            None => !ledger.sessions().contains_key(sid) || ledger.sessions()[sid].snapshot is None,
        },
{
    let (i, found) = ledger.locate(&sid);
    if found {
        match &ledger.sessions[i].snapshot {
            Some(s) => Some(s),
            None => None,
        }
    } else {
        None
    }
}

/// A session's log in order, if the session is stored.
pub fn get_all_segments_for_game<R: Rules>(ledger: &Ledger<R>, sid: SessionId) -> (r: Option<
    &Vec<Segment<R::Delta>>,
>)
    requires
        ledger.wf(),
    ensures
        match r {
            Some(v) => ledger.sessions().contains_key(sid) && v@ == ledger.sessions()[sid].segments,
            None => !ledger.sessions().contains_key(sid),
        },
{
    let (i, found) = ledger.locate(&sid);
    if found {
        Some(&ledger.sessions[i].segments)
    } else {
        None
    }
}

/// Every match record with its id, in ascending id order.
pub fn get_match_list<R: Rules>(ledger: &Ledger<R>) -> (r: &Vec<(u128, MatchRecord)>)
    requires
        ledger.wf(),
    ensures
        r@ == ledger.match_entries(),
        forall|i: int, j: int| 0 <= i < j < r@.len() ==> #[trigger] r@[i].0 < #[trigger] r@[j].0,
{
    &ledger.matches
}

/// The match record stored under `id`, if any.
pub fn get_match_info<R: Rules>(ledger: &Ledger<R>, id: u128) -> (r: Option<&MatchRecord>)
    ensures
        match r {
            Some(m) => exists|i: int|
                0 <= i < ledger.match_entries().len() && #[trigger] ledger.match_entries()[i]
                    == (id, *m),
            None => forall|i: int|
                0 <= i < ledger.match_entries().len() ==> #[trigger] ledger.match_entries()[i].0
                    != id,
        },
{
    let mut i: usize = 0;
    while i < ledger.matches.len()
        invariant
            i <= ledger.match_entries().len(),
            forall|a: int| 0 <= a < i ==> #[trigger] ledger.match_entries()[a].0 != id,
        decreases ledger.match_entries().len() - i,
    {
        if ledger.matches[i].0 == id {
            return Some(&ledger.matches[i].1);
        }
        i = i + 1;
    }
    None
}

/// Every session's id and directory entry, in session order.
pub fn list_directory<R: Rules>(ledger: &Ledger<R>) -> (r: Vec<(SessionId, SessionMeta)>)
    ensures
        r@ == ledger.directory(),
{
    let mut out: Vec<(SessionId, SessionMeta)> = Vec::new();
    let mut i: usize = 0;
    while i < ledger.sessions.len()
        invariant
            i <= ledger.records().len(),
            out@ == ledger.records().subrange(0, i as int).map_values(
                |rec: SessionRecord<R>| (rec.id, rec.meta),
            ),
        decreases ledger.records().len() - i,
    {
        out.push((ledger.sessions[i].id, ledger.sessions[i].meta));
        proof {
            assert(ledger.records().subrange(0, i + 1).map_values(
                |rec: SessionRecord<R>| (rec.id, rec.meta),
            ) =~= out@);
        }
        i = i + 1;
    }
    proof {
        assert(ledger.records().subrange(0, i as int) =~= ledger.records());
    }
    out
}

} // verus!
