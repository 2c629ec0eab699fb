use vstd::prelude::*;

verus! {

/// The game engine that turns a session's segments into a game state.
///
/// The engine is a deterministic state-transition function supplied by the
/// service that embeds this library; the replay log only folds segments
/// through it and never looks inside a state.
pub trait Rules: Sized {
    /// The engine-defined payload of one update segment.
    type Delta;

    /// The state a session starts in.
    spec fn spec_start(seed: u64, start_time: u64) -> Self;

    /// The state after one update, or `None` where the engine refuses it.
    spec fn spec_step(self, delta: Self::Delta) -> Option<Self>;

    /// Whether the state reports the game as over.
    spec fn spec_over(self) -> bool;

    /// Starts a state from a session's seed and start time.
    fn start(seed: u64, start_time: u64) -> (r: Self)
        ensures
            r == Self::spec_start(seed, start_time),
    ;

    /// Applies one update, or refuses it.
    fn step(&self, delta: &Self::Delta) -> (r: Option<Self>)
        ensures
            r == self.spec_step(*delta),
    ;

    /// Whether the game is over.
    fn is_over(&self) -> (r: bool)
        ensures
            r == self.spec_over(),
    ;
}

/// One durable record of a session's event log.
pub enum Segment<D> {
    Init { seed: u64, start_time: u64 },
    Update { idx: u64, delta: D, timestamp: u64 },
    GameOver,
}

/// Whether the segment at position `i` stands where the log's shape allows:
/// `Init` only first, the k-th `Update` with index k, `GameOver` only last
/// and never first.
pub open spec fn fits_at<D>(segs: Seq<Segment<D>>, i: int) -> bool {
    match segs[i] {
        Segment::Init { .. } => i == 0,
        Segment::Update { idx, .. } => i > 0 && idx == i - 1,
        Segment::GameOver => i > 0 && i == segs.len() - 1,
    }
}

/// A well-shaped log: every segment fits where it stands.
pub open spec fn valid_log<D>(segs: Seq<Segment<D>>) -> bool {
    forall|i: int| 0 <= i < segs.len() ==> #[trigger] fits_at(segs, i)
}

/// Whether the log has been closed by `GameOver`.
pub open spec fn ends_over<D>(segs: Seq<Segment<D>>) -> bool {
    segs.len() > 0 && segs.last() is GameOver
}

/// How many `Update` segments the log holds.
pub open spec fn updates_in<D>(segs: Seq<Segment<D>>) -> nat
    decreases segs.len(),
{
    if segs.len() == 0 {
        0
    } else {
        updates_in(segs.drop_last()) + if segs.last() is Update { 1nat } else { 0nat }
    }
}

/// The state obtained by folding the whole log through the engine from
/// scratch: `Init` starts a state, `Update` steps it, `GameOver` keeps it.
pub open spec fn replay<R: Rules>(segs: Seq<Segment<R::Delta>>) -> Option<R>
    decreases segs.len(),
{
    if segs.len() == 0 {
        None
    } else {
        let prev = replay::<R>(segs.drop_last());
        match segs.last() {
            Segment::Init { seed, start_time } => Some(R::spec_start(seed, start_time)),
            Segment::Update { delta, .. } => match prev {
                Some(p) => p.spec_step(delta),
                None => None,
            },
            Segment::GameOver => prev,
        }
    }
}

/// A prefix of a well-shaped log is well-shaped, but for a `GameOver` that
/// the cut left in the middle, which cannot happen: it only ever stands last.
pub proof fn lemma_valid_prefix<D>(segs: Seq<Segment<D>>)
    requires
        valid_log(segs),
        segs.len() > 0,
    ensures
        valid_log(segs.drop_last()),
{
    let p = segs.drop_last();
    assert forall|i: int| 0 <= i < p.len() implies #[trigger] fits_at(p, i) by {
        assert(fits_at(segs, i));
    }
}

/// In a well-shaped open log, all segments but the leading `Init` are updates.
pub proof fn lemma_updates_of_open_log<D>(segs: Seq<Segment<D>>)
    requires
        valid_log(segs),
        segs.len() > 0,
        !ends_over(segs),
    ensures
        updates_in(segs) == segs.len() - 1,
    decreases segs.len(),
{
    let n = segs.len();
    assert(fits_at(segs, n - 1));
    if n > 1 {
        let p = segs.drop_last();
        lemma_valid_prefix(segs);
        assert(fits_at(segs, n - 2));
        assert(p.last() == segs[n - 2]);
        lemma_updates_of_open_log(p);
    } else {
        assert(updates_in(segs.drop_last()) == 0);
    }
}

/// Folds a log through the engine from scratch.
pub fn replay_segments<R: Rules>(segs: &Vec<Segment<R::Delta>>) -> (r: Option<R>)
    ensures
        r == replay::<R>(segs@),
{
    let mut state: Option<R> = None;
    let mut i: usize = 0;
    while i < segs.len()
        invariant
            i <= segs@.len(),
            state == replay::<R>(segs@.subrange(0, i as int)),
        decreases segs@.len() - i,
    {
        assert(segs@.subrange(0, i + 1).drop_last() =~= segs@.subrange(0, i as int));
        match &segs[i] {
            Segment::Init { seed, start_time } => {
                state = Some(R::start(*seed, *start_time));
            },
            Segment::Update { delta, .. } => {
                state = match &state {
                    Some(s) => s.step(delta),
                    None => None,
                };
            },
            Segment::GameOver => {},
        }
        i = i + 1;
    }
    assert(segs@.subrange(0, segs@.len() as int) =~= segs@);
    state
}

} // verus!
