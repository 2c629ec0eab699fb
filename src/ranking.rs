use vstd::prelude::*;
use vstd::seq_lib::{group_to_multiset_ensures, lemma_multiset_commutative};

use crate::ids::{id_less, SessionId, SessionMeta};
use crate::ledger::{list_directory, Ledger};
use crate::segment::Rules;

verus! {

broadcast use group_to_multiset_ensures;

/// How many sessions one listing returns at most.
pub const PAGE_SIZE: usize = 9;

/// The width, in nanoseconds, of the start-time buckets that "recent"
/// listings sort by; sessions started within one bucket tie.
pub const RECENT_BUCKET_NANOS: u64 = 100000;

/// Which sessions a listing considers.
#[derive(Clone, Copy, Debug, PartialEq, Eq, Structural)]
pub enum Scope {
    AllSessions,
    SessionsOfOwner(u128),
}

/// How a listing ranks sessions: most recently started, or furthest played.
#[derive(Clone, Copy, Debug, PartialEq, Eq, Structural)]
pub enum Order {
    ByActivityRecent,
    ByProgressBest,
}

/// Whether an entry belongs to the sessions a listing considers.
pub open spec fn in_scope(scope: Scope, e: (SessionId, SessionMeta)) -> bool {
    match scope {
        Scope::AllSessions => true,
        Scope::SessionsOfOwner(owner) => e.0.owner == owner,
    }
}

/// The value a listing sorts by, highest first.
pub open spec fn rank_of(order: Order, e: (SessionId, SessionMeta)) -> u64 {
    match order {
        Order::ByActivityRecent => e.0.start_time / RECENT_BUCKET_NANOS,
        Order::ByProgressBest => e.1.segment_count,
    }
}

/// No session id occurs twice.
pub open spec fn distinct_ids(s: Seq<(SessionId, SessionMeta)>) -> bool {
    forall|i: int, j: int| 0 <= i < j < s.len() ==> #[trigger] s[i].0 != #[trigger] s[j].0
}

/// Ranked highest first.
pub open spec fn ranked_desc(order: Order, s: Seq<(SessionId, SessionMeta)>) -> bool {
    forall|i: int, j: int|
        0 <= i < j < s.len() ==> rank_of(order, #[trigger] s[i]) >= rank_of(order, #[trigger] s[j])
}

/// The value an entry is ranked by.
pub fn rank_key(order: Order, e: &(SessionId, SessionMeta)) -> (r: u64)
    ensures
        r == rank_of(order, *e),
{
    match order {
        Order::ByActivityRecent => e.0.start_time / RECENT_BUCKET_NANOS,
        Order::ByProgressBest => e.1.segment_count,
    }
}

/// The entries of `v` that are in scope, in their order.
pub fn select_scope(scope: Scope, v: &Vec<(SessionId, SessionMeta)>) -> (r: Vec<
    (SessionId, SessionMeta),
>)
    ensures
        r@ == v@.filter(|e: (SessionId, SessionMeta)| in_scope(scope, e)),
        distinct_ids(v@) ==> distinct_ids(r@),
{
    let ghost pred = |e: (SessionId, SessionMeta)| in_scope(scope, e);
    let mut out: Vec<(SessionId, SessionMeta)> = Vec::new();
    let mut i: usize = 0;
    while i < v.len()
        invariant
            i <= v@.len(),
            pred == (|e: (SessionId, SessionMeta)| in_scope(scope, e)),
            out@ == v@.take(i as int).filter(pred),
            distinct_ids(v@) ==> distinct_ids(out@),
        decreases v@.len() - i,
    {
        let e = v[i];
        proof {
            reveal(Seq::filter);
            assert(v@.take(i + 1).drop_last() =~= v@.take(i as int));
            assert(v@.take(i + 1).last() == e);
        }
        let keep = match scope {
            Scope::AllSessions => true,
            Scope::SessionsOfOwner(owner) => e.0.owner == owner,
        };
        proof {
            assert(pred(e) == in_scope(scope, e));
            assert(in_scope(scope, e) == keep);
            if keep {
                assert(v@.take(i + 1).filter(pred) == v@.take(i as int).filter(pred).push(e));
            } else {
                assert(v@.take(i + 1).filter(pred) == v@.take(i as int).filter(pred));
            }
        }
        let ghost before = out@;
        if keep {
            out.push(e);
            proof {
                if distinct_ids(v@) {
                    assert forall|a: int, b: int| 0 <= a < b < out@.len() implies #[trigger] out@[a].0
                        != #[trigger] out@[b].0 by {
                        if b == before.len() {
                            let t = v@.take(i as int);
                            assert(before.contains(before[a]));
                            t.lemma_filter_contains_rev(pred, before[a]);
                            let j = choose|j: int| 0 <= j < t.len() && t[j] == before[a];
                            assert(v@[j] == before[a]);
                            assert(v@[j].0 != v@[i as int].0);
                        } else {
                            assert(before[a].0 != before[b].0);
                        }
                    }
                }
            }
        }
        i = i + 1;
    }
    proof {
        assert(v@.take(v@.len() as int) =~= v@);
    }
    out
}

/// Sorts by rank, highest first.
pub fn sort_by_rank(order: Order, v: Vec<(SessionId, SessionMeta)>) -> (r: Vec<
    (SessionId, SessionMeta),
>)
    ensures
        ranked_desc(order, r@),
        r@.to_multiset() == v@.to_multiset(),
        distinct_ids(v@) ==> distinct_ids(r@),
{
    let mut out: Vec<(SessionId, SessionMeta)> = Vec::new();
    let mut i: usize = 0;
    while i < v.len()
        invariant
            i <= v@.len(),
            ranked_desc(order, out@),
            out@.to_multiset() == v@.take(i as int).to_multiset(),
            forall|a: int|
                #![trigger out@[a]]
                0 <= a < out@.len() ==> exists|j: int| 0 <= j < i && #[trigger] v@[j].0 == out@[a].0,
            distinct_ids(v@) ==> distinct_ids(out@),
        decreases v@.len() - i,
    {
        let e = v[i];
        let k = rank_key(order, &e);
        let mut p: usize = 0;
        while p < out.len() && rank_key(order, &out[p]) >= k
            invariant
                p <= out@.len(),
                forall|a: int| 0 <= a < p ==> rank_of(order, #[trigger] out@[a]) >= k,
            decreases out@.len() - p,
        {
            p = p + 1;
        }
        let ghost before = out@;
        out.insert(p, e);
        proof {
            assert forall|a: int, b: int| 0 <= a < b < out@.len() implies rank_of(
                order,
                #[trigger] out@[a],
            ) >= rank_of(order, #[trigger] out@[b]) by {
                if b < p {
                    assert(rank_of(order, before[a]) >= rank_of(order, before[b]));
                } else if b == p {
                    assert(rank_of(order, before[a]) >= k);
                } else if a < p {
                    assert(rank_of(order, before[a]) >= k);
                    assert(rank_of(order, before[p as int]) < k);
                    if b - 1 > p {
                        assert(rank_of(order, before[p as int]) >= rank_of(order, before[b - 1]));
                    }
                } else if a == p {
                    assert(rank_of(order, before[p as int]) < k);
                    if b - 1 > p {
                        assert(rank_of(order, before[p as int]) >= rank_of(order, before[b - 1]));
                    }
                } else {
                    assert(rank_of(order, before[a - 1]) >= rank_of(order, before[b - 1]));
                }
            }
            assert(v@.take(i + 1) =~= v@.take(i as int).push(e));
            if distinct_ids(v@) {
                assert forall|a: int, b: int| 0 <= a < b < out@.len() implies #[trigger] out@[a].0
                    != #[trigger] out@[b].0 by {
                    if a == p {
                        let j = choose|j: int| 0 <= j < i && #[trigger] v@[j].0 == before[b - 1].0;
                        assert(v@[j].0 != v@[i as int].0);
                    } else if b == p {
                        let j = choose|j: int| 0 <= j < i && #[trigger] v@[j].0 == before[a].0;
                        assert(v@[j].0 != v@[i as int].0);
                    } else {
                        let a0 = if a < p { a } else { a - 1 };
                        let b0 = if b < p { b } else { b - 1 };
                        assert(before[a0].0 != before[b0].0);
                    }
                }
            }
        }
        i = i + 1;
        proof {
            assert forall|a: int| #![trigger out@[a]] 0 <= a < out@.len() implies exists|j: int|
                0 <= j < i && #[trigger] v@[j].0 == out@[a].0 by {
                if a < p {
                    let j = choose|j: int| 0 <= j < i - 1 && #[trigger] v@[j].0 == before[a].0;
                    assert(v@[j].0 == out@[a].0);
                } else if a == p {
                    assert(v@[i - 1].0 == out@[a].0);
                } else {
                    let j = choose|j: int| 0 <= j < i - 1 && #[trigger] v@[j].0 == before[a - 1].0;
                    assert(v@[j].0 == out@[a].0);
                }
            }
        }
    }
    proof {
        assert(v@.take(v@.len() as int) =~= v@);
    }
    out
}

/// Lists up to `PAGE_SIZE` sessions in scope, ranked highest first.
///
/// The result is ranked in non-increasing order, holds only sessions in
/// scope, each at most as often as the directory does, and is as long as
/// the page allows; no session left out ranks above the last one listed.
pub fn get_all_games<R: Rules>(ledger: &Ledger<R>, scope: Scope, order: Order) -> (r: Vec<
    (SessionId, SessionMeta),
>)
    requires
        ledger.wf(),
    ensures
        ({
            let pool = ledger.directory().filter(
                |e: (SessionId, SessionMeta)| in_scope(scope, e),
            );
            &&& r@.len() == if pool.len() < PAGE_SIZE {
                pool.len()
            } else {
                PAGE_SIZE as nat
            }
            &&& ranked_desc(order, r@)
            &&& forall|i: int| 0 <= i < r@.len() ==> in_scope(scope, #[trigger] r@[i])
            &&& distinct_ids(r@)
            &&& r@.to_multiset().subset_of(pool.to_multiset())
            &&& forall|e: (SessionId, SessionMeta)|
                #[trigger] pool.to_multiset().count(e) > r@.to_multiset().count(e) ==> r@.len() > 0
                    && rank_of(order, e) <= rank_of(order, r@.last())
        }),
{
    let all = list_directory(ledger);
    proof {
        ledger.lemma_directory();
        assert forall|i: int, j: int| 0 <= i < j < all@.len() implies #[trigger] all@[i].0
            != #[trigger] all@[j].0 by {
            assert(id_less(all@[i].0, all@[j].0));
        }
    }
    let pool = select_scope(scope, &all);
    let ghost pool_seq = pool@;
    let mut ranked = sort_by_rank(order, pool);
    let ghost full = ranked@;
    ranked.truncate(PAGE_SIZE);
    proof {
        let pred = |e: (SessionId, SessionMeta)| in_scope(scope, e);
        broadcast use vstd::seq_lib::group_filter_ensures;
        let k = ranked@.len() as int;
        assert(full.to_multiset().len() == full.len());
        assert(pool_seq.to_multiset().len() == pool_seq.len());
        assert(full.take(k) =~= ranked@);
        assert(full =~= full.take(k) + full.skip(k));
        lemma_multiset_commutative(full.take(k), full.skip(k));
        assert forall|i: int| 0 <= i < ranked@.len() implies in_scope(scope, #[trigger] ranked@[i]) by {
            assert(full.to_multiset().count(ranked@[i]) > 0);
            assert(pool_seq.contains(ranked@[i]));
        }
        assert forall|e: (SessionId, SessionMeta)|
            #[trigger] pool_seq.to_multiset().count(e) > ranked@.to_multiset().count(e) implies ranked@.len()
            > 0 && rank_of(order, e) <= rank_of(order, ranked@.last()) by {
            assert(full.skip(k).to_multiset().count(e) > 0);
            assert(full.skip(k).contains(e));
            let j = choose|j: int| 0 <= j < full.skip(k).len() && full.skip(k)[j] == e;
            assert(full[k + j] == e);
            assert(k > 0);
            assert(rank_of(order, full[k - 1]) >= rank_of(order, full[k + j]));
        }
    }
    ranked
}

} // verus!
