use vstd::prelude::*;

use crate::ids::{id_less, MatchRecord, SessionId, SessionMeta};
use crate::matchmaking::{match_title, pair_players};

verus! {

/// How many values fit in `n` bytes.
pub open spec fn span(n: nat) -> nat
    decreases n,
{
    if n == 0 {
        1
    } else {
        256 * span((n - 1) as nat)
    }
}

/// The last `n` bytes of `x`, most significant first.
pub open spec fn be_of(x: nat, n: nat) -> Seq<u8>
    decreases n,
{
    if n == 0 {
        Seq::empty()
    } else {
        be_of(x / 256, (n - 1) as nat).push((x % 256) as u8)
    }
}

/// The number that bytes spell, most significant first.
pub open spec fn from_be(s: Seq<u8>) -> nat
    decreases s.len(),
{
    if s.len() == 0 {
        0
    } else {
        from_be(s.drop_last()) * 256 + s.last() as nat
    }
}

/// Byte-wise lexicographic order: the first differing byte decides.
pub open spec fn bytes_less(a: Seq<u8>, b: Seq<u8>) -> bool {
    exists|i: int| 0 <= i < a.len() && i < b.len() && a.take(i) == b.take(i) && #[trigger] a[i] < #[trigger] b[i]
}

/// The store key of a session: owner, start time, seed.
pub open spec fn session_key_of(sid: SessionId) -> Seq<u8> {
    be_of(sid.owner as nat, 16) + be_of(sid.start_time as nat, 8) + be_of(sid.seed as nat, 8)
}

/// The store key of a session's segment: the session key, then the index.
pub open spec fn segment_key_of(sid: SessionId, idx: u64) -> Seq<u8> {
    session_key_of(sid) + be_of(idx as nat, 8)
}

/// The stored form of a directory entry: one flag byte, then the count.
pub open spec fn meta_bytes(m: SessionMeta) -> Seq<u8> {
    seq![if m.in_progress { 1u8 } else { 0u8 }] + be_of(m.segment_count as nat, 8)
}

pub proof fn lemma_be_len(x: nat, n: nat)
    ensures
        be_of(x, n).len() == n,
    decreases n,
{
    if n > 0 {
        lemma_be_len(x / 256, (n - 1) as nat);
    }
}

proof fn lemma_spans()
    ensures
        span(8) == 0x1_0000_0000_0000_0000,
        span(16) == 0x1_0000_0000_0000_0000_0000_0000_0000_0000,
        span(15) == 0x1_0000_0000_0000_0000_0000_0000_0000_00,
{
    reveal_with_fuel(span, 17);
}

proof fn lemma_span_step(x: nat, n: nat)
    requires
        n > 0,
        x < span(n),
    ensures
        x / 256 < span((n - 1) as nat),
{
    let s = span((n - 1) as nat);
    assert(x < 256 * s);
    assert(x / 256 < s) by (nonlinear_arith)
        requires
            x < 256 * s,
    ;
}

/// Reading back the bytes of a number that fits gives the number.
pub proof fn lemma_from_be_of(x: nat, n: nat)
    requires
        x < span(n),
    ensures
        from_be(be_of(x, n)) == x,
    decreases n,
{
    if n > 0 {
        lemma_span_step(x, n);
        lemma_from_be_of(x / 256, (n - 1) as nat);
        let s = be_of(x, n);
        assert(s.drop_last() =~= be_of(x / 256, (n - 1) as nat));
    }
}

/// Bytes read back as a number fit in as many bytes.
pub proof fn lemma_from_be_bound(s: Seq<u8>)
    ensures
        from_be(s) < span(s.len()),
    decreases s.len(),
{
    if s.len() > 0 {
        lemma_from_be_bound(s.drop_last());
        let a = from_be(s.drop_last());
        let p = span((s.len() - 1) as nat);
        let b = s.last() as nat;
        assert(a * 256 + b < 256 * p) by (nonlinear_arith)
            requires
                a < p,
                b < 256,
        ;
    }
}

/// Appending one byte to each of two equally long sequences: the earlier
/// bytes decide, and only where they agree does the new byte.
proof fn lemma_less_push(p: Seq<u8>, q: Seq<u8>, a: u8, b: u8)
    requires
        p.len() == q.len(),
    ensures
        bytes_less(p.push(a), q.push(b)) == (bytes_less(p, q) || (p == q && a < b)),
{
    let pa = p.push(a);
    let qb = q.push(b);
    if bytes_less(pa, qb) {
        let i = choose|i: int|
            0 <= i < pa.len() && i < qb.len() && pa.take(i) == qb.take(i) && #[trigger] pa[i]
                < #[trigger] qb[i];
        if i < p.len() {
            assert(p.take(i) =~= pa.take(i));
            assert(q.take(i) =~= qb.take(i));
            assert(p[i] < q[i]);
        } else {
            assert(p =~= pa.take(i));
            assert(q =~= qb.take(i));
        }
    }
    if bytes_less(p, q) {
        let i = choose|i: int|
            0 <= i < p.len() && i < q.len() && p.take(i) == q.take(i) && #[trigger] p[i]
                < #[trigger] q[i];
        assert(p.take(i) =~= pa.take(i));
        assert(q.take(i) =~= qb.take(i));
        assert(pa[i] < qb[i]);
    }
    if p == q && a < b {
        let i = p.len() as int;
        assert(pa.take(i) =~= p);
        assert(qb.take(i) =~= q);
        assert(pa[i] < qb[i]);
    }
}

/// For numbers that fit in `n` bytes, their bytes compare as the numbers do.
pub proof fn lemma_be_order(x: nat, y: nat, n: nat)
    requires
        x < span(n),
        y < span(n),
    ensures
        (x < y) == bytes_less(be_of(x, n), be_of(y, n)),
        (x == y) == (be_of(x, n) == be_of(y, n)),
    decreases n,
{
    if n == 0 {
        assert(x == 0 && y == 0);
    } else {
        let m = (n - 1) as nat;
        lemma_span_step(x, n);
        lemma_span_step(y, n);
        lemma_be_order(x / 256, y / 256, m);
        lemma_be_len(x / 256, m);
        lemma_be_len(y / 256, m);
        let p = be_of(x / 256, m);
        let q = be_of(y / 256, m);
        lemma_less_push(p, q, (x % 256) as u8, (y % 256) as u8);
        if be_of(x, n) == be_of(y, n) {
            assert(be_of(x, n).drop_last() =~= p);
            assert(be_of(y, n).drop_last() =~= q);
            assert(be_of(x, n).last() == be_of(y, n).last());
        }
    }
}

/// Joining equally long heads to equally long tails: the heads decide, and
/// only where they agree do the tails.
proof fn lemma_less_concat(a1: Seq<u8>, a2: Seq<u8>, b1: Seq<u8>, b2: Seq<u8>)
    requires
        a1.len() == b1.len(),
        a2.len() == b2.len(),
    ensures
        bytes_less(a1 + a2, b1 + b2) == (bytes_less(a1, b1) || (a1 == b1 && bytes_less(a2, b2))),
{
    let a = a1 + a2;
    let b = b1 + b2;
    let h = a1.len() as int;
    if bytes_less(a, b) {
        let i = choose|i: int|
            0 <= i < a.len() && i < b.len() && a.take(i) == b.take(i) && #[trigger] a[i]
                < #[trigger] b[i];
        if i < h {
            assert(a1.take(i) =~= a.take(i));
            assert(b1.take(i) =~= b.take(i));
            assert(a1[i] < b1[i]);
        } else {
            assert(a1 =~= a.take(i).take(h));
            assert(b1 =~= b.take(i).take(h));
            let j = i - h;
            assert(a2.take(j) =~= a.take(i).skip(h));
            assert(b2.take(j) =~= b.take(i).skip(h));
            assert(a2[j] < b2[j]);
        }
    }
    if bytes_less(a1, b1) {
        let i = choose|i: int|
            0 <= i < a1.len() && i < b1.len() && a1.take(i) == b1.take(i) && #[trigger] a1[i]
                < #[trigger] b1[i];
        assert(a1.take(i) =~= a.take(i));
        assert(b1.take(i) =~= b.take(i));
        assert(a[i] < b[i]);
    }
    if a1 == b1 && bytes_less(a2, b2) {
        let j = choose|j: int|
            0 <= j < a2.len() && j < b2.len() && a2.take(j) == b2.take(j) && #[trigger] a2[j]
                < #[trigger] b2[j];
        let i = h + j;
        assert(a.take(i) =~= a1 + a2.take(j));
        assert(b.take(i) =~= b1 + b2.take(j));
        assert(a[i] < b[i]);
    }
}

/// Session keys sort as sessions do, so that the sessions of one owner form
/// one contiguous run of keys, by start time; every key of an owner starts
/// with the owner's bytes.
pub proof fn lemma_session_key_order(s: SessionId, t: SessionId)
    ensures
        id_less(s, t) == bytes_less(session_key_of(s), session_key_of(t)),
        (s == t) == (session_key_of(s) == session_key_of(t)),
        session_key_of(s).take(16) == be_of(s.owner as nat, 16),
{
    lemma_spans();
    lemma_be_order(s.owner as nat, t.owner as nat, 16);
    lemma_be_order(s.start_time as nat, t.start_time as nat, 8);
    lemma_be_order(s.seed as nat, t.seed as nat, 8);
    lemma_be_len(s.owner as nat, 16);
    lemma_be_len(t.owner as nat, 16);
    lemma_be_len(s.start_time as nat, 8);
    lemma_be_len(t.start_time as nat, 8);
    lemma_be_len(s.seed as nat, 8);
    lemma_be_len(t.seed as nat, 8);
    let (o1, o2) = (be_of(s.owner as nat, 16), be_of(t.owner as nat, 16));
    let (m1, m2) = (be_of(s.start_time as nat, 8), be_of(t.start_time as nat, 8));
    let (d1, d2) = (be_of(s.seed as nat, 8), be_of(t.seed as nat, 8));
    lemma_less_concat(m1, d1, m2, d2);
    lemma_less_concat(o1, m1 + d1, o2, m2 + d2);
    assert(session_key_of(s) =~= o1 + (m1 + d1));
    assert(session_key_of(t) =~= o2 + (m2 + d2));
    if session_key_of(s) == session_key_of(t) {
        assert((o1 + (m1 + d1)).take(16) =~= o1);
        assert((o2 + (m2 + d2)).take(16) =~= o2);
        assert((o1 + (m1 + d1)).skip(16) =~= m1 + d1);
        assert((o2 + (m2 + d2)).skip(16) =~= m2 + d2);
        assert((m1 + d1).take(8) =~= m1);
        assert((m2 + d2).take(8) =~= m2);
        assert((m1 + d1).skip(8) =~= d1);
        assert((m2 + d2).skip(8) =~= d2);
    }
    assert((o1 + (m1 + d1)).take(16) =~= o1);
}

/// Within one session, segment keys sort by segment index.
pub proof fn lemma_segment_key_order(sid: SessionId, i: u64, j: u64)
    ensures
        (i < j) == bytes_less(segment_key_of(sid, i), segment_key_of(sid, j)),
{
    lemma_spans();
    lemma_be_order(i as nat, j as nat, 8);
    lemma_be_len(i as nat, 8);
    lemma_be_len(j as nat, 8);
    let k = session_key_of(sid);
    lemma_less_concat(k, be_of(i as nat, 8), k, be_of(j as nat, 8));
    if bytes_less(k, k) {
        // no byte is below itself
        let x = choose|x: int|
            0 <= x < k.len() && x < k.len() && k.take(x) == k.take(x) && #[trigger] k[x]
                < #[trigger] k[x];
    }
}

/// Writes the last `n` bytes of `x`, most significant first.
fn push_be(out: &mut Vec<u8>, x: u128, n: usize)
    requires
        n <= 16,
    ensures
        final(out)@ == old(out)@ + be_of(x as nat, n as nat),
    decreases n,
{
    if n > 0 {
        push_be(out, x / 256, n - 1);
        out.push((x % 256) as u8);
        proof {
            assert(final(out)@ =~= old(out)@ + be_of(x as nat, n as nat)) by {
                assert((x / 256) as nat == x as nat / 256);
            }
        }
    }
}

/// The store key of a session.
pub fn session_key(sid: &SessionId) -> (r: Vec<u8>)
    ensures
        r@ == session_key_of(*sid),
{
    let mut out: Vec<u8> = Vec::new();
    push_be(&mut out, sid.owner, 16);
    push_be(&mut out, sid.start_time as u128, 8);
    push_be(&mut out, sid.seed as u128, 8);
    proof {
        assert(out@ =~= session_key_of(*sid));
    }
    out
}

/// The store key of a session's segment.
pub fn segment_key(sid: &SessionId, idx: u64) -> (r: Vec<u8>)
    ensures
        r@ == segment_key_of(*sid, idx),
{
    let mut out = session_key(sid);
    push_be(&mut out, idx as u128, 8);
    out
}

/// The stored form of a directory entry.
pub fn encode_meta(m: SessionMeta) -> (r: Vec<u8>)
    ensures
        r@ == meta_bytes(m),
{
    let mut out: Vec<u8> = Vec::new();
    out.push(if m.in_progress { 1u8 } else { 0u8 });
    push_be(&mut out, m.segment_count as u128, 8);
    proof {
        assert(out@ =~= meta_bytes(m));
    }
    out
}

/// Reads a directory entry back: nine bytes, a flag of 0 or 1 first.
pub fn decode_meta(b: &Vec<u8>) -> (r: Option<SessionMeta>)
    ensures
        r == if b@.len() == 9 && b@[0] <= 1 {
            Some(
                SessionMeta {
                    in_progress: b@[0] == 1,
                    segment_count: from_be(b@.subrange(1, 9)) as u64,
                },
            )
        } else {
            None
        },
{
    if b.len() != 9 || b[0] > 1 {
        return None;
    }
    let mut acc: u64 = 0;
    let mut i: usize = 1;
    while i < 9
        invariant
            b@.len() == 9,
            1 <= i <= 9,
            acc as nat == from_be(b@.subrange(1, i as int)),
        decreases 9 - i,
    {
        proof {
            lemma_from_be_bound(b@.subrange(1, i as int));
            lemma_spans();
            assert(b@.subrange(1, i + 1).drop_last() =~= b@.subrange(1, i as int));
            reveal_with_fuel(span, 9);
            assert(span((i - 1) as nat) <= span(7));
        }
        acc = acc * 256 + b[i] as u64;
        i = i + 1;
    }
    Some(SessionMeta { in_progress: b[0] == 1, segment_count: acc })
}

/// Reading a stored directory entry back gives the entry.
pub proof fn lemma_meta_round_trip(m: SessionMeta)
    ensures
        meta_bytes(m).len() == 9,
        meta_bytes(m)[0] <= 1,
        meta_bytes(m)[0] == 1 <==> m.in_progress,
        from_be(meta_bytes(m).subrange(1, 9)) == m.segment_count,
{
    lemma_spans();
    lemma_be_len(m.segment_count as nat, 8);
    assert(meta_bytes(m).subrange(1, 9) =~= be_of(m.segment_count as nat, 8));
    lemma_from_be_of(m.segment_count as nat, 8);
}

proof fn lemma_span_mono(a: nat, b: nat)
    requires
        a <= b,
    ensures
        span(a) <= span(b),
    decreases b,
{
    if a < b {
        lemma_span_mono(a, (b - 1) as nat);
    }
}

/// Reads `n` bytes at `start` as a number, most significant first.
fn read_be(b: &Vec<u8>, start: usize, n: usize) -> (r: u128)
    requires
        start + n <= b@.len(),
        n <= 16,
    ensures
        r as nat == from_be(b@.subrange(start as int, start + n)),
{
    let len = b.len();
    let mut acc: u128 = 0;
    let mut i: usize = 0;
    while i < n
        invariant
            len == b@.len(),
            start + n <= b@.len(),
            n <= 16,
            i <= n,
            acc as nat == from_be(b@.subrange(start as int, start + i)),
        decreases n - i,
    {
        proof {
            let part = b@.subrange(start as int, start + i);
            lemma_from_be_bound(part);
            lemma_spans();
            lemma_span_mono(i as nat, 15);
            assert(acc < 0x1_0000_0000_0000_0000_0000_0000_0000_00);
            assert(b@.subrange(start as int, start + i + 1).drop_last() =~= part);
        }
        let byte = b[start + i] as u128;
        assert(acc * 256 + byte <= u128::MAX);
        acc = acc * 256 + byte;
        i = i + 1;
    }
    acc
}

/// The session whose store key `b` is.
pub open spec fn session_of_key(b: Seq<u8>) -> SessionId {
    SessionId {
        owner: from_be(b.subrange(0, 16)) as u128,
        start_time: from_be(b.subrange(16, 24)) as u64,
        seed: from_be(b.subrange(24, 32)) as u64,
    }
}

/// Reads a session key back: 32 bytes.
pub fn decode_session_key(b: &Vec<u8>) -> (r: Option<SessionId>)
    ensures
        r == if b@.len() == 32 {
            Some(session_of_key(b@))
        } else {
            None
        },
{
    if b.len() != 32 {
        return None;
    }
    let owner = read_be(b, 0, 16);
    let start_time = read_be(b, 16, 8);
    let seed = read_be(b, 24, 8);
    proof {
        lemma_from_be_bound(b@.subrange(16, 24));
        lemma_from_be_bound(b@.subrange(24, 32));
        lemma_spans();
    }
    Some(SessionId { owner, start_time: start_time as u64, seed: seed as u64 })
}

/// Reads a segment key back: 40 bytes, a session key then an index.
pub fn decode_segment_key(b: &Vec<u8>) -> (r: Option<(SessionId, u64)>)
    ensures
        r == if b@.len() == 40 {
            Some((session_of_key(b@), from_be(b@.subrange(32, 40)) as u64))
        } else {
            None
        },
{
    if b.len() != 40 {
        return None;
    }
    let owner = read_be(b, 0, 16);
    let start_time = read_be(b, 16, 8);
    let seed = read_be(b, 24, 8);
    let idx = read_be(b, 32, 8);
    proof {
        lemma_from_be_bound(b@.subrange(16, 24));
        lemma_from_be_bound(b@.subrange(24, 32));
        lemma_from_be_bound(b@.subrange(32, 40));
        lemma_spans();
    }
    Some((SessionId { owner, start_time: start_time as u64, seed: seed as u64 }, idx as u64))
}

/// Reading a session key back gives the session; a segment key gives the
/// session and the index.
pub proof fn lemma_key_round_trip(sid: SessionId, idx: u64)
    ensures
        session_key_of(sid).len() == 32,
        session_of_key(session_key_of(sid)) == sid,
        segment_key_of(sid, idx).len() == 40,
        session_of_key(segment_key_of(sid, idx)) == sid,
        from_be(segment_key_of(sid, idx).subrange(32, 40)) == idx,
{
    lemma_spans();
    let o = be_of(sid.owner as nat, 16);
    let t = be_of(sid.start_time as nat, 8);
    let d = be_of(sid.seed as nat, 8);
    let x = be_of(idx as nat, 8);
    lemma_be_len(sid.owner as nat, 16);
    lemma_be_len(sid.start_time as nat, 8);
    lemma_be_len(sid.seed as nat, 8);
    lemma_be_len(idx as nat, 8);
    lemma_from_be_of(sid.owner as nat, 16);
    lemma_from_be_of(sid.start_time as nat, 8);
    lemma_from_be_of(sid.seed as nat, 8);
    lemma_from_be_of(idx as nat, 8);
    let k = session_key_of(sid);
    let g = segment_key_of(sid, idx);
    assert(k.subrange(0, 16) =~= o);
    assert(k.subrange(16, 24) =~= t);
    assert(k.subrange(24, 32) =~= d);
    assert(g.subrange(0, 16) =~= o);
    assert(g.subrange(16, 24) =~= t);
    assert(g.subrange(24, 32) =~= d);
    assert(g.subrange(32, 40) =~= x);
}

/// The stored form of a match record: seed, start time, first player,
/// second player. The title is not stored: it follows from the players.
pub open spec fn match_bytes(m: MatchRecord) -> Seq<u8> {
    be_of(m.seed as nat, 8) + be_of(m.start_time as nat, 8) + be_of(m.first as nat, 16) + be_of(
        m.second as nat,
        16,
    )
}

/// The stored form of a match record.
pub fn encode_match(m: &MatchRecord) -> (r: Vec<u8>)
    ensures
        r@ == match_bytes(*m),
{
    let mut out: Vec<u8> = Vec::new();
    push_be(&mut out, m.seed as u128, 8);
    push_be(&mut out, m.start_time as u128, 8);
    push_be(&mut out, m.first, 16);
    push_be(&mut out, m.second, 16);
    proof {
        assert(out@ =~= match_bytes(*m));
    }
    out
}

/// Reads a match record back: 48 bytes; the title is rebuilt from the
/// players.
pub fn decode_match(b: &Vec<u8>) -> (r: Option<MatchRecord>)
    ensures
        match r {
            Some(m) => b@.len() == 48 && m.seed == from_be(b@.subrange(0, 8)) && m.start_time
                == from_be(b@.subrange(8, 16)) && m.first == from_be(b@.subrange(16, 32))
                && m.second == from_be(b@.subrange(32, 48)) && m.title@ == match_title(
                m.first,
                m.second,
            ),
            None => b@.len() != 48,
        },
{
    if b.len() != 48 {
        return None;
    }
    let seed = read_be(b, 0, 8);
    let start_time = read_be(b, 8, 8);
    let first = read_be(b, 16, 16);
    let second = read_be(b, 32, 16);
    proof {
        lemma_from_be_bound(b@.subrange(0, 8));
        lemma_from_be_bound(b@.subrange(8, 16));
        lemma_spans();
    }
    Some(pair_players(first, second, seed as u64, start_time as u64))
}

/// Reading a stored match record back gives its fields, and its title where
/// that was built from the players.
pub proof fn lemma_match_round_trip(m: MatchRecord)
    ensures
        match_bytes(m).len() == 48,
        from_be(match_bytes(m).subrange(0, 8)) == m.seed,
        from_be(match_bytes(m).subrange(8, 16)) == m.start_time,
        from_be(match_bytes(m).subrange(16, 32)) == m.first,
        from_be(match_bytes(m).subrange(32, 48)) == m.second,
{
    lemma_spans();
    lemma_be_len(m.seed as nat, 8);
    lemma_be_len(m.start_time as nat, 8);
    lemma_be_len(m.first as nat, 16);
    lemma_be_len(m.second as nat, 16);
    lemma_from_be_of(m.seed as nat, 8);
    lemma_from_be_of(m.start_time as nat, 8);
    lemma_from_be_of(m.first as nat, 16);
    lemma_from_be_of(m.second as nat, 16);
    let b = match_bytes(m);
    assert(b.subrange(0, 8) =~= be_of(m.seed as nat, 8));
    assert(b.subrange(8, 16) =~= be_of(m.start_time as nat, 8));
    assert(b.subrange(16, 32) =~= be_of(m.first as nat, 16));
    assert(b.subrange(32, 48) =~= be_of(m.second as nat, 16));
}

} // verus!
