use game_sessions::ids::{SessionId, SessionMeta};
use game_sessions::keys::{
    decode_match, decode_meta, decode_segment_key, decode_session_key, encode_match, encode_meta,
    segment_key, session_key,
};
use game_sessions::matchmaking::pair_players;

#[test]
fn session_key_layout() {
    let sid = SessionId { owner: 0x0102, seed: 0x0a0b, start_time: 0x0304 };
    let k = session_key(&sid);
    assert_eq!(k.len(), 32);
    let mut want = vec![0u8; 32];
    want[14] = 1;
    want[15] = 2;
    want[22] = 3;
    want[23] = 4;
    want[30] = 0x0a;
    want[31] = 0x0b;
    assert_eq!(k, want);
}

#[test]
fn session_keys_sort_by_owner_then_start_time() {
    let ids = [
        SessionId { owner: 1, seed: 9, start_time: 500 },
        SessionId { owner: 1, seed: 0, start_time: 70_000 },
        SessionId { owner: 1, seed: 1, start_time: 70_000 },
        SessionId { owner: 2, seed: 0, start_time: 3 },
        SessionId { owner: 256, seed: 0, start_time: 0 },
        SessionId { owner: u128::MAX, seed: u64::MAX, start_time: u64::MAX },
    ];
    for i in 0..ids.len() {
        for j in 0..ids.len() {
            let (a, b) = (session_key(&ids[i]), session_key(&ids[j]));
            assert_eq!(i < j, a < b, "{i} {j}");
        }
    }
    let owner_prefix = &session_key(&ids[0])[..16];
    assert_eq!(&session_key(&ids[1])[..16], owner_prefix);
    assert_ne!(&session_key(&ids[3])[..16], owner_prefix);
}

#[test]
fn segment_keys_sort_by_index() {
    let sid = SessionId { owner: 7, seed: 7, start_time: 7 };
    let idx = [0u64, 1, 255, 256, 65_536, u64::MAX];
    for w in idx.windows(2) {
        assert!(segment_key(&sid, w[0]) < segment_key(&sid, w[1]));
    }
    let k = segment_key(&sid, 258);
    assert_eq!(k.len(), 40);
    assert_eq!(&k[..32], &session_key(&sid)[..]);
    assert_eq!(&k[32..], &[0, 0, 0, 0, 0, 0, 1, 2]);
}

#[test]
fn meta_round_trip() {
    for m in [
        SessionMeta { in_progress: true, segment_count: 0 },
        SessionMeta { in_progress: false, segment_count: 4 },
        SessionMeta { in_progress: true, segment_count: u64::MAX },
    ] {
        let b = encode_meta(m);
        assert_eq!(b.len(), 9);
        assert_eq!(decode_meta(&b), Some(m));
    }
    assert_eq!(encode_meta(SessionMeta { in_progress: true, segment_count: 258 }), vec![1, 0, 0, 0, 0, 0, 0, 1, 2]);
}

#[test]
fn malformed_meta_is_refused() {
    assert_eq!(decode_meta(&vec![]), None);
    assert_eq!(decode_meta(&vec![1, 0, 0]), None);
    assert_eq!(decode_meta(&vec![2, 0, 0, 0, 0, 0, 0, 0, 0]), None);
    assert_eq!(decode_meta(&vec![0, 0, 0, 0, 0, 0, 0, 0, 0, 0]), None);
}

#[test]
fn keys_read_back() {
    let sid = SessionId { owner: 0x1234_5678_9abc, seed: 99, start_time: 1_700_000_000 };
    assert_eq!(decode_session_key(&session_key(&sid)), Some(sid));
    assert_eq!(decode_segment_key(&segment_key(&sid, 513)), Some((sid, 513)));
    assert_eq!(decode_session_key(&vec![0u8; 31]), None);
    assert_eq!(decode_segment_key(&session_key(&sid)), None);
}

#[test]
fn match_record_round_trip() {
    let m = pair_players(5, 6, 77, 88);
    let b = encode_match(&m);
    assert_eq!(b.len(), 48);
    let back = decode_match(&b).expect("48 bytes");
    assert_eq!((back.seed, back.start_time, back.first, back.second), (77, 88, 5, 6));
    assert_eq!(back.title, m.title);
    assert!(decode_match(&b[..47].to_vec()).is_none());
}
