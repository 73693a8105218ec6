use bitstream::bits::Bits;
use bitstream::codec::{decode, encode};
use bitstream::frame::{ClientMessage, Frame};
use bitstream::hub::Hub;
use bitstream::ingress::{bits_from_indices, changes_from_indices};
use bitstream::publisher::Publisher;
use bitstream::session::Session;
use bitstream::state::{apply_batch, AppState};

fn small_state(keyframe_interval: usize, capacity: usize, max_catchup: usize) -> AppState {
    AppState::with_config(Bits::zeroed(16), keyframe_interval, capacity, max_catchup, 100)
}

fn versions(frames: &[Frame]) -> Vec<usize> {
    frames.iter().map(|f| f.version()).collect()
}

fn advance_to(state: &mut AppState, version: usize) {
    while state.version() < version {
        state.update(vec![], 100);
    }
}

#[test]
fn steady_delta_scenario() {
    let mut s = small_state(4, 8, 5);
    assert_eq!(
        s.update(vec![(3, true)], 1),
        Frame::PFrame { version: 1, timestamp: 1, changes: vec![(3, true)] }
    );
    assert_eq!(
        s.update(vec![(5, true)], 2),
        Frame::PFrame { version: 2, timestamp: 2, changes: vec![(5, true)] }
    );
    assert_eq!(s.update(vec![], 3), Frame::PFrame { version: 3, timestamp: 3, changes: vec![] });
    let key = s.update(vec![(3, true)], 4);
    assert_eq!(key, Frame::IFrame { version: 4, timestamp: 4, data: vec![0b101000] });
    assert_eq!(s.buffered(), 5);
    assert_eq!(s.buffered_frame(0).version(), 0);
    assert!(s.buffered_frame(0).is_keyframe());
}

#[test]
fn unchanged_bit_gives_empty_delta() {
    let mut s = small_state(4, 8, 5);
    s.update(vec![(3, true)], 1);
    let f = s.update(vec![(3, true)], 2);
    assert_eq!(f, Frame::PFrame { version: 2, timestamp: 2, changes: vec![] });
    assert!(s.get(3));
}

#[test]
fn out_of_range_index_ignored() {
    let mut s = small_state(4, 8, 5);
    let f = s.update(vec![(20, true), (2, true)], 1);
    assert_eq!(f, Frame::PFrame { version: 1, timestamp: 1, changes: vec![(2, true)] });
    assert_eq!(s.len(), 16);
    for i in 0..16 {
        assert_eq!(s.get(i), i == 2);
    }
}

#[test]
fn empty_batch_still_advances() {
    let mut s = small_state(4, 8, 5);
    for v in 1..=4usize {
        let f = s.update(vec![], 0);
        assert_eq!(f.version(), v);
        assert_eq!(s.version(), v);
        if v == 4 {
            assert_eq!(f, Frame::IFrame { version: 4, timestamp: 0, data: vec![0] });
        } else {
            assert_eq!(f, Frame::PFrame { version: v, timestamp: 0, changes: vec![] });
        }
    }
}

#[test]
fn delta_holds_only_flipped_bits_in_order() {
    let mut s = small_state(4, 8, 5);
    let f = s.update(vec![(1, true), (1, true), (2, false), (1, false), (15, true)], 7);
    assert_eq!(
        f,
        Frame::PFrame { version: 1, timestamp: 7, changes: vec![(1, true), (1, false), (15, true)] }
    );
    assert!(!s.get(1));
    assert!(s.get(15));
}

#[test]
fn replay_buffer_is_ordered_and_bounded() {
    let mut s = small_state(4, 8, 5);
    advance_to(&mut s, 21);
    assert_eq!(s.buffered(), 8);
    for k in 0..8 {
        let f = s.buffered_frame(k);
        assert_eq!(f.version(), 14 + k);
        assert_eq!(f.is_keyframe(), f.version() % 4 == 0);
    }
}

#[test]
fn catch_up_within_window() {
    let mut s = small_state(4, 8, 5);
    advance_to(&mut s, 10);
    assert_eq!(s.buffered_frame(0).version(), 3);
    let out = s.catch_up(7, 50);
    assert_eq!(versions(&out), vec![8, 9, 10]);
    assert_eq!(out[0], s.buffered_frame(5));
}

#[test]
fn catch_up_gap_too_large() {
    let mut s = small_state(4, 16, 10);
    s.update(vec![(9, true)], 1);
    advance_to(&mut s, 100);
    let out = s.catch_up(50, 77);
    assert_eq!(out, vec![Frame::IFrame { version: 100, timestamp: 77, data: vec![1 << 9] }]);
}

#[test]
fn catch_up_client_ahead() {
    let mut s = small_state(4, 8, 5);
    advance_to(&mut s, 10);
    let out = s.catch_up(999, 5);
    assert_eq!(out, vec![Frame::IFrame { version: 10, timestamp: 5, data: vec![0] }]);
}

#[test]
fn catch_up_when_current_sends_nothing() {
    let mut s = small_state(4, 8, 5);
    advance_to(&mut s, 10);
    assert!(s.catch_up(10, 5).is_empty());
    let fresh = small_state(4, 8, 5);
    assert!(fresh.catch_up(0, 5).is_empty());
}

#[test]
fn catch_up_at_the_bound_replays() {
    let mut s = small_state(4, 8, 5);
    advance_to(&mut s, 10);
    assert_eq!(versions(&s.catch_up(5, 1)), vec![6, 7, 8, 9, 10]);
    let out = s.catch_up(4, 1);
    assert_eq!(out.len(), 1);
    assert!(out[0].is_keyframe());
}

#[test]
fn reconstruction_from_snapshot_matches_store() {
    let mut s = small_state(4, 8, 5);
    let mut held = vec![false; 16];
    let steps: Vec<Vec<(usize, bool)>> = vec![
        vec![(0, true), (7, true)],
        vec![(7, false), (30, true)],
        vec![],
        vec![(15, true), (3, true)],
        vec![(0, false)],
    ];
    for step in steps {
        let f = s.update(step, 0);
        match f {
            Frame::IFrame { data, .. } => {
                for i in 0..16 {
                    held[i] = (data[i / 64] >> (i % 64)) & 1 == 1;
                }
            }
            Frame::PFrame { changes, .. } => {
                for (i, v) in changes {
                    held[i] = v;
                }
            }
        }
        for i in 0..16 {
            assert_eq!(held[i], s.get(i));
        }
    }
}

#[test]
fn encode_keyframe_layout() {
    let f = Frame::IFrame { version: 2, timestamp: 3, data: vec![0x0102] };
    let bytes = encode(&f);
    let mut expected = vec![0u8, 0, 0, 0, 2, 0, 0, 0, 0, 0, 0, 0, 3, 0, 0, 0, 0, 0, 0, 0];
    expected.extend_from_slice(&[1, 0, 0, 0, 0, 0, 0, 0, 2, 1, 0, 0, 0, 0, 0, 0]);
    assert_eq!(bytes, expected);
}

#[test]
fn encode_matches_bincode() {
    let key = Frame::IFrame { version: 300, timestamp: 1_700_000_000, data: vec![5, u64::MAX] };
    let want = bincode::serialize(&(0u32, 300u64, 1_700_000_000u64, vec![5u64, u64::MAX])).unwrap();
    assert_eq!(encode(&key), want);
    let delta = Frame::PFrame { version: 7, timestamp: 9, changes: vec![(3, true), (70000, false)] };
    let want = bincode::serialize(&(1u32, 7u64, 9u64, vec![(3u64, true), (70000u64, false)])).unwrap();
    assert_eq!(encode(&delta), want);
}

#[test]
fn round_trip_frames() {
    let frames = vec![
        Frame::IFrame { version: 0, timestamp: 0, data: vec![] },
        Frame::IFrame { version: 1 << 40, timestamp: 12, data: vec![1, 2, 3] },
        Frame::PFrame { version: 5, timestamp: 6, changes: vec![] },
        Frame::PFrame { version: 5, timestamp: 6, changes: vec![(1, true), (999, false)] },
    ];
    for f in frames {
        assert_eq!(decode(&encode(&f)), Some(f.clone()));
    }
}

#[test]
fn decode_rejects_malformed() {
    assert_eq!(decode(&vec![]), None);
    let good = encode(&Frame::PFrame { version: 1, timestamp: 2, changes: vec![(4, true)] });
    let mut bad_tag = good.clone();
    bad_tag[0] = 2;
    assert_eq!(decode(&bad_tag), None);
    let mut bad_bool = good.clone();
    let last = bad_bool.len() - 1;
    bad_bool[last] = 2;
    assert_eq!(decode(&bad_bool), None);
    let mut short = good.clone();
    short.pop();
    assert_eq!(decode(&short), None);
    let mut long = good.clone();
    long.push(0);
    assert_eq!(decode(&long), None);
    let mut bad_count = good;
    bad_count[20] = 2;
    assert_eq!(decode(&bad_count), None);
}

#[test]
fn bits_words_pack_low_bit_first() {
    let mut b = Bits::zeroed(70);
    assert_eq!(b.len(), 70);
    assert_eq!(b.words(), vec![0, 0]);
    b.set(0, true);
    b.set(65, true);
    assert!(b.get(65));
    assert!(!b.get(64));
    assert_eq!(b.words(), vec![1, 2]);
}

#[test]
fn apply_batch_reports_flips() {
    let mut b = Bits::zeroed(8);
    let changed = apply_batch(&mut b, &vec![(1, true), (9, true), (1, true), (2, false)]);
    assert_eq!(changed, vec![(1, true)]);
    assert!(b.get(1));
}

#[test]
fn snapshot_indices_to_bits_and_changes() {
    let b = bits_from_indices(&vec![1, 5, 5, 40], 8);
    let set: Vec<bool> = (0..8).map(|i| b.get(i)).collect();
    assert_eq!(set, vec![false, true, false, false, false, true, false, false]);
    assert_eq!(changes_from_indices(&vec![3, 9, 0], 8), vec![(3, true), (0, true)]);
}

#[test]
fn session_drops_stale_live_frames() {
    let opening = Frame::IFrame { version: 5, timestamp: 0, data: vec![] };
    let mut s = Session::open(&opening);
    assert_eq!(s.high_water(), 5);
    let f = |v: usize| Frame::PFrame { version: v, timestamp: 0, changes: vec![] };
    assert!(!s.forward(&f(4)));
    assert!(!s.forward(&f(5)));
    assert!(s.forward(&f(6)));
    assert!(!s.forward(&f(6)));
    assert!(s.forward(&f(8)));
    assert_eq!(s.high_water(), 8);
}

#[test]
fn catch_up_then_live_stream_stays_monotone() {
    let mut state = small_state(4, 8, 5);
    advance_to(&mut state, 3);
    let mut session = Session::open(&state.snapshot_frame(0));
    let mut pending = vec![];
    for _ in 0..4 {
        pending.push(state.update(vec![], 0));
    }
    let replay = session.handle_client_reconnect(&state, 4, 0);
    assert_eq!(versions(&replay), vec![5, 6, 7]);
    assert_eq!(session.high_water(), 7);
    let mut sent = versions(&replay);
    pending.push(state.update(vec![], 0));
    for f in &pending {
        if session.forward(f) {
            sent.push(f.version());
        }
    }
    assert_eq!(sent, vec![5, 6, 7, 8]);
    assert_eq!(session.handle_client_reconnect(&state, 8, 0), vec![]);
}

#[test]
fn hub_drops_full_subscriber() {
    let mut hub = Hub::new(2);
    let a = hub.subscribe();
    let b = hub.subscribe();
    assert_ne!(a, b);
    let f = |v: usize| Frame::PFrame { version: v, timestamp: 0, changes: vec![] };
    hub.publish(&f(1));
    hub.publish(&f(2));
    assert_eq!(hub.take(a).map(|q| versions(&q)), Some(vec![1, 2]));
    hub.publish(&f(3));
    assert_eq!(hub.subscriber_count(), 1);
    assert_eq!(hub.take(b), None);
    assert_eq!(hub.take(a).map(|q| versions(&q)), Some(vec![3]));
    assert_eq!(hub.take(a), Some(vec![]));
    hub.unsubscribe(a);
    assert_eq!(hub.take(a), None);
    assert_eq!(hub.subscriber_count(), 0);
}

#[test]
fn publisher_streams_frames_after_opening_keyframe() {
    let mut p = Publisher::new(small_state(4, 8, 5), Hub::new(10));
    p.tick(vec![(1, true)], 0);
    let (id, key, mut session) = p.subscribe(9);
    assert_eq!(key, Frame::IFrame { version: 1, timestamp: 9, data: vec![2] });
    p.tick(vec![(2, true)], 0);
    p.tick(vec![], 0);
    let out = p.pull(id, &mut session).unwrap();
    assert_eq!(versions(&out), vec![2, 3]);
    assert_eq!(p.state().version(), 3);
    let replay = p.catch_up(&mut session, 1, 0);
    assert_eq!(versions(&replay), vec![2, 3]);
    p.unsubscribe(id);
    assert_eq!(p.pull(id, &mut session), None);
}

#[test]
fn client_message_holds_version() {
    let m = ClientMessage { last_version: 7 };
    assert_eq!(m.last_version, 7);
}

#[test]
fn new_uses_default_config() {
    let mut s = AppState::new(Bits::zeroed(4), 1000, 0);
    assert_eq!(s.version(), 0);
    advance_to(&mut s, 100);
    assert!(s.buffered_frame(100).is_keyframe());
    assert_eq!(s.buffered(), 101);
    assert_eq!(s.catch_up(99, 0).len(), 1);
}
