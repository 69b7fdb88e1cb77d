//! Relay fanout state: scrollback cap, eviction, purge, session codes.

use terminal_remote::relay::{AppState, MacMessage, Scrollback, MAX_SCROLLBACK, mint_code};

/// A scrollback frame with the embedded session-id prefix.
fn prefixed(id: &[u8], payload: &[u8]) -> Vec<u8> {
    let mut f = Vec::new();
    f.push(id.len() as u8);
    f.extend_from_slice(id);
    f.extend_from_slice(payload);
    f
}

#[test]
fn scrollback_stays_under_cap() {
    // 4 KiB frames, one full megabyte and one frame more
    let mut sb = Scrollback::new();
    for i in 0..257 {
        let frame = vec![(i % 256) as u8; 4096];
        sb.push_frame(frame);
        assert!(sb.total_bytes() <= MAX_SCROLLBACK);
    }
    // the cap holds exactly: 256 frames of 4 KiB fit
    assert_eq!(sb.total_bytes(), MAX_SCROLLBACK);
    assert_eq!(sb.frame_count(), 256);
    // the newest frame survived; the oldest was evicted
    let frames = sb.snapshot();
    assert_eq!(frames.last().unwrap()[0], (256 % 256) as u8);
    assert_eq!(frames[0][0], 1);
}

#[test]
fn scrollback_eviction_drops_oldest_first() {
    let mut sb = Scrollback::new();
    sb.push_frame(vec![1u8; 500_000]);
    sb.push_frame(vec![2u8; 500_000]);
    sb.push_frame(vec![3u8; 500_000]);
    // the first frame had to go to fit the third
    let frames = sb.snapshot();
    assert_eq!(frames.len(), 2);
    assert_eq!(frames[0][0], 2);
    assert_eq!(frames[1][0], 3);
    assert_eq!(sb.total_bytes(), 1_000_000);
}

#[test]
fn scrollback_single_oversized_frame_dropped_at_insert() {
    // a frame larger than the whole cap cannot be retained: the eviction
    // rule removes it at this insert, and the cap never stands violated
    let mut sb = Scrollback::new();
    sb.push_frame(vec![9u8; MAX_SCROLLBACK + 1]);
    assert_eq!(sb.frame_count(), 0);
    assert_eq!(sb.total_bytes(), 0);
    // a frame of exactly the cap is retained
    sb.push_frame(vec![8u8; MAX_SCROLLBACK]);
    assert_eq!(sb.frame_count(), 1);
    assert_eq!(sb.total_bytes(), MAX_SCROLLBACK);
}

#[test]
fn purge_removes_only_the_dead_session() {
    let mut sb = Scrollback::new();
    sb.push_frame(prefixed(b"aaa", b"one"));
    sb.push_frame(prefixed(b"bbb", b"two"));
    sb.push_frame(prefixed(b"aaa", b"three"));
    sb.push_frame(prefixed(b"cc", b"four"));
    sb.purge(&b"aaa".to_vec());
    let frames = sb.snapshot();
    assert_eq!(frames.len(), 2);
    assert_eq!(frames[0], prefixed(b"bbb", b"two"));
    assert_eq!(frames[1], prefixed(b"cc", b"four"));
    assert_eq!(sb.total_bytes(), frames[0].len() + frames[1].len());
    // purging again changes nothing
    sb.purge(&b"aaa".to_vec());
    assert_eq!(sb.frame_count(), 2);
}

#[test]
fn purge_drops_malformed_frames() {
    let mut sb = Scrollback::new();
    sb.push_frame(vec![]); // empty: malformed
    sb.push_frame(vec![200, 1, 2]); // claims a 200-byte id it does not hold
    sb.push_frame(prefixed(b"ok", b"payload"));
    sb.purge(&b"zz".to_vec());
    let frames = sb.snapshot();
    assert_eq!(frames, vec![prefixed(b"ok", b"payload")]);
}

#[test]
fn session_codes_unique_and_collision_reported() {
    let mut st = AppState::new();
    let code = st.register_mac_client(12345).expect("fresh code");
    assert!(st.validate_session_code(&code));
    assert_eq!(st.session_count(), 1);
    // the same entropy mints the same code: a collision, reported as None
    assert!(st.register_mac_client(12345).is_none());
    assert_eq!(st.session_count(), 1);
    // different entropy gives a second live session
    let code2 = st.register_mac_client(98765).expect("fresh code");
    assert_ne!(code, code2);
    assert_eq!(st.session_count(), 2);
}

#[test]
fn mint_code_format() {
    for e in [0u64, 1, 31, 32, 12345678901234567890u64, u64::MAX] {
        let code = mint_code(e);
        assert_eq!(code.len(), 6);
        for b in code.iter() {
            let ok = (b'2'..=b'9').contains(b)
                || ((b'A'..=b'Z').contains(b) && *b != b'I' && *b != b'O');
            assert!(ok, "bad code symbol {}", b);
        }
    }
}

#[test]
fn remove_session_frees_the_code() {
    let mut st = AppState::new();
    let code = st.register_mac_client(7).expect("fresh code");
    assert!(st.validate_session_code(&code));
    st.remove_session(&code);
    assert!(!st.validate_session_code(&code));
    assert_eq!(st.session_count(), 0);
    // the code can be minted again afterwards
    assert!(st.register_mac_client(7).is_some());
}

#[test]
fn broadcast_reaches_browsers_in_order_and_fills_scrollback() {
    let mut st = AppState::new();
    let code = st.register_mac_client(42).expect("fresh code");
    assert!(st.add_browser(&code, "b1".to_string()));
    assert!(st.add_browser(&code, "b2".to_string()));
    // adding the same browser twice keeps one entry
    assert!(st.add_browser(&code, "b1".to_string()));
    let targets = st.broadcast_to_browsers(&code, prefixed(b"t1", b"hello"));
    assert_eq!(targets, vec!["b1".to_string(), "b2".to_string()]);
    let frames = st.get_scrollback(&code);
    assert_eq!(frames, vec![prefixed(b"t1", b"hello")]);
    // an unknown code drops the frame and reaches nobody
    let none = st.broadcast_to_browsers(&b"NOCODE".to_vec(), vec![1, 2, 3]);
    assert!(none.is_empty());
}

#[test]
fn purge_session_scrollback_by_terminal_id() {
    let mut st = AppState::new();
    let code = st.register_mac_client(1).expect("fresh code");
    st.broadcast_to_browsers(&code, prefixed(b"t1", b"one"));
    st.broadcast_to_browsers(&code, prefixed(b"t2", b"two"));
    st.broadcast_to_browsers(&code, prefixed(b"t1", b"three"));
    st.purge_session_scrollback(&code, &b"t1".to_vec());
    let frames = st.get_scrollback(&code);
    assert_eq!(frames, vec![prefixed(b"t2", b"two")]);
}

#[test]
fn remove_browser_stops_fanout_to_it() {
    let mut st = AppState::new();
    let code = st.register_mac_client(3).expect("fresh code");
    st.add_browser(&code, "b1".to_string());
    st.add_browser(&code, "b2".to_string());
    st.remove_browser(&code, &"b1".to_string());
    let targets = st.broadcast_text_to_browsers(&code);
    assert_eq!(targets, vec!["b2".to_string()]);
}

#[test]
fn messages_to_mac_client_only_for_live_codes() {
    let mut st = AppState::new();
    let code = st.register_mac_client(9).expect("fresh code");
    match st.send_to_mac_client(&code, vec![104, 105]) {
        Some(MacMessage::Binary(d)) => assert_eq!(d, vec![104, 105]),
        other => panic!("unexpected {:?}", other),
    }
    match st.send_text_to_mac_client(&code, "{\"kind\":\"note\"}".to_string()) {
        Some(MacMessage::Text(t)) => assert_eq!(t, "{\"kind\":\"note\"}"),
        other => panic!("unexpected {:?}", other),
    }
    assert!(st.send_to_mac_client(&b"NO".to_vec(), vec![1]).is_none());
    assert!(st.send_text_to_mac_client(&b"NO".to_vec(), "x".to_string()).is_none());
}

#[test]
fn third_browser_replay_sees_recent_tail() {
    // two browsers attached; just over a megabyte of 4 KiB output frames;
    // a third browser's replay is capped and ends with the newest frame
    let mut st = AppState::new();
    let code = st.register_mac_client(77).expect("fresh code");
    st.add_browser(&code, "b1".to_string());
    st.add_browser(&code, "b2".to_string());
    let mut last = Vec::new();
    for i in 0..257u32 {
        let frame = prefixed(b"t", &vec![(i % 256) as u8; 4096 - 2]);
        last = frame.clone();
        let targets = st.broadcast_to_browsers(&code, frame);
        assert_eq!(targets.len(), 2);
    }
    st.add_browser(&code, "b3".to_string());
    let replay = st.get_scrollback(&code);
    let total: usize = replay.iter().map(|f| f.len()).sum();
    assert!(total <= MAX_SCROLLBACK);
    assert_eq!(replay.last().unwrap(), &last);
}
