use caretchat::codec::{decode_frames, encode_frame};
use caretchat::command::{parse_request, Request};
use caretchat::hub::{Delivery, Hub};
use caretchat::screen::{accepts_key, first_visible, input_columns, input_scroll, name_request};

fn text(d: &Delivery) -> String {
    String::from_utf8(d.bytes.clone()).unwrap()
}

fn to(ds: &[Delivery], id: u64) -> Vec<String> {
    ds.iter().filter(|d| d.to == id).map(text).collect()
}

fn hub_of(ids: &[u64]) -> Hub {
    let mut h = Hub::new();
    for id in ids {
        h.connect(*id, format!("10.0.0.{}:5000", id).as_bytes());
    }
    h
}

#[test]
fn decode_splits_and_drops_empty() {
    let mut buf = vec![0u8; 512];
    let msg = b"hello^^ world ^  ^last";
    buf[..msg.len()].copy_from_slice(msg);
    let frames = decode_frames(&buf);
    assert_eq!(frames, vec![b"hello".to_vec(), b"world".to_vec(), b"last".to_vec()]);
}

#[test]
fn decode_empty_buffer_has_no_frames() {
    assert!(decode_frames(&[0u8; 16]).is_empty());
    assert!(decode_frames(b"").is_empty());
    assert!(decode_frames(b"^^^").is_empty());
}

#[test]
fn encode_escapes_caret() {
    assert_eq!(encode_frame(b"a^b"), b"a#b^".to_vec());
    assert_eq!(encode_frame(b""), b"^".to_vec());
}

#[test]
fn round_trip_of_clean_body() {
    let body = b"plain text, no delimiter".to_vec();
    assert_eq!(decode_frames(&encode_frame(&body)), vec![body]);
}

#[test]
fn escaped_body_stays_one_frame() {
    let frames = decode_frames(&encode_frame(b"x^y^z"));
    assert_eq!(frames, vec![b"x#y#z".to_vec()]);
    assert!(decode_frames(&encode_frame(b"^")).len() == 1);
}

#[test]
fn parse_commands() {
    assert!(matches!(parse_request(b"/help"), Request::Help));
    assert!(matches!(parse_request(b"/whoami"), Request::WhoAmI));
    assert!(matches!(parse_request(b"/"), Request::Unknown));
    assert!(matches!(parse_request(b"/frobnicate now"), Request::Unknown));
    match parse_request(b"/name   Bob Smith") {
        Request::Name(n) => assert_eq!(n, b"Bob Smith".to_vec()),
        _ => panic!("not a rename"),
    }
    match parse_request(b"/name") {
        Request::Name(n) => assert!(n.is_empty()),
        _ => panic!("not a rename"),
    }
    match parse_request(b"hi /name") {
        Request::Chat(t) => assert_eq!(t, b"hi /name".to_vec()),
        _ => panic!("not chat"),
    }
}

#[test]
fn connect_announces_to_everyone() {
    let mut h = hub_of(&[1]);
    let ds = h.connect(2, b"10.0.0.2:5000");
    assert_eq!(h.len(), 2);
    assert_eq!(to(&ds, 1), vec!["Server: 10.0.0.2:5000 connected to chat!^".to_string()]);
    assert_eq!(to(&ds, 2), vec!["Server: 10.0.0.2:5000 connected to chat!^".to_string()]);
    assert!(h.connect(2, b"elsewhere").is_empty());
    assert_eq!(h.len(), 2);
}

#[test]
fn whoami_after_rename() {
    let mut h = hub_of(&[1, 2]);
    let ds = h.receive(1, b"/name Alice");
    assert_eq!(to(&ds, 2), vec!["Server: 10.0.0.1:5000 changed to Alice^".to_string()]);
    let ds = h.receive(1, b"/whoami");
    assert_eq!(ds.len(), 1);
    assert_eq!(ds[0].to, 1);
    assert!(text(&ds[0]).contains("Alice"));
    assert_eq!(text(&ds[0]), "System: Your name is Alice^");
}

#[test]
fn oversized_frame_is_dropped() {
    let mut h = hub_of(&[1, 2]);
    let raw = vec![b'a'; 150];
    assert!(h.receive(1, &raw).is_empty());
    let raw = vec![b'a'; 100];
    assert_eq!(h.receive(1, &raw).len(), 2);
}

#[test]
fn unknown_command_replies_to_caller_only() {
    let mut h = hub_of(&[1, 2, 3]);
    let ds = h.receive(1, b"/frobnicate");
    assert_eq!(ds.len(), 1);
    assert_eq!(ds[0].to, 1);
    assert!(text(&ds[0]).to_lowercase().contains("unknown command"));
}

#[test]
fn help_lists_commands_to_caller() {
    let mut h = hub_of(&[1, 2]);
    let ds = h.receive(2, b"/help");
    assert_eq!(ds.len(), 1);
    assert_eq!(ds[0].to, 2);
    let t = text(&ds[0]);
    assert!(t.starts_with("System: "));
    assert!(t.contains("/help") && t.contains("/name") && t.contains("/whoami"));
    assert!(t.contains(" | "));
}

#[test]
fn rename_without_argument_does_nothing() {
    let mut h = hub_of(&[1, 2]);
    assert!(h.receive(1, b"/name").is_empty());
    let ds = h.receive(1, b"/whoami");
    assert_eq!(text(&ds[0]), "System: Your name is 10.0.0.1:5000^");
}

#[test]
fn gone_peer_gets_nothing() {
    let mut h = hub_of(&[1, 2, 3]);
    assert!(h.disconnect(2));
    assert!(!h.disconnect(2));
    let ds = h.receive(1, b"still here");
    assert!(to(&ds, 2).is_empty());
    assert_eq!(to(&ds, 1), vec!["10.0.0.1:5000: still here^".to_string()]);
    assert_eq!(to(&ds, 3), vec!["10.0.0.1:5000: still here^".to_string()]);
    assert!(h.receive(2, b"ghost").is_empty());
}

#[test]
fn every_message_once_in_order() {
    let mut h = hub_of(&[1, 2, 3]);
    let mut all = Vec::new();
    all.extend(h.receive(1, b"a1"));
    all.extend(h.receive(2, b"b1"));
    all.extend(h.receive(1, b"a2^a3"));
    all.extend(h.receive(3, b"c1"));
    let want: Vec<String> = vec![
        "10.0.0.1:5000: a1^",
        "10.0.0.2:5000: b1^",
        "10.0.0.1:5000: a2^",
        "10.0.0.1:5000: a3^",
        "10.0.0.3:5000: c1^",
    ]
    .into_iter()
    .map(String::from)
    .collect();
    for id in [1u64, 2, 3] {
        assert_eq!(to(&all, id), want);
    }
}

#[test]
fn chat_caret_in_text_is_escaped_on_the_way_out() {
    let mut h = hub_of(&[1]);
    h.receive(1, b"/name x^y");
    let ds = h.receive(1, b"/whoami");
    assert_eq!(text(&ds[0]), "System: Your name is x^");
}

#[test]
fn screen_arithmetic() {
    assert!(accepts_key(99));
    assert!(!accepts_key(100));
    assert_eq!(first_visible(10, 4), 6);
    assert_eq!(first_visible(3, 4), 0);
    assert_eq!(input_columns(2), 0);
    assert_eq!(input_columns(20), 17);
    assert_eq!(input_scroll(25, 17), 8);
    assert_eq!(input_scroll(5, 17), 0);
    assert_eq!(name_request(b"Bob"), b"/name Bob".to_vec());
}
