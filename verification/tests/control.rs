use relayer::control::{ack_url, config_url, control_url, watch_url, Backoff, ControlClient, Snapshot, WatchAction, WatchEvent};
use relayer::sse::{is_white_space, EventStream};

const A: &str = "4vJ9JU1bJJE96FWSJKvHsmmFADCg4gpZQff4P3bkLKi";
const B: &str = "8qbHbw2BbbTHBW1sbeqakYXVKRQM8Ne7pLK7m6CVfeR";

fn key(text: &str) -> [u8; 32] {
    text.parse::<solana_pubkey::Pubkey>().unwrap().to_bytes()
}

fn snapshot(version: u64, keys: &[&str]) -> Snapshot {
    Snapshot {
        version,
        allowed_validators: keys.iter().map(|s| s.to_string()).collect(),
    }
}

#[test]
fn nobody_is_allowed_before_the_control_plane_answers() {
    let mut client = ControlClient::new();
    assert!(!client.is_authorized(&key(A)));
    assert!(client.allowed().is_empty());
    assert_eq!(client.version(), 0);
    assert!(!client.connected());
    assert_eq!(client.origin(), "none");
    assert_eq!(client.boot(None, None, "http://c", "site", "None"), None);
    assert!(!client.is_authorized(&key(A)));
    assert_eq!(client.origin(), "none");
}

#[test]
fn a_fetched_snapshot_goes_before_a_cached_one() {
    let mut client = ControlClient::new();
    let ack = client.boot(
        Some(&snapshot(7, &[A, "malformed"])),
        Some(&snapshot(3, &[B])),
        "http://c//",
        "site",
        "None",
    );
    assert_eq!(ack, Some(7));
    assert_eq!(client.version(), 7);
    assert!(client.connected());
    assert!(client.is_authorized(&key(A)));
    assert!(!client.is_authorized(&key(B)));
    assert_eq!(client.allowed().len(), 1);
    assert_eq!(client.origin(), "http://c as site");
}

#[test]
fn a_cached_snapshot_is_taken_where_none_was_fetched() {
    let mut client = ControlClient::new();
    let ack = client.boot(None, Some(&snapshot(3, &[B])), "http://c", "site", "Some(\"/tmp/x\")");
    assert_eq!(ack, None);
    assert!(client.is_authorized(&key(B)));
    assert!(!client.connected());
    assert_eq!(client.origin(), "cache Some(\"/tmp/x\")");
}

#[test]
fn a_snapshot_replaces_the_list_and_losing_the_connection_keeps_it() {
    let mut client = ControlClient::new();
    client.apply(&snapshot(1, &[A, B]), "x");
    client.watch_step(WatchEvent::Opened);
    client.apply(&snapshot(2, &[B]), "y");
    assert!(!client.is_authorized(&key(A)));
    client.watch_step(WatchEvent::Lost);
    assert!(client.is_authorized(&key(B)));
    assert_eq!(client.version(), 2);
    assert_eq!(client.origin(), "y");
    assert!(!client.connected());
}

#[test]
fn addresses_are_made_from_the_url_and_the_component() {
    assert_eq!(control_url("http://c:1///"), "http://c:1");
    assert_eq!(control_url("///"), "");
    assert_eq!(config_url("http://c/", "fra-1"), "http://c/v1/config/fra-1");
    assert_eq!(watch_url("http://c/v1/config/fra-1"), "http://c/v1/config/fra-1/watch");
    assert_eq!(ack_url("http://c/v1/config/fra-1"), "http://c/v1/config/fra-1/ack");
}

#[test]
fn the_waits_double_up_to_a_minute_and_start_over() {
    let mut backoff = Backoff::new();
    let waits: Vec<u64> = (0..9).map(|_| backoff.failed()).collect();
    assert_eq!(waits, vec![1, 2, 4, 8, 16, 32, 60, 60, 60]);
    backoff.opened();
    assert_eq!(backoff.failed(), 1);
    assert_eq!(backoff.failed(), 2);
}

#[test]
fn an_event_is_its_data_lines_up_to_a_blank_one() {
    let mut stream = EventStream::new();
    assert_eq!(stream.feed_text("data: {\"version\":1}\n\n"), vec!["{\"version\":1}"]);
    assert_eq!(stream.feed_text("data:abc\r\ndata:  \u{a0}def\r\n\r\n"), vec!["abcdef"]);
    assert!(stream.feed_text("\n\n\r\n").is_empty());
}

#[test]
fn keepalives_and_other_fields_are_ignored() {
    let mut stream = EventStream::new();
    assert!(stream.feed_text(": ping\n\n").is_empty());
    assert_eq!(
        stream.feed_text("event: x\ndata: 1\n: ping\nid: 4\n\n: ping\n"),
        vec!["1"]
    );
}

#[test]
fn events_may_come_in_any_pieces() {
    let text = "data: one\n\n: k\r\ndata: two\r\n\r\ndata: thr";
    let mut whole = EventStream::new();
    let expected = whole.feed(text.as_bytes());
    assert_eq!(expected, vec!["one", "two"]);
    for size in 1..7 {
        let mut stream = EventStream::new();
        let mut events = vec![];
        for piece in text.as_bytes().chunks(size) {
            events.extend(stream.feed(piece));
        }
        assert_eq!(events, expected);
        assert_eq!(stream.feed(b"ee\n\n"), vec!["three"]);
    }
}

#[test]
fn bytes_that_are_not_text_are_replaced() {
    let mut stream = EventStream::new();
    assert_eq!(stream.feed(b"data: a\xffb\n\n"), vec!["a\u{fffd}b"]);
    assert_eq!(stream.feed("data: \u{e9}\u{1f600}\n\n".as_bytes()), vec!["\u{e9}\u{1f600}"]);
}

#[test]
fn white_space_is_what_unicode_says() {
    for n in 0..=0x10ffffu32 {
        if let Some(c) = char::from_u32(n) {
            assert_eq!(is_white_space(c), c.is_whitespace());
        }
    }
}

fn update(version: u64, keys: &[&str]) -> WatchEvent {
    WatchEvent::Update {
        snap: snapshot(version, keys),
        watch_url: "http://c/watch".to_owned(),
    }
}

#[test]
fn each_event_of_the_watch_stream_has_its_action() {
    let mut client = ControlClient::new();
    client.apply(&snapshot(1, &[A]), "x");
    assert!(matches!(client.watch_step(WatchEvent::Refused), WatchAction::Wait { secs: 1 }));
    assert!(matches!(client.watch_step(WatchEvent::Refused), WatchAction::Wait { secs: 2 }));
    assert!(!client.connected());
    assert!(matches!(client.watch_step(WatchEvent::Opened), WatchAction::Read));
    assert!(client.connected());
    assert!(matches!(client.watch_step(WatchEvent::BadEvent), WatchAction::Read));
    assert!(client.connected());
    assert_eq!((client.version(), client.origin()), (1, "x".to_owned()));
    match client.watch_step(update(2, &[B])) {
        WatchAction::CacheAndAck { snap } => {
            assert_eq!(snap.version, 2);
            assert_eq!(snap.allowed_validators, vec![B]);
        }
        _ => panic!("a snapshot is to be cached and acknowledged"),
    }
    assert!(client.is_authorized(&key(B)) && !client.is_authorized(&key(A)));
    assert_eq!(client.origin(), "http://c/watch");
    assert!(matches!(client.watch_step(WatchEvent::Lost), WatchAction::Reconnect));
    assert!(!client.connected());
    assert!(matches!(client.watch_step(WatchEvent::Refused), WatchAction::Wait { secs: 1 }));
}

#[test]
fn the_last_snapshot_of_the_watch_stream_is_in_force() {
    let mut client = ControlClient::new();
    client.watch_step(WatchEvent::Opened);
    client.watch_step(update(5, &[A]));
    client.watch_step(update(6, &[B]));
    for event in [WatchEvent::BadEvent, WatchEvent::Lost, WatchEvent::Refused, WatchEvent::Opened] {
        client.watch_step(event);
        assert!(client.is_authorized(&key(B)) && !client.is_authorized(&key(A)));
        assert_eq!(client.version(), 6);
    }
}

#[test]
fn a_watch_body_is_read_back_however_it_is_cut() {
    for body in [": ping\n\ndata: {\"version\":1}\n\n", ": ping\r\n\r\ndata: {\"version\":1}\r\n\r\n"] {
        for first in 0..=body.len() {
            for second in first..=body.len() {
                let mut stream = EventStream::new();
                let mut events = stream.feed_text(&body[..first]);
                events.extend(stream.feed_text(&body[first..second]));
                events.extend(stream.feed_text(&body[second..]));
                assert_eq!(events, vec!["{\"version\":1}"]);
            }
        }
    }
}
