use lib::server::http::content_type;
use lib::gen::{new_world, Config};
use lib::server::json::{member, quote, string_member, unquote, value_end};
use lib::server::relay::{publish_message, Relay, MAX_TOPICS_PER_CLIENT};
use lib::server::session::{info, s2c, Role, Session, MAX_PLAYERS, WELCOME_HEADER};
use lib::server::ws::{accept_key, base64, read_frame, sha1, write_frame, FrameError, Opcode};
use lib::world::World;
use std::sync::mpsc::{channel, Receiver};

// ---- json ----

#[test]
fn reads_the_members_a_relay_cares_about() {
    let msg = r#"{"type":"publish","topic":"abc","payload":{"a":[1,2,{"b":"}"}],"c":null}}"#;
    assert_eq!(string_member(msg, "type").as_deref(), Some("publish"));
    assert_eq!(string_member(msg, "topic").as_deref(), Some("abc"));
    assert_eq!(
        member(msg, "payload"),
        Some(r#"{"a":[1,2,{"b":"}"}],"c":null}"#),
        "a brace inside a string must not end the value"
    );
    assert_eq!(member(msg, "missing"), None);
}

#[test]
fn a_payload_may_be_any_value() {
    for (msg, want) in [
        (r#"{"payload":"hi"}"#, r#""hi""#),
        (r#"{"payload":-1.5e3}"#, "-1.5e3"),
        (r#"{"payload":true}"#, "true"),
        (r#"{"payload":null}"#, "null"),
        (r#"{"payload":[]}"#, "[]"),
        (r#"{ "payload" : { } }"#, "{ }"),
    ] {
        assert_eq!(member(msg, "payload"), Some(want), "{msg}");
    }
}

#[test]
fn escapes_survive_a_round_trip() {
    for text in ["plain", "with \"quotes\"", "a\\b", "new\nline", "tab\there"] {
        assert_eq!(unquote(&quote(text)).as_deref(), Some(text));
    }
    assert_eq!(unquote(r#""Aé""#).as_deref(), Some("Aé"));
    assert_eq!(quote("\u{1}"), r#""\u0001""#);
}

#[test]
fn rubbish_is_refused_rather_than_panicking() {
    for bad in [
        "",
        "{",
        "[",
        r#"{"a""#,
        r#"{"a":"#,
        r#""unterminated"#,
        "{\"a\":\"b",
        "tru",
        "nul",
        "-",
        "{\"a\":}",
    ] {
        let _ = member(bad, "a");
        let _ = value_end(bad.as_bytes(), 0);
    }
    // Deep nesting stops rather than blowing the stack.
    let deep = "[".repeat(200);
    assert_eq!(value_end(deep.as_bytes(), 0), None);
}

#[test]
fn value_ends_are_exact() {
    assert_eq!(value_end(b"  true,", 0), Some(6));
    assert_eq!(value_end(b"[1, [2], {\"a\": 3}] x", 0), Some(18));
    assert_eq!(value_end(b"\"a\\\"b\"", 0), Some(6));
    assert_eq!(value_end(b"12e5]", 0), Some(4));
    assert_eq!(value_end(b"fals", 0), None);
    assert_eq!(value_end(b"}", 0), None);
    assert_eq!(value_end(b"[1 2]", 0), None);
}

#[test]
fn unicode_escapes_become_characters() {
    assert_eq!(unquote(r#""\u0041\u00e9""#).as_deref(), Some("Aé"));
    // A lone surrogate is replaced.
    assert_eq!(unquote(r#""\ud800""#).as_deref(), Some("\u{fffd}"));
    // A short escape is refused.
    assert_eq!(unquote(r#""\u12""#), None);
    assert_eq!(unquote(r#""\q""#), None);
    assert_eq!(unquote("\""), None);
    assert_eq!(quote("a\"b\n"), "\"a\\\"b\\n\"");
}

#[test]
fn escaped_keys_are_matched_by_their_text() {
    let msg = r#"{"t\u0079pe":"x","type":"y"}"#;
    assert_eq!(string_member(msg, "type").as_deref(), Some("x"));
}

// ---- websocket ----

#[test]
fn sha1_matches_the_published_vectors() {
    assert_eq!(
        sha1(b"abc"),
        [
            0xa9, 0x99, 0x3e, 0x36, 0x47, 0x06, 0x81, 0x6a, 0xba, 0x3e, 0x25, 0x71, 0x78, 0x50, 0xc2, 0x6c, 0x9c,
            0xd0, 0xd8, 0x9d
        ]
    );
    assert_eq!(
        sha1(b""),
        [
            0xda, 0x39, 0xa3, 0xee, 0x5e, 0x6b, 0x4b, 0x0d, 0x32, 0x55, 0xbf, 0xef, 0x95, 0x60, 0x18, 0x90, 0xaf,
            0xd8, 0x07, 0x09
        ]
    );
}

#[test]
fn sha1_handles_a_message_that_spans_blocks() {
    // 448 bits, the boundary case where padding needs a second block.
    let long = "abcdbcdecdefdefgefghfghighijhijkijkljklmklmnlmnomnopnopq";
    assert_eq!(
        sha1(long.as_bytes()),
        [
            0x84, 0x98, 0x3e, 0x44, 0x1c, 0x3b, 0xd2, 0x6e, 0xba, 0xae, 0x4a, 0xa1, 0xf9, 0x51, 0x29, 0xe5, 0xe5,
            0x46, 0x70, 0xf1
        ]
    );
}

#[test]
fn base64_matches_the_published_vectors() {
    assert_eq!(base64(b""), "");
    assert_eq!(base64(b"f"), "Zg==");
    assert_eq!(base64(b"fo"), "Zm8=");
    assert_eq!(base64(b"foo"), "Zm9v");
    assert_eq!(base64(b"foobar"), "Zm9vYmFy");
}

#[test]
fn the_handshake_key_matches_the_rfc_example() {
    // Straight out of RFC 6455 section 1.3.
    assert_eq!(accept_key("dGhlIHNhbXBsZSBub25jZQ=="), "s3pPLMBiTxaQ9kYGzzhZRbK+xOo=");
    // Surrounding white space is trimmed first.
    assert_eq!(accept_key(" dGhlIHNhbXBsZSBub25jZQ==\r\n"), "s3pPLMBiTxaQ9kYGzzhZRbK+xOo=");
}

#[test]
fn frames_round_trip() {
    for len in [0usize, 5, 125, 126, 300, 70_000] {
        let payload = vec![0xa5u8; len];
        let mut buf = Vec::new();
        write_frame(&mut buf, Opcode::Binary, &payload).unwrap();
        let mut stream = buf.as_slice();
        let frame = read_frame(&mut stream).unwrap().unwrap();
        assert_eq!(frame.opcode, Opcode::Binary);
        assert_eq!(frame.payload, payload, "length {len}");
        assert!(stream.is_empty());
    }
}

#[test]
fn masked_client_frames_are_unmasked() {
    // A client frame: FIN+binary, masked, 4 bytes.
    let mask = [0x01, 0x02, 0x03, 0x04];
    let data = [0x10, 0x20, 0x30, 0x40];
    let mut raw = vec![0x82, 0x84];
    raw.extend_from_slice(&mask);
    for (i, b) in data.iter().enumerate() {
        raw.push(b ^ mask[i % 4]);
    }
    let frame = read_frame(&mut raw.as_slice()).unwrap().unwrap();
    assert_eq!(frame.payload, data);
}

#[test]
fn an_empty_stream_ends_cleanly() {
    let empty: &[u8] = &[];
    assert!(read_frame(&mut { empty }).unwrap().is_none());
}

#[test]
fn an_absurd_length_is_refused() {
    // Claims a payload of 2^40 bytes.
    let raw = vec![0x82, 127, 0, 0, 1, 0, 0, 0, 0, 0];
    assert!(read_frame(&mut raw.as_slice()).is_err());
    assert_eq!(read_frame(&mut raw.as_slice()).err(), Some(FrameError::TooLarge));
}

#[test]
fn a_cut_off_frame_is_an_error() {
    let raw = vec![0x81, 5, b'h', b'i'];
    assert_eq!(read_frame(&mut raw.as_slice()).err(), Some(FrameError::UnexpectedEof));
    let raw = vec![0x81, 126, 0];
    assert_eq!(read_frame(&mut raw.as_slice()).err(), Some(FrameError::UnexpectedEof));
}

#[test]
fn frames_carry_their_opcode_and_length_header() {
    let mut buf = Vec::new();
    write_frame(&mut buf, Opcode::Text, b"hi").unwrap();
    assert_eq!(buf, vec![0x81, 2, b'h', b'i']);
    let mut buf = Vec::new();
    write_frame(&mut buf, Opcode::Pong, &vec![0u8; 300]).unwrap();
    assert_eq!(&buf[..4], &[0x8a, 126, 1, 44]);
    let mut stream: &[u8] = &[0x89, 0, 0x81, 1, b'x'];
    assert_eq!(read_frame(&mut stream).unwrap().unwrap().opcode, Opcode::Ping);
    let next = read_frame(&mut stream).unwrap().unwrap();
    assert_eq!(next.opcode, Opcode::Text);
    assert_eq!(next.payload, b"x");
}

// ---- the relay ----

fn client(relay: &mut Relay) -> (usize, Receiver<String>) {
    let (tx, rx) = channel();
    (relay.connect(tx), rx)
}

#[test]
fn a_message_reaches_everyone_listening() {
    let mut relay = Relay::new();
    let (a, a_rx) = client(&mut relay);
    let (b, b_rx) = client(&mut relay);
    let (c, c_rx) = client(&mut relay);
    assert!(relay.handle(a, r#"{"type":"subscribe","topic":"room"}"#));
    assert!(relay.handle(b, r#"{"type":"subscribe","topic":"room"}"#));
    assert!(relay.handle(c, r#"{"type":"subscribe","topic":"elsewhere"}"#));

    assert!(relay.handle(a, r#"{"type":"publish","topic":"room","payload":{"o":1}}"#));
    let expected = r#"{"topic":"room","payload":{"o":1}}"#;
    assert_eq!(a_rx.try_recv().as_deref(), Ok(expected), "including the sender");
    assert_eq!(b_rx.try_recv().as_deref(), Ok(expected));
    assert!(c_rx.try_recv().is_err(), "another topic hears nothing");
}

#[test]
fn leaving_a_topic_stops_the_messages() {
    let mut relay = Relay::new();
    let (a, _a_rx) = client(&mut relay);
    let (b, b_rx) = client(&mut relay);
    relay.handle(a, r#"{"type":"subscribe","topic":"room"}"#);
    relay.handle(b, r#"{"type":"subscribe","topic":"room"}"#);
    relay.handle(b, r#"{"type":"unsubscribe","topic":"room"}"#);
    relay.handle(a, r#"{"type":"publish","topic":"room","payload":"x"}"#);
    assert!(b_rx.try_recv().is_err());
    assert_eq!(relay.topic_count(), 1, "the sender is still listening");
}

#[test]
fn a_disconnect_cleans_up_after_itself() {
    let mut relay = Relay::new();
    let (a, _rx) = client(&mut relay);
    relay.handle(a, r#"{"type":"subscribe","topic":"one"}"#);
    relay.handle(a, r#"{"type":"subscribe","topic":"two"}"#);
    assert_eq!(relay.topic_count(), 2);
    relay.disconnect(a);
    assert_eq!(relay.topic_count(), 0);
    assert_eq!(relay.client_count(), 0);
    // A message for a topic nobody holds is simply dropped.
    relay.handle(a, r#"{"type":"publish","topic":"one","payload":1}"#);
}

#[test]
fn a_dead_socket_is_dropped_on_the_next_message() {
    let mut relay = Relay::new();
    let (a, a_rx) = client(&mut relay);
    let (b, b_rx) = client(&mut relay);
    relay.handle(a, r#"{"type":"subscribe","topic":"room"}"#);
    relay.handle(b, r#"{"type":"subscribe","topic":"room"}"#);
    drop(b_rx);
    relay.handle(a, r#"{"type":"publish","topic":"room","payload":1}"#);
    assert!(a_rx.try_recv().is_ok());
    assert_eq!(relay.client_count(), 1, "the closed one was forgotten");
}

#[test]
fn nonsense_is_refused_quietly() {
    let mut relay = Relay::new();
    let (a, _rx) = client(&mut relay);
    for bad in [
        "",
        "{}",
        "not json",
        r#"{"type":"subscribe"}"#,
        r#"{"topic":"room"}"#,
        r#"{"type":"shout","topic":"room"}"#,
        r#"{"type":"publish","topic":"room"}"#,
        r#"{"type":"subscribe","topic":""}"#,
    ] {
        assert!(!relay.handle(a, bad), "{bad}");
    }
    assert_eq!(relay.topic_count(), 0);
}

#[test]
fn one_client_cannot_hoard_topics() {
    let mut relay = Relay::new();
    let (a, _rx) = client(&mut relay);
    for i in 0..MAX_TOPICS_PER_CLIENT {
        assert!(relay.handle(a, &format!(r#"{{"type":"subscribe","topic":"t{i}"}}"#)));
    }
    assert!(!relay.handle(a, r#"{"type":"subscribe","topic":"one-too-many"}"#));
    assert_eq!(relay.topic_count(), MAX_TOPICS_PER_CLIENT);
}

#[test]
fn a_topic_name_may_not_run_past_its_limit() {
    let mut relay = Relay::new();
    let (a, _rx) = client(&mut relay);
    let long = "x".repeat(257);
    assert!(!relay.handle(a, &format!(r#"{{"type":"subscribe","topic":"{long}"}}"#)));
    let ok = "x".repeat(256);
    assert!(relay.handle(a, &format!(r#"{{"type":"subscribe","topic":"{ok}"}}"#)));
    // Subscribing twice is accepted and changes nothing.
    assert!(relay.handle(a, &format!(r#"{{"type":"subscribe","topic":"{ok}"}}"#)));
    assert_eq!(relay.topic_count(), 1);
    assert_eq!(relay.next_id(), 1);
}

#[test]
fn a_published_message_quotes_its_topic() {
    assert_eq!(publish_message("a\"b", "[1]"), r#"{"topic":"a\"b","payload":[1]}"#);
}

// ---- the session ----

fn session_with_players(n: usize) -> (Session, Vec<Receiver<Vec<u8>>>) {
    let mut s = Session::new(99);
    let mut rxs = Vec::new();
    for _ in 0..n {
        let (tx, rx) = channel();
        s.join(tx, Role::Hero).expect("a slot should be free");
        rxs.push(rx);
    }
    (s, rxs)
}

#[test]
fn players_take_the_first_free_slot() {
    let (mut s, _rx) = session_with_players(2);
    assert_eq!(s.player_count(), 2);
    assert_eq!(s.occupancy(), 0b11);
    s.leave(0);
    s.tick();
    assert_eq!(s.occupancy(), 0b10);
    let (tx, _rx) = channel();
    let (slot, _) = s.join(tx, Role::Hero).unwrap();
    assert_eq!(slot, 0, "the freed slot should be reused");
}

#[test]
fn a_full_session_turns_people_away() {
    let (mut s, _rx) = session_with_players(MAX_PLAYERS);
    let (tx, _rx) = channel();
    assert!(s.join(tx, Role::Hero).is_none());
}

#[test]
fn the_first_player_gets_no_snapshot_but_a_later_one_does() {
    let mut s = Session::new(4);
    let (tx, _rx) = channel();
    let (_, welcome) = s.join(tx, Role::Hero).unwrap();
    let snapshot_len = |w: &[u8]| u32::from_le_bytes([w[15], w[16], w[17], w[18]]) as usize;
    assert_eq!(snapshot_len(&welcome), 0, "nothing has happened yet");

    for _ in 0..30 {
        s.tick();
    }
    let (tx, _rx) = channel();
    let (_, welcome) = s.join(tx, Role::Hero).unwrap();
    let len = snapshot_len(&welcome);
    assert!(len > 0, "a late joiner needs the state so far");
    assert_eq!(welcome.len(), WELCOME_HEADER + len);
}

#[test]
fn a_frame_message_carries_every_slot_and_its_commands() {
    let (mut s, _rx) = session_with_players(2);
    s.set_input(1, 0x0f);
    let msg = s.tick();
    assert_eq!(msg[0], s2c::FRAME);
    assert_eq!(u32::from_le_bytes([msg[1], msg[2], msg[3], msg[4]]), 1);
    assert_eq!(msg[5], 0b11, "both slots occupied");
    assert_eq!(msg[6], 0b11, "both joined on this frame");
    let buttons_1 = u16::from_le_bytes([msg[11], msg[12]]);
    assert_eq!(buttons_1, 0x0f);
    assert_eq!(msg.len(), 9 + MAX_PLAYERS * 2);
}

#[test]
fn a_client_replaying_the_frames_lands_in_the_same_place() {
    // This is the property the whole design rests on.
    let (mut server, _rx) = session_with_players(2);
    let mut client = new_world(Config::from_seed(server.seed), MAX_PLAYERS);

    for f in 0..400u32 {
        server.set_input(0, (f as u16 * 13) & 0x3f);
        server.set_input(1, (f as u16 * 7) & 0x0f);
        let msg = server.tick();

        // What a client does with the message it just received.
        let join_mask = msg[6];
        let boss_mask = msg[7];
        let leave_mask = msg[8];
        for i in 0..MAX_PLAYERS {
            if leave_mask & (1 << i) != 0 {
                client.leave(i);
            } else if boss_mask & (1 << i) != 0 {
                client.possess_boss(i);
            } else if join_mask & (1 << i) != 0 {
                client.join(i);
            }
        }
        for i in 0..MAX_PLAYERS {
            let at = 9 + i * 2;
            client.set_input(i, u16::from_le_bytes([msg[at], msg[at + 1]]));
        }
        client.step();
    }
    assert_eq!(
        server.world.checksum(),
        client.checksum(),
        "a client following the frame messages must stay in step"
    );
}

#[test]
fn a_late_joiner_catches_up_from_the_snapshot() {
    let (mut server, _rx) = session_with_players(1);
    for f in 0..200u32 {
        server.set_input(0, (f as u16 * 11) & 0x3f);
        server.tick();
    }

    let (tx, _rx) = channel();
    let (slot, welcome) = server.join(tx, Role::Hero).unwrap();
    let len = u32::from_le_bytes([welcome[15], welcome[16], welcome[17], welcome[18]]) as usize;
    let snapshot = &welcome[WELCOME_HEADER..WELCOME_HEADER + len];
    let mut client = World::load(snapshot).expect("the snapshot should load");
    assert_eq!(client.checksum(), server.world.checksum());

    for f in 0..120u32 {
        server.set_input(0, (f as u16 * 5) & 0x3f);
        server.set_input(slot, (f as u16 * 3) & 0x0f);
        let msg = server.tick();
        let join_mask = msg[6];
        for i in 0..MAX_PLAYERS {
            if join_mask & (1 << i) != 0 {
                client.join(i);
            }
        }
        for i in 0..MAX_PLAYERS {
            let at = 9 + i * 2;
            client.set_input(i, u16::from_le_bytes([msg[at], msg[at + 1]]));
        }
        client.step();
    }
    assert_eq!(
        server.world.checksum(),
        client.checksum(),
        "a player who joined late must end up in the same world"
    );
}

#[test]
fn a_player_can_join_as_the_boss() {
    let mut s = Session::new(7);
    let (tx, _rx) = channel();
    s.join(tx, Role::Hero).unwrap();
    let (tx, _rx) = channel();
    let (slot, _) = s.join(tx, Role::Boss).unwrap();
    let msg = s.tick();
    assert_eq!(msg[7] & (1 << slot), 1 << slot, "the boss bit should be set");
    assert_eq!(s.world.players[slot].role, lib::world::Role::Boss);
}

#[test]
fn checksums_only_complain_when_they_disagree() {
    let (mut s, _rx) = session_with_players(1);
    for _ in 0..10 {
        s.tick();
    }
    let good = s.world.checksum();
    assert!(s.check(10, good).is_none());
    let reply = s.check(10, good ^ 1).expect("a mismatch should be reported");
    assert_eq!(reply[0], s2c::DESYNC);
    assert_eq!(s.desyncs, 1);
    assert!(s.check(9999, good).is_none(), "unknown frames are ignored");
}

#[test]
fn a_disconnected_client_is_dropped_from_broadcasts() {
    let (mut s, rxs) = session_with_players(2);
    drop(rxs);
    s.broadcast(b"hello");
    // The second broadcast must not panic now the receivers are gone.
    s.broadcast(b"still here");
}

#[test]
fn the_welcome_message_is_laid_out_in_order() {
    let mut s = Session::new(0x0102_0304_0506_0708);
    let (tx, _rx) = channel();
    let (slot, welcome) = s.join(tx, Role::Hero).unwrap();
    assert_eq!(slot, 0);
    assert_eq!(
        welcome,
        vec![s2c::WELCOME, 0, 4, 8, 7, 6, 5, 4, 3, 2, 1, 0, 0, 0, 0, 0, 0, 0, 0]
    );
    assert!(!s.is_empty());
    let text = info("hi");
    assert_eq!(text, vec![s2c::INFO, b'h', b'i']);
}

#[test]
fn only_remembered_frames_are_checked() {
    let (mut s, _rx) = session_with_players(1);
    for _ in 0..605 {
        s.tick();
    }
    // The first five frames have been forgotten.
    assert!(s.check(5, 0).is_none());
    let now = s.world.checksum();
    assert!(s.check(605, now).is_none());
    assert!(s.check(6, 0).is_some());
    assert_eq!(s.desyncs, 1);
}

#[test]
fn content_types_cover_what_the_page_needs() {
    assert_eq!(content_type("a/index.html"), "text/html; charset=utf-8");
    assert_eq!(content_type("zelduh.wasm"), "application/wasm");
    assert_eq!(content_type("main.js"), "text/javascript; charset=utf-8");
    assert_eq!(content_type("mystery.bin"), "application/octet-stream");
}

#[test]
fn only_a_real_extension_picks_the_type() {
    assert_eq!(content_type(".html"), "application/octet-stream");
    assert_eq!(content_type("page.html/"), "text/html; charset=utf-8");
    assert_eq!(content_type("dir.png/readme"), "application/octet-stream");
    assert_eq!(content_type("a.b.zprofile"), "text/plain; charset=utf-8");
}

#[test]
fn deliveries_follow_subscription_order() {
    let mut relay = Relay::new();
    let (a, _a_rx) = client(&mut relay);
    let (b, _b_rx) = client(&mut relay);
    let (c, _c_rx) = client(&mut relay);
    assert!(relay.handle(b, r#"{"type":"subscribe","topic":"room"}"#));
    assert!(relay.handle(a, r#"{"type":"subscribe","topic":"room"}"#));
    assert!(relay.handle(c, r#"{"type":"subscribe","topic":"other"}"#));
    let d = relay.deliveries(&"room".to_string(), "7");
    let expected = r#"{"topic":"room","payload":7}"#.to_string();
    assert_eq!(d, vec![(b, expected.clone()), (a, expected)]);
    assert!(relay.deliveries(&"nobody".to_string(), "7").is_empty());
}
