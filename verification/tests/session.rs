//! The room session state machine and the reply correlator.

use cove::packets::{Cmd, IdentifyRpl, Message, Ntf, Packet, RoomRpl, Rpl, Session, WhoRpl};
use cove::replies::Replies;
use cove::room::{
    backoff_step, expect_identify_rpl, expect_room_rpl, jittered_delay, note_connect_failure,
    Error, RoomState, RoomVerified, Status, StopReason,
};

fn session(id: &str, name: &str) -> Session {
    Session { id: String::from(id), name: String::from(name) }
}

fn identify_success(you: Session) -> Rpl {
    Rpl::Identify(IdentifyRpl::Success { you, others: vec![], last_message: None })
}

#[test]
fn happy_join() {
    let mut state = RoomState::new(String::from("ident-1"), Some(String::from("u")));
    assert!(matches!(state.status, Status::Connecting));
    state.on_connected(10_000);
    assert!(matches!(state.status, Status::Identifying));

    let (id0, pkt) = state.prepare_cmd(Cmd::Room { name: String::from("test") }).expect(
        "connected",
    );
    assert_eq!(id0, 0);
    assert!(matches!(pkt, Packet::Cmd { id: 0, cmd: Cmd::Room { .. } }));

    let effect = state.on_rpl(0, Rpl::Room(RoomRpl::Success));
    assert!(effect.verified);
    assert!(matches!(effect.deliver, Some(Rpl::Room(RoomRpl::Success))));

    let effect = state.on_rpl(1, identify_success(session("s1", "u")));
    assert!(matches!(state.status, Status::Nominal));
    let present = state.present.as_ref().expect("present after identify");
    assert_eq!(present.session.name, "u");
    assert!(present.others.is_empty());
    // No waiter was registered under id 1, so the reply is dropped.
    assert!(effect.deliver.is_none());
}

#[test]
fn invalid_room_stops() {
    let mut state = RoomState::new(String::from("ident-1"), Some(String::from("u")));
    state.on_connected(10_000);
    let _ = state.prepare_cmd(Cmd::Room { name: String::from("test") });
    let effect = state.on_rpl(
        0,
        Rpl::Room(RoomRpl::InvalidRoom { reason: String::from("no such room") }),
    );
    assert!(!effect.verified);
    match &state.status {
        Status::Stopped(StopReason::InvalidRoom(reason)) => assert_eq!(reason, "no such room"),
        _ => panic!("expected a stopped room"),
    }
    // The driver sees no verification and gives up for good; the reason
    // survives the cleanup, because stopped is terminal.
    let cont = state.after_connection_ends(None);
    assert!(!cont);
    match &state.status {
        Status::Stopped(StopReason::InvalidRoom(reason)) => assert_eq!(reason, "no such room"),
        _ => panic!("the invalid-room reason must survive the cleanup"),
    }
}

#[test]
fn late_reply_does_not_revive_a_stopped_room() {
    let mut state = RoomState::new(String::from("ident-1"), Some(String::from("u")));
    state.on_connected(10_000);
    let _ = state.on_rpl(
        0,
        Rpl::Room(RoomRpl::InvalidRoom { reason: String::from("no such room") }),
    );
    // A reply that straggles in before the transport closes changes
    // nothing: stopped is terminal.
    let _ = state.on_rpl(1, identify_success(session("s1", "u")));
    match &state.status {
        Status::Stopped(StopReason::InvalidRoom(reason)) => assert_eq!(reason, "no such room"),
        _ => panic!("a late reply must not revive a stopped room"),
    }
    assert!(state.present.is_none());
}

#[test]
fn reconnect_after_verified() {
    let mut state = RoomState::new(String::from("ident-1"), Some(String::from("u")));
    state.on_connected(10_000);
    let effect = state.on_rpl(0, Rpl::Room(RoomRpl::Success));
    assert!(effect.verified);
    // The transport drops; a verified room reconnects.
    let cont = state.after_connection_ends(Some(RoomVerified::Yes));
    assert!(cont);
    assert!(matches!(state.status, Status::Reconnecting));
    assert!(state.connected.is_none());
    // A fresh connection identifies again and reaches nominal.
    state.on_connected(10_000);
    assert!(matches!(state.status, Status::Identifying));
    let _ = state.on_rpl(0, identify_success(session("s2", "u")));
    assert!(matches!(state.status, Status::Nominal));
}

#[test]
fn nick_required_without_initial_nick() {
    let mut state = RoomState::new(String::from("ident-1"), None);
    state.on_connected(10_000);
    assert!(matches!(state.status, Status::NickRequired(None)));
    let cmd = state.identify_cmd(String::from("newnick"));
    match cmd {
        Cmd::Identify { nick, identity } => {
            assert_eq!(nick, "newnick");
            assert_eq!(identity, "ident-1");
        },
        _ => panic!("expected an identify command"),
    }
}

#[test]
fn invalid_identity_stops() {
    let mut state = RoomState::new(String::from("ident-1"), Some(String::from("u")));
    state.on_connected(10_000);
    let _ = state.on_rpl(
        0,
        Rpl::Identify(IdentifyRpl::InvalidIdentity { reason: String::from("bad") }),
    );
    assert!(matches!(
        state.status,
        Status::Stopped(StopReason::InvalidIdentity(_))
    ));
}

#[test]
fn invalid_nick_requires_new_nick() {
    let mut state = RoomState::new(String::from("ident-1"), Some(String::from("u")));
    state.on_connected(10_000);
    let _ = state.on_rpl(
        0,
        Rpl::Identify(IdentifyRpl::InvalidNick { reason: String::from("taken") }),
    );
    match &state.status {
        Status::NickRequired(Some(reason)) => assert_eq!(reason, "taken"),
        _ => panic!("expected a nick prompt"),
    }
}

#[test]
fn notifications_update_roster() {
    let mut state = RoomState::new(String::from("ident-1"), Some(String::from("u")));
    state.on_connected(10_000);
    let _ = state.on_rpl(0, identify_success(session("s1", "u")));

    let stored = state.on_ntf(Ntf::Join { who: session("s2", "guest") });
    assert!(stored.is_none());
    assert_eq!(state.present.as_ref().unwrap().others.len(), 1);

    let _ = state.on_ntf(Ntf::Nick { who: session("s2", "renamed") });
    let others = &state.present.as_ref().unwrap().others;
    assert_eq!(others.len(), 1);
    assert_eq!(others[0].name, "renamed");

    let _ = state.on_ntf(Ntf::Part { who: session("s2", "renamed") });
    assert!(state.present.as_ref().unwrap().others.is_empty());

    let m = Message {
        id: 7,
        parent: None,
        time: 70,
        sender: session("s1", "u"),
        content: String::from("hello"),
    };
    let stored = state.on_ntf(Ntf::Send { message: m });
    assert_eq!(stored.expect("a sent message is persisted").id, 7);
}

#[test]
fn who_reply_replaces_roster() {
    let mut state = RoomState::new(String::from("ident-1"), Some(String::from("u")));
    state.on_connected(10_000);
    let _ = state.on_rpl(0, identify_success(session("s1", "u")));
    let _ = state.on_ntf(Ntf::Join { who: session("s9", "other") });
    let _ = state.on_rpl(
        1,
        Rpl::Who(WhoRpl { you: session("s1", "u2"), others: vec![session("s3", "third")] }),
    );
    let present = state.present.as_ref().unwrap();
    assert_eq!(present.session.name, "u2");
    assert_eq!(present.others.len(), 1);
    assert_eq!(present.others[0].id, "s3");
}

#[test]
fn not_connected_error() {
    let mut state = RoomState::new(String::from("ident-1"), None);
    let r = state.prepare_cmd(Cmd::Who);
    assert!(matches!(r, Err(Error::NotConnected)));
}

#[test]
fn not_present_error() {
    let mut state = RoomState::new(String::from("ident-1"), Some(String::from("u")));
    state.on_connected(10_000);
    assert!(matches!(state.require_present(), Err(Error::NotPresent)));
    let _ = state.on_rpl(0, identify_success(session("s1", "u")));
    assert!(matches!(state.require_present(), Ok(())));
}

#[test]
fn incorrect_reply_type() {
    let r = expect_room_rpl(identify_success(session("s1", "u")));
    assert!(matches!(r, Err(Error::IncorrectReplyType)));
    let r = expect_identify_rpl(Rpl::Room(RoomRpl::Success));
    assert!(matches!(r, Err(Error::IncorrectReplyType)));
    let r = expect_room_rpl(Rpl::Room(RoomRpl::Success));
    assert!(matches!(r, Ok(RoomRpl::Success)));
}

#[test]
fn correlator_delivers_each_reply_once() {
    let mut replies = Replies::new(10_000);
    replies.wait_for(0);
    replies.wait_for(1);
    let first = replies.complete(0, "a reply");
    assert_eq!(first, Some("a reply"));
    // A second delivery for the same id is dropped.
    let second = replies.complete(0, "late");
    assert_eq!(second, None);
    // The other waiter is untouched and still resolves.
    let other = replies.complete(1, "other");
    assert_eq!(other, Some("other"));
}

#[test]
fn correlator_drops_unknown_replies() {
    let mut replies = Replies::new(10_000);
    assert_eq!(replies.complete(42, "nobody asked"), None);
}

#[test]
fn correlator_fail_all_returns_outstanding() {
    let mut replies = Replies::new(5_000);
    replies.wait_for(0);
    replies.wait_for(1);
    let failed = replies.fail_all();
    assert_eq!(failed, vec![0, 1]);
    assert_eq!(replies.complete(0, "late"), None);
    assert_eq!(replies.timeout_ms(), 5_000);
}

#[test]
fn connect_failure_is_terminal_only_once() {
    let v = note_connect_failure(None, String::from("refused"));
    assert!(matches!(
        v,
        Some(RoomVerified::No(StopReason::CouldNotConnect(_)))
    ));
    let v = note_connect_failure(Some(RoomVerified::Yes), String::from("refused"));
    assert!(matches!(v, Some(RoomVerified::Yes)));
}

#[test]
fn backoff_grows_and_caps() {
    assert_eq!(backoff_step(0, 30_000), 1);
    assert_eq!(backoff_step(1, 30_000), 2);
    assert_eq!(backoff_step(8, 30_000), 16);
    assert_eq!(backoff_step(20_000, 30_000), 30_000);
    assert_eq!(backoff_step(30_000, 30_000), 30_000);
    let d = jittered_delay(1_000, 987_654_321, 30_000);
    assert!(d >= 1_000 && d <= 30_000);
    assert_eq!(jittered_delay(0, 12345, 30_000), 0);
    // The jitter folds in modulo one more than the base delay.
    assert_eq!(jittered_delay(10, 25, 30_000), 10 + 25 % 11);
    assert_eq!(jittered_delay(30_000, 5, 30_000), 30_000);
}

#[test]
fn command_ids_are_consecutive() {
    let mut state = RoomState::new(String::from("ident-1"), Some(String::from("u")));
    state.on_connected(10_000);
    let (id0, _) = state.prepare_cmd(Cmd::Who).expect("connected");
    let (id1, _) = state.prepare_cmd(Cmd::Who).expect("connected");
    let (id2, pkt) = state.prepare_cmd(Cmd::Nick { nick: String::from("n") }).expect("connected");
    assert_eq!((id0, id1, id2), (0, 1, 2));
    assert!(matches!(pkt, Packet::Cmd { id: 2, cmd: Cmd::Nick { .. } }));
}
