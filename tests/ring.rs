use token_ring::addr::{IpAddr, SockAddr};
use token_ring::err::TokenRingError;
use token_ring::id::WorkStationId;
use token_ring::packet::{JoinAnswerResult, Packet, PacketType, QueuedPacket};
use token_ring::pass::TokenPasser;
use token_ring::station::{ActiveStation, ConnectionMode, GlobalConfig, PassiveStation};
use token_ring::token::{Token, TokenFrameType, TokenSendMode};

fn addr(port: u16) -> SockAddr {
    SockAddr { ip: IpAddr::V4(0x7f00_0001), port }
}

const MONITOR: u16 = 7000;
const ALICE: u16 = 7001;
const BOB: u16 = 7002;

fn monitor(max_passover_ms: u64) -> ActiveStation {
    ActiveStation::host(WorkStationId::new("monitor".to_owned()),
        GlobalConfig::new("hunter2".to_owned(), true, 2, max_passover_ms))
}

fn passive(name: &str) -> PassiveStation {
    PassiveStation::new(WorkStationId::new(name.to_owned()))
}

/// Sends each queued packet through its encoding, as the socket would.
fn transmit(out: Vec<QueuedPacket>, from: SockAddr) -> Vec<(QueuedPacket, SockAddr)> {
    out.into_iter()
        .map(|QueuedPacket(p, to)| {
            let bytes = p.serialize().unwrap();
            (QueuedPacket(Packet::deserialize(&bytes).unwrap(), from), to)
        })
        .collect()
}

fn to_monitor(from: &mut PassiveStation, from_port: u16, m: &mut ActiveStation, now: u64) -> Vec<TokenRingError> {
    let packets: Vec<QueuedPacket> = transmit(from.take_outbox(), addr(from_port))
        .into_iter()
        .map(|(p, to)| {
            assert_eq!(to, addr(MONITOR));
            p
        })
        .collect();
    m.recv_all(packets, now)
}

fn to_passive(m: &mut ActiveStation, st: &mut PassiveStation, port: u16) -> Vec<Result<(), TokenRingError>> {
    transmit(m.take_outbox(), addr(MONITOR))
        .into_iter()
        .filter(|(_, to)| *to == addr(port))
        .map(|(p, _)| st.recv_next(p))
        .collect()
}

fn join(m: &mut ActiveStation, st: &mut PassiveStation, port: u16, pw: &str) {
    st.connect(addr(MONITOR), pw.to_owned()).unwrap();
    assert!(to_monitor(st, port, m, 0).is_empty());
    let results = to_passive(m, st, port);
    assert_eq!(results.len(), 1);
    assert!(results[0].is_ok());
}

#[test]
fn join_is_confirmed_then_duplicate_denied() {
    let mut m = monitor(5000);
    let mut alice = passive("alice");
    alice.connect(addr(MONITOR), "hunter2".to_owned()).unwrap();
    assert!(to_monitor(&mut alice, ALICE, &mut m, 0).is_empty());
    let out = m.take_outbox();
    assert_eq!(out.len(), 1);
    assert_eq!(out[0].1, addr(ALICE));
    match &out[0].0.content {
        PacketType::JoinReply(JoinAnswerResult::Confirm(id)) => assert_eq!(id.as_str(), "monitor"),
        other => panic!("unexpected {:?}", other),
    }
    assert!(out[0].0.header.verify());
    let r = alice.recv_next(QueuedPacket(Packet::deserialize(&out[0].0.serialize().unwrap()).unwrap(), addr(MONITOR)));
    assert!(r.is_ok());
    assert!(matches!(alice.connection_mode(), ConnectionMode::Connected(id, a) if id.as_str() == "monitor" && *a == addr(MONITOR)));
    assert_eq!(m.member_count(), 1);

    // the same id from the same address again
    let mut again = passive("alice");
    again.connect(addr(MONITOR), "hunter2".to_owned()).unwrap();
    let errs = to_monitor(&mut again, ALICE, &mut m, 0);
    assert_eq!(errs.len(), 1);
    assert!(matches!(&errs[0], TokenRingError::RejectedJoinAttempt(id, _) if id.as_str() == "alice"));
    let out = m.take_outbox();
    assert_eq!(out.len(), 1);
    match &out[0].0.content {
        PacketType::JoinReply(JoinAnswerResult::Deny(reason)) => assert_eq!(reason, "Already joined"),
        other => panic!("unexpected {:?}", other),
    }
    assert_eq!(m.member_count(), 1);
    assert_eq!(m.token_passer().station_count(), 1);
}

#[test]
fn wrong_password_is_denied() {
    let mut m = monitor(5000);
    let mut bob = passive("bob");
    bob.connect(addr(MONITOR), "wrong".to_owned()).unwrap();
    let errs = to_monitor(&mut bob, BOB, &mut m, 0);
    assert_eq!(errs.len(), 1);
    assert!(matches!(&errs[0], TokenRingError::RejectedJoinAttempt(_, _)));
    assert_eq!(m.member_count(), 0);
    assert_eq!(m.token_passer().station_count(), 0);
    let results = to_passive(&mut m, &mut bob, BOB);
    assert_eq!(results.len(), 1);
    assert!(matches!(&results[0], Err(TokenRingError::FailedJoinAttempt(_))));
    assert!(matches!(bob.connection_mode(), ConnectionMode::Pending(_)));
}

#[test]
fn full_ring_and_closed_ring_deny() {
    let mut m = monitor(5000);
    let mut a = passive("alice");
    let mut b = passive("bob");
    join(&mut m, &mut a, ALICE, "hunter2");
    join(&mut m, &mut b, BOB, "hunter2");
    let mut c = passive("carol");
    c.connect(addr(MONITOR), "hunter2".to_owned()).unwrap();
    let errs = to_monitor(&mut c, 7003, &mut m, 0);
    assert_eq!(errs.len(), 1);
    assert_eq!(m.member_count(), 2);

    let mut closed = ActiveStation::host(WorkStationId::new("m".to_owned()),
        GlobalConfig::new("pw".to_owned(), false, 10, 1000));
    let mut d = passive("dave");
    d.connect(addr(MONITOR), "pw".to_owned()).unwrap();
    let errs = to_monitor(&mut d, 7004, &mut closed, 0);
    assert_eq!(errs.len(), 1);
    assert_eq!(closed.member_count(), 0);
}

#[test]
fn successful_join_adds_one_unheld_entry() {
    let mut m = monitor(5000);
    let mut a = passive("alice");
    join(&mut m, &mut a, ALICE, "hunter2");
    assert_eq!(m.member_count(), 1);
    assert_eq!(m.token_passer().station_count(), 1);
    assert_eq!(m.token_passer().held_this_round(&WorkStationId::new("alice".to_owned())), Some(false));
    assert_eq!(m.token_passer().held_this_round(&WorkStationId::new("bob".to_owned())), None);
}

#[test]
fn rejoin_from_new_address_overwrites() {
    let mut m = monitor(5000);
    let mut a = passive("alice");
    join(&mut m, &mut a, ALICE, "hunter2");
    let mut a2 = passive("alice");
    join(&mut m, &mut a2, 7005, "hunter2");
    assert_eq!(m.member_count(), 1);
    assert_eq!(m.token_passer().station_count(), 1);
    assert_eq!(m.get_station_addr(&WorkStationId::new("alice".to_owned())), Some(addr(7005)));
}

#[test]
fn token_round_with_frames() {
    let mut m = monitor(5000);
    let mut alice = passive("alice");
    let mut bob = passive("bob");
    join(&mut m, &mut alice, ALICE, "hunter2");
    join(&mut m, &mut bob, BOB, "hunter2");

    // the monitor mints a token for alice
    assert!(m.poll_token_pass(0).is_ok());
    alice.append_frame(TokenFrameType::Data { send_mode: TokenSendMode::Broadcast, seq: 0, payload: b"hi".to_vec() });
    assert_eq!(alice.staged_frame_count(), 1);
    let rs = to_passive(&mut m, &mut alice, ALICE);
    assert_eq!(rs.len(), 1);
    assert!(rs[0].is_ok());
    assert_eq!(alice.staged_frame_count(), 0);
    let first: Token = alice.held_token().unwrap().clone();
    assert_eq!(first.frames.len(), 1);
    assert!(first.header.verify());
    assert!(alice.pass_on_token().is_ok());
    assert!(alice.held_token().is_none());
    assert!(to_monitor(&mut alice, ALICE, &mut m, 100).is_empty());
    assert_eq!(m.token_passer().held_this_round(&WorkStationId::new("alice".to_owned())), Some(true));

    // bob gets the token with alice's frame
    assert!(m.poll_token_pass(200).is_ok());
    let rs = to_passive(&mut m, &mut bob, BOB);
    assert_eq!(rs.len(), 1);
    let t = bob.held_token().unwrap().clone();
    assert_eq!(t, first);
    match &t.frames[0].content {
        TokenFrameType::Data { payload, seq, send_mode } => {
            assert_eq!(payload, &b"hi".to_vec());
            assert_eq!(*seq, 0);
            assert_eq!(*send_mode, TokenSendMode::Broadcast);
        },
        other => panic!("unexpected {:?}", other),
    }
    assert_eq!(t.frames[0].id.source.as_str(), "alice");
    assert!(bob.pass_on_token().is_ok());
    assert!(to_monitor(&mut bob, BOB, &mut m, 300).is_empty());

    // round over: a fresh token goes to bob, the last member
    assert!(m.poll_token_pass(400).is_ok());
    let out = m.take_outbox();
    assert_eq!(out.len(), 1);
    assert_eq!(out[0].1, addr(BOB));
    match &out[0].0.content {
        PacketType::TokenPass(fresh) => {
            assert_eq!(fresh.frames.len(), 0);
            assert!(fresh.header.verify());
            assert_ne!(fresh, &first);
        },
        other => panic!("unexpected {:?}", other),
    }
    assert_eq!(m.token_passer().held_this_round(&WorkStationId::new("alice".to_owned())), Some(false));
}

#[test]
fn silent_holder_is_skipped_after_timeout() {
    let mut m = monitor(100);
    let mut alice = passive("alice");
    let mut bob = passive("bob");
    join(&mut m, &mut alice, ALICE, "hunter2");
    join(&mut m, &mut bob, BOB, "hunter2");
    assert!(m.poll_token_pass(1000).is_ok());
    let out = m.take_outbox();
    assert_eq!(out[0].1, addr(ALICE));
    assert!(!m.token_passer().pass_ready(1050));
    assert!(matches!(m.poll_token_pass(1050), Err(TokenRingError::TokenPending)));
    assert!(m.token_passer().pass_ready(1200));
    assert!(m.poll_token_pass(1200).is_ok());
    let out = m.take_outbox();
    assert_eq!(out.len(), 1);
    assert_eq!(out[0].1, addr(BOB));
    assert_eq!(m.token_passer().held_this_round(&WorkStationId::new("alice".to_owned())), Some(false));
}

#[test]
fn late_token_is_refused() {
    let mut m = monitor(100);
    let mut alice = passive("alice");
    join(&mut m, &mut alice, ALICE, "hunter2");
    assert!(m.poll_token_pass(0).is_ok());
    to_passive(&mut m, &mut alice, ALICE);
    alice.pass_on_token().unwrap();
    let errs = to_monitor(&mut alice, ALICE, &mut m, 500);
    assert_eq!(errs.len(), 1);
    assert!(matches!(&errs[0], TokenRingError::InvalidToken(_, _)));
    assert_eq!(m.token_passer().held_this_round(&WorkStationId::new("alice".to_owned())), Some(true));
}

#[test]
fn leave_removes_member() {
    let mut m = monitor(5000);
    let mut alice = passive("alice");
    let mut bob = passive("bob");
    join(&mut m, &mut alice, ALICE, "hunter2");
    join(&mut m, &mut bob, BOB, "hunter2");
    assert!(alice.shutdown().is_ok());
    assert!(matches!(alice.connection_mode(), ConnectionMode::Offline));
    assert!(to_monitor(&mut alice, ALICE, &mut m, 0).is_empty());
    assert_eq!(m.member_count(), 1);
    assert_eq!(m.token_passer().station_count(), 1);
    assert_eq!(m.get_station_addr(&WorkStationId::new("alice".to_owned())), None);
    assert!(m.poll_token_pass(0).is_ok());
    let out = m.take_outbox();
    assert_eq!(out[0].1, addr(BOB));
    // a second leave: not registered any more
    let mut ghost = passive("alice");
    ghost.connect(addr(MONITOR), "x".to_owned()).unwrap();
    let _ = ghost.take_outbox();
    assert!(matches!(ghost.shutdown(), Err(TokenRingError::NotConnected)));
}

#[test]
fn corrupted_signature_is_dropped() {
    let mut m = monitor(5000);
    let mut alice = passive("alice");
    join(&mut m, &mut alice, ALICE, "hunter2");
    let mut bob = passive("bob");
    bob.connect(addr(MONITOR), "hunter2".to_owned()).unwrap();
    let QueuedPacket(p, _) = bob.take_outbox().remove(0);
    let mut bytes = p.serialize().unwrap();
    bytes[40] ^= 0x80;
    let tampered = Packet::deserialize(&bytes).unwrap();
    let errs = m.recv_all(vec![QueuedPacket(tampered, addr(BOB))], 0);
    assert_eq!(errs.len(), 1);
    assert!(matches!(&errs[0], TokenRingError::InvalidSignature));
    assert_eq!(m.member_count(), 1);
    assert!(m.take_outbox().is_empty());
}

#[test]
fn unregistered_sender_and_empty_ring() {
    let mut m = monitor(5000);
    assert!(matches!(m.poll_token_pass(0), Err(TokenRingError::EmptyRing)));
    let mut alice = passive("alice");
    join(&mut m, &mut alice, ALICE, "hunter2");
    let mut eve = passive("eve");
    eve.connect(addr(MONITOR), "hunter2".to_owned()).unwrap();
    let QueuedPacket(p, _) = eve.take_outbox().remove(0);
    let leave = Packet::new(p.header, PacketType::Leave);
    let errs = m.recv_all(vec![QueuedPacket(leave, addr(7009))], 0);
    assert!(matches!(&errs[0], TokenRingError::StationNotRegistered(id, a) if id.as_str() == "eve" && *a == addr(7009)));
}

#[test]
fn passive_rejects_strangers_when_connected() {
    let mut m = monitor(5000);
    let mut alice = passive("alice");
    join(&mut m, &mut alice, ALICE, "hunter2");
    assert!(m.poll_token_pass(0).is_ok());
    let QueuedPacket(p, _) = m.take_outbox().remove(0);
    let bytes = p.serialize().unwrap();
    let r = alice.recv_next(QueuedPacket(Packet::deserialize(&bytes).unwrap(), addr(9999)));
    assert!(matches!(r, Err(TokenRingError::InvalidSocketAddress(a)) if a == addr(9999)));
    let mut other = passive("other");
    other.connect(addr(1), "x".to_owned()).unwrap();
    let QueuedPacket(q, _) = other.take_outbox().remove(0);
    let r = alice.recv_next(QueuedPacket(q, addr(MONITOR)));
    assert!(matches!(r, Err(TokenRingError::InvalidWorkStationId(_, _))));
    assert!(matches!(alice.pass_on_token(), Err(TokenRingError::TokenPending)));
}

#[test]
fn offline_station_is_not_connected() {
    let mut alice = passive("alice");
    let mut bob = passive("bob");
    bob.connect(addr(1), "x".to_owned()).unwrap();
    let QueuedPacket(p, _) = bob.take_outbox().remove(0);
    assert!(matches!(alice.recv_next(QueuedPacket(p, addr(1))), Err(TokenRingError::NotConnected)));
}

#[test]
fn rotation_order_pins_tie_break() {
    let mut passer = TokenPasser::new(60_000);
    let ids: Vec<WorkStationId> = ["a", "b", "c"].iter().map(|s| WorkStationId::new(s.to_string())).collect();
    for id in &ids {
        passer.add_station(id.clone());
    }
    let mut order = vec![];
    for step in 0..5u64 {
        let chosen = passer.select_next_station(step).unwrap();
        order.push(chosen.as_str().to_owned());
        let token = fresh_token();
        let _ = passer.recv_token(token, &chosen, step);
    }
    assert_eq!(order, vec!["a", "b", "c", "c", "a"]);
}

fn fresh_token() -> Token {
    let keypair = token_ring::signature::generate_keypair();
    let header = token_ring::token::TokenHeader::new(WorkStationId::new("m".to_owned()));
    Token::new(token_ring::signature::Signed::new(&keypair, header).unwrap())
}
