use fs_swarm::fsnp::{Protocol, ACTION_ACK, ACTION_REPLY, MAX_CHUNK_SIZE};
use fs_swarm::fstp::{decode_add_block, Flag, FstpMessage};
use fs_swarm::leech::{
    observe_latency, peer_picker, request_chunk, timeout_ms, update_peer_latency,
    update_tracker_chunks, Action, Attempt, Event, Phase, DEFAULT_TIMEOUT_MS,
};
use fs_swarm::shared::{ord_chunks_by_rarity, peer_count, Shared, MAX_LEECH_THREADS};
use std::collections::HashSet;

const X: u32 = 0x0a00_0001;
const Y: u32 = 0x0a00_0002;
const Z: u32 = 0x0a00_0003;

fn reply(chunk_id: u32, name: &str, payload: &[u8]) -> Vec<u8> {
    let mut data = [0u8; MAX_CHUNK_SIZE];
    data[..payload.len()].copy_from_slice(payload);
    Protocol {
        action: ACTION_REPLY,
        chunk_id,
        filename: name,
        len_chunk: payload.len() as u16,
        chunk_data: data,
    }
    .to_datagram()
    .unwrap()
}

#[test]
fn blocks_are_ordered_rarest_first() {
    let holders = vec![vec![X, Y, Z], vec![X], vec![X, Y], vec![Y], vec![], vec![Z, X]];
    assert_eq!(ord_chunks_by_rarity(&holders), vec![4, 1, 3, 2, 5, 0]);
    assert_eq!(ord_chunks_by_rarity(&vec![vec![X]; 4]), vec![0, 1, 2, 3]);
    assert_eq!(ord_chunks_by_rarity(&Vec::new()), Vec::<u32>::new());
}

#[test]
fn peers_are_counted_once() {
    assert_eq!(peer_count(&vec![vec![X, Y], vec![Y, Z], vec![X]]), 3);
    assert_eq!(peer_count(&vec![vec![], vec![]]), 0);
    assert_eq!(peer_count(&Vec::new()), 0);
}

#[test]
fn new_state_claims_every_block_once_rarest_first() {
    let mut s = Shared::new(
        "f".to_string(),
        vec![vec![X, Y, X], vec![X], vec![X, Y, Z], vec![Y]],
    );
    assert_eq!(s.peers_to_chunk[0], vec![X, Y]);
    assert_eq!(s.rarity_ids, vec![1, 3, 0, 2]);
    assert_eq!(s.peer_count, 3);
    assert_eq!(s.worker_count(), 3);
    assert_eq!(s.next_index, 0);
    let mut claimed = Vec::new();
    while let Some(b) = s.claim() {
        claimed.push(b);
    }
    assert_eq!(claimed, vec![1, 3, 0, 2]);
    assert_eq!(s.claim(), None);
    assert_eq!(s.next_index, 4);
    let counts: Vec<usize> = claimed.iter().map(|b| s.peers_to_chunk[*b as usize].len()).collect();
    assert!(counts.windows(2).all(|w| w[0] <= w[1]));
}

#[test]
fn worker_count_is_capped() {
    let many: Vec<u32> = (1..=9).collect();
    let s = Shared::new("f".to_string(), vec![many]);
    assert_eq!(s.peer_count, 9);
    assert_eq!(s.worker_count(), MAX_LEECH_THREADS as usize);
    assert_eq!(Shared::new("f".to_string(), vec![vec![]]).worker_count(), 0);
}

#[test]
fn record_and_done() {
    let mut s = Shared::new("f".to_string(), vec![vec![X], vec![X]]);
    assert!(!s.is_done());
    s.record(0, true);
    s.record(1, false);
    assert!(!s.is_done());
    assert!(s.received.contains(&0));
    assert!(s.failed.contains(&1));
    s.record(1, true);
    assert!(s.is_done());
}

#[test]
fn timeout_is_half_as_long_again() {
    assert_eq!(DEFAULT_TIMEOUT_MS, 500);
    assert_eq!(timeout_ms(0), 500);
    assert_eq!(timeout_ms(1), 1);
    assert_eq!(timeout_ms(2), 3);
    assert_eq!(timeout_ms(100), 150);
    assert_eq!(timeout_ms(333), 499);
    assert_eq!(timeout_ms(u16::MAX), 98302);
}

#[test]
fn picker_prefers_unmeasured_then_fastest() {
    let mut s = Shared::new("f".to_string(), vec![vec![X, Y, Z]]);
    let none = HashSet::new();
    // Nobody is measured: the first holder.
    assert_eq!(peer_picker(0, &none, &mut s), Some((X, 0)));
    assert!(s.peers_taken.contains(&X));
    update_peer_latency(40, X, &mut s);
    // X is measured: the first of the others.
    assert_eq!(peer_picker(0, &none, &mut s), Some((Y, 0)));
    update_peer_latency(30, Y, &mut s);
    assert_eq!(peer_picker(0, &none, &mut s), Some((Z, 0)));
    update_peer_latency(35, Z, &mut s);
    // All are measured: the fastest.
    assert_eq!(peer_picker(0, &none, &mut s), Some((Y, 30)));
    let mut avoid = HashSet::new();
    avoid.insert(Y);
    assert_eq!(peer_picker(0, &avoid, &mut s), Some((Z, 35)));
    avoid.insert(Z);
    assert_eq!(peer_picker(0, &avoid, &mut s), Some((X, 40)));
    avoid.insert(X);
    assert_eq!(peer_picker(0, &avoid, &mut s), None);
    assert_eq!(s.peers_taken.len(), 3);
}

#[test]
fn picker_takes_the_first_of_equals() {
    let mut s = Shared::new("f".to_string(), vec![vec![Z, X, Y]]);
    update_peer_latency(20, X, &mut s);
    update_peer_latency(20, Y, &mut s);
    update_peer_latency(20, Z, &mut s);
    assert_eq!(peer_picker(0, &HashSet::new(), &mut s), Some((Z, 20)));
    update_peer_latency(21, Z, &mut s);
    assert_eq!(peer_picker(0, &HashSet::new(), &mut s), Some((X, 20)));
}

#[test]
fn picker_finds_nobody_for_an_unknown_or_unheld_block() {
    let mut s = Shared::new("f".to_string(), vec![vec![], vec![X]]);
    assert_eq!(peer_picker(0, &HashSet::new(), &mut s), None);
    assert_eq!(peer_picker(2, &HashSet::new(), &mut s), None);
    assert!(s.peers_taken.is_empty());
}

#[test]
fn latency_changes_only_outside_the_band() {
    let mut s = Shared::new("f".to_string(), vec![vec![X]]);
    observe_latency(100, X, &mut s);
    assert_eq!(s.peers_latency.get(&X), Some(&100));
    for d in [51u64, 99, 100, 149] {
        observe_latency(d, X, &mut s);
        assert_eq!(s.peers_latency.get(&X), Some(&100));
    }
    observe_latency(150, X, &mut s);
    assert_eq!(s.peers_latency.get(&X), Some(&150));
    observe_latency(75, X, &mut s);
    assert_eq!(s.peers_latency.get(&X), Some(&75));
    observe_latency(38, X, &mut s);
    assert_eq!(s.peers_latency.get(&X), Some(&75));
    observe_latency(37, X, &mut s);
    assert_eq!(s.peers_latency.get(&X), Some(&37));
    observe_latency(0, X, &mut s);
    assert_eq!(s.peers_latency.get(&X), Some(&0));
    observe_latency(0x1_0005, X, &mut s);
    assert_eq!(s.peers_latency.get(&X), Some(&5));
    assert_eq!(s.peers_latency.get(&Y), None);
}

#[test]
fn request_and_announcement_frames() {
    let r = request_chunk(7, "doc").unwrap();
    assert_eq!(r, vec![1u8, 7, 0, 0, 0, 3, 0, 0, b'd', b'o', b'c']);
    assert!(request_chunk(7, &"n".repeat(26)).is_err());
    assert!(request_chunk(7, "é").is_err());
    let frame = update_tracker_chunks(7, "doc").unwrap();
    assert_eq!(frame, vec![5u8, 0, 11, 7, 0, 0, 0, 3, 0, 0, 0, b'd', b'o', b'c']);
    let msg = FstpMessage::from_bytes(&frame).unwrap();
    assert_eq!(msg.header.flag, Flag::AddBlock);
    assert_eq!(decode_add_block(msg.data.unwrap()).unwrap(), (7, "doc".to_string()));
    assert!(update_tracker_chunks(0, &"n".repeat(0xffff - 7)).is_err());
}

#[test]
fn ack_echoes_block_and_name() {
    let bytes = reply(9, "doc", b"abc");
    let got = Protocol::read_datagram(&bytes).unwrap();
    let ack = got.ack();
    assert_eq!(ack.action, ACTION_ACK);
    assert_eq!(ack.chunk_id, 9);
    assert_eq!(ack.filename, "doc");
    assert_eq!(ack.len_chunk, 0);
    assert_eq!(ack.to_datagram().unwrap(), vec![0u8, 9, 0, 0, 0, 3, 0, 0, b'd', b'o', b'c']);
}

#[test]
fn unreachable_peer_failover() {
    let mut s = Shared::new("doc".to_string(), vec![vec![X, Y]]);
    let block = s.claim().unwrap();
    assert_eq!(block, 0);
    let (mut attempt, mut action) = Attempt::begin(block, &mut s);
    let mut asked: Vec<u32> = Vec::new();
    let mut timeouts_on_x = 0;
    let payload = vec![0x5au8; 660];
    let stored;
    loop {
        match action {
            Action::Request { peer, timeout_ms, datagram } => {
                assert_eq!(timeout_ms, 500);
                assert_eq!(datagram, request_chunk(0, "doc").unwrap());
                asked.push(peer);
                if peer == X {
                    // X drops every datagram.
                    timeouts_on_x += 1;
                    action = attempt.step(&mut s, Event::Timeout);
                } else {
                    let bytes = reply(0, "doc", &payload);
                    action = attempt.step(&mut s, Event::Datagram { bytes, elapsed_ms: 12 });
                }
            }
            Action::Store { index, payload: got } => {
                assert_eq!(index, 0);
                stored = got;
                break;
            }
            other => panic!("unexpected {:?}", other),
        }
    }
    assert_eq!(timeouts_on_x, 3);
    assert_eq!(asked, vec![X, X, X, Y]);
    assert!(asked.len() >= 4);
    assert!(attempt.avoid.contains(&X));
    assert!(!attempt.avoid.contains(&Y));
    assert_eq!(stored, payload);
    assert_eq!(attempt.phase, Phase::Commit);

    match attempt.step(&mut s, Event::Stored) {
        Action::Announce { frame } => assert_eq!(frame, update_tracker_chunks(0, "doc").unwrap()),
        other => panic!("unexpected {:?}", other),
    }
    assert_eq!(attempt.phase, Phase::Idle);
    assert!(s.received.contains(&0));
    assert!(s.failed.is_empty());
    assert_eq!(s.peers_latency.get(&Y), Some(&12));
    assert_eq!(s.peers_latency.get(&X), None);
    assert!(s.is_done());
}

#[test]
fn attempt_gives_up_when_every_peer_is_avoided() {
    let mut s = Shared::new("doc".to_string(), vec![vec![X, Y]]);
    let (mut attempt, mut action) = Attempt::begin(0, &mut s);
    let mut requests = 0;
    loop {
        match action {
            Action::Request { .. } => {
                requests += 1;
                let event = if requests % 2 == 0 { Event::SendFailed } else { Event::Timeout };
                action = attempt.step(&mut s, event);
            }
            Action::GiveUp => break,
            other => panic!("unexpected {:?}", other),
        }
    }
    assert_eq!(requests, 6);
    assert_eq!(attempt.phase, Phase::Idle);
    assert!(s.failed.contains(&0));
    assert!(s.received.is_empty());
    assert!(!s.is_done());
    assert!(matches!(attempt.step(&mut s, Event::Timeout), Action::Wait));
}

#[test]
fn attempt_gives_up_at_once_without_holders_or_with_a_bad_name() {
    let mut s = Shared::new("doc".to_string(), vec![vec![]]);
    let (attempt, action) = Attempt::begin(0, &mut s);
    assert!(matches!(action, Action::GiveUp));
    assert_eq!(attempt.phase, Phase::Idle);
    assert!(s.failed.contains(&0));

    let mut long = Shared::new("n".repeat(26), vec![vec![X]]);
    let (_, action) = Attempt::begin(0, &mut long);
    assert!(matches!(action, Action::GiveUp));
    assert!(long.peers_taken.is_empty());
}

#[test]
fn stale_and_foreign_datagrams_do_not_end_the_wait() {
    let mut s = Shared::new("doc".to_string(), vec![vec![X], vec![X]]);
    let (mut attempt, action) = Attempt::begin(1, &mut s);
    assert!(matches!(action, Action::Request { peer: X, .. }));
    let other_block = reply(0, "doc", b"zz");
    let other_file = reply(1, "dox", b"zz");
    let mut not_a_reply = reply(1, "doc", b"");
    not_a_reply[0] = 1;
    for bytes in [other_block, other_file, not_a_reply] {
        let action = attempt.step(&mut s, Event::Datagram { bytes, elapsed_ms: 1 });
        assert!(matches!(action, Action::Wait));
        assert_eq!(attempt.phase, Phase::AwaitReply);
        assert_eq!(attempt.retries, 0);
    }
    // Bytes that are no datagram make the worker ask again, without a strike.
    let action = attempt.step(&mut s, Event::Datagram { bytes: vec![1, 2, 3], elapsed_ms: 1 });
    assert!(matches!(action, Action::Request { peer: X, .. }));
    assert_eq!(attempt.retries, 0);
    // Events of the wrong phase change nothing.
    assert!(matches!(attempt.step(&mut s, Event::Stored), Action::Wait));
    assert!(matches!(attempt.step(&mut s, Event::StoreFailed), Action::Wait));
    assert_eq!(attempt.phase, Phase::AwaitReply);
    let action = attempt.step(&mut s, Event::Datagram { bytes: reply(1, "doc", b"ok"), elapsed_ms: 3 });
    match action {
        Action::Store { index, payload } => {
            assert_eq!(index, 1);
            assert_eq!(payload, b"ok".to_vec());
        }
        other => panic!("unexpected {:?}", other),
    }
    assert!(matches!(attempt.step(&mut s, Event::Timeout), Action::Wait));
    assert_eq!(attempt.phase, Phase::Commit);
}

#[test]
fn failed_store_fails_the_block() {
    let mut s = Shared::new("doc".to_string(), vec![vec![X]]);
    let (mut attempt, _) = Attempt::begin(0, &mut s);
    attempt.step(&mut s, Event::Datagram { bytes: reply(0, "doc", b"ok"), elapsed_ms: 3 });
    assert!(matches!(attempt.step(&mut s, Event::StoreFailed), Action::GiveUp));
    assert!(s.failed.contains(&0));
    assert!(s.received.is_empty());
    assert_eq!(s.peers_latency.get(&X), None);
}

#[test]
fn retries_start_again_with_each_peer() {
    let mut s = Shared::new("doc".to_string(), vec![vec![X, Y]]);
    let (mut attempt, _) = Attempt::begin(0, &mut s);
    attempt.step(&mut s, Event::Timeout);
    attempt.step(&mut s, Event::Timeout);
    assert_eq!(attempt.retries, 2);
    assert_eq!(attempt.peer, X);
    let action = attempt.step(&mut s, Event::Timeout);
    assert!(matches!(action, Action::Request { peer: Y, .. }));
    assert_eq!(attempt.retries, 0);
    assert_eq!(attempt.peer, Y);
    attempt.step(&mut s, Event::Timeout);
    assert_eq!(attempt.retries, 1);
}

#[test]
fn measured_peer_gets_its_own_timeout() {
    let mut s = Shared::new("doc".to_string(), vec![vec![X]]);
    update_peer_latency(200, X, &mut s);
    let (attempt, action) = Attempt::begin(0, &mut s);
    match action {
        Action::Request { peer, timeout_ms, .. } => {
            assert_eq!(peer, X);
            assert_eq!(timeout_ms, 300);
        }
        other => panic!("unexpected {:?}", other),
    }
    assert_eq!(attempt.latency_ms, 200);
}
