use fs_swarm::fstp::{decode_add_block, Flag, FstpMessage};
use fs_swarm::leech::{Action, Attempt, Event};
use fs_swarm::file_meta::FileMeta;
use fs_swarm::node::{contact_tracker, file_request, plan_download, read_file_reply};
use fs_swarm::partial_file::{
    complete_part_file, create_part_file, get_file_metadata, write_block, PartFile,
};
use fs_swarm::peers_with_blocks::PeersWithFile;
use fs_swarm::seed::{build_reply, read_request, serve, Job, WorkQueue, QUEUE_LIMIT};
use fs_swarm::tracker::Tracker;
use std::collections::HashMap;

const S: u32 = 0x0a00_0001;
const A: u32 = 0x0a00_0002;
const B: u32 = 0x0a00_0003;
const L: u32 = 0x0a00_0009;

/// What a download did.
struct Outcome {
    requests: Vec<(u32, u32)>,
    announcements: Vec<(u32, String)>,
    promoted: Option<(String, Vec<u8>)>,
    part: PartFile,
}

/// Runs one worker of a download against peers that hold `stores`, a file
/// name and bytes each, and tells the tracker of each block.
fn download(
    name: &str,
    found: &PeersWithFile,
    stores: &HashMap<u32, (String, Vec<u8>)>,
    tracker: &mut Tracker,
) -> Outcome {
    let mut shared = plan_download(name, found).unwrap();
    let n = found.n_blocks;
    let mut part = create_part_file(name, found.file_size, n).unwrap();
    let mut requests = Vec::new();
    let mut announcements = Vec::new();
    while let Some(block) = shared.claim() {
        let (mut attempt, mut action) = Attempt::begin(block, &mut shared);
        loop {
            match action {
                Action::Request { peer, datagram, .. } => {
                    requests.push((peer, block));
                    let event = match stores.get(&peer) {
                        Some((stored, content)) => match serve(&datagram, stored, content) {
                            Some(bytes) => Event::Datagram { bytes, elapsed_ms: 5 },
                            None => Event::Timeout,
                        },
                        None => Event::Timeout,
                    };
                    action = attempt.step(&mut shared, event);
                }
                Action::Store { index, payload } => {
                    let done = write_block(&mut part, n, payload.len() as u32, index, &payload);
                    let event = if done.is_ok() { Event::Stored } else { Event::StoreFailed };
                    action = attempt.step(&mut shared, event);
                }
                Action::Announce { frame } => {
                    let msg = FstpMessage::from_bytes(&frame).unwrap();
                    assert_eq!(msg.header.flag, Flag::AddBlock);
                    announcements.push(decode_add_block(msg.data.unwrap()).unwrap());
                    assert!(tracker.handle(L, &frame).unwrap().is_none());
                    break;
                }
                Action::GiveUp => break,
                Action::Wait => panic!("nothing to wait for"),
            }
        }
    }
    let promoted = if shared.is_done() {
        Some(complete_part_file(&part, found.file_size, n).unwrap())
    } else {
        None
    };
    Outcome { requests, announcements, promoted, part }
}

fn bytes_of(len: usize, seed: u32) -> Vec<u8> {
    (0..len as u32).map(|i| (i.wrapping_mul(31).wrapping_add(seed) % 251) as u8).collect()
}

#[test]
fn single_file_single_seeder_three_blocks() {
    let doc = bytes_of(3500, 7);
    let mut stores = HashMap::new();
    stores.insert(S, ("doc".to_string(), doc.clone()));
    let found = PeersWithFile {
        file_size: 3500,
        n_blocks: 3,
        peers_with_file: vec![S],
        peers_with_blocks: vec![vec![], vec![], vec![]],
    };
    let mut tracker = Tracker::new();
    let out = download("doc", &found, &stores, &mut tracker);
    let (name, bytes) = out.promoted.unwrap();
    assert_eq!(name, "doc");
    assert_eq!(bytes.len(), 3500);
    assert_eq!(bytes, doc);
    assert_eq!(out.requests, vec![(S, 0), (S, 1), (S, 2)]);
    assert_eq!(out.announcements.len(), 3);
}

#[test]
fn two_seeders_disjoint_blocks() {
    let img = bytes_of(5880, 3);
    // A holds blocks 0 and 1, B holds blocks 2, 3 and 4, each in a partial file.
    let mut of_a = create_part_file("img", 5880, 5).unwrap();
    let mut of_b = create_part_file("img", 5880, 5).unwrap();
    for i in 0..5u32 {
        let from = i as usize * 1420;
        let to = (from + 1420).min(5880);
        let target = if i < 2 { &mut of_a } else { &mut of_b };
        write_block(target, 5, (to - from) as u32, i, &img[from..to]).unwrap();
    }
    let mut tracker = Tracker::new();
    for (peer, file) in [(A, &of_a), (B, &of_b)] {
        let entry =
            get_file_metadata(&file.name, file.content.len() as u64, &file.content[5 * 1420..])
                .unwrap();
        tracker.handle(peer, &contact_tracker(&vec![entry]).unwrap()).unwrap();
    }
    // The leecher announces its own empty partial file, then looks the file up.
    let own = FileMeta::partial("img", 5880, &[false; 5]).unwrap();
    tracker.handle(L, &contact_tracker(&vec![own]).unwrap()).unwrap();
    let reply = tracker.handle(L, &file_request("img").unwrap()).unwrap().unwrap();
    let found = read_file_reply(&reply).unwrap();
    assert_eq!(found.file_size, 5880);
    assert!(found.peers_with_file.is_empty());
    assert_eq!(
        found.peers_with_blocks,
        vec![vec![A], vec![A], vec![B], vec![B], vec![B]]
    );

    let mut stores = HashMap::new();
    stores.insert(A, (of_a.name.clone(), of_a.content.clone()));
    stores.insert(B, (of_b.name.clone(), of_b.content.clone()));
    let out = download("img", &found, &stores, &mut tracker);
    let (name, bytes) = out.promoted.unwrap();
    assert_eq!(name, "img");
    assert_eq!(bytes.len(), 5880);
    assert_eq!(bytes, img);
    assert_eq!(out.announcements.len(), 5);
    let mut blocks: Vec<u32> = out.announcements.iter().map(|(i, _)| *i).collect();
    blocks.sort();
    assert_eq!(blocks, vec![0, 1, 2, 3, 4]);
    assert!(out.announcements.iter().all(|(_, n)| n == "img"));
    assert_eq!(out.requests.len(), 5);

    // The tracker now lists the leecher for every block.
    let after = tracker.file("img");
    assert_eq!(
        after.peers_with_blocks,
        vec![vec![A, L], vec![A, L], vec![B, L], vec![B, L], vec![B, L]]
    );
}

#[test]
fn download_stays_partial_when_a_block_has_no_responsive_peer() {
    let doc = bytes_of(3500, 1);
    let mut held = create_part_file("doc", 3500, 3).unwrap();
    write_block(&mut held, 3, 1420, 0, &doc[..1420]).unwrap();
    write_block(&mut held, 3, 660, 2, &doc[2840..]).unwrap();
    let mut stores = HashMap::new();
    stores.insert(A, (held.name.clone(), held.content.clone()));
    // The tracker believes that A holds block 1 as well.
    let found = PeersWithFile {
        file_size: 3500,
        n_blocks: 3,
        peers_with_file: vec![],
        peers_with_blocks: vec![vec![A], vec![A], vec![A]],
    };
    let mut tracker = Tracker::new();
    let out = download("doc", &found, &stores, &mut tracker);
    assert!(out.promoted.is_none());
    assert_eq!(out.announcements.len(), 2);
    assert_eq!(out.requests.iter().filter(|(_, b)| *b == 1).count(), 3);
    assert_eq!(
        &out.part.content[3 * 1420..3 * 1420 + 3],
        &[b'1', b'0', b'1']
    );
    assert_eq!(&out.part.content[..1420], &doc[..1420]);
}

#[test]
fn unavailable_file_plans_no_download() {
    assert!(plan_download("f", &PeersWithFile::new(0)).is_none());
    assert!(plan_download("f", &PeersWithFile::new(3500)).is_none());
    let mut ill = PeersWithFile::new(3500);
    ill.peers_with_file = vec![S];
    ill.n_blocks = 2;
    assert!(plan_download("f", &ill).is_none());
    let mut ok = PeersWithFile::new(3500);
    ok.peers_with_blocks[1] = vec![A];
    let planned = plan_download("f", &ok).unwrap();
    assert_eq!(planned.filename, "f");
    assert_eq!(planned.peers_to_chunk, vec![vec![], vec![A], vec![]]);
    assert_eq!(planned.rarity_ids, vec![0, 2, 1]);
}

#[test]
fn seeder_drops_what_it_cannot_serve() {
    let doc = bytes_of(3500, 9);
    let ask = |chunk: u32, name: &str| fs_swarm::leech::request_chunk(chunk, name).unwrap();
    assert!(serve(&ask(0, "doc"), "doc", &doc).is_some());
    // Past the end of the file nothing is read, so nothing is sent.
    assert!(serve(&ask(3, "doc"), "doc", &doc).is_none());
    assert!(serve(&[1, 2, 3], "doc", &doc).is_none());
    let mut not_a_request = ask(0, "doc");
    not_a_request[0] = 2;
    assert!(serve(&not_a_request, "doc", &doc).is_none());
    assert!(read_request(&not_a_request).is_none());
    let mut with_payload = ask(0, "doc");
    with_payload[6] = 1;
    with_payload.push(0);
    assert!(read_request(&with_payload).is_none());
    let part = create_part_file("doc", 3500, 3).unwrap();
    assert!(serve(&ask(0, "doc"), &part.name, &part.content).is_none());
}

#[test]
fn reply_echoes_the_request_and_carries_the_block() {
    let doc = bytes_of(3500, 11);
    let request = fs_swarm::leech::request_chunk(2, "doc").unwrap();
    let bytes = serve(&request, "doc", &doc).unwrap();
    assert_eq!(bytes.len(), 8 + 3 + 660);
    assert_eq!(&bytes[..8], &[2u8, 2, 0, 0, 0, 3, 0x94, 0x02]);
    assert_eq!(&bytes[8..11], b"doc");
    assert_eq!(&bytes[11..], &doc[2840..]);

    let req = read_request(&request).unwrap();
    assert_eq!(req.chunk_id, 2);
    assert_eq!(req.filename, "doc");
    assert_eq!(build_reply(&req, &doc[2840..], 660).unwrap(), bytes);
    assert!(build_reply(&req, &doc, 0).is_none());
    assert!(build_reply(&req, &doc, 1421).is_none());
    assert!(build_reply(&req, &doc[..10], 11).is_none());
    assert_eq!(build_reply(&req, &doc, 1420).unwrap().len(), 8 + 3 + 1420);
}

#[test]
fn work_queue_is_first_in_first_out_and_bounded() {
    let mut q = WorkQueue::new();
    assert_eq!(q.len(), 0);
    assert!(q.pop().is_none());
    for i in 0..QUEUE_LIMIT {
        assert!(q.push(Job { packet: vec![i as u8], peer: i as u32, port: 9 }));
    }
    assert_eq!(q.len(), QUEUE_LIMIT);
    assert!(!q.push(Job { packet: vec![0xff], peer: 0, port: 0 }));
    assert_eq!(q.len(), QUEUE_LIMIT);
    let first = q.pop().unwrap();
    assert_eq!((first.packet, first.peer, first.port), (vec![0u8], 0, 9));
    let second = q.pop().unwrap();
    assert_eq!(second.peer, 1);
    assert!(q.push(Job { packet: vec![7], peer: 77, port: 1 }));
    assert_eq!(q.len(), QUEUE_LIMIT - 1);
    let mut last = None;
    while let Some(job) = q.pop() {
        last = Some(job.peer);
    }
    assert_eq!(last, Some(77));
}
