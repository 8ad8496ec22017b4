use fs_swarm::fstp::FstpError;
use fs_swarm::peers::{add_missing, contains_peer, has_no_duplicates};
use fs_swarm::peers_with_blocks::PeersWithFile;

const A: u32 = 0x0a00_0001;
const B: u32 = 0x0a00_0002;
const C: u32 = 0xc0a8_0103;

#[test]
fn peer_lists_behave_like_sets() {
    let mut v = vec![A, B];
    assert!(contains_peer(&v, A));
    assert!(!contains_peer(&v, C));
    add_missing(&mut v, &vec![B, C, A, C]);
    assert_eq!(v, vec![A, B, C]);
    assert!(has_no_duplicates(&v));
    assert!(!has_no_duplicates(&vec![A, B, A]));
    assert!(has_no_duplicates(&Vec::new()));
}

#[test]
fn answer_has_the_documented_layout() {
    let p = PeersWithFile {
        file_size: 3500,
        n_blocks: 3,
        peers_with_file: vec![C],
        peers_with_blocks: vec![vec![], vec![A, B], vec![B]],
    };
    let bytes = p.to_bytes().unwrap();
    assert_eq!(
        bytes,
        vec![
            0xac, 0x0d, 0, 0, // size, little-endian
            0, 1, // one full holder
            0xc0, 0xa8, 1, 3, // its address
            0, 0, 0, 0, // block 0
            0, 0, 0, 2, 10, 0, 0, 1, 10, 0, 0, 2, // block 1
            0, 0, 0, 1, 10, 0, 0, 2, // block 2
        ]
    );
    let back = PeersWithFile::from_bytes(&bytes).unwrap();
    assert_eq!(back.file_size, 3500);
    assert_eq!(back.n_blocks, 3);
    assert_eq!(back.peers_with_file, vec![C]);
    assert_eq!(back.peers_with_blocks, vec![vec![], vec![A, B], vec![B]]);
    assert_eq!(back.to_bytes().unwrap(), bytes);
}

#[test]
fn unknown_file_is_an_empty_answer() {
    let p = PeersWithFile::new(0);
    assert!(p.is_well_formed());
    assert!(p.is_unavailable());
    assert_eq!(p.to_bytes().unwrap(), vec![0u8; 6]);
    let back = PeersWithFile::from_bytes(&[0u8; 6]).unwrap();
    assert!(back.is_unavailable());
    assert_eq!(back.n_blocks, 0);
}

#[test]
fn new_answer_has_a_list_for_each_block() {
    let p = PeersWithFile::new(5880);
    assert_eq!(p.n_blocks, 5);
    assert_eq!(p.peers_with_blocks.len(), 5);
    assert!(p.is_unavailable());
    let bytes = p.to_bytes().unwrap();
    assert_eq!(bytes.len(), 6 + 5 * 4);
    assert!(PeersWithFile::from_bytes(&bytes).unwrap().is_unavailable());
}

#[test]
fn ill_formed_answers_are_not_encoded() {
    let mut p = PeersWithFile::new(3500);
    p.n_blocks = 2;
    assert_eq!(p.to_bytes().unwrap_err(), FstpError::MalformedPayload);
    let mut p = PeersWithFile::new(3500);
    p.peers_with_blocks.pop();
    assert_eq!(p.to_bytes().unwrap_err(), FstpError::MalformedPayload);
    let mut p = PeersWithFile::new(3500);
    p.peers_with_file = vec![A, A];
    assert_eq!(p.to_bytes().unwrap_err(), FstpError::MalformedPayload);
    let mut p = PeersWithFile::new(3500);
    p.peers_with_blocks[1] = vec![B, A, B];
    assert!(!p.is_well_formed());
    assert_eq!(p.to_bytes().unwrap_err(), FstpError::MalformedPayload);
}

#[test]
fn malformed_answers_are_rejected() {
    let good = PeersWithFile {
        file_size: 2000,
        n_blocks: 2,
        peers_with_file: vec![A],
        peers_with_blocks: vec![vec![B], vec![]],
    }
    .to_bytes()
    .unwrap();
    assert!(PeersWithFile::from_bytes(&good).is_ok());
    let bad = |f: &dyn Fn(&mut Vec<u8>)| {
        let mut b = good.clone();
        f(&mut b);
        PeersWithFile::from_bytes(&b).unwrap_err()
    };
    assert_eq!(bad(&|b| b.truncate(5)), FstpError::MalformedPayload);
    assert_eq!(bad(&|b| b.truncate(8)), FstpError::MalformedPayload);
    assert_eq!(bad(&|b| b.push(0)), FstpError::MalformedPayload);
    assert_eq!(bad(&|b| b.truncate(b.len() - 4)), FstpError::MalformedPayload);
    assert_eq!(bad(&|b| b[1] = 0), FstpError::MalformedPayload);
    assert_eq!(bad(&|b| b[13] = 2), FstpError::MalformedPayload);
    assert_eq!(bad(&|b| b[10] = 0xff), FstpError::MalformedPayload);
    let twice = vec![0u8, 0, 0, 0, 0, 2, 10, 0, 0, 1, 10, 0, 0, 1];
    assert_eq!(PeersWithFile::from_bytes(&twice).unwrap_err(), FstpError::MalformedPayload);
    let twice_in_block =
        vec![1u8, 0, 0, 0, 0, 0, 0, 0, 0, 2, 10, 0, 0, 1, 10, 0, 0, 1];
    assert_eq!(
        PeersWithFile::from_bytes(&twice_in_block).unwrap_err(),
        FstpError::MalformedPayload
    );
}

#[test]
fn effective_holders_fold_the_full_holders_in() {
    let p = PeersWithFile {
        file_size: 3500,
        n_blocks: 3,
        peers_with_file: vec![C, A],
        peers_with_blocks: vec![vec![], vec![A, B], vec![B]],
    };
    assert_eq!(
        p.effective_holders(),
        vec![vec![C, A], vec![A, B, C], vec![B, C, A]]
    );
    assert!(!p.is_unavailable());
}
