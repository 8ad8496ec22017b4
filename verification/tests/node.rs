use fs_swarm::file_meta::{decode_inventory, FileMeta};
use fs_swarm::fstp::{Flag, FstpError, FstpMessage};
use fs_swarm::node::{
    contact_tracker, file_request, frame_of, list_request, read_file_reply, read_list_reply,
};

#[test]
fn requests_have_their_frames() {
    assert_eq!(list_request(), vec![3u8, 0, 0]);
    assert_eq!(file_request("doc").unwrap(), vec![4u8, 0, 3, b'd', b'o', b'c']);
    assert_eq!(file_request("").unwrap(), vec![4u8, 0, 0]);
    assert_eq!(file_request(&"n".repeat(0x10000)).unwrap_err(), FstpError::BadLength);
    assert_eq!(frame_of(Flag::Okay, b"x").unwrap(), vec![1u8, 0, 1, b'x']);
}

#[test]
fn announcement_carries_the_inventory() {
    let entries = vec![
        FileMeta::complete("doc", 3500).unwrap(),
        FileMeta::partial("img", 5880, &[true, false, false, false, true]).unwrap(),
    ];
    let frame = contact_tracker(&entries).unwrap();
    let msg = FstpMessage::from_bytes(&frame).unwrap();
    assert_eq!(msg.header.flag, Flag::Add);
    let back = decode_inventory(msg.data.unwrap()).unwrap();
    assert_eq!(back.len(), 2);
    assert_eq!(back[0].as_bytes().unwrap(), entries[0].as_bytes().unwrap());
    assert_eq!(back[1].as_bytes().unwrap(), entries[1].as_bytes().unwrap());
    assert_eq!(contact_tracker(&Vec::new()).unwrap(), vec![2u8, 0, 0]);
}

#[test]
fn announcement_fails_as_its_parts_do() {
    let mut broken = FileMeta::complete("doc", 3500).unwrap();
    broken.name_len = 0;
    assert_eq!(contact_tracker(&vec![broken]).unwrap_err(), FstpError::MalformedPayload);
    let big: Vec<FileMeta> =
        (0..3).map(|i| FileMeta::complete(&format!("{}{}", i, "n".repeat(30000)), 1).unwrap()).collect();
    assert_eq!(contact_tracker(&big).unwrap_err(), FstpError::BadLength);
}

#[test]
fn replies_must_be_of_kind_ok() {
    assert_eq!(read_list_reply(&[1, 0, 3, b'a', b',', b'b']).unwrap(), vec!["a", "b"]);
    assert_eq!(read_list_reply(&[1, 0, 0]).unwrap(), Vec::<String>::new());
    assert_eq!(read_list_reply(&[3, 0, 1, b'a']).unwrap_err(), FstpError::MalformedPayload);
    assert_eq!(read_list_reply(&[1, 0]).unwrap_err(), FstpError::ShortFrame);
    assert_eq!(read_list_reply(&[8, 0, 0]).unwrap_err(), FstpError::UnknownFlag);
    assert_eq!(read_list_reply(&[1, 0, 2, b'a']).unwrap_err(), FstpError::BadLength);
    assert_eq!(read_list_reply(&[1, 0, 1, 0xff]).unwrap_err(), FstpError::MalformedPayload);

    assert!(read_file_reply(&[1, 0, 6, 0, 0, 0, 0, 0, 0]).unwrap().is_unavailable());
    assert_eq!(read_file_reply(&[1, 0, 0]).unwrap_err(), FstpError::MalformedPayload);
    assert_eq!(
        read_file_reply(&[4, 0, 6, 0, 0, 0, 0, 0, 0]).unwrap_err(),
        FstpError::MalformedPayload
    );
    assert_eq!(
        read_file_reply(&[1, 0, 5, 0, 0, 0, 0, 0]).unwrap_err(),
        FstpError::MalformedPayload
    );
}
