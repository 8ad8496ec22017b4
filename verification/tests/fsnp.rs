use fs_swarm::fsnp::{
    FsnpError, Protocol, ACTION_REPLY, ACTION_REQUEST, MAX_CHUNK_SIZE, MAX_PACKET_SIZE,
};

#[test]
fn fsnp_test() {
    let payload: Protocol = Protocol {
        action: 1,
        chunk_id: 69,
        filename: "dingo",
        len_chunk: 0,
        chunk_data: [0; MAX_CHUNK_SIZE],
    };

    let (serialized, len) = payload.build_packet().unwrap();
    let parsed: Protocol = Protocol::read_packet(&serialized, len).unwrap();

    assert_eq!(payload.action, parsed.action);
    assert_eq!(payload.chunk_id, parsed.chunk_id);
    assert_eq!(payload.filename, parsed.filename);
    assert_eq!(payload.len_chunk, parsed.len_chunk);
    assert_eq!(payload.chunk_data, parsed.chunk_data);
}

#[test]
fn request_has_the_documented_layout() {
    let p = Protocol {
        action: ACTION_REQUEST,
        chunk_id: 0x0403_0201,
        filename: "ab",
        len_chunk: 0,
        chunk_data: [0; MAX_CHUNK_SIZE],
    };
    let (bytes, len) = p.build_packet().unwrap();
    assert_eq!(len, 10);
    assert_eq!(&bytes[..10], &[1u8, 1, 2, 3, 4, 2, 0, 0, b'a', b'b']);
    assert!(bytes[10..].iter().all(|b| *b == 0));
    assert_eq!(bytes.len(), MAX_PACKET_SIZE);
}

#[test]
fn reply_round_trips_with_exact_payload_length() {
    let mut data = [0u8; MAX_CHUNK_SIZE];
    for (i, b) in data.iter_mut().enumerate().take(660) {
        *b = (i % 251) as u8 + 1;
    }
    let p = Protocol {
        action: ACTION_REPLY,
        chunk_id: 2,
        filename: "doc",
        len_chunk: 660,
        chunk_data: data,
    };
    let (bytes, len) = p.build_packet().unwrap();
    assert_eq!(len as usize, 8 + 3 + 660);
    assert_eq!(bytes[6], (660 % 256) as u8);
    assert_eq!(bytes[7], (660 / 256) as u8);
    let q = Protocol::read_packet(&bytes, len).unwrap();
    assert_eq!(q.action, ACTION_REPLY);
    assert_eq!(q.chunk_id, 2);
    assert_eq!(q.filename, "doc");
    assert_eq!(q.len_chunk, 660);
    assert_eq!(&q.chunk_data[..], &data[..]);
}

#[test]
fn full_block_and_longest_name_fit_the_largest_datagram() {
    let name = "abcdefghijklmnopqrstuvwxy";
    assert_eq!(name.len(), 25);
    let p = Protocol {
        action: ACTION_REPLY,
        chunk_id: u32::MAX,
        filename: name,
        len_chunk: 1420,
        chunk_data: [7; MAX_CHUNK_SIZE],
    };
    let (bytes, len) = p.build_packet().unwrap();
    assert_eq!(len as usize, MAX_PACKET_SIZE);
    let q = Protocol::read_packet(&bytes, len).unwrap();
    assert_eq!(q.filename, name);
    assert_eq!(q.chunk_id, u32::MAX);
    assert_eq!(q.chunk_data, [7; MAX_CHUNK_SIZE]);
}

#[test]
fn build_rejects_long_names_bad_names_and_big_chunks() {
    let base = |filename: &'static str, len_chunk: u16| Protocol {
        action: ACTION_REQUEST,
        chunk_id: 0,
        filename,
        len_chunk,
        chunk_data: [0; MAX_CHUNK_SIZE],
    };
    assert_eq!(
        base("abcdefghijklmnopqrstuvwxyz", 0).build_packet().unwrap_err(),
        FsnpError::NameTooLong
    );
    assert_eq!(base("caf\u{e9}", 0).build_packet().unwrap_err(), FsnpError::BadName);
    assert_eq!(base("a\0b", 0).build_packet().unwrap_err(), FsnpError::BadName);
    assert_eq!(base("ok", 1421).build_packet().unwrap_err(), FsnpError::ChunkTooBig);
    assert_eq!(
        base("abcdefghijklmnopqrstuvwxyz", 1421).build_packet().unwrap_err(),
        FsnpError::NameTooLong
    );
}

#[test]
fn read_rejects_each_malformed_datagram() {
    let good = [2u8, 5, 0, 0, 0, 1, 2, 0, b'f', 9, 8];
    assert!(Protocol::read_packet(&good, 11).is_ok());
    assert_eq!(Protocol::read_packet(&good, 7).unwrap_err(), FsnpError::ShortFrame);
    assert_eq!(Protocol::read_packet(&good, 12).unwrap_err(), FsnpError::BadLength);
    assert_eq!(Protocol::read_packet(&good, 10).unwrap_err(), FsnpError::BadLength);

    let mut long_name = [0u8; 64];
    long_name[5] = 26;
    assert_eq!(Protocol::read_packet(&long_name, 64).unwrap_err(), FsnpError::NameTooLong);

    let mut big = [0u8; 64];
    big[6] = (1421u16 % 256) as u8;
    big[7] = (1421u16 / 256) as u8;
    assert_eq!(Protocol::read_packet(&big, 64).unwrap_err(), FsnpError::ChunkTooBig);

    let nul_name = [1u8, 0, 0, 0, 0, 1, 0, 0, 0];
    assert_eq!(Protocol::read_packet(&nul_name, 9).unwrap_err(), FsnpError::BadName);
    let high_name = [1u8, 0, 0, 0, 0, 1, 0, 0, 0xc3];
    assert_eq!(Protocol::read_packet(&high_name, 9).unwrap_err(), FsnpError::BadName);
}

#[test]
fn read_ignores_bytes_behind_the_payload() {
    let buf = [2u8, 5, 0, 0, 0, 1, 2, 0, b'f', 9, 8, 0xaa, 0xbb];
    let p = Protocol::read_packet(&buf, 13).unwrap();
    assert_eq!(p.chunk_id, 5);
    assert_eq!(p.filename, "f");
    assert_eq!(p.len_chunk, 2);
    assert_eq!(&p.chunk_data[..2], &[9, 8]);
    assert!(p.chunk_data[2..].iter().all(|b| *b == 0));
}

#[test]
fn clone_keeps_every_field() {
    let p = Protocol {
        action: ACTION_REPLY,
        chunk_id: 77,
        filename: "x.bin",
        len_chunk: 3,
        chunk_data: [5; MAX_CHUNK_SIZE],
    };
    let q = p.clone();
    assert_eq!(q.action, p.action);
    assert_eq!(q.chunk_id, p.chunk_id);
    assert_eq!(q.filename, p.filename);
    assert_eq!(q.len_chunk, p.len_chunk);
    assert_eq!(q.chunk_data, p.chunk_data);
}

#[test]
fn to_string_spells_the_header_and_the_payload() {
    let mut data = [0u8; MAX_CHUNK_SIZE];
    data[..5].copy_from_slice(b"hello");
    let p = Protocol {
        action: ACTION_REPLY,
        chunk_id: 4_000_000_000,
        filename: "dingo",
        len_chunk: 5,
        chunk_data: data,
    };
    assert_eq!(p.to_string(), "Action:2 ID:4000000000 Filename:dingo LenChunk:5\nhello");
    let q = Protocol {
        action: 0,
        chunk_id: 0,
        filename: "",
        len_chunk: 0,
        chunk_data: [0; MAX_CHUNK_SIZE],
    };
    assert_eq!(q.to_string(), "Action:0 ID:0 Filename: LenChunk:0\n");
    let r = Protocol {
        action: 255,
        chunk_id: 10,
        filename: "a b",
        len_chunk: 1420,
        chunk_data: [b'x'; MAX_CHUNK_SIZE],
    };
    assert_eq!(
        r.to_string(),
        format!("Action:255 ID:10 Filename:a b LenChunk:1420\n{}", "x".repeat(1420))
    );
}

#[test]
fn datagrams_compare_by_what_they_say() {
    let mut one = [0u8; MAX_CHUNK_SIZE];
    let mut two = [0u8; MAX_CHUNK_SIZE];
    one[..3].copy_from_slice(b"abc");
    two[..3].copy_from_slice(b"abc");
    two[3] = 9;
    let p = Protocol { action: 2, chunk_id: 1, filename: "f", len_chunk: 3, chunk_data: one };
    let q = Protocol { action: 2, chunk_id: 1, filename: "f", len_chunk: 3, chunk_data: two };
    assert!(p == q);
    let longer = Protocol { action: 2, chunk_id: 1, filename: "f", len_chunk: 4, chunk_data: two };
    let same_len =
        Protocol { action: 2, chunk_id: 1, filename: "f", len_chunk: 4, chunk_data: one };
    assert!(p != longer);
    assert!(longer != same_len);
    let other_name =
        Protocol { action: 2, chunk_id: 1, filename: "g", len_chunk: 3, chunk_data: one };
    assert!(p != other_name);
    let other_id = Protocol { action: 2, chunk_id: 2, filename: "f", len_chunk: 3, chunk_data: one };
    assert!(p != other_id);
    let other_action =
        Protocol { action: 1, chunk_id: 1, filename: "f", len_chunk: 3, chunk_data: one };
    assert!(p != other_action);
}

#[test]
fn read_datagram_takes_the_whole_slice() {
    let buf = [2u8, 5, 0, 0, 0, 1, 2, 0, b'f', 9, 8];
    let p = Protocol::read_datagram(&buf).unwrap();
    assert_eq!(p.chunk_id, 5);
    assert_eq!(p.len_chunk, 2);
    assert_eq!(Protocol::read_datagram(&buf[..10]).unwrap_err(), FsnpError::BadLength);
    assert_eq!(Protocol::read_datagram(&buf[..7]).unwrap_err(), FsnpError::ShortFrame);
}
