use fs_swarm::fstp::{
    decode_add_block, decode_list, encode_add_block, encode_list, frame_len, Flag, FstpError,
    FstpHeader, FstpMessage, Val,
};

#[test]
fn flags_have_their_wire_bytes() {
    assert_eq!(Flag::Okay.to_bytes(), 1);
    assert_eq!(Flag::Add.to_bytes(), 2);
    assert_eq!(Flag::List.to_bytes(), 3);
    assert_eq!(Flag::File.to_bytes(), 4);
    assert_eq!(Flag::AddBlock.to_bytes(), 5);
    for b in 1u8..=5 {
        assert_eq!(Flag::from_bytes(&b).unwrap().to_bytes(), b);
    }
}

#[test]
fn other_bytes_are_unknown_flags() {
    assert_eq!(Flag::from_bytes(&0).unwrap_err(), FstpError::UnknownFlag);
    assert_eq!(Flag::from_bytes(&6).unwrap_err(), FstpError::UnknownFlag);
    assert_eq!(Flag::from_bytes(&255).unwrap_err(), FstpError::UnknownFlag);
}

#[test]
fn frame_is_flag_size_and_data() {
    let data = [0xaau8, 0xbb, 0xcc];
    let msg = FstpMessage::new(Flag::File, &data).unwrap();
    assert_eq!(msg.header.data_size, 3);
    assert_eq!(msg.as_bytes().unwrap(), vec![4u8, 0, 3, 0xaa, 0xbb, 0xcc]);
}

#[test]
fn size_field_is_big_endian() {
    let data = vec![7u8; 0x0102];
    let bytes = FstpMessage::new(Flag::Okay, &data).unwrap().as_bytes().unwrap();
    assert_eq!(&bytes[..3], &[1u8, 0x01, 0x02]);
    assert_eq!(bytes.len(), 3 + 0x0102);
}

#[test]
fn empty_data_is_absent() {
    let msg = FstpMessage::new(Flag::List, &[]).unwrap();
    assert!(msg.data.is_none());
    assert_eq!(msg.as_bytes().unwrap(), vec![3u8, 0, 0]);
    let back = FstpMessage::from_bytes(&[3u8, 0, 0]).unwrap();
    assert_eq!(back.header.flag, Flag::List);
    assert_eq!(back.header.data_size, 0);
    assert!(back.data.is_none());
}

#[test]
fn frame_round_trips_and_ignores_the_rest_of_the_buffer() {
    let mut buffer = [0u8; 1000];
    let frame = FstpMessage::new(Flag::Add, b"payload").unwrap().as_bytes().unwrap();
    buffer[..frame.len()].copy_from_slice(&frame);
    buffer[frame.len()] = 0xee;
    let back = FstpMessage::from_bytes(&buffer).unwrap();
    assert_eq!(back.header.flag, Flag::Add);
    assert_eq!(back.header.data_size, 7);
    assert_eq!(back.data.unwrap(), b"payload");
    assert_eq!(back.as_bytes().unwrap(), frame);
}

#[test]
fn frame_errors_come_in_order() {
    assert_eq!(FstpMessage::from_bytes(&[]).unwrap_err(), FstpError::ShortFrame);
    assert_eq!(FstpMessage::from_bytes(&[9, 0]).unwrap_err(), FstpError::ShortFrame);
    assert_eq!(FstpMessage::from_bytes(&[9, 0, 0]).unwrap_err(), FstpError::UnknownFlag);
    assert_eq!(FstpMessage::from_bytes(&[9, 0xff, 0xff]).unwrap_err(), FstpError::UnknownFlag);
    assert_eq!(FstpMessage::from_bytes(&[1, 0, 2, 5]).unwrap_err(), FstpError::BadLength);
    assert!(FstpMessage::from_bytes(&[1, 0, 2, 5, 6]).is_ok());
}

#[test]
fn oversized_data_does_not_fit_a_frame() {
    let data = vec![0u8; 0x10000];
    assert_eq!(FstpMessage::new(Flag::Okay, &data).unwrap_err(), FstpError::BadLength);
    let most = vec![0u8; 0xffff];
    assert_eq!(FstpMessage::new(Flag::Okay, &most).unwrap().as_bytes().unwrap().len(), 0x10002);
}

#[test]
fn inconsistent_header_is_rejected_on_encode() {
    let data = [1u8, 2, 3];
    let msg = FstpMessage {
        header: FstpHeader { flag: Flag::Okay, data_size: 2 },
        data: Some(&data),
    };
    assert_eq!(msg.as_bytes().unwrap_err(), FstpError::BadLength);
    let none = FstpMessage { header: FstpHeader { flag: Flag::Okay, data_size: 1 }, data: None };
    assert_eq!(none.as_bytes().unwrap_err(), FstpError::BadLength);
}

#[test]
fn add_block_payload_is_little_endian() {
    let bytes = encode_add_block(0x0403_0201, "f").unwrap();
    assert_eq!(bytes, vec![1u8, 2, 3, 4, 1, 0, 0, 0, b'f']);
    let (index, name) = decode_add_block(&bytes).unwrap();
    assert_eq!(index, 0x0403_0201);
    assert_eq!(name, "f");
}

#[test]
fn add_block_round_trips_a_longer_name() {
    let bytes = encode_add_block(2, "movie.mkv").unwrap();
    assert_eq!(bytes.len(), 8 + 9);
    assert_eq!(decode_add_block(&bytes).unwrap(), (2, "movie.mkv".to_string()));
}

#[test]
fn add_block_must_fill_its_data() {
    assert_eq!(decode_add_block(&[0; 7]).unwrap_err(), FstpError::MalformedPayload);
    assert_eq!(
        decode_add_block(&[0, 0, 0, 0, 2, 0, 0, 0, b'a']).unwrap_err(),
        FstpError::MalformedPayload
    );
    assert_eq!(
        decode_add_block(&[0, 0, 0, 0, 1, 0, 0, 0, b'a', b'b']).unwrap_err(),
        FstpError::MalformedPayload
    );
    assert_eq!(
        decode_add_block(&[0, 0, 0, 0, 1, 0, 0, 0, 0xff]).unwrap_err(),
        FstpError::MalformedPayload
    );
    assert_eq!(decode_add_block(&[5, 0, 0, 0, 0, 0, 0, 0]).unwrap(), (5, String::new()));
}

#[test]
fn add_block_name_too_long_for_a_frame() {
    let name = "x".repeat(0xffff - 7);
    assert_eq!(encode_add_block(0, &name).unwrap_err(), FstpError::BadLength);
    let fits = "x".repeat(0xffff - 8);
    assert_eq!(encode_add_block(0, &fits).unwrap().len(), 0xffff);
}

#[test]
fn list_is_comma_separated() {
    let names = vec!["a.txt".to_string(), "b".to_string(), "c.bin".to_string()];
    let bytes = encode_list(&names);
    assert_eq!(bytes, b"a.txt,b,c.bin".to_vec());
    assert_eq!(decode_list(&bytes).unwrap(), names);
}

#[test]
fn list_edge_cases() {
    assert_eq!(encode_list(&Vec::new()), Vec::<u8>::new());
    assert_eq!(decode_list(&[]).unwrap(), Vec::<String>::new());
    assert_eq!(encode_list(&vec!["one".to_string()]), b"one".to_vec());
    assert_eq!(decode_list(b"one").unwrap(), vec!["one".to_string()]);
    assert_eq!(decode_list(b",").unwrap(), vec![String::new(), String::new()]);
    assert_eq!(decode_list(b"a,").unwrap(), vec!["a".to_string(), String::new()]);
    assert_eq!(decode_list(b",a").unwrap(), vec![String::new(), "a".to_string()]);
}

#[test]
fn list_pieces_must_be_text() {
    assert_eq!(decode_list(&[b'a', b',', 0xff]).unwrap_err(), FstpError::MalformedPayload);
    assert_eq!(decode_list(&[0xc3, b',', b'a']).unwrap_err(), FstpError::MalformedPayload);
    assert_eq!(decode_list("é,ü".as_bytes()).unwrap(), vec!["é".to_string(), "ü".to_string()]);
}

#[test]
fn bare_kinds_have_their_bytes() {
    let all = [Val::Okay, Val::Add, Val::List, Val::File, Val::Start, Val::End];
    for (i, v) in all.iter().enumerate() {
        let mut buf = [0xffu8, 0xee];
        v.to_bytes_val(&mut buf);
        assert_eq!(buf, [i as u8, 0xee]);
        assert_eq!(Val::from_bytes_val(&(i as u8)).unwrap(), *v);
    }
    assert_eq!(Val::from_bytes_val(&6).unwrap_err(), FstpError::UnknownFlag);
    assert_eq!(Val::from_bytes_val(&255).unwrap_err(), FstpError::UnknownFlag);
}

#[test]
fn frame_length_is_read_from_the_header() {
    assert_eq!(frame_len(&[1, 0, 0]), Some(3));
    assert_eq!(frame_len(&[1, 0x01, 0x02, 9, 9]), Some(3 + 0x0102));
    assert_eq!(frame_len(&[0x2a, 0xff, 0xff]), Some(3 + 0xffff));
    assert_eq!(frame_len(&[1, 0]), None);
    assert_eq!(frame_len(&[]), None);
}
