use fs_swarm::partial_file::{
    block_offset, block_size, check_status, complete_part_file, create_part_file,
    get_file_metadata, initial_trailer, is_part_file, is_part_name, last_block_size,
    part_file_len, part_name, plan_block_read, promoted_name, read_block_from_complete_file,
    read_block_from_part_file, read_file, status_offset, trailer_fields, trailer_len,
    write_block, BlockPlan, PartFile, PartialError, MISSING, WRITTEN,
};

#[test]
fn create_write_read_test() {
    let mut file = create_part_file("test_pfile", 1000, 100).unwrap(); //Works
    let block99 = b"Working???";
    let block00 = b"Is this...";
    let block49 = b"even rly..";
    write_block(&mut file, 100, 10, 99, block99).unwrap();
    write_block(&mut file, 100, 10, 0, block00).unwrap();
    write_block(&mut file, 100, 10, 49, block49).unwrap();
    let read_buf = &mut [0; 10];
    let n_read =
        read_block_from_complete_file(&file.content, 10, 99, &mut read_buf[..]).unwrap();
    assert_eq!(n_read, 10);
    assert_eq!(String::from_utf8(read_buf.to_vec()).unwrap(), "Working???");
}

#[test]
fn layout_formulas() {
    assert_eq!(block_offset(0), 0);
    assert_eq!(block_offset(3), 4260);
    assert_eq!(block_offset(u32::MAX), u32::MAX as u64 * 1420);
    assert_eq!(status_offset(3, 0), 4260);
    assert_eq!(status_offset(3, 2), 4262);
    assert_eq!(part_file_len(0), 6);
    assert_eq!(part_file_len(3), 3 * 1420 + 3 + 6);
    assert_eq!(part_file_len(u32::MAX), u32::MAX as u64 * 1421 + 6);
    assert_eq!(last_block_size(3500), 660);
    assert_eq!(last_block_size(5880), 200);
    assert_eq!(last_block_size(1420), 1420);
    assert_eq!(last_block_size(2840), 1420);
    assert_eq!(last_block_size(1), 1);
    assert_eq!(last_block_size(0), 1420);
    assert_eq!(block_size(3, 660, 0), 1420);
    assert_eq!(block_size(3, 660, 1), 1420);
    assert_eq!(block_size(3, 660, 2), 660);
    assert_eq!(block_size(1, 7, 0), 7);
}

#[test]
fn names_of_partial_files() {
    assert_eq!(part_name("movie.mkv"), ".movie.mkv.part");
    assert_eq!(part_name("x"), ".x.part");
    assert!(is_part_name(".movie.mkv.part"));
    assert!(is_part_name(".x.part"));
    assert!(is_part_name(".é.part"));
    assert!(!is_part_name("..part"));
    assert!(!is_part_name(".part"));
    assert!(!is_part_name("x.part"));
    assert!(!is_part_name(".x.par"));
    assert!(!is_part_name(".x.Part"));
    assert!(!is_part_name("movie.mkv"));
    assert!(!is_part_name(""));
    assert_eq!(promoted_name(".movie.mkv.part"), Some("movie.mkv".to_string()));
    assert_eq!(promoted_name(".é.part"), Some("é".to_string()));
    assert_eq!(promoted_name("movie.mkv"), None);
    assert_eq!(promoted_name(&part_name("a.part")), Some("a.part".to_string()));
}

#[test]
fn new_partial_file_has_the_documented_trailer() {
    let file = create_part_file("doc", 3500, 3).unwrap();
    assert_eq!(file.name, ".doc.part");
    assert_eq!(file.content.len(), 3 * 1420 + 3 + 6);
    assert!(file.content[..4260].iter().all(|b| *b == 0));
    assert_eq!(&file.content[4260..], &[b'0', b'0', b'0', 0x94, 0x02, 3, 0, 0, 0]);
    assert_eq!(initial_trailer(3500, 3).unwrap(), file.content[4260..].to_vec());
    assert!(is_part_file(&file.content, 3));
    assert!(!is_part_file(&file.content, 2));
    assert!(!is_part_file(&file.content[1..], 3));
    let none = create_part_file("e", 0, 0).unwrap();
    assert_eq!(none.content, vec![0x8c, 0x05, 0, 0, 0, 0]);
}

#[test]
fn write_marks_one_status_byte_and_no_other() {
    let mut file = create_part_file("doc", 3500, 3).unwrap();
    let block = vec![0xabu8; 1420];
    write_block(&mut file, 3, 1420, 1, &block).unwrap();
    assert_eq!(&file.content[1420..2840], &block[..]);
    assert!(file.content[..1420].iter().all(|b| *b == 0));
    assert!(file.content[2840..4260].iter().all(|b| *b == 0));
    assert_eq!(&file.content[4260..], &[b'0', b'1', b'0', 0x94, 0x02, 3, 0, 0, 0]);
    write_block(&mut file, 3, 660, 2, &block).unwrap();
    assert_eq!(&file.content[4260..], &[b'0', b'1', b'1', 0x94, 0x02, 3, 0, 0, 0]);
    assert_eq!(&file.content[2840..3500], &block[..660]);
    assert!(file.content[3500..4260].iter().all(|b| *b == 0));
}

#[test]
fn writing_a_block_twice_is_writing_it_once() {
    let mut file = create_part_file("doc", 3500, 3).unwrap();
    let block = vec![0x11u8; 1420];
    write_block(&mut file, 3, 1420, 0, &block).unwrap();
    let once = file.content.clone();
    write_block(&mut file, 3, 1420, 0, &block).unwrap();
    assert_eq!(file.content, once);
    // A written block is not overwritten by other bytes either.
    write_block(&mut file, 3, 1420, 0, &vec![0x22u8; 1420]).unwrap();
    assert_eq!(file.content, once);
}

#[test]
fn read_returns_what_was_written_whatever_else_happens() {
    let mut file = create_part_file("doc", 3500, 3).unwrap();
    let first: Vec<u8> = (0..1420).map(|i| (i % 199) as u8).collect();
    write_block(&mut file, 3, 1420, 0, &first).unwrap();
    let mut buf = vec![0u8; 1420];
    assert_eq!(read_block_from_part_file(&file, 3, 1420, 0, &mut buf).unwrap(), 1420);
    assert_eq!(buf, first);
    write_block(&mut file, 3, 1420, 1, &vec![9u8; 1420]).unwrap();
    write_block(&mut file, 3, 660, 2, &vec![8u8; 660]).unwrap();
    write_block(&mut file, 3, 1420, 0, &vec![7u8; 1420]).unwrap();
    let mut again = vec![0u8; 1420];
    assert_eq!(read_block_from_part_file(&file, 3, 1420, 0, &mut again).unwrap(), 1420);
    assert_eq!(again, first);
    let mut last = vec![0xeeu8; 700];
    assert_eq!(read_block_from_part_file(&file, 3, 660, 2, &mut last).unwrap(), 660);
    assert_eq!(&last[..660], &vec![8u8; 660][..]);
    assert_eq!(&last[660..], &vec![0xeeu8; 40][..]);
}

#[test]
fn partial_file_errors() {
    let mut file = create_part_file("doc", 3500, 3).unwrap();
    let before = file.content.clone();
    let block = vec![1u8; 1500];
    assert_eq!(write_block(&mut file, 2, 10, 0, &block).unwrap_err(), PartialError::BadTrailer);
    assert_eq!(
        write_block(&mut file, 3, 10, 3, &block).unwrap_err(),
        PartialError::BlockOutOfRange
    );
    assert_eq!(write_block(&mut file, 3, 1421, 0, &block).unwrap_err(), PartialError::ChunkTooBig);
    assert_eq!(
        write_block(&mut file, 3, 11, 0, &block[..10]).unwrap_err(),
        PartialError::ChunkTooBig
    );
    assert_eq!(file.content, before);

    let mut buf = vec![5u8; 1420];
    assert_eq!(
        read_block_from_part_file(&file, 3, 1420, 0, &mut buf).unwrap_err(),
        PartialError::BlockNotAvailable
    );
    assert_eq!(
        read_block_from_part_file(&file, 3, 1420, 3, &mut buf).unwrap_err(),
        PartialError::BlockOutOfRange
    );
    assert_eq!(
        read_block_from_part_file(&file, 4, 1420, 0, &mut buf).unwrap_err(),
        PartialError::BadTrailer
    );
    assert_eq!(
        read_block_from_part_file(&file, 3, 1420, 0, &mut buf[..100]).unwrap_err(),
        PartialError::ChunkTooBig
    );
    assert_eq!(buf, vec![5u8; 1420]);

    let mut broken = create_part_file("doc", 3500, 3).unwrap();
    broken.content[4261] = b'2';
    assert_eq!(write_block(&mut broken, 3, 1, 0, &block).unwrap_err(), PartialError::BadTrailer);
}

#[test]
fn promotion_needs_every_block() {
    let mut file = create_part_file("doc", 3500, 3).unwrap();
    let data: Vec<u8> = (0..3500u32).map(|i| (i % 251) as u8).collect();
    assert_eq!(complete_part_file(&file, 3500, 3).unwrap_err(), PartialError::NotComplete);
    write_block(&mut file, 3, 660, 2, &data[2840..]).unwrap();
    write_block(&mut file, 3, 1420, 0, &data[..1420]).unwrap();
    assert_eq!(complete_part_file(&file, 3500, 3).unwrap_err(), PartialError::NotComplete);
    write_block(&mut file, 3, 1420, 1, &data[1420..2840]).unwrap();
    let (name, bytes) = complete_part_file(&file, 3500, 3).unwrap();
    assert_eq!(name, "doc");
    assert_eq!(bytes.len(), 3500);
    assert_eq!(bytes, data);

    assert_eq!(complete_part_file(&file, 3500, 2).unwrap_err(), PartialError::BadTrailer);
    assert_eq!(complete_part_file(&file, 4261, 3).unwrap_err(), PartialError::TooLarge);
    let renamed = PartFile { name: "doc".to_string(), content: file.content.clone() };
    assert_eq!(complete_part_file(&renamed, 3500, 3).unwrap_err(), PartialError::NotPartial);
}

#[test]
fn complete_file_reads_stop_at_the_end() {
    let content: Vec<u8> = (0..3500u32).map(|i| (i % 241) as u8).collect();
    let mut buf = vec![0u8; 1420];
    assert_eq!(read_block_from_complete_file(&content, 1420, 0, &mut buf).unwrap(), 1420);
    assert_eq!(buf, content[..1420].to_vec());
    assert_eq!(read_block_from_complete_file(&content, 1420, 2, &mut buf).unwrap(), 660);
    assert_eq!(&buf[..660], &content[2840..]);
    assert_eq!(&buf[660..], &content[660..1420]);
    let mut untouched = vec![3u8; 8];
    assert_eq!(read_block_from_complete_file(&content, 1420, 3, &mut untouched).unwrap(), 0);
    assert_eq!(untouched, vec![3u8; 8]);
    assert_eq!(read_block_from_complete_file(&content, 1420, 1, &mut untouched).unwrap(), 8);
    assert_eq!(untouched, content[1420..1428].to_vec());
}

#[test]
fn scan_recovers_a_partial_entry() {
    let mut file = create_part_file("img", 5880, 5).unwrap();
    write_block(&mut file, 5, 1420, 1, &vec![1u8; 1420]).unwrap();
    write_block(&mut file, 5, 200, 4, &vec![1u8; 200]).unwrap();
    let len = file.content.len() as u64;
    let trailer = &file.content[5 * 1420..];
    let fm = get_file_metadata(&file.name, len, trailer).unwrap();
    assert_eq!(fm.name, "img");
    assert_eq!(fm.f_size, 5880);
    assert!(!fm.has_full_file);
    assert_eq!(fm.blocks_len, 5);
    assert_eq!(fm.blocks.to_flags(), vec![false, true, false, false, true]);
    assert!(fm.is_well_formed());

    let plain = get_file_metadata("img", 5880, &[]).unwrap();
    assert!(plain.has_full_file);
    assert_eq!(plain.f_size, 5880);
    assert_eq!(plain.blocks_len, 0);
    assert_eq!(plain.name, "img");
}

#[test]
fn scan_rejects_a_bad_trailer() {
    let file = create_part_file("img", 5880, 5).unwrap();
    let len = file.content.len() as u64;
    let trailer = file.content[5 * 1420..].to_vec();
    let scan = |len: u64, t: &[u8]| get_file_metadata(".img.part", len, t).unwrap_err();
    assert_eq!(scan(len, &trailer[1..]), PartialError::BadTrailer);
    assert_eq!(scan(len - 1, &trailer), PartialError::BadTrailer);
    assert_eq!(scan(len, &[]), PartialError::BadTrailer);
    let mut t = trailer.clone();
    t[0] = b'x';
    assert_eq!(scan(len, &t), PartialError::BadTrailer);
    let mut t = trailer.clone();
    t[5] = 0;
    t[6] = 0;
    assert_eq!(scan(len, &t), PartialError::BadTrailer);
    let mut t = trailer.clone();
    t[5] = 0x8d;
    t[6] = 0x05;
    assert_eq!(scan(len, &t), PartialError::BadTrailer);
    assert_eq!(
        get_file_metadata(&"n".repeat(0x10000), 1, &[]).unwrap_err(),
        PartialError::NameTooLong
    );
}

#[test]
fn read_file_serves_both_kinds() {
    let data: Vec<u8> = (0..3500u32).map(|i| (i % 239) as u8).collect();
    let mut buf = vec![0u8; 1420];
    assert_eq!(read_file("doc", &data, 2, &mut buf).unwrap(), 660);
    assert_eq!(&buf[..660], &data[2840..]);

    let mut file = create_part_file("doc", 3500, 3).unwrap();
    write_block(&mut file, 3, 660, 2, &data[2840..]).unwrap();
    let mut buf = vec![0u8; 1420];
    assert_eq!(read_file(&file.name, &file.content, 2, &mut buf).unwrap(), 660);
    assert_eq!(&buf[..660], &data[2840..]);
    assert_eq!(
        read_file(&file.name, &file.content, 0, &mut buf).unwrap_err(),
        PartialError::BlockNotAvailable
    );
    assert_eq!(
        read_file(&file.name, &file.content, 3, &mut buf).unwrap_err(),
        PartialError::BlockOutOfRange
    );
    assert_eq!(
        read_file(&file.name, &file.content[..5], 0, &mut buf).unwrap_err(),
        PartialError::BadTrailer
    );
}

#[test]
fn trailer_is_found_from_the_end_of_the_file() {
    let file = create_part_file("img", 5880, 5).unwrap();
    assert_eq!(trailer_fields(&file.content), Some((5, 200)));
    assert_eq!(trailer_fields(&file.content[file.content.len() - 6..]), Some((5, 200)));
    assert_eq!(trailer_fields(&file.content[file.content.len() - 5..]), None);
    assert_eq!(trailer_fields(&[]), None);
    assert_eq!(trailer_fields(&[0x01, 0x02, 0x0a, 0x0b, 0x0c, 0x0d]), Some((0x0d0c_0b0a, 0x0201)));
    assert_eq!(trailer_len(5), 11);
    assert_eq!(trailer_len(0), 6);
    assert_eq!(trailer_len(u32::MAX), u32::MAX as u64 + 6);
}

#[test]
fn block_reads_are_planned_from_the_trailer() {
    let file = create_part_file("img", 5880, 5).unwrap();
    let tail = &file.content[file.content.len() - 6..];
    assert_eq!(
        plan_block_read(tail, 0),
        Ok(BlockPlan { status_at: 7100, block_at: 0, size: 1420 })
    );
    assert_eq!(
        plan_block_read(tail, 4),
        Ok(BlockPlan { status_at: 7104, block_at: 5680, size: 200 })
    );
    assert_eq!(plan_block_read(tail, 5), Err(PartialError::BlockOutOfRange));
    assert_eq!(plan_block_read(&tail[1..], 0), Err(PartialError::BadTrailer));
    assert_eq!(plan_block_read(&[0, 0, 5, 0, 0, 0], 0), Err(PartialError::BadTrailer));
    assert_eq!(plan_block_read(&[0x8d, 0x05, 5, 0, 0, 0], 0), Err(PartialError::BadTrailer));
    assert_eq!(check_status(WRITTEN), Ok(()));
    assert_eq!(check_status(MISSING), Err(PartialError::BlockNotAvailable));
    assert_eq!(check_status(0), Err(PartialError::BlockNotAvailable));
    assert_eq!(WRITTEN, b'1');
    assert_eq!(MISSING, b'0');
}
