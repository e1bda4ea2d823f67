//! The byte formats: records, frames, transactions and data files.

use breezydb::data::record::Record;
use breezydb::data::transaction::Transaction;
use breezydb::data::util::{
    copy_slice_at, u32_first_chunk, u32_last_chunk, u32_write_at, u64_first_chunk, u64_from_pos,
    u64_write_at, u8_first_chunk, u8_write_at,
};
use breezydb::error::{Error, ErrorKind};
use breezydb::file::{file_name, DbFile, FOOTER_LEN, HASH_CHUNK, SYNC_EVERY};
use breezydb::frame::{
    check_frame, get_frame_record_len, get_frame_seq, get_min_max_wseq, open_frame, seal_frame,
    set_trailer, verify_frame, FRAME_DATA_SIZE, FRAME_HASH_OFFSET, FRAME_HEADER_LEN, FRAME_LEN,
    FRAME_WSEQ_OFFSET,
};
use breezydb::record::{Record as SealedRecord, RecordHeader};
use breezydb::storage::frame::{
    check_frame_hash, frame_decode_into, frame_encode_into, frame_len, Frame, FRAME_MAX_SIZE,
    MIN_FRAME_LEN,
};

// -- bytes -------------------------------------------------------------------------------

#[test]
fn numbers_are_little_endian() {
    let mut s = [0u8; 20];
    assert_eq!(u8_write_at(&mut s, 0, 9), 1);
    assert_eq!(u32_write_at(&mut s, 1, 0x0403_0201), 4);
    assert_eq!(u64_write_at(&mut s, 5, 0x0807_0605_0403_0201), 8);
    assert_eq!(copy_slice_at(&mut s, 13, b"abc"), 3);
    assert_eq!(s, *b"\x09\x01\x02\x03\x04\x01\x02\x03\x04\x05\x06\x07\x08abc\0\0\0\0");

    let (n, rest) = u8_first_chunk(&s);
    assert_eq!((n, rest.len()), (9, 19));
    let (n, rest) = u32_first_chunk(rest);
    assert_eq!((n, rest.len()), (0x0403_0201, 15));
    let (n, rest) = u64_first_chunk(rest);
    assert_eq!((n, rest), (0x0807_0605_0403_0201, &b"abc\0\0\0\0"[..]));
    let (head, n) = u32_last_chunk(&s[..13]);
    assert_eq!((head.len(), n), (9, 0x0807_0605));
    assert_eq!(u64_from_pos(&s, 5), 0x0807_0605_0403_0201);
}

// -- records -----------------------------------------------------------------------------

#[test]
fn a_record_is_decoded_as_it_was_encoded() {
    let rec = Record::new(7, 1, b"hello").unwrap();
    assert_eq!(rec.size(), 26);
    let mut buf = [0xffu8; 30];
    assert_eq!(rec.encode(&mut buf).unwrap(), 26);
    assert_eq!(
        buf,
        *b"\x1a\0\0\0\x01\x07\0\0\0\0\0\0\0\x01\0\0\0\0\0\0\0hello\xff\xff\xff\xff"
    );

    let back = Record::decode(&buf[..26]).unwrap();
    let mut again = [0u8; 26];
    assert_eq!(back.encode(&mut again).unwrap(), 26);
    assert_eq!(again, buf[..26]);
}

#[test]
fn a_record_may_be_as_large_as_the_largest_size() {
    let data = vec![3u8; Record::MAX_SIZE - Record::HEADER_SIZE + 1];
    assert!(Record::new(1, 1, &data[1..]).is_ok());
    let e = Record::new(1, 1, &data).unwrap_err();
    assert!(matches!(e, Error::PayloadTooBig));
    assert_eq!((e.kind(), e.message().as_str()), (ErrorKind::StorageFull, "payload to big"));
}

#[test]
fn bytes_that_are_no_record_are_refused() {
    let fail = |src: &[u8]| {
        let e = Record::decode(src).unwrap_err();
        (e.kind(), e.message())
    };
    let mut buf = [0u8; 26];
    Record::new(7, 1, b"hello").unwrap().encode(&mut buf).unwrap();

    let short = (ErrorKind::UnexpectedEof, "record shorter than a header".to_string());
    assert_eq!(fail(&buf[..20]), short);
    let long = (ErrorKind::UnexpectedEof, "record data len is false".to_string());
    assert_eq!(fail(&buf[..25]), long);
    buf[0] = 20;
    assert_eq!(fail(&buf), long, "a length that no record has");
    buf[4] = 2;
    let typ = (ErrorKind::InvalidData, "type field is not record type".to_string());
    assert_eq!(fail(&buf), typ);
}

#[test]
fn a_record_needs_its_room() {
    let rec = Record::new(7, 1, b"hello").unwrap();
    let mut buf = [5u8; 25];
    let e = rec.encode(&mut buf).unwrap_err();
    assert_eq!(e.kind(), ErrorKind::StorageFull);
    assert_eq!(e.message(), "not enough space for record");
    assert_eq!(buf, [5u8; 25]);
}

#[test]
fn the_default_record_is_all_zero() {
    let rec = Record::default();
    assert_eq!(rec.size(), Record::HEADER_SIZE);
    let mut buf = [9u8; 21];
    rec.encode(&mut buf).unwrap();
    assert_eq!(buf, *b"\0\0\0\0\x01\0\0\0\0\0\0\0\0\0\0\0\0\0\0\0\0");
}

#[test]
fn a_sealed_record_carries_the_hash_of_header_and_data() {
    let rec = SealedRecord::new(1, 2, 3, 4, b"hello");
    assert_eq!(rec.total_len(), 40);
    assert_eq!((rec.header.magic, rec.header.len, rec.hash), (b'R', 5, 0));
    let mut buf = [0u8; 48];
    assert_eq!(rec.write(&mut buf).unwrap(), 40);
    assert_eq!(buf[36..40], 0xE5B8_9789u32.to_le_bytes());

    let back = SealedRecord::from_slice(&buf).unwrap();
    assert_eq!(back.data, b"hello");
    assert_eq!(back.hash, 0xE5B8_9789);
    let h = &back.header;
    assert_eq!(
        (h.magic, h.len, h.seq, h.txn, h.txn_cnt, h.schema_seq),
        (SealedRecord::RECORD_MAGIC, 5, 1, 2, 3, 4)
    );
}

#[test]
fn a_record_header_is_read_back() {
    let h = RecordHeader {
        magic: 1,
        len: 2,
        seq: u64::MAX,
        txn: 4,
        txn_cnt: 0x0605,
        schema_seq: 7,
    };
    let mut buf = [0u8; RecordHeader::HEADER_SIZE];
    assert_eq!(h.write(&mut buf).unwrap(), 31);
    assert_eq!(buf[21..23], [5, 6]);
    let back = RecordHeader::from_slice(&buf).unwrap();
    assert_eq!((back.seq, back.txn_cnt, back.schema_seq), (u64::MAX, 0x0605, 7));

    let e = RecordHeader::from_slice(&buf[..30]).unwrap_err();
    assert_eq!((e.kind(), e.message().as_str()), (ErrorKind::StorageFull, "no storage space"));
    let mut small = [1u8; 30];
    assert!(matches!(h.write(&mut small), Err(Error::NoStorageSpace)));
    assert_eq!(small, [1u8; 30]);
}

#[test]
fn a_cut_sealed_record_is_refused() {
    let rec = SealedRecord::new(1, 2, 3, 4, b"hello");
    let mut buf = [0u8; 40];
    assert!(matches!(rec.write(&mut buf[..39]), Err(Error::NoStorageSpace)));
    rec.write(&mut buf).unwrap();
    assert!(matches!(SealedRecord::from_slice(&buf[..39]), Err(Error::NoStorageSpace)));
    assert!(matches!(SealedRecord::from_slice(&buf[..31]), Err(Error::NoStorageSpace)));
}

// -- fixed-size frames -------------------------------------------------------------------

#[test]
fn a_fixed_frame_is_opened_sealed_and_verified() {
    let mut frame = vec![7u8; FRAME_LEN];
    open_frame(&mut frame, 11, 12, 13).unwrap();
    assert_eq!(frame[0], b'F');
    assert_eq!(frame[1..9], 11u64.to_le_bytes());
    assert_eq!(get_frame_seq(&frame).unwrap(), 12);
    assert_eq!(get_frame_record_len(&frame).unwrap(), 13);
    assert!(frame[FRAME_HEADER_LEN..].iter().all(|&b| b == 0));
    assert!(matches!(verify_frame(&frame), Err(Error::BlockHashMismatch)));

    frame[FRAME_HEADER_LEN] = 1;
    seal_frame(&mut frame, 21, 22);
    assert!(verify_frame(&frame).is_ok());
    assert_eq!(get_min_max_wseq(&frame).unwrap(), (21, 22));
    assert_eq!(frame[FRAME_HASH_OFFSET + 4..FRAME_WSEQ_OFFSET], [0; 12]);
    assert_eq!(FRAME_DATA_SIZE, 65_479);

    frame[FRAME_HEADER_LEN] = 2;
    let e = verify_frame(&frame).unwrap_err();
    assert_eq!(e.message(), "hashes do not match");
    frame[0] = b'G';
    let e = verify_frame(&frame).unwrap_err();
    assert_eq!(e.message(), "magic byte does not match");
}

#[test]
fn the_write_sequences_are_outside_of_the_hash() {
    let mut frame = vec![0u8; FRAME_LEN];
    open_frame(&mut frame, 1, 2, 3).unwrap();
    seal_frame(&mut frame, 4, 5);
    let hash = frame[FRAME_HASH_OFFSET..FRAME_HASH_OFFSET + 4].to_vec();
    seal_frame(&mut frame, 6, 7);
    assert_eq!(frame[FRAME_HASH_OFFSET..FRAME_HASH_OFFSET + 4], hash[..]);
    assert!(verify_frame(&frame).is_ok());
}

#[test]
fn a_fixed_frame_that_is_too_short_is_refused() {
    let mut frame = [9u8; 12];
    let e = open_frame(&mut frame, 1, 2, 3).unwrap_err();
    assert_eq!(e.kind(), ErrorKind::WriteZero);
    assert_eq!(e.message(), "failed to write whole buffer");
    assert_eq!(frame, *b"F\x01\0\0\0\0\0\0\0\x02\0\0");

    let long = vec![0u8; FRAME_LEN + 1];
    let e = get_min_max_wseq(&long).unwrap_err();
    assert_eq!(e.message(), "could not convert slice to array");
}

// -- log frames --------------------------------------------------------------------------

#[test]
fn a_frame_is_decoded_as_it_was_encoded() {
    let mut buf = [0u8; 32];
    assert_eq!(frame_encode_into(&mut buf, 7, b"hello").unwrap(), 25);
    assert_eq!(buf[..21], *b"brzy\x19\0\0\0\x07\0\0\0\0\0\0\0hello");
    assert_eq!(buf[21..25], 0x3BA2_5578u32.to_le_bytes());

    let mut frame = Frame { offset: 99, ..Frame::default() };
    frame_decode_into(&buf, &mut frame).unwrap();
    assert_eq!((frame.offset, frame.seq, frame.len, frame.payload), (99, 7, 25, &b"hello"[..]));
}

#[test]
fn frame_lengths_saturate() {
    assert_eq!(frame_len(0), MIN_FRAME_LEN as u32);
    assert_eq!(frame_len(u32::MAX as usize - 20), u32::MAX);
    assert_eq!(frame_len(u32::MAX as usize - 21), u32::MAX - 1);
    assert_eq!(frame_len(usize::MAX - 20), u32::MAX);
}

#[test]
fn frames_that_cannot_be_written_are_refused() {
    let mut buf = vec![1u8; 24];
    let e = frame_encode_into(&mut buf, 1, b"hello").unwrap_err();
    assert_eq!(e.kind(), ErrorKind::InvalidInput);
    assert_eq!(e.message(), "frame buffer too small: 24 Byte for a 25 Byte frame");
    assert_eq!(buf, [1u8; 24]);

    let payload = vec![0u8; FRAME_MAX_SIZE as usize - MIN_FRAME_LEN + 1];
    let e = frame_encode_into(&mut buf, 1, &payload).unwrap_err();
    assert_eq!(e.kind(), ErrorKind::InvalidInput);
    assert_eq!(e.message(), "total frame size exceeded: 8388609 Byte");
}

#[test]
fn the_largest_frame_is_written_and_read() {
    let payload = vec![5u8; FRAME_MAX_SIZE as usize - MIN_FRAME_LEN];
    let mut buf = vec![0u8; FRAME_MAX_SIZE as usize];
    assert_eq!(frame_encode_into(&mut buf, 1, &payload).unwrap(), buf.len());
    let mut frame = Frame::default();
    frame_decode_into(&buf, &mut frame).unwrap();
    assert_eq!(frame.payload, &payload[..]);
}

#[test]
fn bytes_that_are_no_frame_are_refused() {
    let mut buf = [0u8; 25];
    frame_encode_into(&mut buf, 7, b"hello").unwrap();
    let fail = |raw: &[u8]| {
        let mut frame = Frame::default();
        let e = frame_decode_into(raw, &mut frame).unwrap_err();
        (e.kind(), e.message())
    };
    let says = |kind: ErrorKind, text: &str| (kind, text.to_string());

    assert_eq!(fail(&buf[..19]), says(ErrorKind::UnexpectedEof, "frame shorter than a header"));
    assert_eq!(
        fail(&buf[..24]),
        says(ErrorKind::UnexpectedEof, "frame length overruns the buffer")
    );
    assert_eq!(
        fail(&buf[1..]),
        says(ErrorKind::InvalidData, "frame did not start with magic number")
    );
    let mut torn = buf;
    torn[16] ^= 1;
    assert_eq!(
        fail(&torn),
        says(ErrorKind::InvalidData, "frame corrupted hashes did not match")
    );
    let mut torn = buf;
    torn[4] = 19;
    assert_eq!(fail(&torn), says(ErrorKind::InvalidData, "frame length 19 out of range"));
    let mut torn = buf;
    torn[7] = 1;
    assert_eq!(fail(&torn), says(ErrorKind::InvalidData, "frame length 16777241 out of range"));
}

// -- transactions ------------------------------------------------------------------------

#[test]
fn a_transaction_holds_what_was_added() {
    let mut txn = Transaction::new();
    assert_eq!(txn.size(), (0, 2 * Transaction::MAX_SIZE));
    txn.open();
    assert_eq!(txn.size().0, Transaction::HEADER_LEN);
    txn.add((5, 9), b"hel");
    txn.add((3, 4), b"lo");
    let bytes = txn.commit().to_vec();
    assert_eq!(bytes[..25], *b"\x1d\0\0\0\x03\0\0\0\0\0\0\0\x09\0\0\0\0\0\0\0hello");
    assert_eq!(bytes[25..], 0x6C3A_E2B0u32.to_le_bytes());

    let mut back = Transaction::decode(&bytes).unwrap();
    assert_eq!(back.size(), (29, 29));
    back.open();
    assert_eq!(back.size(), (20, 29));
}

#[test]
fn an_opened_transaction_starts_anew() {
    let mut txn = Transaction::new();
    txn.open();
    txn.add((5, 9), b"hello");
    txn.commit();
    txn.open();
    let bytes = txn.commit().to_vec();
    assert_eq!(bytes.len(), Transaction::MIN_SIZE);
    assert_eq!(bytes[4..12], u64::MAX.to_le_bytes());
    assert_eq!(bytes[12..20], [0; 8]);
}

#[test]
fn a_transaction_grows_with_what_is_added() {
    let mut txn = Transaction::new();
    txn.open();
    let big = vec![1u8; 2 * Transaction::MAX_SIZE];
    txn.add((1, 1), &big);
    assert_eq!(txn.size(), (big.len() + 20, big.len() + 20));
    assert_eq!(Transaction::default().size(), (0, 0));
}

#[test]
fn bytes_that_are_no_transaction_are_refused() {
    let mut txn = Transaction::new();
    txn.open();
    txn.add((3, 9), b"hello");
    let bytes = txn.commit().to_vec();
    let fail = |src: &[u8]| {
        let e = Transaction::decode(src).unwrap_err();
        (e.kind(), e.message())
    };
    let says = |kind: ErrorKind, text: &str| (kind, text.to_string());

    assert_eq!(
        fail(&bytes[..23]),
        says(ErrorKind::UnexpectedEof, "transaction shorter than a header")
    );
    assert_eq!(
        fail(&bytes[..28]),
        says(ErrorKind::UnexpectedEof, "frame length overruns the buffer")
    );
    let mut torn = bytes.clone();
    torn[20] ^= 1;
    assert_eq!(
        fail(&torn),
        says(ErrorKind::InvalidData, "frame corrupted hashes did not match")
    );
    let mut torn = bytes.clone();
    torn[0] = 23;
    assert_eq!(fail(&torn), says(ErrorKind::InvalidData, "frame length 23 out of range"));
}

// -- data files --------------------------------------------------------------------------

/// The hash of a file in memory.
fn hash_of(file: &DbFile, bytes: &[u8], without_footer: bool) -> u32 {
    let mut run = file.calc_hash(without_footer);
    while let Some((pos, len)) = run.next() {
        run.absorb(&bytes[pos..pos + len], len);
    }
    run.finish()
}

#[test]
fn a_sealed_file_is_opened_again() {
    let (mut file, head) = DbFile::new(1000, 0x0201, 40);
    assert_eq!(head, [1, 2]);
    assert_eq!((file.seq, file.written, file.min_seq, file.max_seq), (0x0201, 2, 40, 40));
    let mut bytes = head.to_vec();
    bytes.extend_from_slice(b"3456789");
    assert!(!file.write(b"3456789", 44));
    let crc = hash_of(&file, &bytes, false);
    bytes.extend_from_slice(&file.seal(crc));
    assert_eq!(file.written, bytes.len());
    assert_eq!(bytes[bytes.len() - 1], b'C');

    let (head, footer) = (&bytes[..2], &bytes[bytes.len() - FOOTER_LEN..]);
    let back = DbFile::from_name(bytes.len() as u64, head, footer).unwrap();
    assert_eq!((back.seq, back.min_seq, back.max_seq, back.hash), (0x0201, 40, 44, crc));
    assert!(back.check_hash(hash_of(&back, &bytes, true)).is_ok());

    bytes[5] ^= 1;
    let e = back.check_hash(hash_of(&back, &bytes, true)).unwrap_err();
    assert!(matches!(e, Error::FileCorrupted));
    assert_eq!(e.kind(), ErrorKind::InvalidData);
}

#[test]
fn the_hash_of_a_file_is_that_of_its_bytes() {
    let (mut file, _) = DbFile::new(1000, 0x3231, 0);
    file.write(b"3456789", 1);
    assert_eq!(hash_of(&file, b"123456789", false), 0xE306_9283);
}

#[test]
fn a_file_is_hashed_in_chunks() {
    let bytes = vec![7u8; HASH_CHUNK + 5];
    let (mut file, _) = DbFile::new(0, 0, 0);
    file.written = bytes.len();
    let mut run = file.calc_hash(false);
    assert_eq!(run.next(), Some((0, HASH_CHUNK)));
    run.absorb(&bytes[..HASH_CHUNK], HASH_CHUNK);
    assert_eq!(run.next(), Some((HASH_CHUNK, 5)));
    run.absorb(&bytes[..5], 5);
    assert_eq!(run.next(), None);
    assert_eq!(run.finish(), hash_of(&file, &bytes, false));
}

#[test]
fn the_hash_covers_the_bytes_in_front_of_the_footer() {
    let bytes: Vec<u8> = (0..2 * HASH_CHUNK + 30).map(|i| (i % 251) as u8).collect();
    let (mut file, _) = DbFile::new(0, 0, 0);
    for (size, without_footer, hashed) in [
        (FOOTER_LEN, true, 0),
        (100, true, 100 - FOOTER_LEN),
        (100, false, 100),
        (HASH_CHUNK - 1, true, HASH_CHUNK - 1 - FOOTER_LEN),
        // A chunk that ends in the footer is hashed to its end.
        (HASH_CHUNK, true, HASH_CHUNK),
        (HASH_CHUNK + 5, true, HASH_CHUNK),
        (HASH_CHUNK + FOOTER_LEN, true, HASH_CHUNK),
        (HASH_CHUNK + FOOTER_LEN + 1, true, HASH_CHUNK + 1),
        (2 * HASH_CHUNK + 30, true, 2 * HASH_CHUNK + 30 - FOOTER_LEN),
        (2 * HASH_CHUNK + 30, false, 2 * HASH_CHUNK + 30),
    ] {
        file.written = size;
        let hash = hash_of(&file, &bytes, without_footer);
        assert_eq!(hash, crc32c::crc32c(&bytes[..hashed]), "{size} {without_footer}");
    }
}

#[test]
fn a_file_that_is_not_sealed_is_refused() {
    let e = DbFile::from_name(100, &[0, 0], &[0; 21]).unwrap_err();
    assert!(matches!(e, Error::FileNotSealed));
    assert_eq!(e.kind(), ErrorKind::InvalidData);
    assert_eq!(e.message(), "invalid data");
}

#[test]
fn a_file_is_synced_every_so_many_writes() {
    let (mut file, _) = DbFile::new(1000, 1, 1);
    for i in 1..SYNC_EVERY {
        assert!(!file.write(b"x", i as u64));
    }
    assert!(file.write(b"x", 100));
    file.synced();
    assert_eq!((file.write_ops, file.written, file.max_seq), (0, 102, 100));
    assert!(!file.write(b"x", 101));
}

#[test]
fn a_file_keeps_room_for_its_footer() {
    let (file, _) = DbFile::new(100, 1, 1);
    assert!(file.has_space(76));
    assert!(!file.has_space(77));
    assert_eq!(file_name(65535), "data/65535.breezy");
    assert_eq!(file_name(0), "data/0.breezy");
}

// -- given hashes ------------------------------------------------------------------------

#[test]
fn stored_hashes_are_held_against_given_ones() {
    let mut frame = vec![0u8; FRAME_LEN];
    open_frame(&mut frame, 1, 2, 3).unwrap();
    set_trailer(&mut frame, 0x0403_0201, 4, 5);
    assert_eq!(frame[FRAME_HASH_OFFSET..FRAME_HASH_OFFSET + 5], [1, 2, 3, 4, 0]);
    assert_eq!(get_min_max_wseq(&frame).unwrap(), (4, 5));
    assert!(check_frame(&frame, 0x0403_0201).is_ok());
    assert!(matches!(check_frame(&frame, 0x0403_0202), Err(Error::BlockHashMismatch)));
    frame[0] = 0;
    assert!(matches!(check_frame(&frame, 0x0403_0201), Err(Error::BlockMagicMismatch)));

    let mut raw = [0u8; 25];
    frame_encode_into(&mut raw, 7, b"hello").unwrap();
    assert!(check_frame_hash(&raw, 25, 0x3BA2_5578).is_ok());
    assert!(matches!(check_frame_hash(&raw, 25, 0), Err(Error::FrameCorrupted)));

    let mut txn = Transaction::new();
    txn.open();
    let bytes = txn.seal(0x0403_0201).to_vec();
    assert_eq!(bytes[20..], [1, 2, 3, 4]);
    assert_eq!(Transaction::accept(&bytes, 24, 0x0403_0201).unwrap().size(), (24, 24));
    let e = Transaction::accept(&bytes, 24, 7).unwrap_err();
    assert!(matches!(e, Error::FrameCorrupted));
}
