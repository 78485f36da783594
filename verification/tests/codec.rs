use syncless::bytes::{push_le, read_le};
use syncless::header::{read_header, write_header, HeaderVer};
use syncless::record::{
    read_bytes_fail_back, read_next_record, validate, write_record, Record, RecordHeader,
};
use syncless::{Error, WriteOpenMode};

const THREE_WRITES: [u8; 73] = [
    83, 121, 110, 99, 108, 101, 115, 115, 0, 0, 0, 0, 1, 0, 0, 0, 0, 0, 0, 0, 2, 0, 0, 65, 66, 112,
    116, 55, 106, 203, 20, 186, 160, 2, 0, 0, 0, 0, 0, 0, 0, 1, 0, 0, 67, 86, 217, 123, 138, 195,
    40, 4, 219, 1, 0, 0, 0, 0, 0, 0, 0, 1, 0, 0, 68, 83, 81, 57, 21, 136, 110, 241, 65,
];

#[test]
fn little_endian_numbers() {
    let mut out = vec![0xaa];
    push_le(&mut out, 0x0102_0304_0506_0708, 8);
    push_le(&mut out, 0x12_3456, 3);
    push_le(&mut out, 0x1234_5678, 2);
    push_le(&mut out, 9, 0);
    assert_eq!(out, [0xaa, 8, 7, 6, 5, 4, 3, 2, 1, 0x56, 0x34, 0x12, 0x78, 0x56]);

    assert_eq!(read_le(&out, 1, 8), 0x0102_0304_0506_0708);
    assert_eq!(read_le(&out, 9, 3), 0x12_3456);
    assert_eq!(read_le(&out, 12, 2), 0x5678);
    assert_eq!(read_le(&out, 3, 0), 0);
    assert_eq!(read_le(&[0xff; 8], 0, 8), u64::MAX);
}

#[test]
fn header_is_written_and_read_back() {
    let mut file = vec![1, 2, 3];
    assert_eq!(write_header(&mut file), 12);
    assert_eq!(file, b"\x01\x02\x03Syncless\0\0\0\0");

    let mut at = 3;
    let ver = read_header(&file, &mut at).unwrap();
    assert_eq!(ver, HeaderVer { major: 0, format: 0, minor: 0 });
    assert_eq!(at, 15);
}

#[test]
fn header_fields_are_parsed() {
    let mut at = 0;
    let ver = read_header(b"Syncless\x03\x02\x34\x12rest", &mut at).unwrap();
    assert_eq!(ver, HeaderVer { major: 3, format: 2, minor: 0x1234 });
    assert_eq!(at, 12);
}

#[test]
fn short_header_is_not_syncless() {
    let mut at = 0;
    assert!(matches!(read_header(b"Syncless\0\0\0", &mut at), Err(Error::NotSyncless)));
    assert_eq!(at, 0);

    let mut at = 1;
    assert!(matches!(read_header(b"Syncless\0\0\0\0", &mut at), Err(Error::NotSyncless)));
    assert_eq!(at, 1);

    let mut at = u64::MAX;
    assert!(matches!(read_header(b"Syncless\0\0\0\0", &mut at), Err(Error::NotSyncless)));
    assert_eq!(at, u64::MAX);
}

#[test]
fn wrong_magic_is_not_syncless() {
    let mut at = 0;
    assert!(matches!(read_header(b"SynclesS\0\0\0\0", &mut at), Err(Error::NotSyncless)));
    // The twelve bytes were read all the same.
    assert_eq!(at, 12);
}

#[test]
fn version_compatibility() {
    let current = HeaderVer { major: 0, format: 0, minor: 0 };
    assert!(current.is_read_compatible());
    assert!(current.is_write_compatible());

    let newer_minor = HeaderVer { major: 0, format: 0, minor: 9 };
    assert!(newer_minor.is_read_compatible());
    assert!(newer_minor.is_write_compatible());

    let newer_format = HeaderVer { major: 0, format: 1, minor: 0 };
    assert!(newer_format.is_read_compatible());
    assert!(!newer_format.is_write_compatible());

    let newer_major = HeaderVer { major: 1, format: 0, minor: 0 };
    assert!(!newer_major.is_read_compatible());
    assert!(!newer_major.is_write_compatible());
}

#[test]
fn open_modes() {
    assert!(!WriteOpenMode::MustExist.create());
    assert!(!WriteOpenMode::MustExist.create_new());
    assert!(!WriteOpenMode::MustNotExist.create());
    assert!(WriteOpenMode::MustNotExist.create_new());
    assert!(WriteOpenMode::MayExist.create());
    assert!(!WriteOpenMode::MayExist.create_new());
}

#[test]
fn records_are_read_one_by_one() {
    let mut at = 12;
    let first = read_next_record(&THREE_WRITES, &mut at);
    assert_eq!(
        first,
        Some(Record { hdr: RecordHeader { logical_offset: 1, length: 2 }, file_data_offset: 23 })
    );
    assert_eq!(at, 33);
    let second = read_next_record(&THREE_WRITES, &mut at);
    assert_eq!(
        second,
        Some(Record { hdr: RecordHeader { logical_offset: 2, length: 1 }, file_data_offset: 44 })
    );
    assert_eq!(at, 53);
    let third = read_next_record(&THREE_WRITES, &mut at);
    assert_eq!(
        third,
        Some(Record { hdr: RecordHeader { logical_offset: 1, length: 1 }, file_data_offset: 64 })
    );
    assert_eq!(at, 73);
    assert_eq!(read_next_record(&THREE_WRITES, &mut at), None);
    assert_eq!(at, 73);
}

#[test]
fn no_record_behind_the_end() {
    let mut at = 74;
    assert_eq!(read_next_record(&THREE_WRITES, &mut at), None);
    assert_eq!(at, 74);
    let mut at = u64::MAX;
    assert_eq!(read_next_record(&THREE_WRITES, &mut at), None);
    assert_eq!(at, u64::MAX);
}

#[test]
fn torn_record_is_no_record() {
    // Cut in the header, in the payload, in the checksum.
    for len in [13, 22, 23, 24, 25, 32] {
        let mut at = 12;
        assert_eq!(read_next_record(&THREE_WRITES[..len], &mut at), None);
        assert_eq!(at, 12);
    }
}

#[test]
fn damaged_record_is_no_record() {
    for i in 12..33 {
        let mut file = THREE_WRITES;
        file[i] ^= 0x10;
        let mut at = 12;
        assert_eq!(read_next_record(&file, &mut at), None);
        assert_eq!(at, 12);
        // The next record is still there.
        let mut at = 33;
        assert!(read_next_record(&file, &mut at).is_some());
    }
}

#[test]
fn empty_record_is_a_record() {
    let mut file = Vec::new();
    let mut size = 0;
    assert_eq!(write_record(&mut file, 7, b"", &mut size), 11);
    assert_eq!(size, 19);
    assert_eq!(file.len(), 19);
    let mut at = 0;
    assert_eq!(
        read_next_record(&file, &mut at),
        Some(Record { hdr: RecordHeader { logical_offset: 7, length: 0 }, file_data_offset: 11 })
    );
    assert_eq!(at, 19);
}

#[test]
fn record_is_written_at_the_end_of_the_log() {
    let mut file = THREE_WRITES[..12].to_vec();
    let mut size = 12;
    assert_eq!(write_record(&mut file, 1, b"AB", &mut size), 23);
    assert_eq!(size, 33);
    assert_eq!(write_record(&mut file, 2, b"C", &mut size), 44);
    assert_eq!(size, 53);
    assert_eq!(write_record(&mut file, 1, b"D", &mut size), 64);
    assert_eq!(size, 73);
    assert_eq!(file, THREE_WRITES);
}

#[test]
fn record_overwrites_what_lies_behind_the_log() {
    // The log ends at 33; what follows is left over.
    let mut file = THREE_WRITES.to_vec();
    let mut size = 33;
    assert_eq!(write_record(&mut file, 9, b"xyz", &mut size), 44);
    assert_eq!(size, 55);
    assert_eq!(file.len(), 73);
    assert_eq!(&file[..33], &THREE_WRITES[..33]);
    assert_eq!(&file[55..], &THREE_WRITES[55..]);
    let mut at = 33;
    assert_eq!(
        read_next_record(&file, &mut at),
        Some(Record { hdr: RecordHeader { logical_offset: 9, length: 3 }, file_data_offset: 44 })
    );
    assert_eq!(&file[44..47], b"xyz");

    // A longer one lengthens the file.
    let mut size = 53;
    assert_eq!(write_record(&mut file, 0, b"0123456789", &mut size), 64);
    assert_eq!(size, 82);
    assert_eq!(file.len(), 82);
}

#[test]
fn checksum_is_crc64_of_header_and_payload() {
    let mut file = Vec::new();
    let mut size = 0;
    write_record(&mut file, 0x6f77206f6c6c6568, b"d!", &mut size);
    // The frame is "hello wo" (the offset), 2, 0, 0, "d!".
    assert_eq!(&file[..13], b"hello wo\x02\0\0d!");
    let mut digest = crc64fast::Digest::new();
    digest.write(&file[..13]);
    assert_eq!(&file[13..], &digest.sum64().to_le_bytes());
}

#[test]
fn validate_checks_the_record_behind_a_span() {
    assert!(validate(&THREE_WRITES, 23, 2));
    assert!(validate(&THREE_WRITES, 44, 1));
    assert!(validate(&THREE_WRITES, 64, 1));
    // Not where a record's payload begins.
    assert!(!validate(&THREE_WRITES, 24, 1));
    assert!(!validate(&THREE_WRITES, 23, 1));

    for i in 12..33 {
        let mut file = THREE_WRITES;
        file[i] = !file[i];
        assert!(!validate(&file, 23, 2));
        assert!(validate(&file, 44, 1));
    }
}

#[test]
fn reading_on_falls_back_at_the_end() {
    let file = [0u8; 30];
    let mut total = 0;
    assert!(read_bytes_fail_back(&file, 10, 11, &mut total));
    assert_eq!(total, 11);
    assert!(read_bytes_fail_back(&file, 10, 9, &mut total));
    assert_eq!(total, 20);
    assert!(read_bytes_fail_back(&file, 10, 0, &mut total));
    assert_eq!(total, 20);
    assert!(!read_bytes_fail_back(&file, 10, 1, &mut total));
    assert_eq!(total, 0);

    let mut total = 5;
    assert!(!read_bytes_fail_back(&file, 10, 16, &mut total));
    assert_eq!(total, 0);
}
