use syncless::{open, open_readonly, Error};

#[test]
fn empty_store_size_zero() {
    let mut file = Vec::new();

    let store = open(&mut file).unwrap();
    assert_eq!(store.size(), 0);
}

#[test]
fn write_then_read() {
    let mut file = Vec::new();

    let mut store = open(&mut file).unwrap();

    store.write(&mut file, 0, b"hello").unwrap();
    assert_eq!(store.size(), 5);

    let mut buf = [0u8; 5];
    store.read(&file, 0, &mut buf).unwrap();

    assert_eq!(&buf, b"hello");
}

#[test]
fn overwrite_middle() {
    let mut file = Vec::new();

    let mut store = open(&mut file).unwrap();

    store.write(&mut file, 0, b"abcdefgh").unwrap();
    store.write(&mut file, 2, b"XYZ").unwrap();

    let mut buf = [0u8; 8];
    store.read(&file, 0, &mut buf).unwrap();

    assert_eq!(&buf, b"abXYZfgh");
}

#[test]
fn holes_are_zero() {
    let mut file = Vec::new();

    let mut store = open(&mut file).unwrap();
    store.write(&mut file, 10, b"hi").unwrap();

    let mut buf = [0u8; 12];
    store.read(&file, 0, &mut buf).unwrap();

    assert_eq!(&buf[..10], &[0u8; 10]);
    assert_eq!(&buf[10..12], b"hi");
}

#[test]
fn replay_reconstructs_state() {
    let mut file = Vec::new();

    {
        let mut store = open(&mut file).unwrap();
        store.write(&mut file, 0, b"abc").unwrap();
        store.write(&mut file, 5, b"xyz").unwrap();
    }

    let mut store = open(&mut file).unwrap();

    let mut buf = [0u8; 8];
    store.read(&file, 0, &mut buf).unwrap();

    assert_eq!(&buf, b"abc\0\0xyz");
}

#[test]
fn fresh_open_reads_zeros() {
    let mut file = Vec::new();
    let mut store = open(&mut file).unwrap();
    assert_eq!(store.size(), 0);
    assert_eq!(store.file_size(), 12);
    assert_eq!(file, b"Syncless\0\0\0\0");

    let mut buf = [7u8; 4];
    store.read(&file, 0, &mut buf).unwrap();
    assert_eq!(buf, [0, 0, 0, 0]);
}

#[test]
fn hole_then_size() {
    let mut file = Vec::new();
    let mut store = open(&mut file).unwrap();
    store.write(&mut file, 10, b"hi").unwrap();
    assert_eq!(store.size(), 12);

    let mut buf = [1u8; 12];
    store.read(&file, 0, &mut buf).unwrap();
    assert_eq!(buf, [0, 0, 0, 0, 0, 0, 0, 0, 0, 0, b'h', b'i']);
}

#[test]
fn written_file_is_bit_exact() {
    let mut file = Vec::new();
    let mut store = open(&mut file).unwrap();
    store.write(&mut file, 0, b"hello").unwrap();

    // Header, then offset (8, LE), length (3, LE), payload, CRC-64 (8, LE).
    let expected: [u8; 36] = [
        83, 121, 110, 99, 108, 101, 115, 115, 0, 0, 0, 0, 0, 0, 0, 0, 0, 0, 0, 0, 5, 0, 0, 104,
        101, 108, 108, 111, 173, 235, 22, 73, 106, 170, 174, 44,
    ];
    assert_eq!(file, expected);
    assert_eq!(store.file_size(), 36);
}

#[test]
fn three_writes_are_bit_exact() {
    let mut file = Vec::new();
    let mut store = open(&mut file).unwrap();
    store.write(&mut file, 1, b"AB").unwrap();
    store.write(&mut file, 2, b"C").unwrap();
    store.write(&mut file, 1, b"D").unwrap();

    let expected: [u8; 73] = [
        83, 121, 110, 99, 108, 101, 115, 115, 0, 0, 0, 0, 1, 0, 0, 0, 0, 0, 0, 0, 2, 0, 0, 65, 66,
        112, 116, 55, 106, 203, 20, 186, 160, 2, 0, 0, 0, 0, 0, 0, 0, 1, 0, 0, 67, 86, 217, 123,
        138, 195, 40, 4, 219, 1, 0, 0, 0, 0, 0, 0, 0, 1, 0, 0, 68, 83, 81, 57, 21, 136, 110, 241,
        65,
    ];
    assert_eq!(file, expected);
}

#[test]
fn read_past_size_is_zero() {
    let mut file = Vec::new();
    let mut store = open(&mut file).unwrap();
    store.write(&mut file, 0, b"abc").unwrap();

    let mut buf = [9u8; 6];
    store.read(&file, 1, &mut buf).unwrap();
    assert_eq!(&buf, b"bc\0\0\0\0");

    let mut far = [9u8; 3];
    store.read(&file, 1000, &mut far).unwrap();
    assert_eq!(far, [0, 0, 0]);
}

#[test]
fn read_at_the_top_of_the_offsets() {
    let mut file = Vec::new();
    let mut store = open(&mut file).unwrap();
    store.write(&mut file, u64::MAX - 2, b"xy").unwrap();
    assert_eq!(store.size(), u64::MAX);

    // The read reaches beyond the last 64-bit offset: what lies there is zero.
    let mut buf = [9u8; 5];
    store.read(&file, u64::MAX - 3, &mut buf).unwrap();
    assert_eq!(&buf, b"\0xy\0\0");
}

#[test]
fn read_into_empty_buffer() {
    let mut file = Vec::new();
    let mut store = open(&mut file).unwrap();
    store.write(&mut file, 0, b"abc").unwrap();
    let mut buf = [0u8; 0];
    store.read(&file, 1, &mut buf).unwrap();
}

#[test]
fn empty_write_appends_nothing() {
    let mut file = Vec::new();
    let mut store = open(&mut file).unwrap();
    store.write(&mut file, 5, b"").unwrap();
    assert_eq!(store.size(), 0);
    assert_eq!(file.len(), 12);
}

#[test]
fn write_inside_a_span_splits_it() {
    let mut file = Vec::new();
    let mut store = open(&mut file).unwrap();
    store.write(&mut file, 0, b"0123456789").unwrap();
    store.write(&mut file, 3, b"ab").unwrap();
    store.write(&mut file, 8, b"WXYZ").unwrap();
    assert_eq!(store.size(), 12);

    let mut buf = [0u8; 12];
    store.read(&file, 0, &mut buf).unwrap();
    assert_eq!(&buf, b"012ab567WXYZ");

    let mut mid = [0u8; 4];
    store.read(&file, 4, &mut mid).unwrap();
    assert_eq!(&mid, b"b567");
}

#[test]
fn write_over_several_spans_removes_them() {
    let mut file = Vec::new();
    let mut store = open(&mut file).unwrap();
    store.write(&mut file, 0, b"aa").unwrap();
    store.write(&mut file, 4, b"bb").unwrap();
    store.write(&mut file, 8, b"cc").unwrap();
    store.write(&mut file, 1, b"--------").unwrap();

    let mut buf = [0u8; 10];
    store.read(&file, 0, &mut buf).unwrap();
    assert_eq!(&buf, b"a--------c");
}

#[test]
fn size_never_shrinks_under_writes() {
    let mut file = Vec::new();
    let mut store = open(&mut file).unwrap();
    let writes: [(u64, &[u8]); 5] =
        [(7, b"abc"), (0, b"x"), (9, b"longer tail"), (3, b""), (2, b"yz")];
    let mut last = store.size();
    for (off, data) in writes {
        store.write(&mut file, off, data).unwrap();
        assert!(store.size() >= last);
        last = store.size();
    }
    assert_eq!(last, 20);
}

#[test]
fn long_write_is_chunked() {
    // One byte more than a record takes: two records.
    let n = (1usize << 24) - 1 + 1;
    let mut data = vec![0u8; n];
    for (i, b) in data.iter_mut().enumerate() {
        *b = (i % 251) as u8;
    }
    let mut file = Vec::new();
    let mut store = open(&mut file).unwrap();
    store.write(&mut file, 3, &data).unwrap();
    assert_eq!(store.size(), 3 + n as u64);
    assert_eq!(file.len(), 12 + (19 + n - 1) + (19 + 1));
    // The first record's length field holds 2^24 - 1.
    assert_eq!(&file[20..23], &[0xff, 0xff, 0xff]);

    let mut back = vec![1u8; n + 3];
    store.read(&file, 0, &mut back).unwrap();
    assert_eq!(&back[..3], &[0, 0, 0]);
    assert!(back[3..] == data[..]);

    let mut again = open_readonly(&file).unwrap();
    assert_eq!(again.size(), 3 + n as u64);
    let mut tail = [0u8; 4];
    again.read(&file, n as u64 - 1, &mut tail).unwrap();
    assert_eq!(tail, [data[n - 4], data[n - 3], data[n - 2], data[n - 1]]);
}

#[test]
fn open_rejects_a_short_file() {
    let mut file = b"Syncless\0\0\0".to_vec();
    assert!(matches!(open(&mut file), Err(Error::NotSyncless)));
    assert!(matches!(open_readonly(&file), Err(Error::NotSyncless)));
    assert!(matches!(open_readonly(b""), Err(Error::NotSyncless)));
}

#[test]
fn open_rejects_a_wrong_magic() {
    let mut file = b"Synchron\0\0\0\0".to_vec();
    assert!(matches!(open(&mut file), Err(Error::NotSyncless)));
    assert!(matches!(open_readonly(&file), Err(Error::NotSyncless)));
    assert_eq!(file, b"Synchron\0\0\0\0");
}

#[test]
fn newer_major_is_refused() {
    let mut file = b"Syncless\x01\0\0\0".to_vec();
    assert!(matches!(open(&mut file), Err(Error::UnsupportedVersion)));
    assert!(matches!(open_readonly(&file), Err(Error::UnsupportedVersion)));
}

#[test]
fn newer_format_opens_read_only() {
    let mut file = b"Syncless\0\x01\0\0".to_vec();
    assert!(matches!(open(&mut file), Err(Error::UnsupportedVersion)));
    let store = open_readonly(&file).unwrap();
    assert_eq!(store.size(), 0);
}

#[test]
fn newer_minor_is_ignored() {
    let mut file = b"Syncless\0\0\x07\x01".to_vec();
    let mut store = open(&mut file).unwrap();
    store.write(&mut file, 0, b"ok").unwrap();
    assert_eq!(&file[..12], b"Syncless\0\0\x07\x01");
    let mut buf = [0u8; 2];
    store.read(&file, 0, &mut buf).unwrap();
    assert_eq!(&buf, b"ok");
}

#[test]
fn corrupt_record_is_reported_on_read() {
    let mut file = Vec::new();
    let mut store = open(&mut file).unwrap();
    store.write(&mut file, 0, b"hello").unwrap();

    // What comes back from the file is not what was written.
    let mut stale = file.clone();
    stale[24] = 0;
    let mut buf = [9u8; 5];
    assert!(matches!(store.read(&stale, 0, &mut buf), Err(Error::CorruptRecord)));
    assert_eq!(buf, [0, 0, 0, 0, 0]);

    // Once the file reads back right, the same read succeeds.
    store.read(&file, 0, &mut buf).unwrap();
    assert_eq!(&buf, b"hello");

    // The span is validated now, and is not checked again.
    store.read(&stale, 0, &mut buf).unwrap();
    assert_eq!(&buf, b"h\0llo");
}

#[test]
fn corrupt_record_is_reported_on_write() {
    let mut file = Vec::new();
    let mut store = open(&mut file).unwrap();
    store.write(&mut file, 0, b"hello").unwrap();

    let good = file.clone();
    file[25] ^= 0x40;
    let damaged = file.clone();
    assert!(matches!(store.write(&mut file, 2, b"XY"), Err(Error::CorruptRecord)));
    assert_eq!(file, damaged);
    assert_eq!(store.file_size(), 36);

    let mut file = good;
    store.write(&mut file, 2, b"XY").unwrap();
    let mut buf = [0u8; 5];
    store.read(&file, 0, &mut buf).unwrap();
    assert_eq!(&buf, b"heXYo");
}

#[test]
fn read_only_store_does_not_validate() {
    let mut file = Vec::new();
    let mut store = open(&mut file).unwrap();
    store.write(&mut file, 0, b"hello").unwrap();
    let mut ro = open_readonly(&file).unwrap();

    let mut stale = file.clone();
    stale[24] = b'E';
    let mut buf = [0u8; 5];
    ro.read(&stale, 0, &mut buf).unwrap();
    assert_eq!(&buf, b"hEllo");
}

#[test]
fn torn_tail_is_overwritten_by_the_next_write() {
    let mut file = Vec::new();
    {
        let mut store = open(&mut file).unwrap();
        store.write(&mut file, 0, b"abc").unwrap();
        store.write(&mut file, 3, b"defgh").unwrap();
    }
    // Tear the second record.
    file.truncate(file.len() - 3);
    let torn_len = file.len();

    let mut store = open(&mut file).unwrap();
    assert_eq!(store.size(), 3);
    assert_eq!(store.file_size(), 12 + 19 + 3);
    store.write(&mut file, 3, b"Z").unwrap();
    assert_eq!(store.file_size(), 12 + 22 + 20);
    // The new record is shorter than the torn one: the rest of it stays.
    assert_eq!(file.len(), torn_len);

    let mut buf = [0u8; 4];
    store.read(&file, 0, &mut buf).unwrap();
    assert_eq!(&buf, b"abcZ");

    let mut again = open_readonly(&file).unwrap();
    assert_eq!(again.size(), 4);
    again.read(&file, 0, &mut buf).unwrap();
    assert_eq!(&buf, b"abcZ");
}

#[test]
fn io_errors_are_wrapped() {
    let err = std::io::Error::new(std::io::ErrorKind::Other, "disk full");
    match Error::from(err) {
        Error::Io(inner) => assert_eq!(inner.kind(), std::io::ErrorKind::Other),
        other => panic!("not an I/O error: {:?}", other),
    }
}
