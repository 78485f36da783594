use syncless::record::write_record;
use syncless::span::Span;
use syncless::store::{read_newfile, StoreBase};
use syncless::{open, open_readonly, Error};

fn image(writes: &[(u64, &[u8])]) -> Vec<u8> {
    let mut file = b"Syncless\0\0\0\0".to_vec();
    let mut size = 12;
    for &(off, data) in writes {
        write_record(&mut file, off, data, &mut size);
    }
    file
}

fn view(file: &[u8]) -> Vec<u8> {
    let mut store = open_readonly(file).unwrap();
    let mut buf = vec![0u8; store.size() as usize];
    store.read(file, 0, &mut buf).unwrap();
    buf
}

#[test]
fn replay_builds_validated_spans() {
    let file = image(&[(1, b"AB"), (2, b"C"), (1, b"D")]);
    let mut base = StoreBase { spans: Vec::new(), file_size: 0 };
    read_newfile(&mut base, &file, true).unwrap();
    assert_eq!(base.file_size, 73);
    assert_eq!(
        base.spans,
        vec![
            (1, Span { len: 1, file_data_offset: 64, validated: true }),
            (2, Span { len: 1, file_data_offset: 44, validated: true }),
        ]
    );
}

#[test]
fn replay_stops_at_the_first_bad_record() {
    let mut file = image(&[(0, b"abc"), (3, b"def"), (6, b"ghi")]);
    // Damage the second record: the third is not looked at.
    file[12 + 22 + 12] ^= 1;
    let store = open_readonly(&file).unwrap();
    assert_eq!(store.size(), 3);
    assert_eq!(store.file_size(), 12 + 22);
    assert_eq!(view(&file), b"abc");
}

#[test]
fn replay_of_a_header_alone() {
    let file = image(&[]);
    let store = open_readonly(&file).unwrap();
    assert_eq!(store.size(), 0);
    assert_eq!(store.file_size(), 12);
}

#[test]
fn replay_errors_leave_the_map_alone() {
    let mut base = StoreBase { spans: Vec::new(), file_size: 0 };
    assert!(matches!(read_newfile(&mut base, b"Sync", false), Err(Error::NotSyncless)));
    assert_eq!(base.file_size, 0);
    assert!(base.spans.is_empty());

    let mut base = StoreBase { spans: Vec::new(), file_size: 0 };
    assert!(matches!(
        read_newfile(&mut base, b"Syncless\0\x01\0\0", true),
        Err(Error::UnsupportedVersion)
    ));
    assert_eq!(base.file_size, 12);
    assert!(base.spans.is_empty());

    let mut base = StoreBase { spans: Vec::new(), file_size: 0 };
    read_newfile(&mut base, b"Syncless\0\x01\0\0", false).unwrap();
    assert_eq!(base.file_size, 12);
}

#[test]
fn record_without_bytes_changes_no_span() {
    let file = image(&[(0, b"abc"), (0, b""), (1, b""), (7, b"")]);
    let store = open_readonly(&file).unwrap();
    assert_eq!(store.size(), 3);
    assert_eq!(store.file_size(), 12 + 22 + 3 * 19);
    assert_eq!(view(&file), b"abc");
}

#[test]
fn record_beyond_the_offsets_changes_no_span() {
    let file = image(&[(0, b"abc"), (u64::MAX, b"x"), (u64::MAX - 1, b"yz"), (3, b"d")]);
    let store = open_readonly(&file).unwrap();
    assert_eq!(store.size(), 4);
    assert_eq!(view(&file), b"abcd");
}

#[test]
fn record_up_to_the_last_offset_is_replayed() {
    let file = image(&[(u64::MAX - 2, b"yz")]);
    let mut store = open_readonly(&file).unwrap();
    assert_eq!(store.size(), u64::MAX);
    let mut buf = [0u8; 3];
    store.read(&file, u64::MAX - 3, &mut buf).unwrap();
    assert_eq!(&buf, b"\0yz");
}

#[test]
fn reopen_shows_the_same_view() {
    let writes: [(u64, &[u8]); 6] = [
        (4, b"first"),
        (0, b"head"),
        (6, b"MID"),
        (20, b"far"),
        (2, b"overlapping everything up to here"),
        (30, b"!"),
    ];
    let mut file = Vec::new();
    let mut store = open(&mut file).unwrap();
    for (off, data) in writes {
        store.write(&mut file, off, data).unwrap();
        let mut now = vec![0u8; store.size() as usize];
        store.read(&file, 0, &mut now).unwrap();
        assert_eq!(view(&file), now);
    }
    assert_eq!(view(&file), b"heoverlapping everything up to!here");
}

#[test]
fn cut_file_shows_the_records_that_fit() {
    let file = image(&[(0, b"abc"), (1, b"XY"), (5, b"z")]);
    let ends = [12, 34, 55, 75];
    let views: [&[u8]; 4] = [b"", b"abc", b"aXY", b"aXY\0\0z"];
    assert_eq!(file.len(), 75);
    for l in 12..=file.len() {
        let kept = ends.iter().filter(|&&e| e <= l).count() - 1;
        let store = open_readonly(&file[..l]).unwrap();
        assert_eq!(store.file_size(), ends[kept] as u64);
        assert_eq!(view(&file[..l]), views[kept]);
    }
}

#[test]
fn leftover_behind_a_shorter_write_is_replayed() {
    // A record whose checksum is wrong, and a good one behind it.
    let mut file = image(&[(0, b"ab"), (5, b"x")]);
    file[12 + 13] ^= 1;
    let mut store = open(&mut file).unwrap();
    assert_eq!(store.size(), 0);
    assert_eq!(store.file_size(), 12);

    // The new record takes the place of the bad one, byte for byte.
    store.write(&mut file, 0, b"cd").unwrap();
    let mut buf = [0u8; 6];
    store.read(&file, 0, &mut buf).unwrap();
    assert_eq!(&buf, b"cd\0\0\0\0");

    // The record behind it stands in the file again.
    assert_eq!(view(&file), b"cd\0\0\0x");
}
