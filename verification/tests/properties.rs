use syncless::span::{add_record, debug_check_spans, Span};
use syncless::store::retry_after_sync;
use syncless::{open, open_readonly, Error};

/// A small generator of numbers, the same on every run.
struct Numbers(u64);

impl Numbers {
    fn next(&mut self, below: u64) -> u64 {
        self.0 = self.0.wrapping_mul(6364136223846793005).wrapping_add(1442695040888963407);
        (self.0 >> 33) % below
    }
}

fn view(file: &[u8]) -> Vec<u8> {
    let mut store = open_readonly(file).unwrap();
    let mut buf = vec![0u8; store.size() as usize];
    store.read(file, 0, &mut buf).unwrap();
    buf
}

#[test]
fn last_writer_wins_against_a_model() {
    let mut numbers = Numbers(7);
    let mut file = Vec::new();
    let mut store = open(&mut file).unwrap();
    let mut model: Vec<u8> = Vec::new();

    for round in 0..300u64 {
        let off = numbers.next(200);
        let len = numbers.next(40) as usize;
        let data: Vec<u8> =
            (0..len).map(|i| (round as u8).wrapping_mul(31).wrapping_add(i as u8) | 1).collect();

        store.write(&mut file, off, &data).unwrap();
        if len > 0 {
            if model.len() < off as usize + len {
                model.resize(off as usize + len, 0);
            }
            model[off as usize..off as usize + len].copy_from_slice(&data);
        }

        // No span is empty, no two overlap.
        assert!(debug_check_spans(store.spans()));
        assert_eq!(store.size(), model.len() as u64);

        // Any window of the logical space shows the latest writes, and zeros elsewhere.
        let from = numbers.next(260);
        let mut window = vec![0xeeu8; numbers.next(80) as usize];
        store.read(&file, from, &mut window).unwrap();
        for (i, b) in window.iter().enumerate() {
            let at = from as usize + i;
            let want = if at < model.len() { model[at] } else { 0 };
            assert_eq!(*b, want, "round {} offset {}", round, at);
        }
        assert!(debug_check_spans(store.spans()));
    }

    // What a reopened store shows is what this one shows.
    assert_eq!(view(&file), model);
    let reopened = open_readonly(&file).unwrap();
    assert!(debug_check_spans(reopened.spans()));
    assert!(reopened.spans().iter().all(|(_, span)| span.validated));
}

#[test]
fn span_map_stays_well_formed() {
    let mut numbers = Numbers(99);
    let mut spans: Vec<(u64, Span)> = Vec::new();
    let mut model = vec![None; 400];
    for round in 0..500u64 {
        let off = numbers.next(300);
        let len = 1 + numbers.next(60);
        let fdo = 23 + round * 100;
        add_record(&mut spans, off, len, fdo, true);
        for i in 0..len {
            model[(off + i) as usize] = Some(fdo + i);
        }
        assert!(debug_check_spans(&spans));

        // Each logical offset lies where the latest record that covers it put it.
        for (o, want) in model.iter().enumerate() {
            let o = o as u64;
            let found = spans
                .iter()
                .find(|(key, span)| *key <= o && o < key + span.len)
                .map(|(key, span)| span.file_data_offset + (o - key));
            assert_eq!(found, *want);
        }
    }
}

#[test]
fn reads_validate_what_they_touch() {
    let mut file = Vec::new();
    let mut store = open(&mut file).unwrap();
    assert!(store.is_writable());
    store.write(&mut file, 10, b"aaa").unwrap();
    store.write(&mut file, 0, b"bbb").unwrap();
    store.write(&mut file, 20, b"ccc").unwrap();
    // The last write looked at the span before it.
    let validated: Vec<bool> = store.spans().iter().map(|(_, span)| span.validated).collect();
    assert_eq!(validated, [false, true, false]);

    // A read before the first key starts at 0, and ends where it ends.
    let mut buf = [0u8; 4];
    store.read(&file, 0, &mut buf).unwrap();
    let validated: Vec<bool> = store.spans().iter().map(|(_, span)| span.validated).collect();
    assert_eq!(validated, [true, true, false]);

    // A read behind a span starts at that span.
    store.read(&file, 30, &mut buf).unwrap();
    assert_eq!(buf, [0, 0, 0, 0]);
    let validated: Vec<bool> = store.spans().iter().map(|(_, span)| span.validated).collect();
    assert_eq!(validated, [true, true, true]);
}

#[test]
fn writes_validate_what_they_cut() {
    let mut file = Vec::new();
    let mut store = open(&mut file).unwrap();
    store.write(&mut file, 0, b"aaaa").unwrap();
    store.write(&mut file, 10, b"bbbb").unwrap();
    store.write(&mut file, 20, b"cccc").unwrap();
    store.write(&mut file, 2, b"xxxxxxxxxx").unwrap();
    assert_eq!(
        store.spans(),
        &vec![
            (0, Span { len: 2, file_data_offset: 23, validated: true }),
            (2, Span { len: 10, file_data_offset: 92, validated: false }),
            (12, Span { len: 2, file_data_offset: 48, validated: true }),
            (20, Span { len: 4, file_data_offset: 69, validated: false }),
        ]
    );
}

#[test]
fn previous_key() {
    let mut file = Vec::new();
    let mut store = open(&mut file).unwrap();
    assert_eq!(store.prev_offset(0), 0);
    assert_eq!(store.prev_offset(9), 0);
    store.write(&mut file, 3, b"abc").unwrap();
    store.write(&mut file, 8, b"de").unwrap();
    assert_eq!(store.prev_offset(0), 0);
    assert_eq!(store.prev_offset(3), 0);
    assert_eq!(store.prev_offset(4), 3);
    assert_eq!(store.prev_offset(8), 3);
    assert_eq!(store.prev_offset(9), 8);
    assert_eq!(store.prev_offset(u64::MAX), 8);
}

#[test]
fn validate_range_checks_only_its_range() {
    let mut file = Vec::new();
    let mut store = open(&mut file).unwrap();
    store.write(&mut file, 0, b"aaa").unwrap();
    store.write(&mut file, 10, b"bbb").unwrap();

    // The second record does not read back.
    let mut stale = file.clone();
    stale[12 + 22 + 11] = 0;

    store.validate_range(&stale, 0, 10).unwrap();
    assert!(store.spans()[0].1.validated);
    assert!(!store.spans()[1].1.validated);

    assert!(matches!(store.validate_range(&stale, 0, 11), Err(Error::CorruptRecord)));
    assert!(matches!(store.validate_range(&stale, 10, 11), Err(Error::CorruptRecord)));
    assert!(!store.spans()[1].1.validated);
    store.validate_range(&stale, 11, 100).unwrap();
    store.validate_range(&stale, 5, 2).unwrap();
    assert!(!store.spans()[1].1.validated);

    store.validate_range(&file, 10, 11).unwrap();
    assert!(store.spans()[1].1.validated);
    // Validated once, it is not looked at again.
    store.validate_range(&stale, 0, 100).unwrap();
}

#[test]
fn validate_range_leaves_a_read_only_store_alone() {
    let mut file = Vec::new();
    let mut store = open(&mut file).unwrap();
    store.write(&mut file, 0, b"aaa").unwrap();
    let mut ro = store.into_readonly(&file).unwrap();
    assert!(!ro.is_writable());
    let mut stale = file.clone();
    stale[24] = 0;
    ro.validate_range(&stale, 0, 100).unwrap();
}

#[test]
fn only_a_first_corrupt_record_is_retried() {
    assert!(retry_after_sync(&Error::CorruptRecord, false));
    assert!(!retry_after_sync(&Error::CorruptRecord, true));
    assert!(!retry_after_sync(&Error::NotSyncless, false));
    assert!(!retry_after_sync(&Error::UnsupportedVersion, false));
    let io = Error::from(std::io::Error::new(std::io::ErrorKind::Other, "full"));
    assert!(!retry_after_sync(&io, false));
}
