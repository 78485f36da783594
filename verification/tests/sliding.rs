use syncless::{open, open_readonly};

#[test]
fn sliding_overwrites_read_back() {
    let mut file = Vec::new();
    let mut store = open(&mut file).unwrap();

    let mut prev_len = file.len();
    let rounds = 200usize;
    for off in 0..=rounds {
        store.write(&mut file, off as u64, b"ABCDEFGHIJKLMNOPQRSTUVWXYZ0123456789").unwrap();
        assert!(store.size() == off as u64 + 36);
        // The log only grows: each write appends one record.
        assert_eq!(file.len(), prev_len + 19 + 36);
        prev_len = file.len();
    }
    let off = rounds;

    assert!(store.size() == off as u64 + 36);
    let mut contents = vec![0u8; store.size() as usize];
    store.read(&file, 0, &mut contents).unwrap();

    for i in 0..off {
        assert_eq!(contents[i], b'A');
    }
    assert_eq!(&contents[off..], b"ABCDEFGHIJKLMNOPQRSTUVWXYZ0123456789");

    let mut store = open_readonly(&file).unwrap();
    assert!(store.size() == off as u64 + 36);
    let mut reread_contents = vec![0u8; store.size() as usize];
    store.read(&file, 0, &mut reread_contents).unwrap();

    assert!(reread_contents == contents);
}
