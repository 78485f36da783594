use syncless::{open, open_readonly};

const ALL_WRITES: usize = 3;

fn write_base_file(num_writes: usize) -> Vec<u8> {
    let mut file = Vec::new();
    let mut store = open(&mut file).unwrap();

    const WRITES: &[(u64, &[u8])] = &[(1, b"AB"), (2, b"C"), (1, b"D")];

    for &(off, data) in WRITES.iter().take(num_writes) {
        store.write(&mut file, off, data).unwrap();
    }
    file
}

fn read_contents(file: &[u8]) -> Vec<u8> {
    let mut store = open_readonly(file).unwrap();
    let mut buf = vec![0u8; store.size() as usize];
    store.read(file, 0, &mut buf).unwrap();
    buf
}

fn measure_boundaries() -> Vec<usize> {
    // Establish length of each record.
    let mut boundaries: Vec<usize> = Vec::new();
    for i in 0..=ALL_WRITES {
        boundaries.push(write_base_file(i).len());
    }
    boundaries
}

/// Given a (first) corrupted byte, how many records do we expect?
fn max_record(byte_corrupted: usize) -> usize {
    let boundaries = measure_boundaries();
    for (i, &boundary) in boundaries.iter().enumerate() {
        if byte_corrupted < boundary {
            return i - 1;
        }
    }
    return boundaries.len() - 1;
}

fn is_valid_result(buf: &[u8], records: usize) -> bool {
    const CONTENTS: &[&[u8]] = &[b"", b"\0AB", b"\0AC", b"\0DC"];
    return buf == CONTENTS[records];
}

#[test]
fn record_boundaries() {
    assert_eq!(measure_boundaries(), vec![12, 33, 53, 73]);
}

#[test]
fn single_bit_corruption() {
    let intact = write_base_file(ALL_WRITES);

    // Skip header (12 bytes: magic + version)
    for i in 12 * 8..intact.len() * 8 {
        let mut corrupted = intact.clone();

        // Flip a bit deterministically
        corrupted[i / 8] ^= 1 << i % 8;

        let result = read_contents(&corrupted);
        assert!(
            is_valid_result(&result, max_record(i / 8)),
            "bit flip at byte {} bit {} ({}->{}) produced invalid state: {:?}",
            i / 8,
            i % 8,
            corrupted[i / 8] ^ (1 << i % 8),
            corrupted[i / 8],
            result
        );
    }
}

#[test]
fn zero_each_nonzero_byte() {
    let intact = write_base_file(ALL_WRITES);

    // Exhaustive map of each non-zero byte is too large (34 bits)
    // so we only do one of the checksum bytes, so it's only 13 bits.

    // Layout:
    // header: 12
    // record 1: offset(8) len(3) data(2) csum(8)
    // record 2: offset(8) len(3) data(1) csum(8)
    // record 3: offset(8) len(3) data(1) csum(8)
    const HEADER_LEN: usize = 12;
    const OFFSET_LEN: usize = 8;
    const LEN_LEN: usize = 3;
    const CSUM_LEN: usize = 8;

    let csum_offsets = {
        let r1 = HEADER_LEN + OFFSET_LEN + LEN_LEN + 2;
        let r2 = r1 + CSUM_LEN + OFFSET_LEN + LEN_LEN + 1;
        let r3 = r2 + CSUM_LEN + OFFSET_LEN + LEN_LEN + 1;
        [r1, r2, r3]
    };

    let is_checksum_byte = |i: usize| csum_offsets.iter().any(|&off| i > off && i < off + CSUM_LEN);

    let nonzero_bytes: Vec<usize> = (HEADER_LEN..intact.len())
        .filter(|&i| !is_checksum_byte(i))
        .filter(|&i| intact[i] != 0)
        .collect();

    assert!(nonzero_bytes.len() < 16);

    // Now we do exhaustive possibilities.
    for mask in 0..1 << nonzero_bytes.len() {
        let mut corrupted = intact.clone();
        let mut first_corrupted = intact.len() + 1;

        for (bit, &idx) in nonzero_bytes.iter().enumerate() {
            if (mask & (1 << bit)) != 0 {
                corrupted[idx] = 0;
                if idx < first_corrupted {
                    first_corrupted = idx;
                }
            }
        }

        let result = read_contents(&corrupted);
        assert!(
            is_valid_result(&result, max_record(first_corrupted)),
            "zeroing mask {:b} (first corrupted byte {}, max record {}, boundaries {:?}) produced invalid state: {:?}",
            mask,
            first_corrupted,
            max_record(first_corrupted),
            measure_boundaries(),
            result
        );
    }
}

#[test]
fn truncation_at_any_prefix_is_handled() {
    let intact = write_base_file(ALL_WRITES);

    // Header must remain intact or open will fail.
    for len in 12..=intact.len() {
        let result = read_contents(&intact[..len]);
        assert!(
            is_valid_result(&result, max_record(len)),
            "invalid state after truncation to {} bytes: {:?}",
            len,
            result
        );
    }
}

#[test]
fn truncation_after_corruption_is_handled() {
    let intact = write_base_file(ALL_WRITES);

    for len in 13..intact.len() {
        let mut corrupted = intact[..len].to_vec();
        if let Some(b) = corrupted.last_mut() {
            *b = 0;
        }

        let result = read_contents(&corrupted);
        assert!(is_valid_result(&result, max_record(len - 1)));
    }
}

#[test]
fn truncated_store_can_be_appended_to() {
    let intact = write_base_file(ALL_WRITES);
    for len in 12..=intact.len() {
        let mut file = intact[..len].to_vec();
        let mut store = open(&mut file).unwrap();
        let kept = max_record(len);
        assert_eq!(store.file_size() as usize, measure_boundaries()[kept]);
        store.write(&mut file, 5, b"!").unwrap();
        let result = read_contents(&file[..store.file_size() as usize]);
        let expected: &[&[u8]] = &[b"\0\0\0\0\0!", b"\0AB\0\0!", b"\0AC\0\0!", b"\0DC\0\0!"];
        assert_eq!(result, expected[kept]);
    }
}
