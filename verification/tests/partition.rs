use logrok::partition::split_file;

fn check_partition(data: &[u8], chunk: u64) -> Vec<u64> {
    let bounds = split_file(data, chunk);
    assert!(!bounds.is_empty());
    assert_eq!(*bounds.last().unwrap(), data.len() as u64);
    for w in bounds.windows(2) {
        assert!(w[0] < w[1]);
    }
    let mut prev = 0u64;
    let mut joined: Vec<u8> = Vec::new();
    for (i, &end) in bounds.iter().enumerate() {
        if i + 1 < bounds.len() {
            assert_eq!(data[end as usize - 1], b'\n');
            assert!(end - 1 >= prev + chunk);
            assert!(!data[(prev + chunk) as usize..end as usize - 1].contains(&b'\n'));
        }
        joined.extend_from_slice(&data[prev as usize..end as usize]);
        prev = end;
    }
    assert_eq!(joined, data);
    bounds
}

#[test]
fn split_small_file_is_one_chunk() {
    assert_eq!(check_partition(b"foo\nbar\nbaz\n", 1048576), vec![12]);
}

#[test]
fn split_empty_file() {
    assert_eq!(check_partition(b"", 16), vec![0]);
    assert_eq!(check_partition(b"", 0), vec![0]);
}

#[test]
fn split_cuts_after_first_newline_at_or_after_target() {
    // offsets:      0123 4567 89ab
    let data = b"foo\nbar\nbaz\n";
    assert_eq!(check_partition(data, 0), vec![4, 8, 12]);
    assert_eq!(check_partition(data, 1), vec![4, 8, 12]);
    assert_eq!(check_partition(data, 3), vec![4, 8, 12]);
    assert_eq!(check_partition(data, 4), vec![8, 12]);
    assert_eq!(check_partition(data, 7), vec![8, 12]);
    assert_eq!(check_partition(data, 8), vec![12]);
    assert_eq!(check_partition(data, 11), vec![12]);
    assert_eq!(check_partition(data, 12), vec![12]);
    assert_eq!(check_partition(data, u64::MAX), vec![12]);
}

#[test]
fn split_without_trailing_newline() {
    assert_eq!(check_partition(b"foo\nbar\nba", 2), vec![4, 8, 10]);
    assert_eq!(check_partition(b"no newline at all", 4), vec![17]);
}

#[test]
fn split_newline_as_last_byte_gives_no_empty_chunk() {
    assert_eq!(check_partition(b"a\n", 1), vec![2]);
    assert_eq!(check_partition(b"aa\nbb\n", 2), vec![3, 6]);
}

#[test]
fn split_many_sizes_keep_the_invariant() {
    let mut data: Vec<u8> = Vec::new();
    for i in 0..500u32 {
        for _ in 0..(i % 7) {
            data.push(b'a' + (i % 26) as u8);
        }
        data.push(b'\n');
    }
    data.extend_from_slice(b"tail");
    for chunk in 0..64u64 {
        check_partition(&data, chunk);
    }
    check_partition(&data, 1000);
    check_partition(&data, data.len() as u64 - 1);
}

fn split_piecewise(data: &[u8], chunk: u64, block: usize) -> Vec<u64> {
    let mut splitter = logrok::partition::Splitter::new(chunk);
    loop {
        let from = splitter.wanted();
        if from >= data.len() as u64 {
            break;
        }
        let from = from as usize;
        let to = (from + block).min(data.len());
        splitter.feed(&data[from..to]);
    }
    splitter.finish(data.len() as u64)
}

#[test]
fn splitting_piece_by_piece_gives_the_same_partition() {
    let mut data: Vec<u8> = Vec::new();
    for i in 0..300u32 {
        for _ in 0..(i % 11) {
            data.push(b'a' + (i % 26) as u8);
        }
        data.push(b'\n');
    }
    data.extend_from_slice(b"tail without newline");
    for chunk in [0u64, 1, 2, 7, 64, 500, 5000] {
        let whole = split_file(&data, chunk);
        for block in [1usize, 2, 3, 16, 4096] {
            assert_eq!(split_piecewise(&data, chunk, block), whole);
        }
    }
    assert_eq!(split_piecewise(b"a\n", 1, 1), vec![2]);
    assert_eq!(split_piecewise(b"", 1, 1), vec![0]);
}

#[test]
fn the_splitter_reads_only_around_the_cuts() {
    let data = b"0123456789\n0123456789\n0123456789\n";
    let mut splitter = logrok::partition::Splitter::new(8);
    assert_eq!(splitter.wanted(), 8);
    assert_eq!(splitter.feed(&data[8..10]), None);
    assert_eq!(splitter.wanted(), 10);
    assert_eq!(splitter.feed(&data[10..14]), Some(0));
    assert_eq!(splitter.wanted(), 19);
    assert_eq!(splitter.feed(&data[19..]), Some(2));
    assert_eq!(splitter.wanted(), 30);
    assert_eq!(splitter.feed(&data[30..]), Some(2));
    assert_eq!(splitter.wanted(), 41);
    assert_eq!(splitter.finish(33), vec![11, 22, 33]);
}

#[test]
fn the_splitter_stops_at_the_greatest_offset() {
    let mut splitter = logrok::partition::Splitter::new(u64::MAX - 1);
    assert_eq!(splitter.wanted(), u64::MAX - 1);
    assert_eq!(splitter.feed(b"\n"), Some(0));
    assert_eq!(splitter.wanted(), u64::MAX);
    assert_eq!(splitter.finish(u64::MAX), vec![u64::MAX]);
    let mut splitter = logrok::partition::Splitter::new(u64::MAX - 2);
    assert_eq!(splitter.feed(b"\n"), Some(0));
    assert_eq!(splitter.wanted(), u64::MAX);
    assert_eq!(splitter.finish(u64::MAX), vec![u64::MAX - 1, u64::MAX]);
}
