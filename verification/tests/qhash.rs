use logrok::qhash::{check, generate, generate_with_len, make_intervals, QHash};

#[test]
fn test_qhash_intervals() {
    for filesize in 1..200000 {
        let intervals = make_intervals(filesize);
        println!("File size: {}, Intervals: {:?}", filesize, intervals);
        assert_eq!(intervals[0].0, 0);
        let last = intervals.last().unwrap();
        assert_eq!(last.0 + last.1 as u64, filesize);
        for i in 0..intervals.len() - 1 {
            let (start, len) = intervals[i];
            let (next_start, _) = intervals[i + 1];
            assert!(start + len as u64 <= next_start);
        }
    }
}

#[test]
fn intervals_of_an_empty_file() {
    assert_eq!(make_intervals(0), vec![]);
}

#[test]
fn intervals_of_a_small_file_lie_one_after_the_other() {
    assert_eq!(make_intervals(1), vec![(0, 1)]);
    assert_eq!(make_intervals(500), vec![(0, 500)]);
    assert_eq!(make_intervals(501), vec![(0, 251), (251, 250)]);
    assert_eq!(make_intervals(1200), vec![(0, 400), (400, 400), (800, 400)]);
    let whole = make_intervals(10000);
    assert_eq!(whole.len(), 20);
    assert_eq!(whole[19], (9500, 500));
}

#[test]
fn intervals_of_a_large_file_are_spread_evenly() {
    let v = make_intervals(10001);
    assert_eq!(v.len(), 19);
    assert_eq!(v[0], (0, 500));
    assert_eq!(v[1], (527, 500));
    assert_eq!(v[18], (9502, 499));
    let v = make_intervals(18499);
    assert_eq!(v[1], (1000, 500));
    assert_eq!(v[17], (17000, 500));
    assert_eq!(v[18], (18000, 499));
}

#[test]
fn intervals_of_the_largest_file() {
    let v = make_intervals(u64::MAX);
    assert_eq!(v.len(), 19);
    assert_eq!(v[0], (0, 500));
    let last = v[18];
    assert_eq!(last.0 + last.1 as u64, u64::MAX);
}

fn samples(data: &[u8], as_for: u64) -> Vec<Vec<u8>> {
    make_intervals(as_for)
        .into_iter()
        .map(|(start, len)| data[start as usize..start as usize + len].to_vec())
        .collect()
}

#[test]
fn digest_is_md5_of_the_samples_in_order() {
    assert_eq!(generate_with_len(&vec![]), md5::compute(b"").0);
    assert_eq!(
        generate_with_len(&vec![b"ab".to_vec(), b"".to_vec(), b"c".to_vec()]),
        md5::compute(b"abc").0
    );
    assert_eq!(
        generate_with_len(&vec![b"abc".to_vec()]),
        [0x90, 0x01, 0x50, 0x98, 0x3c, 0xd2, 0x4f, 0xb0, 0xd6, 0x96, 0x3f, 0x7d, 0x28, 0xe1, 0x7f, 0x72]
    );
    assert_ne!(
        generate_with_len(&vec![b"ab".to_vec(), b"c".to_vec()]),
        generate_with_len(&vec![b"c".to_vec(), b"ab".to_vec()])
    );
}

#[test]
fn fingerprint_recognizes_a_file_that_grew() {
    let mut data: Vec<u8> = (0..12000u32).map(|i| (i % 251) as u8).collect();
    let size = data.len() as u64;
    let qhash = generate(size, &None, &samples(&data, size));
    assert_eq!(qhash.filesize, 12000);
    assert!(check(size, &qhash, &samples(&data, qhash.filesize)));
    assert!(qhash.fits(12000) && qhash.fits(12001) && !qhash.fits(11999));
    assert!(qhash.has_hash(&qhash.hash.clone()));
    data.extend_from_slice(b"more lines\n");
    assert!(check(data.len() as u64, &qhash, &samples(&data, qhash.filesize)));
    // a smaller file is another file, whatever the samples say
    assert!(!check(size - 1, &qhash, &samples(&data, qhash.filesize)));
    data[0] ^= 1;
    assert!(!check(data.len() as u64, &qhash, &samples(&data, qhash.filesize)));
    // with the size unchanged the old fingerprint is kept
    let old = Some(QHash { filesize: data.len() as u64, hash: [7; 16] });
    let kept = generate(data.len() as u64, &old, &samples(&data, data.len() as u64));
    assert_eq!(kept.hash, [7; 16]);
    let fresh = generate(data.len() as u64, &Some(qhash.clone()), &samples(&data, data.len() as u64));
    assert_ne!(fresh.hash, qhash.hash);
    assert_eq!(fresh.filesize, data.len() as u64);
}
