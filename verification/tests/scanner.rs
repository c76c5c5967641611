use logrok::cache::SearchType;
use logrok::partition::split_file;
use logrok::search::FileSearch;
use regex::bytes::RegexSet;

const DATA: &[u8] = b"foo\nbar\nbaz\nqux\n";

fn scanner() -> FileSearch {
    FileSearch::new(split_file(DATA, 1), SearchType::max())
}

fn chunk(fs: &FileSearch, id: usize) -> &'static [u8] {
    let (start, end) = fs.get_split(id).unwrap();
    &DATA[start as usize..end as usize]
}

#[test]
fn search_type_indices() {
    assert_eq!(SearchType::Tag.as_ix(), 0);
    assert_eq!(SearchType::Search.as_ix(), 1);
    assert_eq!(SearchType::max(), 2);
}

#[test]
fn chunks_are_found_by_offset() {
    let fs = scanner();
    assert_eq!(fs.num_splits(), 4);
    assert_eq!(fs.max_split_len(), 4);
    assert_eq!(fs.get_split(0), Some((0, 4)));
    assert_eq!(fs.get_split(3), Some((12, 16)));
    assert_eq!(fs.get_split(4), None);
    assert_eq!(fs.find_split(0), Some(0));
    assert_eq!(fs.find_split(3), Some(0));
    assert_eq!(fs.find_split(4), Some(1));
    assert_eq!(fs.find_split(15), Some(3));
    assert_eq!(fs.find_split(16), None);
    assert_eq!(fs.find_split(u64::MAX), None);
}

#[test]
fn a_new_scanner_knows_that_nothing_matches() {
    let mut fs = scanner();
    for id in 0..4 {
        assert_eq!(fs.split_has_matches(0, id), Some(false));
        assert_eq!(fs.split_has_matches(1, id), Some(false));
    }
    assert!(fs.claim().is_none());
}

#[test]
fn new_patterns_make_every_chunk_wait() {
    let mut fs = scanner();
    fs.set_re(0, &RegexSet::new(["ba"]).unwrap());
    for id in 0..4 {
        assert_eq!(fs.split_has_matches(0, id), None);
        assert_eq!(fs.split_has_matches(1, id), Some(false));
    }
}

#[test]
fn workers_converge_on_direct_evaluation() {
    let mut fs = scanner();
    let set = RegexSet::new(["ba"]).unwrap();
    fs.set_re(0, &set);
    fs.set_re(1, &RegexSet::new(["qux"]).unwrap());
    let mut scans = 0;
    while let Some(job) = fs.claim() {
        let bytes = &DATA[job.start as usize..job.end as usize];
        let found = job.scan(bytes);
        assert!(fs.commit(job.ix, job.split_id, job.seq, found));
        scans += 1;
    }
    assert_eq!(scans, 8);
    for id in 0..4 {
        assert_eq!(fs.split_has_matches(0, id), Some(set.is_match(chunk(&fs, id))));
    }
    assert_eq!(fs.split_has_matches(0, 0), Some(false));
    assert_eq!(fs.split_has_matches(0, 1), Some(true));
    assert_eq!(fs.split_has_matches(0, 2), Some(true));
    assert_eq!(fs.split_has_matches(0, 3), Some(false));
    assert_eq!(fs.split_has_matches(1, 2), Some(false));
    assert_eq!(fs.split_has_matches(1, 3), Some(true));
}

#[test]
fn chunks_near_the_hint_are_scanned_first() {
    let mut fs = scanner();
    fs.set_re(0, &RegexSet::new(["x"]).unwrap());
    fs.set_current_split(2);
    assert_eq!(fs.search_next(0), Some(2));
    let first = fs.claim().unwrap();
    assert_eq!((first.ix, first.split_id, first.start, first.end), (0, 2, 8, 12));
    // 3 lies after the hint and as near as 1: it goes first
    assert_eq!(fs.search_next(0), Some(3));
    let second = fs.claim().unwrap();
    assert_eq!(second.split_id, 3);
    assert_eq!(fs.claim().unwrap().split_id, 1);
    assert_eq!(fs.claim().unwrap().split_id, 0);
    assert!(fs.claim().is_none());
    assert_eq!(fs.search_next(0), None);
}

#[test]
fn a_chunk_in_progress_is_not_handed_out_twice() {
    let mut fs = scanner();
    fs.set_re(0, &RegexSet::new(["x"]).unwrap());
    fs.set_re(1, &RegexSet::new(["y"]).unwrap());
    let mut seen = Vec::new();
    for _ in 0..4 {
        let job = fs.claim().unwrap();
        assert_eq!(job.ix, 0);
        seen.push(job.split_id);
    }
    seen.sort();
    assert_eq!(seen, vec![0, 1, 2, 3]);
    // class 1 waits for all chunks too, but all of them are taken
    assert!(fs.claim().is_none());
    assert!(fs.commit(0, 1, 1, false));
    let job = fs.claim().unwrap();
    assert_eq!((job.ix, job.split_id), (1, 1));
}

#[test]
fn a_result_for_old_patterns_is_dropped() {
    let mut fs = scanner();
    fs.set_re(0, &RegexSet::new(["foo"]).unwrap());
    let job = fs.claim().unwrap();
    assert_eq!(job.split_id, 0);
    assert_eq!(job.seq, 1);
    let found = job.scan(chunk(&fs, 0));
    assert!(found);
    fs.set_re(0, &RegexSet::new(["nothing"]).unwrap());
    assert!(!fs.commit(job.ix, job.split_id, job.seq, found));
    assert_eq!(fs.split_has_matches(0, 0), None);
    // the chunk is free again and scanned for the new patterns
    let again = fs.claim().unwrap();
    assert_eq!((again.split_id, again.seq), (0, 2));
    let found = again.scan(chunk(&fs, 0));
    assert!(fs.commit(again.ix, again.split_id, again.seq, found));
    assert_eq!(fs.split_has_matches(0, 0), Some(false));
}

#[test]
fn progress_counts_the_chunks_that_wait() {
    let mut fs = scanner();
    assert_eq!(fs.num_classes(), 2);
    assert_eq!(fs.get_progress(), vec![0, 0]);
    assert_eq!(fs.generation(0), 0);
    fs.set_re(0, &RegexSet::new(["a"]).unwrap());
    assert_eq!(fs.generation(0), 1);
    assert_eq!(fs.generation(1), 0);
    assert_eq!(fs.get_progress(), vec![4, 0]);
    let job = fs.claim().unwrap();
    assert_eq!(fs.get_progress(), vec![4, 0]);
    fs.commit(job.ix, job.split_id, job.seq, false);
    assert_eq!(fs.get_progress(), vec![3, 0]);
    fs.set_re(1, &RegexSet::new(["b"]).unwrap());
    assert_eq!(fs.get_progress(), vec![3, 4]);
    while let Some(job) = fs.claim() {
        fs.commit(job.ix, job.split_id, job.seq, true);
    }
    assert_eq!(fs.get_progress(), vec![0, 0]);
}
