use logrok::cache::{SearchType, SplitCache};
use logrok::partition::split_file;
use logrok::pattern::{MatchType, PatternMode, PatternSet};
use logrok::search::FileSearch;
use logrok::split::{scan_line_ends, Split};
use logrok::style::{MarkStyle, MarkType};
use std::sync::Arc;

fn cache_of(data: &[u8], chunk: u64, nsplits: usize) -> SplitCache {
    SplitCache::new(FileSearch::new(split_file(data, chunk), SearchType::max()), nsplits)
}

fn fetch(sc: &mut SplitCache, data: &[u8], id: usize, ps: &PatternSet) -> (Arc<Split>, bool) {
    match sc.get(id, ps) {
        Some(split) => (split, false),
        None => {
            let (start, end) = sc.get_split(id).unwrap();
            (sc.load(id, data[start as usize..end as usize].to_vec(), ps), true)
        }
    }
}

#[test]
fn test_split_cache() {
    let data = b"a striped-8 line\nan allocd-12 line\nbaz\n";
    let mark_style = MarkStyle::new();
    let mut ps = PatternSet::new(mark_style.clone());

    ps.add("striped-8", MatchType::SmallWord, mark_style.get(MarkType::Mark), PatternMode::Tagging)
        .unwrap();
    ps.add("allocd-12", MatchType::SmallWord, mark_style.get(MarkType::Mark), PatternMode::Hiding)
        .unwrap();
    ps.add("baz", MatchType::SmallWord, mark_style.get(MarkType::Mark), PatternMode::Marking)
        .unwrap();

    let mut sc = cache_of(data, 1048576, 100);
    let (split, _) = fetch(&mut sc, data, 0, &ps);
    assert_eq!(split.tagged_lines, vec![0]);
    assert_eq!(split.hidden_lines, vec![1]);
}

#[test]
fn line_ends_of_a_chunk() {
    assert_eq!(scan_line_ends(b"foo\nbar\nbaz\n"), vec![4, 8, 12]);
    assert_eq!(scan_line_ends(b"foo\nba"), vec![4, 6]);
    assert_eq!(scan_line_ends(b"\n\n"), vec![1, 2]);
    assert_eq!(scan_line_ends(b"x"), vec![1]);
    assert_eq!(scan_line_ends(b""), Vec::<usize>::new());
}

#[test]
fn a_line_without_newline_is_tested_whole() {
    let mut ps = PatternSet::new(MarkStyle::new());
    ps.add("baz", MatchType::Text, MarkStyle::new(), PatternMode::Search).unwrap();
    let split = Split::parse(b"foo\nbaz".to_vec(), &ps);
    assert_eq!(split.line_ends, vec![4, 7]);
    assert_eq!(split.search_lines, vec![1]);
    assert_eq!(split.pattern_seq, ps.seq);
}

#[test]
fn the_newline_is_no_part_of_the_line() {
    let mut ps = PatternSet::new(MarkStyle::new());
    ps.add("o\n", MatchType::Text, MarkStyle::new(), PatternMode::Tagging).unwrap();
    ps.add("^bar$", MatchType::Regex, MarkStyle::new(), PatternMode::Hiding).unwrap();
    let split = Split::parse(b"foo\nbar\n".to_vec(), &ps);
    assert_eq!(split.tagged_lines, Vec::<usize>::new());
    assert_eq!(split.hidden_lines, vec![1]);
}

#[test]
fn a_miss_asks_for_the_bytes_and_a_hit_does_not() {
    let data = b"foo\nbar\nbaz\n";
    let ps = PatternSet::new(MarkStyle::new());
    let mut sc = cache_of(data, 1048576, 2);
    assert_eq!(sc.num_splits(), 1);
    assert!(sc.get(0, &ps).is_none());
    let (first, loaded) = fetch(&mut sc, data, 0, &ps);
    assert!(loaded);
    assert_eq!(first.buf, data.to_vec());
    assert_eq!(first.line_ends, vec![4, 8, 12]);
    let (again, loaded) = fetch(&mut sc, data, 0, &ps);
    assert!(!loaded);
    assert!(Arc::ptr_eq(&first, &again));
}

#[test]
fn generation_change_refreshes_without_a_read() {
    let data = b"foo\nbar\nbaz\n";
    let mut ps = PatternSet::new(MarkStyle::new());
    let mut sc = cache_of(data, 1048576, 2);
    let (before, loaded) = fetch(&mut sc, data, 0, &ps);
    assert!(loaded);
    assert_eq!(before.hidden_lines, Vec::<usize>::new());
    ps.add("bar", MatchType::Text, MarkStyle::new(), PatternMode::Hiding).unwrap();
    // `before` is still held: the refresh copies and leaves it alone
    let after = sc.get(0, &ps).expect("cached bytes are used again");
    assert_eq!(after.hidden_lines, vec![1]);
    assert_eq!(after.line_ends, vec![4, 8, 12]);
    assert_eq!(after.pattern_seq, ps.seq);
    assert_eq!(before.hidden_lines, Vec::<usize>::new());
    drop(before);
    drop(after);
    ps.add("baz", MatchType::Text, MarkStyle::new(), PatternMode::Hiding).unwrap();
    // no one else holds the chunk now: it is refreshed in place
    let last = sc.get(0, &ps).unwrap();
    assert_eq!(last.hidden_lines, vec![1, 2]);
}

#[test]
fn the_chunk_used_longest_ago_is_evicted() {
    let data = b"a\nb\nc\nd\n";
    let ps = PatternSet::new(MarkStyle::new());
    let mut sc = cache_of(data, 1, 2);
    assert_eq!(sc.num_splits(), 4);
    assert!(fetch(&mut sc, data, 0, &ps).1);
    assert!(fetch(&mut sc, data, 1, &ps).1);
    // 0 is used again, so 1 is the one used longest ago
    assert!(!fetch(&mut sc, data, 0, &ps).1);
    assert!(fetch(&mut sc, data, 2, &ps).1);
    assert!(sc.get(1, &ps).is_none());
    assert!(sc.get(0, &ps).is_some());
    assert!(sc.get(2, &ps).is_some());
}

#[test]
fn reload_after_eviction_gives_the_same_lists() {
    let data = b"tag me\nhide me\nfind me\nplain\n";
    let mut ps = PatternSet::new(MarkStyle::new());
    ps.add("tag", MatchType::Text, MarkStyle::new(), PatternMode::Tagging).unwrap();
    ps.add("hide", MatchType::Text, MarkStyle::new(), PatternMode::Hiding).unwrap();
    ps.add("find", MatchType::Text, MarkStyle::new(), PatternMode::Search).unwrap();
    let mut sc = cache_of(data, 8, 1);
    assert_eq!(sc.num_splits(), 2);
    let (first, _) = fetch(&mut sc, data, 0, &ps);
    let lists = (
        first.line_ends.clone(),
        first.tagged_lines.clone(),
        first.search_lines.clone(),
        first.hidden_lines.clone(),
    );
    assert_eq!(lists, (vec![7, 15], vec![0], vec![], vec![1]));
    drop(first);
    assert!(fetch(&mut sc, data, 1, &ps).1);
    let (again, loaded) = fetch(&mut sc, data, 0, &ps);
    assert!(loaded);
    assert_eq!(
        (
            again.line_ends.clone(),
            again.tagged_lines.clone(),
            again.search_lines.clone(),
            again.hidden_lines.clone()
        ),
        lists
    );
}

#[test]
fn patterns_reach_the_scanner_by_class() {
    let data = b"foo\nbar\n";
    let mut ps = PatternSet::new(MarkStyle::new());
    ps.add("foo", MatchType::Text, MarkStyle::new(), PatternMode::Tagging).unwrap();
    ps.add("bar", MatchType::Text, MarkStyle::new(), PatternMode::Search).unwrap();
    let mut sc = cache_of(data, 1, 4);
    assert_eq!(sc.has_matches(SearchType::Tag, 0), Some(false));
    sc.set_re(SearchType::Tag, &ps);
    sc.set_re(SearchType::Search, &ps);
    assert_eq!(sc.has_matches(SearchType::Tag, 0), None);
    sc.set_current_split(1);
    while let Some(job) = sc.claim() {
        let found = job.scan(&data[job.start as usize..job.end as usize]);
        sc.commit(job.ix, job.split_id, job.seq, found);
    }
    assert_eq!(sc.has_matches(SearchType::Tag, 0), Some(true));
    assert_eq!(sc.has_matches(SearchType::Tag, 1), Some(false));
    assert_eq!(sc.has_matches(SearchType::Search, 0), Some(false));
    assert_eq!(sc.has_matches(SearchType::Search, 1), Some(true));
    assert_eq!(sc.get_file_search().split_has_matches(1, 1), Some(true));
    assert_eq!(sc.find_split(5), Some(1));
}
