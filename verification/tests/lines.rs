use logrok::cache::{SearchType, SplitCache};
use logrok::lines::{DisplayMode, Fetched, Lines, Located, Verdict, Walk};
use logrok::partition::split_file;
use logrok::pattern::{MatchType, PatternMode, PatternSet};
use logrok::search::FileSearch;
use logrok::style::{MarkStyle, MarkType};

const FILE: &[u8] = b"foo\nbar\nbaz\n";

fn open(data: &[u8], chunk: u64, nsplits: usize) -> Lines {
    Lines::new(SplitCache::new(
        FileSearch::new(split_file(data, chunk), SearchType::max()),
        nsplits,
    ))
}

fn scan_all(lines: &mut Lines, data: &[u8]) {
    while let Some(job) = lines.claim() {
        let found = job.scan(&data[job.start as usize..job.end as usize]);
        lines.commit(job.ix, job.split_id, job.seq, found);
    }
}

fn load(lines: &mut Lines, data: &[u8], split: usize, ps: &PatternSet) {
    let (start, end) = lines.get_file_search().get_split(split).unwrap();
    lines.load(split, data[start as usize..end as usize].to_vec(), ps);
}

fn update(lines: &mut Lines, data: &[u8], ps: &PatternSet) {
    lines.update_patterns(SearchType::Tag, ps);
    lines.update_patterns(SearchType::Search, ps);
    scan_all(lines, data);
}

fn drive(
    lines: &mut Lines,
    data: &[u8],
    ps: &PatternSet,
    forward: bool,
    st: SearchType,
    line_id: u64,
    mode: DisplayMode,
    inclusive: bool,
) -> (Option<u64>, usize) {
    let (mut from, mut incl) = (line_id, inclusive);
    let mut loads = 0;
    loop {
        let walk = if forward {
            lines.next_line(st, from, ps, mode, incl)
        } else {
            lines.prev_line(st, from, ps, mode, incl)
        };
        match walk {
            Walk::Found(id) => return (Some(id), loads),
            Walk::NotFound => return (None, loads),
            Walk::Load { split, resume, inclusive } => {
                load(lines, data, split, ps);
                loads += 1;
                from = resume;
                incl = inclusive;
            }
            Walk::Await { resume, inclusive, .. } => {
                scan_all(lines, data);
                from = resume;
                incl = inclusive;
            }
        }
    }
}

fn next(lines: &mut Lines, data: &[u8], ps: &PatternSet, st: SearchType, id: u64, mode: DisplayMode, incl: bool) -> Option<u64> {
    drive(lines, data, ps, true, st, id, mode, incl).0
}

fn prev(lines: &mut Lines, data: &[u8], ps: &PatternSet, st: SearchType, id: u64, mode: DisplayMode, incl: bool) -> Option<u64> {
    drive(lines, data, ps, false, st, id, mode, incl).0
}

fn patterns(list: &[(&str, PatternMode)]) -> PatternSet {
    let mut ps = PatternSet::new(MarkStyle::new());
    for (text, mode) in list {
        ps.add(text, MatchType::Text, MarkStyle::new(), *mode).unwrap();
    }
    ps
}

#[test]
fn hidden_line_is_skipped_in_both_directions() {
    let ps = patterns(&[("bar", PatternMode::Hiding)]);
    let mut lines = open(FILE, 1048576, 50);
    update(&mut lines, FILE, &ps);
    assert_eq!(next(&mut lines, FILE, &ps, SearchType::Tag, 0, DisplayMode::Normal, false), Some(8));
    assert_eq!(prev(&mut lines, FILE, &ps, SearchType::Tag, 8, DisplayMode::Normal, false), Some(0));
}

#[test]
fn any_byte_of_a_line_names_the_line() {
    let ps = patterns(&[]);
    let mut lines = open(FILE, 1048576, 50);
    update(&mut lines, FILE, &ps);
    for id in 4..8 {
        assert_eq!(next(&mut lines, FILE, &ps, SearchType::Tag, id, DisplayMode::All, true), Some(4));
        assert_eq!(next(&mut lines, FILE, &ps, SearchType::Tag, id, DisplayMode::All, false), Some(8));
        assert_eq!(prev(&mut lines, FILE, &ps, SearchType::Tag, id, DisplayMode::All, true), Some(4));
        assert_eq!(prev(&mut lines, FILE, &ps, SearchType::Tag, id, DisplayMode::All, false), Some(0));
    }
}

#[test]
fn walks_end_at_both_ends_of_the_file() {
    let ps = patterns(&[]);
    let mut lines = open(FILE, 1048576, 50);
    update(&mut lines, FILE, &ps);
    assert_eq!(next(&mut lines, FILE, &ps, SearchType::Tag, 8, DisplayMode::All, false), None);
    assert_eq!(next(&mut lines, FILE, &ps, SearchType::Tag, 11, DisplayMode::All, false), None);
    assert_eq!(prev(&mut lines, FILE, &ps, SearchType::Tag, 0, DisplayMode::All, false), None);
    assert_eq!(prev(&mut lines, FILE, &ps, SearchType::Tag, 3, DisplayMode::All, false), None);
    assert_eq!(next(&mut lines, FILE, &ps, SearchType::Tag, 12, DisplayMode::All, true), None);
    assert_eq!(prev(&mut lines, FILE, &ps, SearchType::Tag, 12, DisplayMode::All, true), None);
    assert_eq!(next(&mut lines, FILE, &ps, SearchType::Tag, u64::MAX, DisplayMode::All, true), None);
    assert_eq!(lines.last_line_id(), 11);
}

#[test]
fn an_empty_file_has_no_line() {
    let ps = patterns(&[]);
    let mut lines = open(b"", 16, 2);
    assert_eq!(lines.next_line(SearchType::Tag, 0, &ps, DisplayMode::All, true), Walk::NotFound);
    assert_eq!(lines.prev_line(SearchType::Tag, 0, &ps, DisplayMode::All, true), Walk::NotFound);
    assert_eq!(lines.is_filtered_line(0, DisplayMode::All, &ps), None);
}

#[test]
fn walks_cross_chunk_boundaries() {
    let ps = patterns(&[]);
    let mut lines = open(FILE, 1, 50);
    update(&mut lines, FILE, &ps);
    assert_eq!(lines.get_file_search().num_splits(), 3);
    assert_eq!(next(&mut lines, FILE, &ps, SearchType::Tag, 0, DisplayMode::All, false), Some(4));
    assert_eq!(next(&mut lines, FILE, &ps, SearchType::Tag, 4, DisplayMode::All, false), Some(8));
    assert_eq!(next(&mut lines, FILE, &ps, SearchType::Tag, 8, DisplayMode::All, false), None);
    assert_eq!(prev(&mut lines, FILE, &ps, SearchType::Tag, 8, DisplayMode::All, false), Some(4));
    assert_eq!(prev(&mut lines, FILE, &ps, SearchType::Tag, 4, DisplayMode::All, false), Some(0));
    assert_eq!(prev(&mut lines, FILE, &ps, SearchType::Tag, 0, DisplayMode::All, false), None);
}

#[test]
fn walking_back_into_a_chunk_starts_at_its_last_line() {
    //            0   4   8   12  16
    let data = b"aa\nbb\ncc\ndd\nee\n";
    let ps = patterns(&[("dd", PatternMode::Hiding)]);
    let mut lines = open(data, 4, 50);
    update(&mut lines, data, &ps);
    assert_eq!(lines.get_file_search().num_splits(), 3);
    assert_eq!(lines.get_file_search().get_split(1), Some((6, 12)));
    // line ee is the first of chunk 2; the line before it that is shown is cc
    assert_eq!(prev(&mut lines, data, &ps, SearchType::Tag, 12, DisplayMode::Normal, false), Some(6));
    assert_eq!(prev(&mut lines, data, &ps, SearchType::Tag, 12, DisplayMode::All, false), Some(9));
    assert_eq!(prev(&mut lines, data, &ps, SearchType::Tag, 6, DisplayMode::All, false), Some(3));
}

#[test]
fn search_result_is_shown_though_hidden() {
    let ps = patterns(&[("bar", PatternMode::Hiding), ("ar", PatternMode::Search)]);
    let mut lines = open(FILE, 1048576, 50);
    update(&mut lines, FILE, &ps);
    lines.toggle_hide(4);
    for mode in [DisplayMode::Normal, DisplayMode::Tagged, DisplayMode::Manual, DisplayMode::All] {
        assert_eq!(next(&mut lines, FILE, &ps, SearchType::Tag, 0, mode, false), Some(4));
        assert_eq!(lines.is_filtered_line(5, mode, &ps), Some(false));
    }
    assert_eq!(next(&mut lines, FILE, &ps, SearchType::Search, 0, DisplayMode::Normal, true), Some(4));
    assert_eq!(next(&mut lines, FILE, &ps, SearchType::Search, 4, DisplayMode::Normal, false), None);
    assert_eq!(prev(&mut lines, FILE, &ps, SearchType::Search, 11, DisplayMode::Normal, true), Some(4));
}

#[test]
fn toggle_twice_restores() {
    let mut lines = open(FILE, 1048576, 50);
    assert!(!lines.is_hidden(4));
    lines.toggle_hide(4);
    assert!(lines.is_hidden(4));
    assert!(!lines.is_hidden(0));
    assert!(!lines.is_tagged(4));
    lines.toggle_hide(4);
    assert!(!lines.is_hidden(4));
    lines.toggle_tag(8);
    lines.toggle_tag(0);
    lines.toggle_tag(4);
    assert!(lines.is_tagged(0) && lines.is_tagged(4) && lines.is_tagged(8));
    lines.toggle_tag(4);
    assert!(lines.is_tagged(0) && !lines.is_tagged(4) && lines.is_tagged(8));
    lines.toggle_tag(4);
    lines.toggle_tag(4);
    assert!(!lines.is_tagged(4));
}

#[test]
fn modes_filter_lines() {
    let ps = patterns(&[("foo", PatternMode::Tagging), ("baz", PatternMode::Hiding)]);
    let mut lines = open(FILE, 1048576, 50);
    update(&mut lines, FILE, &ps);
    lines.toggle_tag(4);
    lines.toggle_hide(0);
    let shown = |lines: &mut Lines, mode: DisplayMode| -> Vec<u64> {
        let mut out = Vec::new();
        let mut at = next(lines, FILE, &ps, SearchType::Tag, 0, mode, true);
        while let Some(id) = at {
            out.push(id);
            at = next(lines, FILE, &ps, SearchType::Tag, id, mode, false);
        }
        out
    };
    assert_eq!(shown(&mut lines, DisplayMode::All), vec![0, 4, 8]);
    assert_eq!(shown(&mut lines, DisplayMode::Normal), vec![4]);
    assert_eq!(shown(&mut lines, DisplayMode::Tagged), vec![0, 4]);
    assert_eq!(shown(&mut lines, DisplayMode::Manual), vec![4]);
    assert_eq!(lines.is_filtered_line(0, DisplayMode::Normal, &ps), Some(true));
    assert_eq!(lines.is_filtered_line(0, DisplayMode::Tagged, &ps), Some(false));
    assert_eq!(lines.is_filtered_line(9, DisplayMode::Normal, &ps), Some(true));
    assert_eq!(lines.is_filtered_line(9, DisplayMode::All, &ps), Some(false));
    assert_eq!(lines.is_filtered_line(12, DisplayMode::All, &ps), None);
}

#[test]
fn skipped_chunks_are_not_loaded() {
    let mut data: Vec<u8> = Vec::new();
    for i in 0..20 {
        data.extend_from_slice(format!("line {:02}\n", i).as_bytes());
    }
    let ps = patterns(&[("line 17", PatternMode::Search)]);
    let mut lines = open(&data, 1, 50);
    assert_eq!(lines.get_file_search().num_splits(), 20);
    update(&mut lines, &data, &ps);
    let (found, loads) =
        drive(&mut lines, &data, &ps, true, SearchType::Search, 0, DisplayMode::Normal, false);
    assert_eq!(found, Some(17 * 8));
    // the chunk of the start and the chunk of the match, none between
    assert_eq!(loads, 2);
    let (found, loads) =
        drive(&mut lines, &data, &ps, false, SearchType::Search, 159, DisplayMode::Normal, false);
    assert_eq!(found, Some(17 * 8));
    assert_eq!(loads, 1);
    assert_eq!(lines.skip_split(SearchType::Search, 3, 24, 32, DisplayMode::Normal), Verdict::Skip);
    assert_eq!(lines.skip_split(SearchType::Search, 17, 136, 144, DisplayMode::Normal), Verdict::Keep);
    assert_eq!(lines.skip_split(SearchType::Tag, 3, 24, 32, DisplayMode::Normal), Verdict::Keep);
    assert_eq!(lines.skip_split(SearchType::Tag, 3, 24, 32, DisplayMode::Manual), Verdict::Skip);
    assert_eq!(lines.skip_split(SearchType::Tag, 3, 24, 32, DisplayMode::Tagged), Verdict::Skip);
    lines.toggle_tag(24);
    assert_eq!(lines.skip_split(SearchType::Tag, 3, 24, 32, DisplayMode::Manual), Verdict::Keep);
    assert_eq!(lines.skip_split(SearchType::Tag, 3, 24, 32, DisplayMode::Tagged), Verdict::Keep);
    assert_eq!(lines.skip_split(SearchType::Tag, 2, 16, 24, DisplayMode::Tagged), Verdict::Skip);
}

#[test]
fn a_walk_longer_than_the_cache_ends() {
    let mut data: Vec<u8> = Vec::new();
    for i in 0..20 {
        data.extend_from_slice(format!("line {:02}\n", i).as_bytes());
    }
    let ps = patterns(&[("line 0", PatternMode::Hiding), ("line 1", PatternMode::Hiding)]);
    let mut lines = open(&data, 1, 2);
    update(&mut lines, &data, &ps);
    // all chunks are kept in this mode and have to be looked at
    let (found, loads) =
        drive(&mut lines, &data, &ps, true, SearchType::Tag, 0, DisplayMode::Normal, true);
    assert_eq!(found, None);
    assert_eq!(loads, 20);
    let (found, _) =
        drive(&mut lines, &data, &ps, false, SearchType::Tag, 159, DisplayMode::Normal, true);
    assert_eq!(found, None);
}

#[test]
fn a_walk_waits_for_the_scanner_and_for_chunks() {
    let ps = patterns(&[("baz", PatternMode::Tagging)]);
    let mut lines = open(FILE, 1, 50);
    assert_eq!(
        lines.next_line(SearchType::Tag, 1, &ps, DisplayMode::Tagged, true),
        Walk::Load { split: 0, resume: 1, inclusive: true }
    );
    load(&mut lines, FILE, 0, &ps);
    lines.update_patterns(SearchType::Search, &ps);
    assert_eq!(
        lines.next_line(SearchType::Tag, 1, &ps, DisplayMode::Tagged, false),
        Walk::Await { st: SearchType::Search, split: 1, resume: 4, inclusive: true }
    );
    assert_eq!(
        lines.next_line(SearchType::Tag, 1, &ps, DisplayMode::Tagged, true),
        Walk::Await { st: SearchType::Search, split: 0, resume: 1, inclusive: true }
    );
    lines.update_patterns(SearchType::Tag, &ps);
    // the scan for tags comes first, so only that one is done here
    for _ in 0..3 {
        let job = lines.claim().unwrap();
        assert_eq!(job.ix, 0);
        let found = job.scan(&FILE[job.start as usize..job.end as usize]);
        lines.commit(job.ix, job.split_id, job.seq, found);
    }
    assert!(matches!(
        lines.next_line(SearchType::Tag, 1, &ps, DisplayMode::Tagged, true),
        Walk::Await { st: SearchType::Search, .. }
    ));
    scan_all(&mut lines, FILE);
    assert_eq!(
        lines.next_line(SearchType::Tag, 1, &ps, DisplayMode::Tagged, true),
        Walk::Load { split: 2, resume: 8, inclusive: true }
    );
    assert_eq!(
        lines.prev_line(SearchType::Tag, 1, &ps, DisplayMode::Tagged, true),
        Walk::NotFound
    );
    load(&mut lines, FILE, 2, &ps);
    assert_eq!(lines.next_line(SearchType::Tag, 1, &ps, DisplayMode::Tagged, true), Walk::Found(8));
    assert_eq!(
        lines.prev_line(SearchType::Tag, 11, &ps, DisplayMode::All, false),
        Walk::Load { split: 1, resume: 7, inclusive: true }
    );
}

#[test]
fn resolve_finds_chunk_and_line() {
    let ps = patterns(&[]);
    let mut lines = open(FILE, 4, 50);
    assert!(matches!(lines.resolve_line_id(9, &ps), Located::Missing { split_id: 1 }));
    load(&mut lines, FILE, 1, &ps);
    match lines.resolve_line_id(9, &ps) {
        Located::At { split_id, split_start, split, line_ix } => {
            assert_eq!((split_id, split_start, line_ix), (1, 8, 0));
            assert_eq!(split.buf, b"baz\n".to_vec());
        }
        _ => panic!("line 9 lies in chunk 1"),
    }
    assert!(matches!(lines.resolve_line_id(12, &ps), Located::Outside));
    lines.set_current_line(9);
    lines.update_patterns(SearchType::Tag, &ps);
    assert_eq!(lines.claim().unwrap().split_id, 1);
}

#[test]
fn a_line_is_fetched_with_its_marks() {
    let data = b"foo\nbar baz\n\xff\xfe\n";
    let mut ps = PatternSet::new(MarkStyle::new());
    ps.add("baz", MatchType::Text, MarkStyle::new().get(MarkType::Mark), PatternMode::Marking).unwrap();
    let mut lines = open(data, 1, 50);
    assert!(matches!(lines.get(6, &ps, None), Fetched::Missing { split_id: 1 }));
    load(&mut lines, data, 1, &ps);
    match lines.get(6, &ps, None) {
        Fetched::Line(line) => {
            assert_eq!(line.line_id, 4);
            assert_eq!(line.chars.iter().map(|c| c.c).collect::<String>(), "bar baz");
            assert_eq!(line.chars[3].style.variant, MarkType::Plain);
            assert_eq!(line.chars[4].style.variant, MarkType::Mark);
            assert_eq!(line.matches, vec![1]);
            assert!(!line.cropped);
        }
        other => panic!("line 4 is cached: {:?}", other),
    }
    match lines.get(4, &ps, Some(2)) {
        Fetched::Line(line) => {
            assert_eq!(line.chars.len(), 2);
            assert!(line.cropped);
        }
        other => panic!("line 4 is cached: {:?}", other),
    }
    load(&mut lines, data, 2, &ps);
    assert!(matches!(lines.get(13, &ps, None), Fetched::NotText { line_id: 12 }));
    assert!(matches!(lines.get(15, &ps, None), Fetched::Outside));
}

#[test]
fn progress_of_the_scan_is_seen_through_the_navigator() {
    let ps = patterns(&[("bar", PatternMode::Search)]);
    let mut lines = open(FILE, 1, 50);
    assert_eq!(lines.get_progress(), vec![0, 0]);
    lines.update_patterns(SearchType::Search, &ps);
    assert_eq!(lines.get_progress(), vec![0, 3]);
    scan_all(&mut lines, FILE);
    assert_eq!(lines.get_progress(), vec![0, 0]);
    assert_eq!(lines.get_file_search().split_has_matches(1, 1), Some(true));
}

#[test]
fn chunks_without_an_answer_are_pending() {
    let ps = patterns(&[("baz", PatternMode::Tagging)]);
    let mut lines = open(FILE, 1, 50);
    assert_eq!(lines.skip_split(SearchType::Tag, 1, 4, 8, DisplayMode::Tagged), Verdict::Skip);
    lines.update_patterns(SearchType::Tag, &ps);
    assert_eq!(
        lines.skip_split(SearchType::Tag, 1, 4, 8, DisplayMode::Tagged),
        Verdict::Pending(SearchType::Tag)
    );
    assert_eq!(lines.skip_split(SearchType::Tag, 1, 4, 8, DisplayMode::Normal), Verdict::Keep);
    lines.update_patterns(SearchType::Search, &ps);
    assert_eq!(
        lines.skip_split(SearchType::Tag, 1, 4, 8, DisplayMode::Normal),
        Verdict::Pending(SearchType::Search)
    );
    scan_all(&mut lines, FILE);
    assert_eq!(lines.skip_split(SearchType::Tag, 1, 4, 8, DisplayMode::Tagged), Verdict::Skip);
    assert_eq!(lines.skip_split(SearchType::Tag, 2, 8, 12, DisplayMode::Tagged), Verdict::Keep);
}
