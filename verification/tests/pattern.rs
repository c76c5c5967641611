use logrok::matcher::PatternError;
use logrok::pattern::{MatchType, PatternMode, PatternSet};
use logrok::style::{MarkStyle, MarkType};

#[test]
fn delimiters_by_kind() {
    assert_eq!(MatchType::BigWord.delimiter(), " \t");
    assert_eq!(MatchType::SmallWord.delimiter(), " \t:.,\"';()[]{}<>=+-*/&|^~!@#$%?");
    assert_eq!(MatchType::Text.delimiter(), "");
    assert_eq!(MatchType::Regex.delimiter(), "");
}

#[test]
fn sources_by_kind() {
    assert_eq!(MatchType::Text.build_re("a.b"), "(a\\.b)");
    assert_eq!(MatchType::Regex.build_re("a.b"), "(a.b)");
    assert_eq!(MatchType::BigWord.build_re("x+y"), "(?:[\t ]|^|\n)(x\\+y)(?:$|\n|[\t ])");
    assert_eq!(
        MatchType::SmallWord.build_re("a-b"),
        "(?:[\t :.,\"';()\\[\\]{}<>=+\\-*/&|^~!@#$%?]|^|\n)(a\\-b)(?:$|\n|[\t :.,\"';()\\[\\]{}<>=+\\-*/&|^~!@#$%?])"
    );
    assert_eq!(MatchType::Text.build_re(""), "()");
    assert_eq!(
        MatchType::Text.build_re("\\.+*?()|[]{}^$#&-~%/!"),
        "(\\\\\\.\\+\\*\\?\\(\\)\\|\\[\\]\\{\\}\\^\\$\\#\\&\\-\\~%/!)"
    );
}

#[test]
fn sources_compile_and_match_as_meant() {
    let small = regex::Regex::new(&MatchType::SmallWord.build_re("err")).unwrap();
    assert!(small.is_match("an err, here"));
    assert!(small.is_match("err"));
    assert!(small.is_match("(err)"));
    assert!(!small.is_match("error"));
    let big = regex::Regex::new(&MatchType::BigWord.build_re("err")).unwrap();
    assert!(big.is_match("an err here"));
    assert!(!big.is_match("an err, here"));
    let text = regex::Regex::new(&MatchType::Text.build_re("a.c")).unwrap();
    assert!(text.is_match("xa.cx"));
    assert!(!text.is_match("abc"));
}

#[test]
fn patterns_get_the_generation_as_number() {
    let mut ps = PatternSet::new(MarkStyle::new());
    assert_eq!(ps.seq, 1);
    assert!(!ps.tagged_re.is_match(b""));
    let a = ps.add("foo", MatchType::Text, MarkStyle::new(), PatternMode::Tagging).unwrap();
    assert_eq!((a, ps.seq), (1, 2));
    let b = ps.add("bar", MatchType::Text, MarkStyle::new().get(MarkType::Hide), PatternMode::Hiding).unwrap();
    assert_eq!((b, ps.seq), (2, 3));
    assert!(ps.is_tagging(a) && !ps.is_hiding(a));
    assert!(ps.is_hiding(b) && !ps.is_tagging(b));
    assert_eq!(ps.get(b).pattern, "bar");
    assert_eq!(ps.get(b).style, MarkStyle { variant: MarkType::Hide, index: 0 });
    assert_eq!(ps.get(b).match_type, MatchType::Text);
    assert!(ps.get(b).regex().is_match("a bar"));
    assert!(ps.get_tagged_re().is_match(b"a foo"));
    assert!(!ps.get_tagged_re().is_match(b"a bar"));
    assert!(ps.get_hidden_re().is_match(b"a bar"));
    assert!(!ps.get_search_re().is_match(b"a bar"));
}

#[test]
fn removing_and_changing_patterns_rebuilds_the_sets() {
    let mut ps = PatternSet::new(MarkStyle::new());
    let a = ps.add("foo", MatchType::Text, MarkStyle::new(), PatternMode::Tagging).unwrap();
    let b = ps.add("bar", MatchType::Text, MarkStyle::new(), PatternMode::Tagging).unwrap();
    ps.with(a, "fo+", MatchType::Regex, MarkStyle::new(), PatternMode::Search).unwrap();
    assert_eq!(ps.seq, 4);
    assert_eq!(ps.get(a).mode, PatternMode::Search);
    assert!(ps.search_re.is_match(b"fooo"));
    assert!(!ps.tagged_re.is_match(b"fooo"));
    assert!(ps.tagged_re.is_match(b"bar"));
    ps.remove(b).unwrap();
    assert_eq!(ps.seq, 5);
    assert!(!ps.tagged_re.is_match(b"bar"));
    assert_eq!(ps.get(a).pattern, "fo+");
    let c = ps.add("x", MatchType::Text, MarkStyle::new(), PatternMode::Marking).unwrap();
    assert_eq!(c, 5);
}

#[test]
fn a_pattern_that_does_not_compile_is_refused() {
    let mut ps = PatternSet::new(MarkStyle::new());
    let a = ps.add("ok", MatchType::Text, MarkStyle::new(), PatternMode::Hiding).unwrap();
    let refused = ps.add("(", MatchType::Regex, MarkStyle::new(), PatternMode::Hiding);
    assert!(matches!(refused, Err(PatternError::Syntax(_))));
    assert_eq!(ps.seq, 2);
    assert!(ps.hidden_re.is_match(b"ok"));
    let refused = ps.with(a, "[", MatchType::Regex, MarkStyle::new(), PatternMode::Hiding);
    assert!(matches!(refused, Err(PatternError::Syntax(_))));
    assert_eq!(ps.get(a).pattern, "ok");
    let huge = "a{1000}{1000}{1000}";
    let refused = ps.add(huge, MatchType::Regex, MarkStyle::new(), PatternMode::Hiding);
    assert!(matches!(refused, Err(PatternError::TooBig(_))));
    assert_eq!(ps.seq, 2);
    // taken literally the same text is fine
    assert!(ps.add("(", MatchType::Text, MarkStyle::new(), PatternMode::Hiding).is_ok());
}

#[test]
fn styles_cycle() {
    let mut s = MarkStyle::new();
    assert_eq!(s, MarkStyle { variant: MarkType::Plain, index: 0 });
    s.cycle_forward();
    s.cycle_forward();
    assert_eq!(s.index, 2);
    assert_eq!(s.slot(7), 2);
    assert_eq!(s.slot(2), 0);
    s.cycle_backward();
    s.cycle_backward();
    s.cycle_backward();
    assert_eq!(s.index, -1);
    assert_eq!(s.slot(7), 6);
    assert_eq!(s.slot(1), 0);
    let t = s.get(MarkType::Tag);
    assert_eq!(t, MarkStyle { variant: MarkType::Tag, index: -1 });
    assert_eq!(MarkStyle { variant: MarkType::Mark, index: -7 }.slot(7), 0);
    assert_eq!(MarkStyle { variant: MarkType::Mark, index: -8 }.slot(7), 6);
    let mut top = MarkStyle { variant: MarkType::Mark, index: isize::MAX };
    top.cycle_forward();
    assert_eq!(top.index, 0);
    let mut bottom = MarkStyle { variant: MarkType::Mark, index: isize::MIN };
    assert_eq!(bottom.slot(7), (7 - 1 - (isize::MAX as usize) % 7) as usize);
    bottom.cycle_backward();
    assert_eq!(bottom.index, 0);
    assert_eq!(MarkType::Plain.as_ix(), 0);
    assert_eq!(MarkType::Search.as_ix(), 4);
}

fn styles(line: &[logrok::styled::StyledChar]) -> Vec<MarkType> {
    line.iter().map(|c| c.style.variant).collect()
}

fn text(line: &[logrok::styled::StyledChar]) -> String {
    line.iter().map(|c| c.c).collect()
}

#[test]
fn a_line_without_patterns_is_plain() {
    let ps = PatternSet::new(MarkStyle::new().get(MarkType::Tag));
    let (chars, matches, cropped) = ps.process_line("foo bar\n", None);
    assert_eq!(text(&chars), "foo bar");
    assert!(chars.iter().all(|c| c.matches.is_none() && c.style.variant == MarkType::Tag));
    assert_eq!(matches, Vec::<usize>::new());
    assert!(!cropped);
    let (chars, matches, cropped) = ps.process_line("", Some(3));
    assert!(chars.is_empty() && matches.is_empty() && !cropped);
}

#[test]
fn lines_are_cropped() {
    let ps = PatternSet::new(MarkStyle::new());
    let (chars, _, cropped) = ps.process_line("hello world\n", Some(5));
    assert_eq!(text(&chars), "hello");
    assert!(cropped);
    let (chars, _, cropped) = ps.process_line("hello\n", Some(6));
    assert_eq!(text(&chars), "hello");
    assert!(cropped);
    let (chars, _, cropped) = ps.process_line("hello\n", Some(7));
    assert_eq!(text(&chars), "hello");
    assert!(!cropped);
    let (chars, _, cropped) = ps.process_line("hello", Some(0));
    assert_eq!(text(&chars), "h");
    assert!(cropped);
    let (chars, _, _) = ps.process_line("a\nb", None);
    assert_eq!(text(&chars), "a\nb");
}

#[test]
fn matches_are_marked_longest_pattern_first() {
    let mut ps = PatternSet::new(MarkStyle::new());
    let long = ps.add("foobar", MatchType::Text, MarkStyle::new().get(MarkType::Mark), PatternMode::Marking).unwrap();
    let short = ps.add("bar", MatchType::Text, MarkStyle::new().get(MarkType::Tag), PatternMode::Tagging).unwrap();
    let none = ps.add("zzz", MatchType::Text, MarkStyle::new().get(MarkType::Hide), PatternMode::Hiding).unwrap();
    assert_eq!((long, short, none), (1, 2, 3));
    let (chars, matches, _) = ps.process_line("a foobar bar\n", None);
    assert_eq!(text(&chars), "a foobar bar");
    // the shorter pattern is marked later and wins where both match
    assert_eq!(
        styles(&chars),
        vec![
            MarkType::Plain,
            MarkType::Plain,
            MarkType::Mark,
            MarkType::Mark,
            MarkType::Mark,
            MarkType::Tag,
            MarkType::Tag,
            MarkType::Tag,
            MarkType::Plain,
            MarkType::Tag,
            MarkType::Tag,
            MarkType::Tag,
        ]
    );
    assert_eq!(matches, vec![1, 2]);
    assert_eq!(chars[0].matches, None);
    // "foobar" is match 0 of the line
    assert_eq!(chars[2].matches, Some(vec![(1, 0)]));
    // "bar" comes second at a character: it is noted with the position
    assert_eq!(chars[5].matches, Some(vec![(1, 0), (2, 5)]));
    // the matches of "bar" are matches 1 and 2 of the line
    assert_eq!(chars[9].matches, Some(vec![(2, 2)]));
    assert_eq!(chars[11].matches, Some(vec![(2, 2)]));
}

#[test]
fn patterns_of_equal_length_are_marked_latest_first() {
    let mut ps = PatternSet::new(MarkStyle::new());
    ps.add("ab", MatchType::Text, MarkStyle::new().get(MarkType::Mark), PatternMode::Marking).unwrap();
    ps.add("bc", MatchType::Text, MarkStyle::new().get(MarkType::Tag), PatternMode::Tagging).unwrap();
    let (chars, matches, _) = ps.process_line("abc", None);
    assert_eq!(styles(&chars), vec![MarkType::Mark, MarkType::Mark, MarkType::Tag]);
    assert_eq!(chars[1].matches, Some(vec![(2, 0), (1, 1)]));
    assert_eq!(matches, vec![1, 2]);
}

#[test]
fn a_match_over_the_crop_is_marked_up_to_it() {
    let mut ps = PatternSet::new(MarkStyle::new());
    ps.add("lo wo", MatchType::Text, MarkStyle::new().get(MarkType::Mark), PatternMode::Marking).unwrap();
    ps.add("world", MatchType::Text, MarkStyle::new().get(MarkType::Tag), PatternMode::Tagging).unwrap();
    let (chars, matches, cropped) = ps.process_line("hello world\n", Some(5));
    assert_eq!(styles(&chars), vec![MarkType::Plain, MarkType::Plain, MarkType::Plain, MarkType::Mark, MarkType::Mark]);
    assert_eq!(matches, vec![1]);
    assert!(cropped);
}

#[test]
fn text_that_is_not_ascii_is_cut_at_whole_characters() {
    let mut ps = PatternSet::new(MarkStyle::new());
    ps.add("x", MatchType::Text, MarkStyle::new().get(MarkType::Mark), PatternMode::Marking).unwrap();
    // one character is kept, one byte more is looked at: no whole character
    let (chars, matches, cropped) = ps.process_line("a\u{e4}x", Some(1));
    assert_eq!(text(&chars), "a");
    assert!(matches.is_empty() && cropped);
    let (chars, _, _) = ps.process_line("\u{e4}\u{20ac}\u{1f600}x", None);
    assert_eq!(text(&chars), "\u{e4}\u{20ac}\u{1f600}x");
    assert_eq!(logrok::styled::char_len('a'), 1);
    assert_eq!(logrok::styled::char_len('\u{e4}'), 2);
    assert_eq!(logrok::styled::char_len('\u{20ac}'), 3);
    assert_eq!(logrok::styled::char_len('\u{1f600}'), 4);
}

#[test]
fn a_copy_of_the_set_keeps_its_patterns() {
    let mut ps = PatternSet::new(MarkStyle::new());
    let a = ps.add("fo+", MatchType::Regex, MarkStyle::new(), PatternMode::Tagging).unwrap();
    let copy = ps.clone();
    ps.remove(a).unwrap();
    assert!(!ps.contains(a));
    assert!(copy.contains(a));
    assert_eq!(copy.seq, 2);
    assert_eq!(copy.get(a).pattern, "fo+");
    assert!(copy.get(a).regex().is_match("xfoo"));
    assert!(copy.tagged_re.is_match(b"foo"));
    assert!(!ps.tagged_re.is_match(b"foo"));
    let (chars, matches, _) = copy.process_line("a foo", None);
    assert_eq!(matches, vec![a]);
    assert_eq!(chars[2].matches, Some(vec![(a, 0)]));
}
