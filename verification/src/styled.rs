use vstd::prelude::*;
use regex::Regex;
use vstd::std_specs::iter::IteratorSpec;
use vstd::string::StringSliceAdditionalSpecFns;
use crate::pattern::PatternId;
use crate::style::MarkStyle;

verus! {

/// One character of a line as it is drawn: the character, the patterns that
/// match at it, and the style that it is drawn in.
#[derive(Debug, Clone)]
pub struct StyledChar {
    pub c: char,
    /// For each pattern that matches here its number, with a number that
    /// tells the matches of one line apart. `None` where no pattern matches.
    pub matches: Option<Vec<(PatternId, usize)>>,
    pub style: MarkStyle,
}

/// What is noted at a character of a line: the patterns that match there
/// and the style.
pub struct StyledCharView {
    pub matches: Option<Seq<(PatternId, usize)>>,
    pub style: MarkStyle,
}

impl View for StyledChar {
    type V = StyledCharView;

    open spec fn view(&self) -> StyledCharView {
        StyledCharView {
            matches: match self.matches {
                Some(list) => Some(list@),
                None => None,
            },
            style: self.style,
        }
    }
}

/// The characters of a line.
pub open spec fn chars_of(line: Seq<StyledChar>) -> Seq<char> {
    Seq::new(line.len(), |i: int| line[i].c)
}

/// What is noted at the characters of a line.
pub open spec fn views(line: Seq<StyledChar>) -> Seq<StyledCharView>
    decreases line.len(),
{
    if line.len() == 0 {
        Seq::empty()
    } else {
        views(line.drop_last()).push(line.last()@)
    }
}

/// What is noted at a line is what is noted at its characters, one by one.
pub proof fn lemma_views(line: Seq<StyledChar>)
    ensures
        views(line).len() == line.len(),
        forall|i: int| 0 <= i < line.len() ==> #[trigger] views(line)[i] == line[i]@,
    decreases line.len(),
{
    if line.len() > 0 {
        lemma_views(line.drop_last());
        assert forall|i: int| 0 <= i < line.len() implies #[trigger] views(line)[i]
            == line[i]@ by {
            if i < line.len() - 1 {
                assert(line.drop_last()[i] == line[i]);
            }
        }
    }
}

/// For each match of `re` in `text`, in the order of the matches, where the
/// first group of the match starts and ends, in bytes; `None` for a match in
/// which the group took no part.
pub uninterp spec fn group_spans(re: Regex, text: Seq<u8>) -> Seq<Option<(usize, usize)>>;

/// `Regex::captures_iter`, with `Captures::get` for the first group of each
/// match and `Match::start` and `Match::end` for its place.
#[verifier::external_body]
pub(crate) fn regex_group_spans(re: &Regex, text: &str) -> (spans: Vec<Option<(usize, usize)>>)
    ensures
        spans@ == group_spans(*re, text.spec_bytes()),
{
    re.captures_iter(text).map(|found| found.get(1).map(|group| (group.start(), group.end()))).collect()
}

/// The number of bytes that a character takes in a line.
pub open spec fn utf8_len(c: char) -> int {
    if (c as u32) < 0x80 {
        1
    } else if (c as u32) < 0x800 {
        2
    } else if (c as u32) < 0x10000 {
        3
    } else {
        4
    }
}

/// The number of bytes that the first `n` characters of `text` take.
pub open spec fn bytes_of(text: Seq<char>, n: nat) -> int
    decreases n,
{
    if n == 0 {
        0
    } else {
        bytes_of(text, (n - 1) as nat) + utf8_len(text[n - 1])
    }
}

/// Characters take bytes: none takes less than one.
pub proof fn lemma_bytes_of(text: Seq<char>, n: nat)
    ensures
        bytes_of(text, n) >= n,
    decreases n,
{
    if n > 0 {
        lemma_bytes_of(text, (n - 1) as nat);
    }
}

/// The number of characters of `text` that are taken at all where at most
/// `limit` are wanted: all of them, or the first `limit`, but one at least.
pub open spec fn kept_chars(text: Seq<char>, limit: int) -> nat {
    if text.len() == 0 {
        0
    } else if limit <= 1 {
        1
    } else if text.len() < limit {
        text.len()
    } else {
        limit as nat
    }
}

/// The number of characters that are drawn: those that are taken, without a
/// newline at their end.
pub open spec fn shown_chars(text: Seq<char>, limit: int) -> nat {
    let kept = kept_chars(text, limit);
    if kept > 0 && text[kept - 1] == '\n' {
        (kept - 1) as nat
    } else {
        kept
    }
}

/// A line of `n` characters in the style `style`, with no pattern matching.
pub open spec fn plain(n: nat, style: MarkStyle) -> Seq<StyledCharView> {
    Seq::new(n, |i: int| StyledCharView { matches: None, style })
}

/// The character at position `i` once a match of pattern `id` covers it,
/// which is match number `num` of the line: it is drawn in the style of the
/// pattern. The first pattern at a character is noted with the number of the
/// match, each later one with the position of the character.
pub open spec fn marked(ch: StyledCharView, id: PatternId, style: MarkStyle, i: int, num: usize) -> StyledCharView {
    StyledCharView {
        matches: match ch.matches {
            Some(list) => Some(list.push((id, i as usize))),
            None => Some(seq![(id, num)]),
        },
        style,
    }
}

/// Position `i` of a line of `len` characters lies in the span.
pub open spec fn in_span(span: Option<(usize, usize)>, len: int, i: int) -> bool {
    match span {
        Some((start, end)) => start <= i < end && i < len,
        None => false,
    }
}

/// The line after the span of one match of pattern `id` was marked.
pub open spec fn paint_span(
    line: Seq<StyledCharView>,
    span: Option<(usize, usize)>,
    id: PatternId,
    style: MarkStyle,
    num: usize,
) -> Seq<StyledCharView> {
    Seq::new(
        line.len(),
        |i: int|
            if in_span(span, line.len() as int, i) {
                marked(line[i], id, style, i, num)
            } else {
                line[i]
            },
    )
}

/// The match number `first` moved on by `k` matches; it stays at the
/// greatest number once it has reached it.
pub open spec fn match_num(first: usize, k: int) -> usize {
    if first + k > usize::MAX {
        usize::MAX
    } else {
        (first + k) as usize
    }
}

/// The line after the first `k` matches of pattern `id` were marked, the
/// first of them being match number `first` of the line.
pub open spec fn paint_spans(
    line: Seq<StyledCharView>,
    spans: Seq<Option<(usize, usize)>>,
    k: nat,
    id: PatternId,
    style: MarkStyle,
    first: usize,
) -> Seq<StyledCharView>
    decreases k,
{
    if k == 0 {
        line
    } else {
        paint_span(
            paint_spans(line, spans, (k - 1) as nat, id, style, first),
            spans[k - 1],
            id,
            style,
            match_num(first, k - 1),
        )
    }
}

/// One of the first `k` spans covers a character of a line of `len`
/// characters.
pub open spec fn any_hit(spans: Seq<Option<(usize, usize)>>, k: nat, len: int) -> bool {
    exists|j: int, i: int| 0 <= j < k && #[trigger] in_span(spans[j], len, i)
}

/// The number of bytes that `c` takes in a line.
pub fn char_len(c: char) -> (len: usize)
    ensures
        len == utf8_len(c),
{
    let code = c as u32;
    if code < 0x80 {
        1
    } else if code < 0x800 {
        2
    } else if code < 0x10000 {
        3
    } else {
        4
    }
}

/// Marks the characters of the line that the span covers.
pub fn mark_span(
    line: &mut Vec<StyledChar>,
    span: Option<(usize, usize)>,
    id: PatternId,
    style: MarkStyle,
    num: usize,
) -> (hit: bool)
    ensures
        chars_of(final(line)@) == chars_of(old(line)@),
        views(final(line)@) == paint_span(views(old(line)@), span, id, style, num),
        hit == exists|i: int| in_span(span, old(line)@.len() as int, i),
{
    let (start, end) = match span {
        Some(span) => span,
        None => {
            proof {
                lemma_views(line@);
            }
            assert(views(line@) =~= paint_span(views(line@), span, id, style, num));
            return false;
        },
    };
    let len = line.len();
    let stop = if end < len {
        end
    } else {
        len
    };
    let mut i = start;
    let ghost before = views(line@);
    proof {
        lemma_views(line@);
    }
    while i < stop
        invariant
            line@.len() == len,
            before.len() == len,
            span == Some((start, end)),
            stop <= len,
            stop <= end,
            start <= i,
            i <= stop || i == start,
            chars_of(line@) == chars_of(old(line)@),
            forall|k: int|
                0 <= k < len ==> (#[trigger] line@[k])@ == if start <= k < i {
                    marked(before[k], id, style, k, num)
                } else {
                    before[k]
                },
        decreases stop - i,
    {
        let mut list = match line[i].matches.take() {
            Some(list) => {
                let mut list = list;
                list.push((id, i));
                list
            },
            None => {
                let mut list: Vec<(PatternId, usize)> = Vec::new();
                list.push((id, num));
                list
            },
        };
        let ghost chars = chars_of(line@);
        line[i].matches = Some(list);
        line[i].style = style;
        assert(chars_of(line@) =~= chars);
        i += 1;
    }
    proof {
        lemma_views(line@);
        assert forall|k: int| 0 <= k < len implies views(line@)[k] == paint_span(
            before,
            span,
            id,
            style,
            num,
        )[k] by {
            assert(views(line@)[k] == line@[k]@);
        }
        assert(views(line@) =~= paint_span(before, span, id, style, num));
        if start < stop {
            assert(in_span(span, len as int, start as int));
        }
    }
    start < stop
}

/// Marks the characters of the line that the matches of pattern `id` cover,
/// match by match; the first match is match number `first` of the line.
pub fn mark_spans(
    line: &mut Vec<StyledChar>,
    spans: &Vec<Option<(usize, usize)>>,
    id: PatternId,
    style: MarkStyle,
    first: usize,
) -> (hit: bool)
    ensures
        final(line)@.len() == old(line)@.len(),
        chars_of(final(line)@) == chars_of(old(line)@),
        views(final(line)@) == paint_spans(
            views(old(line)@),
            spans@,
            spans@.len(),
            id,
            style,
            first,
        ),
        hit == any_hit(spans@, spans@.len(), old(line)@.len() as int),
{
    let mut hit = false;
    let mut k: usize = 0;
    let ghost len = line@.len() as int;
    while k < spans.len()
        invariant
            k <= spans@.len(),
            line@.len() == len,
            len == old(line)@.len(),
            chars_of(line@) == chars_of(old(line)@),
            views(line@) == paint_spans(views(old(line)@), spans@, k as nat, id, style, first),
            hit == any_hit(spans@, k as nat, len),
        decreases spans@.len() - k,
    {
        let num = first.saturating_add(k);
        let ghost before = views(line@);
        proof {
            lemma_views(line@);
        }
        let here = mark_span(line, spans[k], id, style, num);
        proof {
            lemma_views(line@);
            assert(before.len() == len);
            if here {
                let i = choose|i: int| in_span(spans@[k as int], len, i);
                assert(in_span(spans@[k as int], len, i));
            }
            if any_hit(spans@, (k + 1) as nat, len) && !hit {
                let (j, i) = choose|j: int, i: int|
                    0 <= j < k + 1 && #[trigger] in_span(spans@[j], len, i);
                if j < k {
                    assert(in_span(spans@[j], len, i));
                }
            }
        }
        hit = hit || here;
        k += 1;
    }
    hit
}

/// The first characters of `line`: at most `limit` of them, but one at
/// least.
fn first_chars(line: &str, limit: usize) -> (chars: Vec<char>)
    ensures
        chars@ == line@.subrange(0, kept_chars(line@, limit as int) as int),
{
    let mut chars: Vec<char> = Vec::new();
    let mut it = line.chars();
    assert(it.remaining() == line@);
    assert(line@.subrange(0, line@.len() as int) == line@);
    assert(chars@ == line@.subrange(0, 0));
    loop
        invariant_except_break
            it.obeys_prophetic_iter_laws(),
            it.decrease() is Some,
            chars@.len() <= line@.len(),
            it.remaining() == line@.subrange(chars@.len() as int, line@.len() as int),
            chars@ == line@.subrange(0, chars@.len() as int),
            chars@.len() < limit || chars@.len() == 0,
        ensures
            chars@ == line@.subrange(0, kept_chars(line@, limit as int) as int),
        decreases it.decrease()->0,
    {
        let ghost n = chars@.len() as int;
        match it.next() {
            None => {
                assert(n == line@.len());
                break ;
            },
            Some(c) => {
                assert(c == line@[n]);
                chars.push(c);
                proof {
                    assert(chars@ == line@.subrange(0, n + 1));
                    assert(line@.subrange(n, line@.len() as int).drop_first() == line@.subrange(
                        n + 1,
                        line@.len() as int,
                    ));
                }
                if chars.len() >= limit {
                    break ;
                }
            },
        }
    }
    chars
}

/// Hands a character through. The verifier knows of the result that it is a
/// character, which it does not know of an element taken out of a sequence.
fn keep(c: char) -> (same: char)
    ensures
        same == c,
{
    c
}

/// Takes the characters of `line` as they are drawn before any pattern is
/// looked at: at most `limit` of them, but one at least, in the style
/// `style`, and without a newline at the end. Returns them with the number
/// of bytes that the characters taken had in the line, and whether `limit`
/// was reached.
pub fn plain_chars(line: &str, limit: usize, style: MarkStyle) -> (taken: (Vec<StyledChar>, usize, bool))
    ensures
        chars_of(taken.0@) == line@.subrange(0, shown_chars(line@, limit as int) as int),
        views(taken.0@) == plain(shown_chars(line@, limit as int), style),
        taken.1 == match_num(0, bytes_of(line@, kept_chars(line@, limit as int))),
        taken.2 == (line@.len() > 0 && kept_chars(line@, limit as int) >= limit),
{
    let chars = first_chars(line, limit);
    let kept = chars.len();
    let cropped = kept > 0 && kept >= limit;
    let shown = if kept > 0 && chars[kept - 1] == '\n' {
        kept - 1
    } else {
        kept
    };
    let mut pline: Vec<StyledChar> = Vec::new();
    let mut bytes: usize = 0;
    let mut i: usize = 0;
    proof {
        lemma_views(pline@);
        assert(views(pline@) =~= plain(0, style));
        assert(chars_of(pline@) =~= line@.subrange(0, 0));
    }
    while i < kept
        invariant
            kept == kept_chars(line@, limit as int),
            chars@ == line@.subrange(0, kept as int),
            shown <= kept,
            i <= kept,
            pline@.len() == if i < shown {
                i
            } else {
                shown
            },
            chars_of(pline@) == line@.subrange(0, pline@.len() as int),
            views(pline@) == plain(pline@.len() as nat, style),
            bytes == match_num(0, bytes_of(line@, i as nat)),
        decreases kept - i,
    {
        let c = keep(chars[i]);
        assert(c == line@[i as int]);
        proof {
            lemma_bytes_of(line@, i as nat);
        }
        bytes = bytes.saturating_add(char_len(c));
        if i < shown {
            let ghost before = pline@;
            pline.push(StyledChar { c, matches: None, style });
            proof {
                lemma_views(before);
                lemma_views(pline@);
                assert forall|k: int| 0 <= k < i + 1 implies views(pline@)[k] == plain(
                    (i + 1) as nat,
                    style,
                )[k] by {
                    if k < i {
                        assert(pline@[k] == before[k]);
                        assert(views(before)[k] == plain(i as nat, style)[k]);
                    }
                }
                assert(views(pline@) =~= plain((i + 1) as nat, style));
                assert(chars_of(pline@) =~= line@.subrange(0, i + 1)) by {
                    assert forall|k: int| 0 <= k < i + 1 implies chars_of(pline@)[k]
                        == line@.subrange(0, i + 1)[k] by {
                        if k < i {
                            assert(pline@[k] == before[k]);
                            assert(chars_of(before)[k] == before[k].c);
                        }
                    }
                }
            }
        }
        i += 1;
    }
    (pline, bytes, cropped)
}

} // verus!
