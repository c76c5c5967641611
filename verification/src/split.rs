use vstd::prelude::*;
use vstd::slice::slice_subrange;
use regex::bytes::RegexSet;
use crate::matcher::{set_is_match, set_matches};
use crate::partition::{find_byte, NEWLINE};
use crate::pattern::{LineSets, PatternId, PatternSet};

verus! {

/// The parsed content of one chunk: its bytes, where its lines end, and which
/// of its lines the patterns of generation `pattern_seq` tag, find or hide.
/// Lines are counted from 0 inside the chunk.
#[derive(Debug)]
pub struct Split {
    pub pattern_seq: PatternId,
    pub buf: Vec<u8>,
    pub line_ends: Vec<usize>,
    pub tagged_lines: Vec<usize>,
    pub search_lines: Vec<usize>,
    pub hidden_lines: Vec<usize>,
}

/// A `Split` as plain values.
pub struct SplitView {
    pub pattern_seq: PatternId,
    pub buf: Seq<u8>,
    pub line_ends: Seq<usize>,
    pub tagged_lines: Seq<usize>,
    pub search_lines: Seq<usize>,
    pub hidden_lines: Seq<usize>,
}

impl View for Split {
    type V = SplitView;

    open spec fn view(&self) -> SplitView {
        SplitView {
            pattern_seq: self.pattern_seq,
            buf: self.buf@,
            line_ends: self.line_ends@,
            tagged_lines: self.tagged_lines@,
            search_lines: self.search_lines@,
            hidden_lines: self.hidden_lines@,
        }
    }
}

/// The offsets just after each newline among the first `n` bytes.
pub open spec fn newline_ends(buf: Seq<u8>, n: nat) -> Seq<usize>
    decreases n,
{
    if n == 0 {
        Seq::empty()
    } else {
        let before = newline_ends(buf, (n - 1) as nat);
        if buf[n - 1] == NEWLINE {
            before.push(n as usize)
        } else {
            before
        }
    }
}

/// Where the lines of a chunk end: just after each newline, and at the end
/// of the chunk where its last line has no newline.
pub open spec fn line_ends_of(buf: Seq<u8>) -> Seq<usize> {
    let full = newline_ends(buf, buf.len());
    if buf.len() > 0 && buf.last() != NEWLINE {
        full.push(buf.len() as usize)
    } else {
        full
    }
}

/// Where line `i` starts.
pub open spec fn line_start(ends: Seq<usize>, i: int) -> int {
    if i <= 0 {
        0
    } else {
        ends[i - 1] as int
    }
}

/// Where the text of line `i` ends: before the newline, if the line has one.
pub open spec fn text_end(buf: Seq<u8>, ends: Seq<usize>, i: int) -> int {
    if buf[ends[i] - 1] == NEWLINE {
        ends[i] - 1
    } else {
        ends[i] as int
    }
}

/// The text of line `i`, without the newline that ends it.
pub open spec fn line_text(buf: Seq<u8>, ends: Seq<usize>, i: int) -> Seq<u8> {
    buf.subrange(line_start(ends, i), text_end(buf, ends, i))
}

/// The lines among the first `n` whose text `set` matches, in order.
pub open spec fn matching_lines(buf: Seq<u8>, ends: Seq<usize>, set: RegexSet, n: nat) -> Seq<
    usize,
>
    decreases n,
{
    if n == 0 {
        Seq::empty()
    } else {
        let before = matching_lines(buf, ends, set, (n - 1) as nat);
        if set_matches(set, line_text(buf, ends, n - 1)) {
            before.push((n - 1) as usize)
        } else {
            before
        }
    }
}

/// What parsing the bytes `buf` for the patterns `sets` of generation `seq`
/// gives.
pub open spec fn parsed(buf: Seq<u8>, seq: PatternId, sets: LineSets) -> SplitView {
    let ends = line_ends_of(buf);
    SplitView {
        pattern_seq: seq,
        buf,
        line_ends: ends,
        tagged_lines: matching_lines(buf, ends, sets.tagged, ends.len()),
        search_lines: matching_lines(buf, ends, sets.search, ends.len()),
        hidden_lines: matching_lines(buf, ends, sets.hidden, ends.len()),
    }
}

impl SplitView {
    /// The line table is the one of the bytes.
    pub open spec fn well_formed(self) -> bool {
        &&& self.buf.len() <= usize::MAX
        &&& self.line_ends == line_ends_of(self.buf)
    }

    /// The three lists are what `sets` gives on the lines.
    pub open spec fn annotated_by(self, sets: LineSets) -> bool {
        self == parsed(self.buf, self.pattern_seq, sets)
    }

    /// Line `i`, which is not filtered by itself, counts as a search result.
    pub open spec fn is_search_line(self, i: int) -> bool {
        self.search_lines.contains(i as usize)
    }
}

/// Finds where the lines of a chunk end.
pub fn scan_line_ends(buf: &[u8]) -> (line_ends: Vec<usize>)
    ensures
        line_ends@ == line_ends_of(buf@),
{
    let buflen = buf.len();
    let mut line_ends: Vec<usize> = Vec::new();
    let mut start: usize = 0;
    loop
        invariant
            buflen == buf@.len(),
            start <= buflen,
            line_ends@ == newline_ends(buf@, start as nat),
            start > 0 ==> buf@[start - 1] == NEWLINE,
        ensures
            start <= buflen,
            line_ends@ == newline_ends(buf@, buflen as nat),
            start > 0 ==> buf@[start - 1] == NEWLINE,
            forall|k: int| start <= k < buflen ==> buf@[k] != NEWLINE,
        decreases buflen - start,
    {
        let tail = slice_subrange(buf, start, buflen);
        match find_byte(NEWLINE, tail) {
            None => {
                proof {
                    assert forall|k: int| start <= k < buflen implies buf@[k] != NEWLINE by {
                        assert(tail@[k - start] == buf@[k]);
                    }
                    lemma_newline_ends_skip(buf@, start as nat, buflen as nat);
                }
                break ;
            },
            Some(line_end) => {
                proof {
                    assert(tail@[line_end as int] == buf@[start + line_end]);
                    assert forall|k: int| start <= k < start + line_end implies buf@[k]
                        != NEWLINE by {
                        assert(tail@[k - start] == buf@[k]);
                    }
                    lemma_newline_ends_skip(buf@, start as nat, (start + line_end) as nat);
                }
                line_ends.push(start + line_end + 1);
                start += line_end + 1;
            },
        }
    }
    if start < buflen {
        line_ends.push(buflen);
    }
    line_ends
}

impl Split {
    /// Parses the bytes of a chunk: finds its lines and tests each against
    /// the three sets of `patterns`.
    pub fn parse(buf: Vec<u8>, patterns: &PatternSet) -> (split: Split)
        ensures
            split@ == parsed(buf@, patterns.seq, patterns.sets()),
    {
        let line_ends = scan_line_ends(buf.as_slice());
        let mut split = Split {
            pattern_seq: patterns.seq,
            buf,
            line_ends,
            tagged_lines: Vec::new(),
            search_lines: Vec::new(),
            hidden_lines: Vec::new(),
        };
        assert(split.buf@.len() == split.buf.len());
        split.annotate(patterns);
        split
    }

    /// The line that holds the byte at offset `rel` of the chunk.
    pub fn line_at(&self, rel: usize) -> (i: usize)
        requires
            self@.well_formed(),
            rel < self.buf@.len(),
        ensures
            i < self.line_ends@.len(),
            line_start(self.line_ends@, i as int) <= rel < self.line_ends@[i as int],
    {
        proof {
            lemma_line_table(self.buf@);
        }
        let mut lo: usize = 0;
        let mut hi: usize = self.line_ends.len() - 1;
        while lo < hi
            invariant
                self@.well_formed(),
                lo <= hi < self.line_ends@.len(),
                rel < self.line_ends@[hi as int],
                line_start(self.line_ends@, lo as int) <= rel,
            decreases hi - lo,
        {
            let mid = lo + (hi - lo) / 2;
            if rel < self.line_ends[mid] {
                hi = mid;
            } else {
                lo = mid + 1;
            }
        }
        lo
    }

    /// Tests each line anew against the three sets of `patterns` and takes
    /// on their generation. Bytes and line table stay.
    pub fn annotate(&mut self, patterns: &PatternSet)
        requires
            old(self)@.well_formed(),
        ensures
            final(self)@ == parsed(old(self)@.buf, patterns.seq, patterns.sets()),
    {
        let n = self.line_ends.len();
        let mut start: usize = 0;
        let mut tagged_lines: Vec<usize> = Vec::new();
        let mut search_lines: Vec<usize> = Vec::new();
        let mut hidden_lines: Vec<usize> = Vec::new();
        let mut i: usize = 0;
        proof {
            lemma_line_table(self.buf@);
        }
        while i < n
            invariant
                *self == *old(self),
                self@.well_formed(),
                n == self.line_ends@.len(),
                i <= n,
                start == line_start(self.line_ends@, i as int),
                tagged_lines@ == matching_lines(
                    self.buf@,
                    self.line_ends@,
                    patterns.tagged_re,
                    i as nat,
                ),
                search_lines@ == matching_lines(
                    self.buf@,
                    self.line_ends@,
                    patterns.search_re,
                    i as nat,
                ),
                hidden_lines@ == matching_lines(
                    self.buf@,
                    self.line_ends@,
                    patterns.hidden_re,
                    i as nat,
                ),
            decreases n - i,
        {
            proof {
                lemma_line_table(self.buf@);
            }
            let end = self.line_ends[i];
            let stop = if self.buf[end - 1] == NEWLINE {
                end - 1
            } else {
                end
            };
            let text = slice_subrange(self.buf.as_slice(), start, stop);
            assert(text@ == line_text(self.buf@, self.line_ends@, i as int));
            if set_is_match(&patterns.tagged_re, text) {
                tagged_lines.push(i);
            }
            if set_is_match(&patterns.hidden_re, text) {
                hidden_lines.push(i);
            }
            if set_is_match(&patterns.search_re, text) {
                search_lines.push(i);
            }
            start = end;
            i += 1;
        }
        self.pattern_seq = patterns.seq;
        self.tagged_lines = tagged_lines;
        self.search_lines = search_lines;
        self.hidden_lines = hidden_lines;
    }
}

/// The numbers of the list strictly increase.
pub open spec fn increasing(list: Seq<usize>) -> bool {
    forall|i: int, j: int| 0 <= i < j < list.len() ==> list[i] < list[j]
}

/// In a list of numbers above 0 that strictly increase, the number at
/// position `i` lies above `i`.
proof fn lemma_increasing_from(list: Seq<usize>, i: int)
    requires
        increasing(list),
        0 <= i < list.len(),
        list[0] > 0,
    ensures
        list[i] > i,
    decreases i,
{
    if i > 0 {
        lemma_increasing_from(list, i - 1);
        assert(list[i - 1] < list[i]);
    }
}

/// The three lists of a parsed chunk strictly increase, and no line of it
/// ends after its bytes.
pub proof fn lemma_parsed_ordered(buf: Seq<u8>, seq: PatternId, sets: LineSets)
    requires
        buf.len() <= usize::MAX,
    ensures
        increasing(parsed(buf, seq, sets).tagged_lines),
        increasing(parsed(buf, seq, sets).search_lines),
        increasing(parsed(buf, seq, sets).hidden_lines),
        forall|i: int|
            0 <= i < line_ends_of(buf).len() ==> 0 < #[trigger] line_ends_of(buf)[i] <= buf.len(),
{
    lemma_line_table(buf);
    let ends = line_ends_of(buf);
    if ends.len() > 0 {
        lemma_increasing_from(ends, ends.len() - 1);
    }
    lemma_matching_lines(buf, ends, sets.tagged, ends.len());
    lemma_matching_lines(buf, ends, sets.search, ends.len());
    lemma_matching_lines(buf, ends, sets.hidden, ends.len());
}

/// Whether the increasing list holds `x`.
pub fn list_holds(list: &Vec<usize>, x: usize) -> (found: bool)
    requires
        increasing(list@),
    ensures
        found == list@.contains(x),
{
    let mut lo: usize = 0;
    let mut hi: usize = list.len();
    while lo < hi
        invariant
            increasing(list@),
            lo <= hi <= list@.len(),
            forall|i: int| 0 <= i < lo ==> list@[i] < x,
            forall|i: int| hi <= i < list@.len() ==> list@[i] >= x,
        decreases hi - lo,
    {
        let mid = lo + (hi - lo) / 2;
        if list[mid] < x {
            lo = mid + 1;
        } else {
            hi = mid;
        }
    }
    let found = lo < list.len() && list[lo] == x;
    proof {
        if !found && list@.contains(x) {
            let i = choose|i: int| 0 <= i < list@.len() && list@[i] == x;
            if i > lo {
                assert(list@[lo as int] < list@[i]);
            }
        }
    }
    found
}

/// No newline lies between `a` and `b`, so no line ends there.
proof fn lemma_newline_ends_skip(buf: Seq<u8>, a: nat, b: nat)
    requires
        a <= b <= buf.len(),
        forall|k: int| a <= k < b ==> buf[k] != NEWLINE,
    ensures
        newline_ends(buf, b) == newline_ends(buf, a),
    decreases b - a,
{
    if a < b {
        lemma_newline_ends_skip(buf, a, (b - 1) as nat);
    }
}

proof fn lemma_newline_ends_bounds(buf: Seq<u8>, n: nat)
    requires
        n <= buf.len() <= usize::MAX,
    ensures
        forall|i: int| 0 <= i < newline_ends(buf, n).len() ==> 0 < #[trigger] newline_ends(buf, n)[i] <= n,
        forall|i: int|
            0 <= i < newline_ends(buf, n).len() ==> buf[#[trigger] newline_ends(buf, n)[i] - 1]
                == NEWLINE,
        forall|i: int, j: int|
            0 <= i < j < newline_ends(buf, n).len() ==> newline_ends(buf, n)[i] < newline_ends(
                buf,
                n,
            )[j],
        n > 0 && buf[n - 1] == NEWLINE ==> newline_ends(buf, n).len() > 0 && newline_ends(
            buf,
            n,
        ).last() == n,
    decreases n,
{
    if n > 0 {
        lemma_newline_ends_bounds(buf, (n - 1) as nat);
        let before = newline_ends(buf, (n - 1) as nat);
        let ends = newline_ends(buf, n);
        assert forall|i: int| 0 <= i < ends.len() implies 0 < #[trigger] ends[i] <= n && buf[ends[i]
            - 1] == NEWLINE by {
            if i < before.len() {
                assert(ends[i] == before[i]);
            }
        }
        assert forall|i: int, j: int| 0 <= i < j < ends.len() implies ends[i] < ends[j] by {
            assert(ends[i] == before[i]);
            if j < before.len() {
                assert(ends[j] == before[j]);
            }
        }
    }
}

/// The line table of a chunk: the ends strictly increase from above 0 to the
/// length of the chunk, which the last line reaches; every line but the last
/// ends in a newline; a chunk without bytes has no line.
pub proof fn lemma_line_table(buf: Seq<u8>)
    requires
        buf.len() <= usize::MAX,
    ensures
        ({
            let ends = line_ends_of(buf);
            &&& forall|i: int| 0 <= i < ends.len() ==> 0 < #[trigger] ends[i] <= buf.len()
            &&& forall|i: int, j: int| 0 <= i < j < ends.len() ==> ends[i] < ends[j]
            &&& forall|i: int| 0 <= i < ends.len() - 1 ==> buf[#[trigger] ends[i] - 1] == NEWLINE
            &&& forall|i: int| 0 <= i < ends.len() ==> line_start(ends, i) < #[trigger] ends[i]
            &&& buf.len() > 0 ==> ends.len() > 0 && ends.last() == buf.len()
            &&& buf.len() == 0 ==> ends.len() == 0
        }),
{
    let n = buf.len();
    lemma_newline_ends_bounds(buf, n);
    let ends = line_ends_of(buf);
    let full = newline_ends(buf, n);
    if n > 0 && buf.last() != NEWLINE {
        assert forall|i: int| 0 <= i < full.len() implies #[trigger] full[i] < n by {
            assert(buf[full[i] - 1] == NEWLINE);
        }
    }
    assert forall|i: int| 0 <= i < ends.len() implies line_start(ends, i) < #[trigger] ends[i] by {
        if i > 0 {
            assert(ends[i - 1] < ends[i]);
        }
    }
}

/// The list of matching lines holds, in increasing order, exactly the lines
/// whose text the set matches.
pub proof fn lemma_matching_lines(buf: Seq<u8>, ends: Seq<usize>, set: RegexSet, n: nat)
    requires
        n <= usize::MAX,
    ensures
        ({
            let list = matching_lines(buf, ends, set, n);
            &&& forall|k: int| 0 <= k < list.len() ==> #[trigger] list[k] < n
            &&& forall|k: int, l: int| 0 <= k < l < list.len() ==> list[k] < list[l]
            &&& forall|i: int|
                0 <= i < n ==> (list.contains(i as usize) <==> set_matches(
                    set,
                    #[trigger] line_text(buf, ends, i),
                ))
        }),
    decreases n,
{
    if n > 0 {
        lemma_matching_lines(buf, ends, set, (n - 1) as nat);
        let before = matching_lines(buf, ends, set, (n - 1) as nat);
        let list = matching_lines(buf, ends, set, n);
        assert forall|i: int| 0 <= i < n implies (list.contains(i as usize) <==> set_matches(
            set,
            #[trigger] line_text(buf, ends, i),
        )) by {
            if set_matches(set, line_text(buf, ends, n - 1)) {
                assert(list == before.push((n - 1) as usize));
                assert(list[list.len() - 1] == (n - 1) as usize);
                if i < n - 1 {
                    if before.contains(i as usize) {
                        let k = choose|k: int| 0 <= k < before.len() && before[k] == i as usize;
                        assert(list[k] == i as usize);
                    }
                    if list.contains(i as usize) {
                        let k = choose|k: int| 0 <= k < list.len() && list[k] == i as usize;
                        assert(before[k] == i as usize);
                    }
                }
            } else {
                if i == n - 1 && list.contains(i as usize) {
                    let k = choose|k: int| 0 <= k < list.len() && list[k] == i as usize;
                    assert(list[k] < n - 1);
                }
            }
        }
    }
}

} // verus!
