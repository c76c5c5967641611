use vstd::prelude::*;
use std::sync::Arc;
use crate::cache::{lemma_content_parsed, lemma_touched_content, SearchType, SplitCache, SplitCacheView};
use crate::bits::count_set;
use crate::lineset::{toggled, LineSet};
use crate::partition::{chunk_start, LineId, SplitId};
use crate::pattern::{LineSets, PatternId, PatternSet};
use crate::styled::StyledChar;
use vstd::slice::{slice_subrange, slice_to_vec};
use vstd::utf8::{encode_utf8, valid_utf8};
use crate::search::{FileSearch, ScanJob};
use crate::split::{
    lemma_line_table, lemma_parsed_ordered, line_start, list_holds, parsed, Split, SplitView,
};

verus! {

/// Which lines are shown.
#[derive(Debug, Clone, Copy, PartialEq, Eq, Structural)]
pub enum DisplayMode {
    /// Every line.
    All,
    /// Every line that is not hidden.
    Normal,
    /// The tagged lines.
    Tagged,
    /// The lines that the user tagged by hand.
    Manual,
}

/// What holds for a whole chunk before its content is looked at.
#[derive(Debug, Clone, Copy, PartialEq, Eq, Structural)]
pub enum Verdict {
    /// No line of the chunk is shown.
    Skip,
    /// The lines of the chunk have to be looked at.
    Keep,
    /// The background scan has no answer yet for the chunk and this class.
    Pending(SearchType),
}

/// How a walk over the lines ended.
#[derive(Debug, Clone, Copy, PartialEq, Eq, Structural)]
pub enum Walk {
    /// The line that starts at this offset is the next one shown.
    Found(LineId),
    /// No line is shown in the direction of the walk.
    NotFound,
    /// The walk needs chunk `split`, which is not cached. Once its bytes are
    /// loaded, the walk goes on from `resume`.
    Load { split: SplitId, resume: LineId, inclusive: bool },
    /// The walk needs the answer of the background scan for class `st` and
    /// chunk `split`. Once the answer is there, the walk goes on from
    /// `resume`.
    Await { st: SearchType, split: SplitId, resume: LineId, inclusive: bool },
}

/// A line as it is drawn.
#[derive(Debug, Clone)]
pub struct ProcessedLine {
    /// The offset at which the line starts.
    pub line_id: LineId,
    /// The characters of the line, each with its style.
    pub chars: Vec<StyledChar>,
    /// The patterns that match in the line.
    pub matches: Vec<PatternId>,
    /// Whether the line was cropped.
    pub cropped: bool,
}

/// What a look at a line gave.
#[derive(Debug)]
pub enum Fetched {
    /// The line.
    Line(ProcessedLine),
    /// The offset lies at or after the end of the file.
    Outside,
    /// The chunk `split_id` of the line is not cached.
    Missing { split_id: SplitId },
    /// The bytes of the line, which starts at `line_id`, are no text.
    NotText { line_id: LineId },
}

/// `String::from_utf8`: the text that the bytes encode, or `None` where
/// they encode none.
#[verifier::external_body]
pub(crate) fn utf8_text(bytes: Vec<u8>) -> (text: Option<String>)
    ensures
        match text {
            Some(text) => encode_utf8(text@) == bytes@,
            None => !valid_utf8(bytes@),
        },
{
    String::from_utf8(bytes).ok()
}

/// Where an offset lies.
pub enum Located {
    /// At or after the end of the file.
    Outside,
    /// In chunk `split_id`, which is not cached.
    Missing { split_id: SplitId },
    /// In line `line_ix` of chunk `split`, which starts at `split_start`.
    At { split_id: SplitId, split_start: LineId, split: Arc<Split>, line_ix: usize },
}

/// A bound that lies after the last line of every chunk.
pub open spec fn all_lines() -> int {
    usize::MAX as int
}

/// The first line of chunk `c` that a walk forward looks at, which started
/// at line `i1` of chunk `c1`.
pub open spec fn lower(c1: int, i1: int, c: int) -> int {
    if c == c1 {
        i1
    } else {
        0
    }
}

/// The line of chunk `c` before which a walk backward starts in that chunk,
/// which started before line `h1` of chunk `c1`.
pub open spec fn upper(c1: int, h1: int, c: int) -> int {
    if c == c1 {
        h1
    } else {
        all_lines()
    }
}

/// The navigator as plain values.
pub struct LinesView {
    /// The cache of chunks and the state of the background scan.
    pub cache: SplitCacheView,
    /// The lines tagged by hand.
    pub tagged: Set<LineId>,
    /// The lines hidden by hand.
    pub hidden: Set<LineId>,
}

/// Whether line `i` of a chunk is passed over by a walk for class `st` in
/// mode `mode`. A line that is a search result is never passed over. A walk
/// for search results passes over every other line. Else the mode decides.
pub open spec fn line_filtered(
    st: SearchType,
    mode: DisplayMode,
    split: SplitView,
    split_start: int,
    i: int,
    tagged: Set<LineId>,
    hidden: Set<LineId>,
) -> bool {
    let id = (split_start + line_start(split.line_ends, i)) as LineId;
    if split.search_lines.contains(i as usize) {
        false
    } else if st == SearchType::Search {
        true
    } else {
        match mode {
            DisplayMode::Normal => split.hidden_lines.contains(i as usize) || hidden.contains(id),
            DisplayMode::Tagged => !(split.tagged_lines.contains(i as usize) || tagged.contains(
                id,
            )),
            DisplayMode::Manual => !tagged.contains(id),
            DisplayMode::All => false,
        }
    }
}

/// A search result is shown in every mode and by every walk, also where a
/// hiding pattern matches it or the user hid it.
pub proof fn lemma_search_line_shown(
    st: SearchType,
    mode: DisplayMode,
    split: SplitView,
    split_start: int,
    i: int,
    tagged: Set<LineId>,
    hidden: Set<LineId>,
)
    requires
        split.search_lines.contains(i as usize),
    ensures
        !line_filtered(st, mode, split, split_start, i, tagged, hidden),
{
}

impl LinesView {
    /// The number of chunks.
    pub open spec fn num_splits(self) -> int {
        self.cache.search.bounds.len() as int
    }

    /// Where chunk `c` starts.
    pub open spec fn start(self, c: int) -> int {
        chunk_start(self.cache.search.bounds, c)
    }

    /// Where chunk `c` ends.
    pub open spec fn end(self, c: int) -> int {
        self.cache.search.bounds[c] as int
    }

    /// A line of chunk `c` is tagged by hand.
    pub open spec fn tagged_inside(self, c: int) -> bool {
        exists|id: LineId| self.tagged.contains(id) && self.start(c) <= id < self.end(c)
    }

    /// What holds for chunk `c` as a whole. A chunk with a search result is
    /// kept. Of the others a walk for search results skips all; in mode
    /// `Tagged` a chunk is skipped that has neither a line tagged by hand nor
    /// a match of a tagging pattern; in mode `Manual` one that has no line
    /// tagged by hand; in the other modes none. No chunk is skipped for its
    /// hidden lines: what is hidden is decided line by line.
    pub open spec fn verdict(self, st: SearchType, mode: DisplayMode, c: int) -> Verdict {
        match self.cache.search.answer(SearchType::Search.ix() as int, c) {
            None => Verdict::Pending(SearchType::Search),
            Some(true) => Verdict::Keep,
            Some(false) => if st == SearchType::Search {
                Verdict::Skip
            } else {
                match mode {
                    DisplayMode::Normal => Verdict::Keep,
                    DisplayMode::All => Verdict::Keep,
                    DisplayMode::Manual => if self.tagged_inside(c) {
                        Verdict::Keep
                    } else {
                        Verdict::Skip
                    },
                    DisplayMode::Tagged => if self.tagged_inside(c) {
                        Verdict::Keep
                    } else {
                        match self.cache.search.answer(SearchType::Tag.ix() as int, c) {
                            None => Verdict::Pending(SearchType::Tag),
                            Some(true) => Verdict::Keep,
                            Some(false) => Verdict::Skip,
                        }
                    },
                }
            },
        }
    }

    /// Line `i` of chunk `c` is passed over.
    pub open spec fn filtered(
        self,
        st: SearchType,
        mode: DisplayMode,
        patterns: PatternSet,
        c: int,
        i: int,
    ) -> bool {
        line_filtered(
            st,
            mode,
            self.cache.content(c as SplitId, patterns).unwrap().split,
            self.start(c),
            i,
            self.tagged,
            self.hidden,
        )
    }

    /// The number of lines of chunk `c`, which is cached.
    pub open spec fn line_count(self, patterns: PatternSet, c: int) -> int {
        self.cache.content(c as SplitId, patterns).unwrap().split.line_ends.len() as int
    }

    /// The offset in the file at which line `i` of chunk `c` starts.
    pub open spec fn line_id(self, patterns: PatternSet, c: int, i: int) -> int {
        self.start(c) + line_start(
            self.cache.content(c as SplitId, patterns).unwrap().split.line_ends,
            i,
        )
    }

    /// The lines of chunk `c` from `from` up to, but not including, `to` are
    /// passed over: the chunk is skipped as a whole, or it is kept and
    /// cached, and each of those lines is filtered.
    pub open spec fn passed(
        self,
        st: SearchType,
        mode: DisplayMode,
        patterns: PatternSet,
        c: int,
        from: int,
        to: int,
    ) -> bool {
        ||| self.verdict(st, mode, c) is Skip
        ||| {
            &&& self.verdict(st, mode, c) is Keep
            &&& self.cache.content(c as SplitId, patterns).is_some()
            &&& forall|i: int|
                from <= i < to && 0 <= i < self.line_count(patterns, c) ==> #[trigger] self.filtered(
                    st,
                    mode,
                    patterns,
                    c,
                    i,
                )
        }
    }

    /// Line `i` of chunk `c` is shown: the chunk is kept and cached, and the
    /// line is not filtered.
    pub open spec fn shown(
        self,
        st: SearchType,
        mode: DisplayMode,
        patterns: PatternSet,
        c: int,
        i: int,
    ) -> bool {
        &&& 0 <= c < self.num_splits()
        &&& self.verdict(st, mode, c) is Keep
        &&& self.cache.content(c as SplitId, patterns).is_some()
        &&& 0 <= i < self.line_count(patterns, c)
        &&& !self.filtered(st, mode, patterns, c, i)
    }

    /// The bytes of line `i` of chunk `c`, which is cached, with the
    /// newline that ends it.
    pub open spec fn line_bytes(self, patterns: PatternSet, c: int, i: int) -> Seq<u8> {
        let split = self.cache.content(c as SplitId, patterns).unwrap().split;
        split.buf.subrange(line_start(split.line_ends, i), split.line_ends[i] as int)
    }

    /// `line_id` lies in line `i` of chunk `c`, which is cached.
    pub open spec fn holds_line(self, patterns: PatternSet, c: int, i: int, line_id: LineId) -> bool {
        &&& 0 <= c < self.num_splits()
        &&& self.cache.content(c as SplitId, patterns).is_some()
        &&& 0 <= i < self.line_count(patterns, c)
        &&& self.line_id(patterns, c, i) <= line_id < self.line_id(patterns, c, i + 1)
    }

    /// How a walk forward ends that starts at line `i1` of chunk `c1`, in
    /// terms of what is cached and scanned: it ends at the first line that is
    /// shown, having passed over every line before it; or at the first chunk
    /// of which it does not know enough; or after the last chunk. `origin`
    /// is the chunk in which the caller's offset lies, with that offset and
    /// whether its line was to be included: from there the walk is taken up
    /// again if it has to wait in that chunk, else from the start of the
    /// chunk at which it stopped.
    pub open spec fn forward_from(
        self,
        st: SearchType,
        mode: DisplayMode,
        patterns: PatternSet,
        c1: int,
        i1: int,
        origin: (int, LineId, bool),
        walk: Walk,
    ) -> bool {
        match walk {
            Walk::Found(l) => exists|c: int, i: int|
                {
                    &&& c1 <= c
                    &&& lower(c1, i1, c) <= i
                    &&& #[trigger] self.shown(st, mode, patterns, c, i)
                    &&& l == self.line_id(patterns, c, i)
                    &&& self.passed(st, mode, patterns, c, lower(c1, i1, c), i)
                    &&& forall|b: int|
                        c1 <= b < c ==> #[trigger] self.passed(
                            st,
                            mode,
                            patterns,
                            b,
                            lower(c1, i1, b),
                            all_lines(),
                        )
                },
            Walk::NotFound => forall|b: int|
                c1 <= b < self.num_splits() ==> #[trigger] self.passed(
                    st,
                    mode,
                    patterns,
                    b,
                    lower(c1, i1, b),
                    all_lines(),
                ),
            Walk::Load { split, resume, inclusive } => {
                &&& c1 <= split < self.num_splits()
                &&& self.verdict(st, mode, split as int) is Keep
                &&& self.cache.content(split, patterns).is_none()
                &&& resume == self.start(split as int)
                &&& inclusive
                &&& forall|b: int|
                    c1 <= b < split ==> #[trigger] self.passed(
                        st,
                        mode,
                        patterns,
                        b,
                        lower(c1, i1, b),
                        all_lines(),
                    )
            },
            Walk::Await { st: class, split, resume, inclusive } => {
                &&& c1 <= split < self.num_splits()
                &&& self.verdict(st, mode, split as int) == Verdict::Pending(class)
                &&& (resume, inclusive) == if split == origin.0 {
                    (origin.1, origin.2)
                } else {
                    (self.start(split as int) as LineId, true)
                }
                &&& forall|b: int|
                    c1 <= b < split ==> #[trigger] self.passed(
                        st,
                        mode,
                        patterns,
                        b,
                        lower(c1, i1, b),
                        all_lines(),
                    )
            },
        }
    }

    /// How a walk backward ends that starts with the lines before line `h1`
    /// of chunk `c1`: at the last line that is shown, having passed over
    /// every line after it; or at the first chunk, going backward, of which
    /// it does not know enough; or before the first chunk. Where it has to
    /// wait in a chunk other than the one of `origin`, it is taken up again
    /// from the last byte of that chunk.
    pub open spec fn backward_from(
        self,
        st: SearchType,
        mode: DisplayMode,
        patterns: PatternSet,
        c1: int,
        h1: int,
        origin: (int, LineId, bool),
        walk: Walk,
    ) -> bool {
        match walk {
            Walk::Found(l) => exists|c: int, i: int|
                {
                    &&& c <= c1
                    &&& i < upper(c1, h1, c)
                    &&& #[trigger] self.shown(st, mode, patterns, c, i)
                    &&& l == self.line_id(patterns, c, i)
                    &&& self.passed(st, mode, patterns, c, i + 1, upper(c1, h1, c))
                    &&& forall|b: int|
                        c < b <= c1 ==> #[trigger] self.passed(
                            st,
                            mode,
                            patterns,
                            b,
                            0,
                            upper(c1, h1, b),
                        )
                },
            Walk::NotFound => forall|b: int|
                0 <= b <= c1 ==> #[trigger] self.passed(st, mode, patterns, b, 0, upper(c1, h1, b)),
            Walk::Load { split, resume, inclusive } => {
                &&& split <= c1
                &&& self.verdict(st, mode, split as int) is Keep
                &&& self.cache.content(split, patterns).is_none()
                &&& resume == self.end(split as int) - 1
                &&& inclusive
                &&& forall|b: int|
                    split < b <= c1 ==> #[trigger] self.passed(
                        st,
                        mode,
                        patterns,
                        b,
                        0,
                        upper(c1, h1, b),
                    )
            },
            Walk::Await { st: class, split, resume, inclusive } => {
                &&& split <= c1
                &&& self.verdict(st, mode, split as int) == Verdict::Pending(class)
                &&& (resume, inclusive) == if split == origin.0 {
                    (origin.1, origin.2)
                } else {
                    ((self.end(split as int) - 1) as LineId, true)
                }
                &&& forall|b: int|
                    split < b <= c1 ==> #[trigger] self.passed(
                        st,
                        mode,
                        patterns,
                        b,
                        0,
                        upper(c1, h1, b),
                    )
            },
        }
    }

    /// What `next_line` answers for the offset `line_id`. At the end of the
    /// file and after it there is no line. Where the chunk of `line_id` is not cached,
    /// it has to be loaded first. Else the walk starts at the line that holds
    /// `line_id` if that line is included, and at the line after it if not.
    pub open spec fn next_is(
        self,
        st: SearchType,
        mode: DisplayMode,
        patterns: PatternSet,
        line_id: LineId,
        inclusive: bool,
        walk: Walk,
    ) -> bool {
        if line_id >= self.cache.search.bounds.last() {
            walk == Walk::NotFound
        } else {
            exists|c: int|
                {
                    &&& 0 <= c < self.num_splits()
                    &&& #[trigger] self.start(c) <= line_id < self.end(c)
                    &&& if self.cache.content(c as SplitId, patterns).is_none() {
                        walk == (Walk::Load { split: c as SplitId, resume: line_id, inclusive })
                    } else {
                        exists|i: int|
                            {
                                &&& #[trigger] self.holds_line(patterns, c, i, line_id)
                                &&& if inclusive {
                                    self.forward_from(
                                        st,
                                        mode,
                                        patterns,
                                        c,
                                        i,
                                        (c, line_id, inclusive),
                                        walk,
                                    )
                                } else if i + 1 < self.line_count(patterns, c) {
                                    self.forward_from(
                                        st,
                                        mode,
                                        patterns,
                                        c,
                                        i + 1,
                                        (c, line_id, inclusive),
                                        walk,
                                    )
                                } else {
                                    self.forward_from(
                                        st,
                                        mode,
                                        patterns,
                                        c + 1,
                                        0,
                                        (c, line_id, inclusive),
                                        walk,
                                    )
                                }
                            }
                    }
                }
        }
    }

    /// What `prev_line` answers for the offset `line_id`. At the end of the
    /// file and after it there is no line. Where the chunk of `line_id` is not cached,
    /// it has to be loaded first. Else the walk starts at the line that holds
    /// `line_id` if that line is included, and at the line before it if not;
    /// before the first line of the file there is none.
    pub open spec fn prev_is(
        self,
        st: SearchType,
        mode: DisplayMode,
        patterns: PatternSet,
        line_id: LineId,
        inclusive: bool,
        walk: Walk,
    ) -> bool {
        if line_id >= self.cache.search.bounds.last() {
            walk == Walk::NotFound
        } else {
            exists|c: int|
                {
                    &&& 0 <= c < self.num_splits()
                    &&& #[trigger] self.start(c) <= line_id < self.end(c)
                    &&& if self.cache.content(c as SplitId, patterns).is_none() {
                        walk == (Walk::Load { split: c as SplitId, resume: line_id, inclusive })
                    } else {
                        exists|i: int|
                            {
                                &&& #[trigger] self.holds_line(patterns, c, i, line_id)
                                &&& if inclusive {
                                    self.backward_from(
                                        st,
                                        mode,
                                        patterns,
                                        c,
                                        i + 1,
                                        (c, line_id, inclusive),
                                        walk,
                                    )
                                } else if i > 0 {
                                    self.backward_from(
                                        st,
                                        mode,
                                        patterns,
                                        c,
                                        i,
                                        (c, line_id, inclusive),
                                        walk,
                                    )
                                } else if c > 0 {
                                    self.backward_from(
                                        st,
                                        mode,
                                        patterns,
                                        c - 1,
                                        all_lines(),
                                        (c, line_id, inclusive),
                                        walk,
                                    )
                                } else {
                                    walk == Walk::NotFound
                                }
                            }
                    }
                }
        }
    }

    /// Both are the same file with the same marks, scan state and cached
    /// bytes, and a lookup for `patterns` finds the same in both.
    pub open spec fn same_content(self, other: LinesView, patterns: PatternSet) -> bool {
        &&& self.tagged == other.tagged
        &&& self.hidden == other.hidden
        &&& self.cache.search == other.cache.search
        &&& self.cache.capacity == other.cache.capacity
        &&& forall|id: SplitId| #[trigger]
            self.cache.content(id, patterns) == other.cache.content(id, patterns)
    }
}

/// Where every chunk is cached and the scan has an answer for every chunk
/// and class, a walk neither asks for a chunk nor waits for the scan: it
/// finds a line or ends at the end of the file.
pub proof fn lemma_walk_ends(
    v: LinesView,
    st: SearchType,
    mode: DisplayMode,
    patterns: PatternSet,
    line_id: LineId,
    inclusive: bool,
    walk: Walk,
)
    requires
        v.cache.search.classes.len() == SearchType::count(),
        forall|c: int|
            0 <= c < v.num_splits() ==> (#[trigger] v.cache.content(c as SplitId, patterns)).is_some(),
        forall|ix: int, c: int|
            0 <= ix < SearchType::count() && 0 <= c < v.num_splits() ==> (
            #[trigger] v.cache.search.answer(ix, c)).is_some(),
        v.next_is(st, mode, patterns, line_id, inclusive, walk) || v.prev_is(
            st,
            mode,
            patterns,
            line_id,
            inclusive,
            walk,
        ),
    ensures
        walk is Found || walk is NotFound,
{
    if walk is Load || walk is Await {
        // the walk started in a chunk of the file, which is cached
        assert(line_id < v.cache.search.bounds.last());
        let c = choose|c: int|
            0 <= c < v.num_splits() && #[trigger] v.start(c) <= line_id < v.end(c) && (
            v.next_is(st, mode, patterns, line_id, inclusive, walk) ==> exists|i: int|
                #[trigger] v.holds_line(patterns, c, i, line_id) && (if inclusive {
                    v.forward_from(st, mode, patterns, c, i, (c, line_id, inclusive), walk)
                } else if i + 1 < v.line_count(patterns, c) {
                    v.forward_from(st, mode, patterns, c, i + 1, (c, line_id, inclusive), walk)
                } else {
                    v.forward_from(st, mode, patterns, c + 1, 0, (c, line_id, inclusive), walk)
                })) && (!v.next_is(st, mode, patterns, line_id, inclusive, walk)
                ==> exists|i: int|
                #[trigger] v.holds_line(patterns, c, i, line_id) && (if inclusive {
                    v.backward_from(st, mode, patterns, c, i + 1, (c, line_id, inclusive), walk)
                } else if i > 0 {
                    v.backward_from(st, mode, patterns, c, i, (c, line_id, inclusive), walk)
                } else if c > 0 {
                    v.backward_from(
                        st,
                        mode,
                        patterns,
                        c - 1,
                        all_lines(),
                        (c, line_id, inclusive),
                        walk,
                    )
                } else {
                    walk == Walk::NotFound
                }));
        assert(v.cache.content(c as SplitId, patterns).is_some());
        match walk {
            Walk::Load { split, resume, inclusive: _ } => {
                assert(0 <= split < v.num_splits());
                assert(v.cache.content((split as int) as SplitId, patterns).is_some());
            },
            Walk::Await { st: class, split, resume, inclusive: _ } => {
                assert(0 <= split < v.num_splits());
                assert(v.cache.search.answer(
                    SearchType::Search.ix() as int,
                    split as int,
                ).is_some());
                assert(v.cache.search.answer(SearchType::Tag.ix() as int, split as int).is_some());
            },
            _ => {},
        }
    }
}

/// Every chunk ends at or before the end of the file.
proof fn lemma_inside_file(v: LinesView, c: int)
    requires
        v.cache.valid(),
        0 <= c < v.num_splits(),
    ensures
        v.start(c) <= v.end(c) <= v.cache.search.bounds.last(),
        v.cache.search.bounds.last() > 0 ==> v.start(c) < v.end(c),
{
    let bounds = v.cache.search.bounds;
    if c > 0 {
        assert(bounds[c - 1] < bounds[c]);
    }
    if c < bounds.len() - 1 {
        assert(bounds[c] < bounds[bounds.len() - 1]);
    }
    if c == 0 && bounds.len() > 1 {
        assert(bounds[0] > 0);
    }
}

/// The navigator: the chunks of a file with what the patterns say of their
/// lines, and the lines that the user tagged or hid by hand.
pub struct Lines {
    tagged_lines: LineSet,
    hidden_lines: LineSet,
    split_cache: SplitCache,
}

impl Lines {
    pub closed spec fn view(&self) -> LinesView {
        LinesView {
            cache: self.split_cache@,
            tagged: self.tagged_lines@,
            hidden: self.hidden_lines@,
        }
    }

    /// The invariant of the navigator.
    pub closed spec fn wf(&self) -> bool {
        &&& self.tagged_lines.wf()
        &&& self.hidden_lines.wf()
        &&& self.split_cache.wf()
        &&& self.split_cache@.search.classes.len() == SearchType::count()
    }

    /// A well-formed navigator has a valid cache and a scan state with one
    /// entry for each class.
    pub proof fn lemma_valid(&self)
        requires
            self.wf(),
        ensures
            self@.cache.valid(),
            self@.cache.search.classes.len() == SearchType::count(),
    {
        self.split_cache.lemma_valid();
    }

    /// A navigator over the given cache, with no line tagged or hidden by
    /// hand.
    pub fn new(split_cache: SplitCache) -> (this: Lines)
        requires
            split_cache.wf(),
            split_cache@.search.classes.len() == SearchType::count(),
        ensures
            this.wf(),
            this@ == (LinesView {
                cache: split_cache@,
                tagged: Set::empty(),
                hidden: Set::empty(),
            }),
    {
        Lines { tagged_lines: LineSet::new(), hidden_lines: LineSet::new(), split_cache }
    }

    /// Tags the line that starts at `line_id` by hand, or takes the tag off
    /// where it has one.
    pub fn toggle_tag(&mut self, line_id: LineId)
        requires
            old(self).wf(),
        ensures
            final(self).wf(),
            final(self)@ == (LinesView { tagged: toggled(old(self)@.tagged, line_id), ..old(self)@ }),
    {
        self.tagged_lines.toggle(line_id);
    }

    /// Whether the line that starts at `line_id` is tagged by hand.
    pub fn is_tagged(&self, line_id: LineId) -> (tagged: bool)
        requires
            self.wf(),
        ensures
            tagged == self@.tagged.contains(line_id),
    {
        self.tagged_lines.contains(line_id)
    }

    /// Whether the line that starts at `line_id` is hidden by hand.
    pub fn is_hidden(&self, line_id: LineId) -> (hidden: bool)
        requires
            self.wf(),
        ensures
            hidden == self@.hidden.contains(line_id),
    {
        self.hidden_lines.contains(line_id)
    }

    /// Finds the chunk and the line in which the offset `line_id` lies. The
    /// chunk becomes the one used last in the cache.
    pub fn resolve_line_id(&mut self, line_id: LineId, patterns: &PatternSet) -> (located: Located)
        requires
            old(self).wf(),
        ensures
            final(self).wf(),
            final(self)@.same_content(old(self)@, *patterns),
            match located {
                Located::Outside => line_id >= old(self)@.cache.search.bounds.last(),
                Located::Missing { split_id } => {
                    &&& split_id < old(self)@.num_splits()
                    &&& old(self)@.start(split_id as int) <= line_id < old(self)@.end(
                        split_id as int,
                    )
                    &&& old(self)@.cache.content(split_id, *patterns).is_none()
                },
                Located::At { split_id, split_start, split, line_ix } => {
                    &&& old(self)@.holds_line(*patterns, split_id as int, line_ix as int, line_id)
                    &&& old(self)@.start(split_id as int) <= line_id < old(self)@.end(
                        split_id as int,
                    )
                    &&& split_start == old(self)@.start(split_id as int)
                    &&& old(self)@.cache.content(split_id, *patterns).unwrap().split == split@
                },
            },
    {
        proof {
            self.split_cache.lemma_valid();
        }
        let split_id = match self.split_cache.find_split(line_id) {
            Some(split_id) => split_id,
            None => {
                return Located::Outside;
            },
        };
        let split_start = match self.split_cache.get_split(split_id) {
            Some((split_start, _)) => split_start,
            None => {
                return Located::Outside;
            },
        };
        let split = match self.split_cache.get(split_id, patterns) {
            Some(split) => split,
            None => {
                return Located::Missing { split_id };
            },
        };
        proof {
            lemma_touched_content(old(self)@.cache, split_id, *patterns);
            lemma_content_parsed(old(self)@.cache, split_id, *patterns);
            assert(split@.buf.len() == split.buf.len());
            lemma_line_table(split@.buf);
        }
        let rel = (line_id - split_start) as usize;
        let line_ix = split.line_at(rel);
        Located::At { split_id, split_start, split, line_ix }
    }

    /// Whether line `line_ix` of the chunk `split`, which starts at
    /// `split_start`, is passed over by a walk for class `st` in mode `mode`.
    fn is_filtered(
        &self,
        st: SearchType,
        line_ix: usize,
        split: &Split,
        split_start: LineId,
        mode: DisplayMode,
        Ghost(sets): Ghost<LineSets>,
    ) -> (filtered: bool)
        requires
            self.wf(),
            split@ == parsed(split@.buf, split@.pattern_seq, sets),
            split@.buf.len() <= usize::MAX,
            line_ix < split@.line_ends.len(),
            split_start + split@.buf.len() <= u64::MAX,
        ensures
            filtered == line_filtered(
                st,
                mode,
                split@,
                split_start as int,
                line_ix as int,
                self@.tagged,
                self@.hidden,
            ),
    {
        proof {
            lemma_parsed_ordered(split@.buf, split@.pattern_seq, sets);
        }
        if list_holds(&split.search_lines, line_ix) {
            return false;
        }
        if st == SearchType::Search {
            return true;
        }
        let rel = if line_ix == 0 {
            0
        } else {
            split.line_ends[line_ix - 1]
        };
        let line_id = rel as LineId + split_start;
        match mode {
            DisplayMode::Normal => list_holds(&split.hidden_lines, line_ix)
                || self.hidden_lines.contains(line_id),
            DisplayMode::Tagged => !(list_holds(&split.tagged_lines, line_ix)
                || self.tagged_lines.contains(line_id)),
            DisplayMode::Manual => !self.tagged_lines.contains(line_id),
            DisplayMode::All => false,
        }
    }

    /// Whether a line of chunk `split_id` is tagged by hand.
    fn tagged_inside(&self, split_id: SplitId, split_start: LineId, split_end: LineId) -> (inside:
        bool)
        requires
            self.wf(),
            split_start == self@.start(split_id as int),
            split_end == self@.end(split_id as int),
        ensures
            inside == self@.tagged_inside(split_id as int),
    {
        let inside = self.tagged_lines.any_in(split_start, split_end);
        proof {
            if inside {
                let id = choose|id: LineId|
                    self.tagged_lines@.contains(id) && split_start <= id < split_end;
                assert(self@.tagged.contains(id) && self@.start(split_id as int) <= id
                    < self@.end(split_id as int));
            }
            if self@.tagged_inside(split_id as int) {
                let id = choose|id: LineId|
                    self@.tagged.contains(id) && self@.start(split_id as int) <= id < self@.end(
                        split_id as int,
                    );
                assert(self.tagged_lines@.contains(id) && split_start <= id < split_end);
            }
        }
        inside
    }

    /// Decides for chunk `split_id`, which reaches from `split_start` to
    /// `split_end`, whether a walk can skip it without looking at its lines.
    pub fn skip_split(
        &self,
        st: SearchType,
        split_id: SplitId,
        split_start: LineId,
        split_end: LineId,
        mode: DisplayMode,
    ) -> (verdict: Verdict)
        requires
            self.wf(),
            split_id < self@.num_splits(),
            split_start == self@.start(split_id as int),
            split_end == self@.end(split_id as int),
        ensures
            verdict == self@.verdict(st, mode, split_id as int),
    {
        match self.split_cache.has_matches(SearchType::Search, split_id) {
            None => {
                return Verdict::Pending(SearchType::Search);
            },
            Some(true) => {
                return Verdict::Keep;
            },
            Some(false) => {},
        }
        if st == SearchType::Search {
            return Verdict::Skip;
        }
        match mode {
            DisplayMode::Normal => Verdict::Keep,
            DisplayMode::All => Verdict::Keep,
            DisplayMode::Manual => {
                if self.tagged_inside(split_id, split_start, split_end) {
                    Verdict::Keep
                } else {
                    Verdict::Skip
                }
            },
            DisplayMode::Tagged => {
                if self.tagged_inside(split_id, split_start, split_end) {
                    return Verdict::Keep;
                }
                match self.split_cache.has_matches(SearchType::Tag, split_id) {
                    None => Verdict::Pending(SearchType::Tag),
                    Some(true) => Verdict::Keep,
                    Some(false) => Verdict::Skip,
                }
            },
        }
    }

    /// The first line of the chunk at or after `from` that is not filtered.
    fn first_shown(
        &self,
        st: SearchType,
        split: &Split,
        split_start: LineId,
        mode: DisplayMode,
        from: usize,
        Ghost(sets): Ghost<LineSets>,
    ) -> (found: Option<usize>)
        requires
            self.wf(),
            split@ == parsed(split@.buf, split@.pattern_seq, sets),
            split@.buf.len() <= usize::MAX,
            split_start + split@.buf.len() <= u64::MAX,
        ensures
            match found {
                Some(i) => {
                    &&& from <= i < split@.line_ends.len()
                    &&& !line_filtered(
                        st,
                        mode,
                        split@,
                        split_start as int,
                        i as int,
                        self@.tagged,
                        self@.hidden,
                    )
                },
                None => true,
            },
            forall|k: int|
                from <= k < (match found {
                    Some(i) => i as int,
                    None => split@.line_ends.len() as int,
                }) ==> #[trigger] line_filtered(
                    st,
                    mode,
                    split@,
                    split_start as int,
                    k,
                    self@.tagged,
                    self@.hidden,
                ),
    {
        let count = split.line_ends.len();
        let mut line_ix = from;
        while line_ix < count
            invariant
                self.wf(),
                split@ == parsed(split@.buf, split@.pattern_seq, sets),
                split@.buf.len() <= usize::MAX,
                split_start + split@.buf.len() <= u64::MAX,
                count == split@.line_ends.len(),
                from <= line_ix,
                forall|k: int|
                    from <= k < line_ix ==> #[trigger] line_filtered(
                        st,
                        mode,
                        split@,
                        split_start as int,
                        k,
                        self@.tagged,
                        self@.hidden,
                    ),
            decreases count - line_ix,
        {
            if !self.is_filtered(st, line_ix, split, split_start, mode, Ghost(sets)) {
                return Some(line_ix);
            }
            line_ix += 1;
        }
        None
    }

    /// The last line of the chunk before `upto` that is not filtered.
    fn last_shown(
        &self,
        st: SearchType,
        split: &Split,
        split_start: LineId,
        mode: DisplayMode,
        upto: usize,
        Ghost(sets): Ghost<LineSets>,
    ) -> (found: Option<usize>)
        requires
            self.wf(),
            split@ == parsed(split@.buf, split@.pattern_seq, sets),
            split@.buf.len() <= usize::MAX,
            split_start + split@.buf.len() <= u64::MAX,
        ensures
            match found {
                Some(i) => {
                    &&& i < upto
                    &&& i < split@.line_ends.len()
                    &&& !line_filtered(
                        st,
                        mode,
                        split@,
                        split_start as int,
                        i as int,
                        self@.tagged,
                        self@.hidden,
                    )
                },
                None => true,
            },
            forall|k: int|
                (match found {
                    Some(i) => i as int,
                    None => -1,
                }) < k < upto && k < split@.line_ends.len() ==> #[trigger] line_filtered(
                    st,
                    mode,
                    split@,
                    split_start as int,
                    k,
                    self@.tagged,
                    self@.hidden,
                ),
    {
        let count = split.line_ends.len();
        let mut line_ix = if upto < count {
            upto
        } else {
            count
        };
        while line_ix > 0
            invariant
                self.wf(),
                split@ == parsed(split@.buf, split@.pattern_seq, sets),
                split@.buf.len() <= usize::MAX,
                split_start + split@.buf.len() <= u64::MAX,
                count == split@.line_ends.len(),
                line_ix <= upto,
                line_ix <= count,
                forall|k: int|
                    line_ix <= k < upto && k < count ==> #[trigger] line_filtered(
                        st,
                        mode,
                        split@,
                        split_start as int,
                        k,
                        self@.tagged,
                        self@.hidden,
                    ),
            decreases line_ix,
        {
            line_ix -= 1;
            if !self.is_filtered(st, line_ix, split, split_start, mode, Ghost(sets)) {
                return Some(line_ix);
            }
        }
        None
    }

    /// The offset at which the next line is shown: the line that holds the
    /// offset `line_id` itself where `inclusive` is set and the line is shown,
    /// else the first shown line after it. The walk skips whole chunks where
    /// the background scan and the marks allow it, and looks at the lines of
    /// the others. It stops early where it needs a chunk that is not cached
    /// or an answer that the scan has not given yet, and says from where to
    /// take it up again.
    pub fn next_line(
        &mut self,
        st: SearchType,
        line_id: LineId,
        patterns: &PatternSet,
        mode: DisplayMode,
        inclusive: bool,
    ) -> (walk: Walk)
        requires
            old(self).wf(),
        ensures
            final(self).wf(),
            final(self)@.same_content(old(self)@, *patterns),
            old(self)@.next_is(st, mode, *patterns, line_id, inclusive, walk),
    {
        let ghost v = self@;
        proof {
            self.split_cache.lemma_valid();
        }
        let (c0, split0, i0) = match self.resolve_line_id(line_id, patterns) {
            Located::Outside => {
                return Walk::NotFound;
            },
            Located::Missing { split_id } => {
                proof {
                    lemma_inside_file(v, split_id as int);
                }
                return Walk::Load { split: split_id, resume: line_id, inclusive };
            },
            Located::At { split_id, split_start, split, line_ix } => (split_id, split, line_ix),
        };
        let num_splits = self.split_cache.num_splits();
        let mut split_id = c0;
        let mut line_ix = i0;
        assert(split0@.line_ends.len() == split0.line_ends.len());
        if !inclusive {
            line_ix += 1;
            if line_ix == split0.line_ends.len() {
                split_id += 1;
                line_ix = 0;
            }
        }
        let ghost c1 = split_id as int;
        let ghost i1 = line_ix as int;
        let ghost origin = (c0 as int, line_id, inclusive);
        proof {
            lemma_inside_file(v, c0 as int);
            assert forall|w: Walk|
                v.forward_from(st, mode, *patterns, c1, i1, origin, w) implies v.next_is(
                st,
                mode,
                *patterns,
                line_id,
                inclusive,
                w,
            ) by {
                assert(v.start(c0 as int) <= line_id < v.end(c0 as int));
                assert(v.holds_line(*patterns, c0 as int, i0 as int, line_id));
            }
        }
        while split_id < num_splits
            invariant
                self.wf(),
                forall|w: Walk|
                    v.forward_from(st, mode, *patterns, c1, i1, origin, w) ==> v.next_is(
                        st,
                        mode,
                        *patterns,
                        line_id,
                        inclusive,
                        w,
                    ),
                self@.same_content(v, *patterns),
                v == old(self)@,
                num_splits == v.num_splits(),
                c1 <= split_id <= num_splits,
                c0 <= c1,
                line_ix == lower(c1, i1, split_id as int),
                v.cache.content(c0, *patterns).is_some(),
                origin == (c0 as int, line_id, inclusive),
                forall|b: int|
                    c1 <= b < split_id ==> #[trigger] v.passed(
                        st,
                        mode,
                        *patterns,
                        b,
                        lower(c1, i1, b),
                        all_lines(),
                    ),
            decreases num_splits - split_id,
        {
            proof {
                self.split_cache.lemma_valid();
            }
            let (split_start, split_end) = match self.split_cache.get_split(split_id) {
                Some(range) => range,
                None => {
                    return Walk::NotFound;
                },
            };
            match self.skip_split(st, split_id, split_start, split_end, mode) {
                Verdict::Pending(class) => {
                    let walk = if split_id == c0 {
                        Walk::Await { st: class, split: split_id, resume: line_id, inclusive }
                    } else {
                        Walk::Await {
                            st: class,
                            split: split_id,
                            resume: split_start,
                            inclusive: true,
                        }
                    };
                    assert(v.forward_from(st, mode, *patterns, c1, i1, origin, walk));
                    return walk;
                },
                Verdict::Skip => {
                    split_id += 1;
                    line_ix = 0;
                    continue ;
                },
                Verdict::Keep => {},
            }
            let ghost before = self@;
            let split = match self.split_cache.get(split_id, patterns) {
                Some(split) => split,
                None => {
                    let walk = Walk::Load { split: split_id, resume: split_start, inclusive: true };
                    assert(v.forward_from(st, mode, *patterns, c1, i1, origin, walk));
                    return walk;
                },
            };
            proof {
                lemma_touched_content(before.cache, split_id, *patterns);
                lemma_content_parsed(before.cache, split_id, *patterns);
                assert(split@.buf.len() == split.buf.len());
                assert(v.cache.content(split_id, *patterns) == before.cache.content(
                    split_id,
                    *patterns,
                ));
            }
            let ghost sets = v.cache.content(split_id, *patterns).unwrap().sets;
            match self.first_shown(st, &split, split_start, mode, line_ix, Ghost(sets)) {
                Some(found) => {
                    let rel = if found == 0 {
                        0
                    } else {
                        proof {
                            lemma_line_table(split@.buf);
                        }
                        split.line_ends[found - 1]
                    };
                    let walk = Walk::Found(split_start + rel as LineId);
                    proof {
                        let c = split_id as int;
                        let i = found as int;
                        assert(v.shown(st, mode, *patterns, c, i));
                        assert(v.passed(st, mode, *patterns, c, lower(c1, i1, c), i));
                        assert(v.forward_from(st, mode, *patterns, c1, i1, origin, walk));
                    }
                    return walk;
                },
                None => {
                    proof {
                        let c = split_id as int;
                        assert forall|i: int|
                            lower(c1, i1, c) <= i < all_lines() && 0 <= i < v.line_count(
                                *patterns,
                                c,
                            ) implies #[trigger] v.filtered(st, mode, *patterns, c, i) by {
                            assert(line_filtered(
                                st,
                                mode,
                                split@,
                                split_start as int,
                                i,
                                self@.tagged,
                                self@.hidden,
                            ));
                        }
                    }
                    split_id += 1;
                    line_ix = 0;
                },
            }
        }
        assert(v.forward_from(st, mode, *patterns, c1, i1, origin, Walk::NotFound));
        Walk::NotFound
    }

    /// The offset at which the line before is shown: the line that holds the
    /// offset `line_id` itself where `inclusive` is set and the line is shown,
    /// else the last shown line before it. The walk goes backward as
    /// `next_line` goes forward.
    pub fn prev_line(
        &mut self,
        st: SearchType,
        line_id: LineId,
        patterns: &PatternSet,
        mode: DisplayMode,
        inclusive: bool,
    ) -> (walk: Walk)
        requires
            old(self).wf(),
        ensures
            final(self).wf(),
            final(self)@.same_content(old(self)@, *patterns),
            old(self)@.prev_is(st, mode, *patterns, line_id, inclusive, walk),
    {
        let ghost v = self@;
        proof {
            self.split_cache.lemma_valid();
        }
        let (c0, split0, i0) = match self.resolve_line_id(line_id, patterns) {
            Located::Outside => {
                return Walk::NotFound;
            },
            Located::Missing { split_id } => {
                proof {
                    lemma_inside_file(v, split_id as int);
                }
                return Walk::Load { split: split_id, resume: line_id, inclusive };
            },
            Located::At { split_id, split_start, split, line_ix } => (split_id, split, line_ix),
        };
        proof {
            lemma_inside_file(v, c0 as int);
            assert(v.start(c0 as int) <= line_id < v.end(c0 as int));
            assert(v.holds_line(*patterns, c0 as int, i0 as int, line_id));
            assert(split0@.line_ends.len() == split0.line_ends.len());
        }
        let mut split_id = c0;
        let mut upto: usize = usize::MAX;
        if inclusive {
            upto = i0 + 1;
        } else if i0 > 0 {
            upto = i0;
        } else {
            if c0 == 0 {
                return Walk::NotFound;
            }
            split_id = c0 - 1;
        }
        let ghost c1 = split_id as int;
        let ghost h1 = upto as int;
        let ghost origin = (c0 as int, line_id, inclusive);
        proof {
            assert forall|w: Walk|
                v.backward_from(st, mode, *patterns, c1, h1, origin, w) implies v.prev_is(
                st,
                mode,
                *patterns,
                line_id,
                inclusive,
                w,
            ) by {
                assert(v.start(c0 as int) <= line_id < v.end(c0 as int));
                assert(v.holds_line(*patterns, c0 as int, i0 as int, line_id));
            }
        }
        loop
            invariant
                self.wf(),
                forall|w: Walk|
                    v.backward_from(st, mode, *patterns, c1, h1, origin, w) ==> v.prev_is(
                        st,
                        mode,
                        *patterns,
                        line_id,
                        inclusive,
                        w,
                    ),
                self@.same_content(v, *patterns),
                v == old(self)@,
                v.cache.valid(),
                v.cache.search.bounds.last() > 0,
                split_id <= c1 < v.num_splits(),
                c1 <= c0,
                upto == upper(c1, h1, split_id as int),
                v.cache.content(c0, *patterns).is_some(),
                origin == (c0 as int, line_id, inclusive),
                forall|b: int|
                    split_id < b <= c1 ==> #[trigger] v.passed(
                        st,
                        mode,
                        *patterns,
                        b,
                        0,
                        upper(c1, h1, b),
                    ),
            decreases split_id,
        {
            proof {
                self.split_cache.lemma_valid();
                lemma_inside_file(v, split_id as int);
            }
            let (split_start, split_end) = match self.split_cache.get_split(split_id) {
                Some(range) => range,
                None => {
                    return Walk::NotFound;
                },
            };
            let mut passed = false;
            match self.skip_split(st, split_id, split_start, split_end, mode) {
                Verdict::Pending(class) => {
                    let walk = if split_id == c0 {
                        Walk::Await { st: class, split: split_id, resume: line_id, inclusive }
                    } else {
                        Walk::Await {
                            st: class,
                            split: split_id,
                            resume: split_end - 1,
                            inclusive: true,
                        }
                    };
                    assert(v.backward_from(st, mode, *patterns, c1, h1, origin, walk));
                    return walk;
                },
                Verdict::Skip => {
                    passed = true;
                },
                Verdict::Keep => {},
            }
            if !passed {
                let ghost before = self@;
                let split = match self.split_cache.get(split_id, patterns) {
                    Some(split) => split,
                    None => {
                        let walk = Walk::Load {
                            split: split_id,
                            resume: split_end - 1,
                            inclusive: true,
                        };
                        assert(v.backward_from(st, mode, *patterns, c1, h1, origin, walk));
                        return walk;
                    },
                };
                proof {
                    lemma_touched_content(before.cache, split_id, *patterns);
                    lemma_content_parsed(before.cache, split_id, *patterns);
                    assert(split@.buf.len() == split.buf.len());
                    assert(v.cache.content(split_id, *patterns) == before.cache.content(
                        split_id,
                        *patterns,
                    ));
                }
                let ghost sets = v.cache.content(split_id, *patterns).unwrap().sets;
                match self.last_shown(st, &split, split_start, mode, upto, Ghost(sets)) {
                    Some(found) => {
                        let rel = if found == 0 {
                            0
                        } else {
                            proof {
                                lemma_line_table(split@.buf);
                            }
                            split.line_ends[found - 1]
                        };
                        let walk = Walk::Found(split_start + rel as LineId);
                        proof {
                            let c = split_id as int;
                            let i = found as int;
                            assert(v.shown(st, mode, *patterns, c, i));
                            assert forall|k: int|
                                i + 1 <= k < upper(c1, h1, c) && 0 <= k < v.line_count(
                                    *patterns,
                                    c,
                                ) implies #[trigger] v.filtered(st, mode, *patterns, c, k) by {
                                assert(line_filtered(
                                    st,
                                    mode,
                                    split@,
                                    split_start as int,
                                    k,
                                    self@.tagged,
                                    self@.hidden,
                                ));
                            }
                            assert(v.passed(st, mode, *patterns, c, i + 1, upper(c1, h1, c)));
                            assert(v.backward_from(st, mode, *patterns, c1, h1, origin, walk));
                        }
                        return walk;
                    },
                    None => {
                        proof {
                            let c = split_id as int;
                            assert forall|k: int|
                                0 <= k < upper(c1, h1, c) && 0 <= k < v.line_count(
                                    *patterns,
                                    c,
                                ) implies #[trigger] v.filtered(st, mode, *patterns, c, k) by {
                                assert(line_filtered(
                                    st,
                                    mode,
                                    split@,
                                    split_start as int,
                                    k,
                                    self@.tagged,
                                    self@.hidden,
                                ));
                            }
                        }
                    },
                }
            }
            if split_id == 0 {
                assert(v.backward_from(st, mode, *patterns, c1, h1, origin, Walk::NotFound));
                return Walk::NotFound;
            }
            split_id -= 1;
            upto = usize::MAX;
        }
    }

    /// The line that holds the offset `line_id` as it is drawn for
    /// `patterns`, with at most `crop_chars` characters.
    pub fn get(&mut self, line_id: LineId, patterns: &PatternSet, crop_chars: Option<usize>) -> (fetched:
        Fetched)
        requires
            old(self).wf(),
            patterns.wf(),
        ensures
            final(self).wf(),
            final(self)@.same_content(old(self)@, *patterns),
            match fetched {
                Fetched::Outside => line_id >= old(self)@.cache.search.bounds.last(),
                Fetched::Missing { split_id } => {
                    &&& split_id < old(self)@.num_splits()
                    &&& old(self)@.start(split_id as int) <= line_id < old(self)@.end(
                        split_id as int,
                    )
                    &&& old(self)@.cache.content(split_id, *patterns).is_none()
                },
                Fetched::NotText { line_id: start } => exists|c: int, i: int|
                    {
                        &&& #[trigger] old(self)@.holds_line(*patterns, c, i, line_id)
                        &&& start == old(self)@.line_id(*patterns, c, i)
                        &&& !valid_utf8(old(self)@.line_bytes(*patterns, c, i))
                    },
                Fetched::Line(line) => exists|c: int, i: int, text: Seq<char>|
                    {
                        &&& #[trigger] old(self)@.holds_line(*patterns, c, i, line_id)
                        &&& line.line_id == old(self)@.line_id(*patterns, c, i)
                        &&& #[trigger] encode_utf8(text) == old(self)@.line_bytes(*patterns, c, i)
                        &&& patterns.processed_as(
                            text,
                            crop_chars,
                            line.chars@,
                            line.matches@,
                            line.cropped,
                        )
                    },
            },
    {
        let ghost v = self@;
        proof {
            self.split_cache.lemma_valid();
        }
        match self.resolve_line_id(line_id, patterns) {
            Located::Outside => Fetched::Outside,
            Located::Missing { split_id } => Fetched::Missing { split_id },
            Located::At { split_id, split_start, split, line_ix } => {
                proof {
                    lemma_content_parsed(v.cache, split_id, *patterns);
                    assert(split@.buf.len() == split.buf.len());
                    lemma_line_table(split@.buf);
                }
                let rel_start = if line_ix == 0 {
                    0
                } else {
                    split.line_ends[line_ix - 1]
                };
                let rel_end = split.line_ends[line_ix];
                let start = split_start + rel_start as LineId;
                let bytes = slice_to_vec(slice_subrange(split.buf.as_slice(), rel_start, rel_end));
                assert(bytes@ == v.line_bytes(*patterns, split_id as int, line_ix as int));
                assert(v.holds_line(*patterns, split_id as int, line_ix as int, line_id));
                match utf8_text(bytes) {
                    None => Fetched::NotText { line_id: start },
                    Some(text) => {
                        let (chars, matches, cropped) = patterns.process_line(
                            text.as_str(),
                            crop_chars,
                        );
                        Fetched::Line(ProcessedLine { line_id: start, chars, matches, cropped })
                    },
                }
            },
        }
    }

    /// Whether the line that holds the offset `line_id` is passed over in
    /// mode `mode` by a walk that does not look for search results. `None`
    /// where the offset lies at or after the end of the file or its chunk is
    /// not cached.
    pub fn is_filtered_line(&mut self, line_id: LineId, mode: DisplayMode, patterns: &PatternSet) -> (filtered:
        Option<bool>)
        requires
            old(self).wf(),
        ensures
            final(self).wf(),
            final(self)@.same_content(old(self)@, *patterns),
            match filtered {
                Some(filtered) => exists|c: int, i: int| #[trigger]
                    old(self)@.holds_line(*patterns, c, i, line_id) && filtered == old(
                        self,
                    )@.filtered(SearchType::Tag, mode, *patterns, c, i),
                None => line_id >= old(self)@.cache.search.bounds.last() || exists|c: int|
                    0 <= c < old(self)@.num_splits() && #[trigger] old(self)@.start(c) <= line_id
                        < old(self)@.end(c) && old(self)@.cache.content(
                        c as SplitId,
                        *patterns,
                    ).is_none(),
            },
    {
        let ghost v = self@;
        proof {
            self.split_cache.lemma_valid();
        }
        match self.resolve_line_id(line_id, patterns) {
            Located::Outside => None,
            Located::Missing { split_id } => {
                assert(v.start(split_id as int) <= line_id < v.end(split_id as int));
                None
            },
            Located::At { split_id, split_start, split, line_ix } => {
                proof {
                    lemma_content_parsed(v.cache, split_id, *patterns);
                    assert(split@.buf.len() == split.buf.len());
                }
                let ghost sets = v.cache.content(split_id, *patterns).unwrap().sets;
                let filtered = self.is_filtered(
                    SearchType::Tag,
                    line_ix,
                    &split,
                    split_start,
                    mode,
                    Ghost(sets),
                );
                assert(v.holds_line(*patterns, split_id as int, line_ix as int, line_id));
                Some(filtered)
            },
        }
    }

    /// Stores the bytes `buf` of chunk `split_id`, read from the file, in the
    /// cache, parsed for `patterns`: the answer to `Walk::Load`.
    pub fn load(&mut self, split_id: SplitId, buf: Vec<u8>, patterns: &PatternSet) -> (split: Arc<
        Split,
    >)
        requires
            old(self).wf(),
            split_id < old(self)@.num_splits(),
            buf@.len() == old(self)@.cache.chunk_len(split_id),
        ensures
            final(self).wf(),
            final(self)@ == (LinesView {
                cache: old(self)@.cache.stored(split_id, buf@, *patterns),
                ..old(self)@
            }),
            split@ == parsed(buf@, patterns.seq, patterns.sets()),
    {
        self.split_cache.load(split_id, buf, patterns)
    }

    /// Hands the patterns of class `st` to the background scan.
    pub fn update_patterns(&mut self, st: SearchType, patterns: &PatternSet)
        requires
            old(self).wf(),
            old(self)@.cache.search.classes[st.ix() as int].generation < u64::MAX,
        ensures
            final(self).wf(),
            final(self)@.tagged == old(self)@.tagged,
            final(self)@.hidden == old(self)@.hidden,
            final(self)@.cache.entries == old(self)@.cache.entries,
            final(self)@.cache.capacity == old(self)@.cache.capacity,
            final(self)@.cache.search == old(self)@.cache.search.with_set(
                st.ix() as int,
                match st {
                    SearchType::Tag => patterns.tagged_re,
                    SearchType::Search => patterns.search_re,
                },
            ),
    {
        self.split_cache.set_re(st, patterns);
    }

    /// The offset of the last byte of the file.
    pub fn last_line_id(&self) -> (line_id: LineId)
        requires
            self.wf(),
            self@.cache.search.bounds.last() > 0,
        ensures
            line_id == self@.cache.search.bounds.last() - 1,
    {
        let num_splits = self.split_cache.num_splits();
        proof {
            self.split_cache.lemma_valid();
        }
        match self.split_cache.get_split(num_splits - 1) {
            Some((_, split_end)) => split_end - 1,
            None => 0,
        }
    }

    /// Tells the background scan which line the user looks at, so that the
    /// chunks near it are scanned first.
    pub fn set_current_line(&mut self, line_id: LineId)
        requires
            old(self).wf(),
            line_id < old(self)@.cache.search.bounds.last(),
        ensures
            final(self).wf(),
            final(self)@.tagged == old(self)@.tagged,
            final(self)@.hidden == old(self)@.hidden,
            final(self)@.cache.entries == old(self)@.cache.entries,
            final(self)@.cache.capacity == old(self)@.cache.capacity,
            final(self)@.cache.search.bounds == old(self)@.cache.search.bounds,
            final(self)@.cache.search.classes == old(self)@.cache.search.classes,
            final(self)@.cache.search.in_progress == old(self)@.cache.search.in_progress,
            old(self)@.start(final(self)@.cache.search.hint as int) <= line_id < old(self)@.end(
                final(self)@.cache.search.hint as int,
            ),
    {
        match self.split_cache.find_split(line_id) {
            Some(split_id) => {
                self.split_cache.set_current_split(split_id);
            },
            None => {},
        }
    }

    /// The bookkeeping of the background scan.
    pub fn get_file_search(&self) -> (search: &FileSearch)
        ensures
            search@ == self@.cache.search,
            self.wf() ==> search.wf(),
    {
        self.split_cache.get_file_search()
    }

    /// How far the background scan has come; see `FileSearch::get_progress`.
    pub fn get_progress(&self) -> (waiting: Vec<usize>)
        requires
            self.wf(),
        ensures
            waiting@.len() == self@.cache.search.classes.len(),
            forall|ix: int|
                0 <= ix < waiting@.len() ==> #[trigger] waiting@[ix] == count_set(
                    self@.cache.search.classes[ix].dirty,
                    self@.cache.search.classes[ix].dirty.len(),
                ),
    {
        self.split_cache.get_progress()
    }

    /// Hands the next scan to a worker; see `FileSearch::claim`.
    pub fn claim(&mut self) -> (job: Option<ScanJob>)
        requires
            old(self).wf(),
        ensures
            final(self).wf(),
            final(self)@.tagged == old(self)@.tagged,
            final(self)@.hidden == old(self)@.hidden,
            final(self)@.cache.entries == old(self)@.cache.entries,
            final(self)@.cache.capacity == old(self)@.cache.capacity,
            match job {
                None => {
                    &&& final(self)@.cache.search == old(self)@.cache.search
                    &&& forall|ix: int, c: int| !old(self)@.cache.search.claimable(ix, c)
                },
                Some(job) => {
                    &&& old(self)@.cache.search.nearest_claimable(
                        job.ix as int,
                        job.split_id as int,
                    )
                    &&& forall|ix: int, c: int|
                        ix < job.ix ==> !old(self)@.cache.search.claimable(ix, c)
                    &&& job.seq == old(self)@.cache.search.classes[job.ix as int].generation
                    &&& job.re == old(self)@.cache.search.classes[job.ix as int].set
                    &&& job.start == old(self)@.start(job.split_id as int)
                    &&& job.end == old(self)@.end(job.split_id as int)
                    &&& job.start <= job.end
                    &&& final(self)@.cache.search == old(self)@.cache.search.claimed(
                        job.split_id as int,
                    )
                },
            },
    {
        self.split_cache.claim()
    }

    /// Takes the result of a scan; see `FileSearch::commit`.
    pub fn commit(&mut self, ix: usize, split_id: SplitId, seq: u64, found: bool) -> (taken: bool)
        requires
            old(self).wf(),
            ix < old(self)@.cache.search.classes.len(),
            split_id < old(self)@.num_splits(),
        ensures
            final(self).wf(),
            final(self)@.tagged == old(self)@.tagged,
            final(self)@.hidden == old(self)@.hidden,
            final(self)@.cache.entries == old(self)@.cache.entries,
            final(self)@.cache.capacity == old(self)@.cache.capacity,
            taken == (old(self)@.cache.search.classes[ix as int].generation == seq),
            final(self)@.cache.search == old(self)@.cache.search.committed(
                ix as int,
                split_id as int,
                seq,
                found,
            ),
    {
        self.split_cache.commit(ix, split_id, seq, found)
    }

    /// Hides the line that starts at `line_id` by hand, or shows it again
    /// where it is hidden.
    pub fn toggle_hide(&mut self, line_id: LineId)
        requires
            old(self).wf(),
        ensures
            final(self).wf(),
            final(self)@ == (LinesView { hidden: toggled(old(self)@.hidden, line_id), ..old(self)@ }),
    {
        self.hidden_lines.toggle(line_id);
    }
}

} // verus!
