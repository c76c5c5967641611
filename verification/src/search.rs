use vstd::prelude::*;
use regex::bytes::RegexSet;
use crate::bits::{
    bits, bits_count_ones, bits_first_one, bits_get, bits_last_one, bits_repeat, bits_set, count_set,
    max_bits, Bitmap,
};
use crate::matcher::{set_empty, set_is_match, set_matches};
use crate::partition::{bounds_ordered, chunk_start, LineId, SplitId};

verus! {

/// What the scanner knows of one class of patterns.
pub struct FileSearchReState {
    split_has_matches: Bitmap,
    split_dirty: Bitmap,
    re_seq: u64,
    re: RegexSet,
}

/// The bookkeeping of the background scan: for every class of patterns and
/// every chunk whether the chunk holds a match, whether that answer is still
/// to be computed, and which chunks are being scanned right now.
pub struct FileSearch {
    split_ids: Vec<LineId>,
    max_split_len: LineId,
    re_states: Vec<FileSearchReState>,
    split_in_progress: Bitmap,
    current_split: usize,
}

/// A scan that a worker took on: one chunk, to be tested against the patterns
/// of one class as they were when the worker took it.
pub struct ScanJob {
    /// The class that the scan is for.
    pub ix: usize,
    /// The chunk to scan.
    pub split_id: SplitId,
    /// The generation of the class's patterns.
    pub seq: u64,
    /// Where the chunk starts in the file.
    pub start: LineId,
    /// Where the chunk ends in the file.
    pub end: LineId,
    /// The patterns to test the chunk against.
    pub re: RegexSet,
}

impl ScanJob {
    /// Tests the bytes of the chunk against the job's patterns, as one
    /// buffer.
    pub fn scan(&self, bytes: &[u8]) -> (found: bool)
        ensures
            found == set_matches(self.re, bytes@),
    {
        set_is_match(&self.re, bytes)
    }
}

/// One class of patterns as the scanner sees it.
pub struct ClassView {
    /// Per chunk: the answer is stale and has to be computed anew.
    pub dirty: Seq<bool>,
    /// Per chunk: the answer, where it is not stale.
    pub has_matches: Seq<bool>,
    /// How often the patterns of the class were replaced.
    pub generation: u64,
    /// The patterns of the class.
    pub set: RegexSet,
}

/// The scanner's state.
pub struct FileSearchView {
    /// The ends of the chunks.
    pub bounds: Seq<u64>,
    /// The classes, by index.
    pub classes: Seq<ClassView>,
    /// Per chunk: a worker is scanning it.
    pub in_progress: Seq<bool>,
    /// The chunk that the user looks at.
    pub hint: usize,
}

impl FileSearchView {
    /// Chunk `c` waits for a scan for class `ix` and no worker holds it.
    pub open spec fn claimable(self, ix: int, c: int) -> bool {
        &&& 0 <= ix < self.classes.len()
        &&& 0 <= c < self.bounds.len()
        &&& self.classes[ix].dirty[c]
        &&& !self.in_progress[c]
    }

    /// How far chunk `c` lies from the hint.
    pub open spec fn distance(self, c: int) -> int {
        if c >= self.hint {
            c - self.hint
        } else {
            self.hint - c
        }
    }

    /// `c` is the claimable chunk of class `ix` that lies nearest to the
    /// hint; of two that lie equally near, the one after the hint.
    pub open spec fn nearest_claimable(self, ix: int, c: int) -> bool {
        &&& self.claimable(ix, c)
        &&& forall|k: int| #[trigger]
            self.claimable(ix, k) ==> self.distance(c) < self.distance(k) || (self.distance(c)
                == self.distance(k) && c >= k)
    }

    /// The state is consistent: the chunk ends increase, every bitmap has one
    /// bit per chunk and the hint names a chunk.
    pub open spec fn valid(self) -> bool {
        &&& bounds_ordered(self.bounds)
        &&& self.bounds.len() <= max_bits()
        &&& self.in_progress.len() == self.bounds.len()
        &&& self.hint < self.bounds.len()
        &&& forall|ix: int|
            0 <= ix < self.classes.len() ==> (#[trigger] self.classes[ix]).dirty.len()
                == self.bounds.len() && self.classes[ix].has_matches.len() == self.bounds.len()
    }

    /// The state after the patterns of class `ix` were replaced by `re`: every
    /// answer of the class is stale and its generation has advanced.
    pub open spec fn with_set(self, ix: int, re: RegexSet) -> FileSearchView {
        FileSearchView {
            classes: self.classes.update(
                ix,
                ClassView {
                    dirty: Seq::new(self.bounds.len(), |c: int| true),
                    generation: (self.classes[ix].generation + 1) as u64,
                    set: re,
                    ..self.classes[ix]
                },
            ),
            ..self
        }
    }

    /// The state after a worker took chunk `c` on.
    pub open spec fn claimed(self, c: int) -> FileSearchView {
        FileSearchView { in_progress: self.in_progress.update(c, true), ..self }
    }

    /// The state after a worker handed in `found` for chunk `c` and class
    /// `ix`, scanned for the patterns of generation `seq`: the chunk is free
    /// again, and the answer is taken where the class is still at `seq`.
    pub open spec fn committed(self, ix: int, c: int, seq: u64, found: bool) -> FileSearchView {
        let free = self.in_progress.update(c, false);
        if self.classes[ix].generation == seq {
            FileSearchView {
                in_progress: free,
                classes: self.classes.update(
                    ix,
                    ClassView {
                        dirty: self.classes[ix].dirty.update(c, false),
                        has_matches: self.classes[ix].has_matches.update(c, found),
                        ..self.classes[ix]
                    },
                ),
                ..self
            }
        } else {
            FileSearchView { in_progress: free, ..self }
        }
    }

    /// How many answers of the first `k` classes are stale.
    pub open spec fn pending(self, k: nat) -> nat
        decreases k,
    {
        if k == 0 {
            0
        } else {
            self.pending((k - 1) as nat) + count_set(
                self.classes[k - 1].dirty,
                self.classes[k - 1].dirty.len(),
            )
        }
    }

    /// The answer for class `ix` and chunk `c`, as far as it is known.
    pub open spec fn answer(self, ix: int, c: int) -> Option<bool> {
        if self.classes[ix].dirty[c] {
            None
        } else {
            Some(self.classes[ix].has_matches[c])
        }
    }
}

impl FileSearchReState {
    pub closed spec fn view(&self) -> ClassView {
        ClassView {
            dirty: bits(self.split_dirty),
            has_matches: bits(self.split_has_matches),
            generation: self.re_seq,
            set: self.re,
        }
    }
}

/// The length of the longest chunk.
pub open spec fn longest_chunk(bounds: Seq<u64>, n: int) -> int
    decreases n,
{
    if n <= 0 {
        0
    } else {
        let rest = longest_chunk(bounds, n - 1);
        let this = bounds[n - 1] - chunk_start(bounds, n - 1);
        if this > rest {
            this
        } else {
            rest
        }
    }
}

impl FileSearch {
    pub closed spec fn view(&self) -> FileSearchView {
        FileSearchView {
            bounds: self.split_ids@,
            classes: Seq::new(self.re_states@.len(), |ix: int| self.re_states@[ix]@),
            in_progress: bits(self.split_in_progress),
            hint: self.current_split,
        }
    }

    /// The invariant of the scanner's state.
    pub closed spec fn wf(&self) -> bool {
        &&& self@.valid()
        &&& self.max_split_len == longest_chunk(self.split_ids@, self.split_ids@.len() as int)
    }

    /// A well-formed scanner has a valid view.
    pub proof fn lemma_valid(&self)
        requires
            self.wf(),
        ensures
            self@.valid(),
    {
    }

    /// Sets up the bookkeeping for a file with the chunk ends `split_ids` and
    /// `num_res` classes of patterns. No class has a pattern yet, so no chunk
    /// has a match and nothing waits for a scan.
    pub fn new(split_ids: Vec<LineId>, num_res: usize) -> (this: FileSearch)
        requires
            bounds_ordered(split_ids@),
            split_ids@.len() <= max_bits(),
        ensures
            this.wf(),
            this@.bounds == split_ids@,
            this@.classes.len() == num_res,
            this@.hint == 0,
            this@.in_progress == Seq::new(split_ids@.len(), |c: int| false),
            forall|ix: int|
                0 <= ix < num_res ==> {
                    &&& (#[trigger] this@.classes[ix]).generation == 0
                    &&& this@.classes[ix].dirty == Seq::new(split_ids@.len(), |c: int| false)
                    &&& this@.classes[ix].has_matches == Seq::new(split_ids@.len(), |c: int| false)
                    &&& forall|haystack: Seq<u8>| !set_matches(this@.classes[ix].set, haystack)
                },
    {
        let nsplits = split_ids.len();
        let mut start: LineId = 0;
        let mut max_split_len: LineId = 0;
        let mut i: usize = 0;
        while i < nsplits
            invariant
                nsplits == split_ids@.len(),
                bounds_ordered(split_ids@),
                i <= nsplits,
                start == chunk_start(split_ids@, i as int),
                max_split_len == longest_chunk(split_ids@, i as int),
            decreases nsplits - i,
        {
            let end = split_ids[i];
            assert(start <= end) by {
                if i > 0 {
                    assert(split_ids@[i - 1] < split_ids@[i as int]);
                }
            }
            if end - start > max_split_len {
                max_split_len = end - start;
            }
            start = end;
            i += 1;
        }
        let mut re_states: Vec<FileSearchReState> = Vec::new();
        let mut k: usize = 0;
        while k < num_res
            invariant
                nsplits == split_ids@.len(),
                nsplits <= max_bits(),
                k <= num_res,
                re_states@.len() == k,
                forall|ix: int|
                    0 <= ix < k ==> {
                        &&& (#[trigger] re_states@[ix])@.generation == 0
                        &&& re_states@[ix]@.dirty == Seq::new(nsplits as nat, |c: int| false)
                        &&& re_states@[ix]@.has_matches == Seq::new(nsplits as nat, |c: int| false)
                        &&& forall|haystack: Seq<u8>| !set_matches(re_states@[ix]@.set, haystack)
                    },
            decreases num_res - k,
        {
            re_states.push(
                FileSearchReState {
                    split_has_matches: bits_repeat(false, nsplits),
                    split_dirty: bits_repeat(false, nsplits),
                    re_seq: 0,
                    re: set_empty(),
                },
            );
            k += 1;
        }
        FileSearch {
            split_ids,
            max_split_len,
            re_states,
            split_in_progress: bits_repeat(false, nsplits),
            current_split: 0,
        }
    }

    /// The number of chunks.
    pub fn num_splits(&self) -> (n: usize)
        ensures
            n == self@.bounds.len(),
    {
        self.split_ids.len()
    }

    /// Replaces the patterns of class `ix`. Every answer for the class turns
    /// stale and the generation of the class advances, so that a scan that is
    /// under way for the patterns before is discarded when it ends.
    pub fn set_re(&mut self, ix: usize, re: &RegexSet)
        requires
            old(self).wf(),
            ix < old(self)@.classes.len(),
            old(self)@.classes[ix as int].generation < u64::MAX,
        ensures
            final(self).wf(),
            final(self)@ == old(self)@.with_set(ix as int, *re),
    {
        let n = self.split_ids.len();
        assert(old(self)@.classes[ix as int] == old(self).re_states@[ix as int]@);
        let ghost before = self.re_states@;
        self.re_states[ix].split_dirty = bits_repeat(true, n);
        self.re_states[ix].re_seq = self.re_states[ix].re_seq + 1;
        self.re_states[ix].re = re.clone();
        proof {
            assert forall|k: int| 0 <= k < before.len() && k != ix implies self.re_states@[k]
                == before[k] by {}
            assert forall|k: int| 0 <= k < before.len() implies (#[trigger] self@.classes[k]).dirty.len()
                == n && self@.classes[k].has_matches.len() == n by {
                assert(old(self)@.classes[k] == before[k]@);
            }
            assert(self@.classes =~= old(self)@.with_set(ix as int, *re).classes);
        }
    }

    /// Records the chunk that the user looks at. Workers scan the chunks near
    /// it first; no answer depends on it.
    pub fn set_current_split(&mut self, split_id: SplitId)
        requires
            old(self).wf(),
            split_id < old(self)@.bounds.len(),
        ensures
            final(self).wf(),
            final(self)@ == (FileSearchView { hint: split_id, ..old(self)@ }),
    {
        self.current_split = split_id;
        assert(self@.classes =~= old(self)@.classes);
    }

    /// Whether chunk `split_id` holds a match of class `ix`: `None` as long as
    /// the answer is stale.
    pub fn split_has_matches(&self, ix: usize, split_id: SplitId) -> (answer: Option<bool>)
        requires
            self.wf(),
            ix < self@.classes.len(),
            split_id < self@.bounds.len(),
        ensures
            answer == self@.answer(ix as int, split_id as int),
    {
        assert(self@.classes[ix as int] == self.re_states@[ix as int]@);
        if bits_get(&self.re_states[ix].split_dirty, split_id) {
            None
        } else {
            Some(bits_get(&self.re_states[ix].split_has_matches, split_id))
        }
    }

    /// The first claimable chunk of class `ix` at or after `from`.
    fn claimable_from(&self, ix: usize, from: usize) -> (found: Option<SplitId>)
        requires
            self.wf(),
            ix < self@.classes.len(),
            from <= self@.bounds.len(),
        ensures
            match found {
                Some(c) => {
                    &&& from <= c
                    &&& self@.claimable(ix as int, c as int)
                    &&& forall|k: int| from <= k < c ==> !self@.claimable(ix as int, k)
                },
                None => forall|k: int| from <= k ==> !self@.claimable(ix as int, k),
            },
    {
        let n = self.split_ids.len();
        let mut at: usize = from;
        assert(self@.classes[ix as int] == self.re_states@[ix as int]@);
        loop
            invariant
                self.wf(),
                ix < self@.classes.len(),
                n == self@.bounds.len(),
                from <= at <= n,
                self@.classes[ix as int] == self.re_states@[ix as int]@,
                forall|k: int| from <= k < at ==> !self@.claimable(ix as int, k),
            decreases n - at,
        {
            match bits_first_one(&self.re_states[ix].split_dirty, at) {
                None => {
                    return None;
                },
                Some(k) => {
                    let c: usize = at + k;
                    if !bits_get(&self.split_in_progress, c) {
                        return Some(c);
                    }
                    at = c + 1;
                },
            }
        }
    }

    /// The last claimable chunk of class `ix` before `to`.
    fn claimable_before(&self, ix: usize, to: usize) -> (found: Option<SplitId>)
        requires
            self.wf(),
            ix < self@.classes.len(),
            to <= self@.bounds.len(),
        ensures
            match found {
                Some(c) => {
                    &&& c < to
                    &&& self@.claimable(ix as int, c as int)
                    &&& forall|k: int| c < k < to ==> !self@.claimable(ix as int, k)
                },
                None => forall|k: int| k < to ==> !self@.claimable(ix as int, k),
            },
    {
        let mut at: usize = to;
        assert(self@.classes[ix as int] == self.re_states@[ix as int]@);
        loop
            invariant
                self.wf(),
                ix < self@.classes.len(),
                at <= to <= self@.bounds.len(),
                self@.classes[ix as int] == self.re_states@[ix as int]@,
                forall|k: int| at <= k < to ==> !self@.claimable(ix as int, k),
            decreases at,
        {
            match bits_last_one(&self.re_states[ix].split_dirty, at) {
                None => {
                    return None;
                },
                Some(c) => {
                    if !bits_get(&self.split_in_progress, c) {
                        return Some(c);
                    }
                    at = c;
                },
            }
        }
    }

    /// Picks the chunk that a worker scans next for class `ix`: the chunk
    /// nearest to the hint among those that wait for a scan and that no worker
    /// holds; `None` where there is no such chunk.
    pub fn search_next(&self, ix: usize) -> (found: Option<SplitId>)
        requires
            self.wf(),
            ix < self@.classes.len(),
        ensures
            match found {
                Some(c) => self@.nearest_claimable(ix as int, c as int),
                None => forall|c: int| !self@.claimable(ix as int, c),
            },
    {
        let hint = self.current_split;
        let up = self.claimable_from(ix, hint);
        let down = self.claimable_before(ix, hint);
        match (up, down) {
            (None, None) => None,
            (Some(u), None) => Some(u),
            (None, Some(d)) => Some(d),
            (Some(u), Some(d)) => {
                if u - hint <= hint - d {
                    Some(u)
                } else {
                    Some(d)
                }
            },
        }
    }

    /// Hands the next scan to a worker: of the lowest class that has a
    /// claimable chunk, the one that `search_next` picks. The chunk is marked
    /// as being scanned. `None`, with nothing changed, where no class has a
    /// claimable chunk.
    pub fn claim(&mut self) -> (job: Option<ScanJob>)
        requires
            old(self).wf(),
        ensures
            final(self).wf(),
            match job {
                None => {
                    &&& final(self)@ == old(self)@
                    &&& forall|ix: int, c: int| !old(self)@.claimable(ix, c)
                },
                Some(job) => {
                    &&& old(self)@.nearest_claimable(job.ix as int, job.split_id as int)
                    &&& forall|ix: int, c: int| ix < job.ix ==> !old(self)@.claimable(ix, c)
                    &&& job.seq == old(self)@.classes[job.ix as int].generation
                    &&& job.re == old(self)@.classes[job.ix as int].set
                    &&& job.start == chunk_start(old(self)@.bounds, job.split_id as int)
                    &&& job.end == old(self)@.bounds[job.split_id as int]
                    &&& job.start <= job.end
                    &&& final(self)@ == old(self)@.claimed(job.split_id as int)
                },
            },
    {
        let num_res = self.re_states.len();
        let mut ix: usize = 0;
        while ix < num_res
            invariant
                self.wf(),
                *self == *old(self),
                num_res == self@.classes.len(),
                ix <= num_res,
                forall|k: int, c: int| k < ix ==> !self@.claimable(k, c),
            decreases num_res - ix,
        {
            match self.search_next(ix) {
                Some(split_id) => {
                    assert(self@.classes[ix as int] == self.re_states@[ix as int]@);
                    let start = if split_id > 0 {
                        self.split_ids[split_id - 1]
                    } else {
                        0
                    };
                    let end = self.split_ids[split_id];
                    assert(start <= end) by {
                        if split_id > 0 {
                            assert(self.split_ids@[split_id - 1] < self.split_ids@[split_id as int]);
                        }
                    }
                    let job = ScanJob {
                        ix,
                        split_id,
                        seq: self.re_states[ix].re_seq,
                        start,
                        end,
                        re: self.re_states[ix].re.clone(),
                    };
                    bits_set(&mut self.split_in_progress, split_id, true);
                    assert(self@.classes =~= old(self)@.classes);
                    return Some(job);
                },
                None => {},
            }
            ix += 1;
        }
        None
    }

    /// Takes the result of a scan of chunk `split_id` for class `ix`, made
    /// for the patterns of generation `seq`. The chunk is no longer being
    /// scanned. Where the class is still at that generation, `found` becomes
    /// the answer for the chunk; else the result is dropped and the chunk
    /// goes on waiting. Tells whether the result was taken.
    pub fn commit(&mut self, ix: usize, split_id: SplitId, seq: u64, found: bool) -> (taken: bool)
        requires
            old(self).wf(),
            ix < old(self)@.classes.len(),
            split_id < old(self)@.bounds.len(),
        ensures
            final(self).wf(),
            taken == (old(self)@.classes[ix as int].generation == seq),
            final(self)@ == old(self)@.committed(ix as int, split_id as int, seq, found),
    {
        assert(old(self)@.classes[ix as int] == old(self).re_states@[ix as int]@);
        let ghost before = self.re_states@;
        bits_set(&mut self.split_in_progress, split_id, false);
        let taken = self.re_states[ix].re_seq == seq;
        if taken {
            bits_set(&mut self.re_states[ix].split_dirty, split_id, false);
            bits_set(&mut self.re_states[ix].split_has_matches, split_id, found);
        }
        proof {
            assert forall|k: int| 0 <= k < before.len() && k != ix implies self.re_states@[k]
                == before[k] by {}
            assert forall|k: int| 0 <= k < before.len() implies (#[trigger] self@.classes[k]).dirty.len()
                == self@.bounds.len() && self@.classes[k].has_matches.len()
                == self@.bounds.len() by {
                assert(old(self)@.classes[k] == before[k]@);
            }
            assert(self@.classes =~= old(self)@.committed(
                ix as int,
                split_id as int,
                seq,
                found,
            ).classes);
        }
        taken
    }

    /// The chunk that holds the byte at offset `line_id`; `None` where the
    /// offset lies at or after the end of the file.
    pub fn find_split(&self, line_id: LineId) -> (found: Option<SplitId>)
        requires
            self.wf(),
        ensures
            match found {
                Some(i) => {
                    &&& i < self@.bounds.len()
                    &&& chunk_start(self@.bounds, i as int) <= line_id < self@.bounds[i as int]
                },
                None => line_id >= self@.bounds.last(),
            },
    {
        let n = self.split_ids.len();
        if line_id >= self.split_ids[n - 1] {
            return None;
        }
        let mut lo: usize = 0;
        let mut hi: usize = n - 1;
        while lo < hi
            invariant
                self.wf(),
                n == self.split_ids@.len(),
                lo <= hi < n,
                line_id < self.split_ids@[hi as int],
                chunk_start(self.split_ids@, lo as int) <= line_id,
            decreases hi - lo,
        {
            let mid = lo + (hi - lo) / 2;
            if line_id < self.split_ids[mid] {
                hi = mid;
            } else {
                lo = mid + 1;
            }
        }
        Some(lo)
    }

    /// The byte range of chunk `split`: its start and its end. `None` where
    /// there is no such chunk.
    pub fn get_split(&self, split: SplitId) -> (range: Option<(LineId, LineId)>)
        requires
            self.wf(),
        ensures
            range == if split < self@.bounds.len() {
                Some((chunk_start(self@.bounds, split as int) as u64, self@.bounds[split as int]))
            } else {
                None
            },
            range matches Some((start, end)) ==> start <= end,
    {
        if split >= self.split_ids.len() {
            return None;
        }
        if split > 0 {
            assert(self.split_ids@[split - 1] < self.split_ids@[split as int]);
            Some((self.split_ids[split - 1], self.split_ids[split]))
        } else {
            Some((0, self.split_ids[0]))
        }
    }

    /// How often the patterns of class `ix` were replaced.
    pub fn generation(&self, ix: usize) -> (seq: u64)
        requires
            ix < self@.classes.len(),
        ensures
            seq == self@.classes[ix as int].generation,
    {
        assert(self@.classes[ix as int] == self.re_states@[ix as int]@);
        self.re_states[ix].re_seq
    }

    /// The number of classes of patterns.
    pub fn num_classes(&self) -> (n: usize)
        ensures
            n == self@.classes.len(),
    {
        self.re_states.len()
    }

    /// How far the scan has come: for each class the number of chunks that
    /// still wait for an answer. The scan has caught up with the patterns
    /// when all are 0.
    pub fn get_progress(&self) -> (waiting: Vec<usize>)
        requires
            self.wf(),
        ensures
            waiting@.len() == self@.classes.len(),
            forall|ix: int|
                0 <= ix < waiting@.len() ==> #[trigger] waiting@[ix] == count_set(
                    self@.classes[ix].dirty,
                    self@.classes[ix].dirty.len(),
                ),
    {
        let mut waiting: Vec<usize> = Vec::new();
        let mut ix: usize = 0;
        while ix < self.re_states.len()
            invariant
                ix <= self.re_states@.len(),
                waiting@.len() == ix,
                forall|k: int|
                    0 <= k < ix ==> #[trigger] waiting@[k] == count_set(
                        self@.classes[k].dirty,
                        self@.classes[k].dirty.len(),
                    ),
            decreases self.re_states@.len() - ix,
        {
            assert(self@.classes[ix as int] == self.re_states@[ix as int]@);
            waiting.push(bits_count_ones(&self.re_states[ix].split_dirty));
            ix += 1;
        }
        waiting
    }

    /// The length of the longest chunk: the room that a worker needs to read
    /// any chunk.
    pub fn max_split_len(&self) -> (len: LineId)
        requires
            self.wf(),
        ensures
            len == longest_chunk(self@.bounds, self@.bounds.len() as int),
    {
        self.max_split_len
    }
}

proof fn lemma_count_cleared(bits: Seq<bool>, c: int, n: nat)
    requires
        0 <= c < bits.len(),
        n <= bits.len(),
    ensures
        count_set(bits.update(c, false), n) + (if c < n && bits[c] {
            1nat
        } else {
            0nat
        }) == count_set(bits, n),
    decreases n,
{
    if n > 0 {
        lemma_count_cleared(bits, c, (n - 1) as nat);
    }
}

proof fn lemma_pending_cleared(v: FileSearchView, ix: int, c: int, found: bool, k: nat)
    requires
        v.valid(),
        0 <= ix < v.classes.len(),
        0 <= c < v.bounds.len(),
        k <= v.classes.len(),
    ensures
        v.committed(ix, c, v.classes[ix].generation, found).pending(k) + (if ix < k
            && v.classes[ix].dirty[c] {
            1nat
        } else {
            0nat
        }) == v.pending(k),
    decreases k,
{
    let w = v.committed(ix, c, v.classes[ix].generation, found);
    if k > 0 {
        lemma_pending_cleared(v, ix, c, found, (k - 1) as nat);
        if k - 1 == ix {
            lemma_count_cleared(v.classes[ix].dirty, c, v.classes[ix].dirty.len());
        } else {
            assert(w.classes[k - 1] == v.classes[k - 1]);
        }
    }
}

/// A result that is handed in for the generation that the class is at settles
/// the chunk: the answer for it is the result, every other answer stays as it
/// was, and one answer fewer is stale if the chunk's was.
pub proof fn lemma_commit_settles(v: FileSearchView, ix: int, c: int, found: bool)
    requires
        v.valid(),
        0 <= ix < v.classes.len(),
        0 <= c < v.bounds.len(),
    ensures
        ({
            let w = v.committed(ix, c, v.classes[ix].generation, found);
            &&& w.valid()
            &&& w.answer(ix, c) == Some(found)
            &&& forall|k: int, d: int|
                0 <= k < v.classes.len() && 0 <= d < v.bounds.len() && (k != ix || d != c)
                    ==> w.answer(k, d) == v.answer(k, d)
            &&& v.classes[ix].dirty[c] ==> w.pending(w.classes.len()) + 1 == v.pending(
                v.classes.len(),
            )
        }),
{
    lemma_pending_cleared(v, ix, c, found, v.classes.len());
}

/// A result that is handed in for a generation that the class has left is
/// dropped: no answer changes, and the chunk is free to be taken on again.
pub proof fn lemma_commit_stale(v: FileSearchView, ix: int, c: int, seq: u64, found: bool)
    requires
        v.valid(),
        0 <= ix < v.classes.len(),
        0 <= c < v.bounds.len(),
        seq != v.classes[ix].generation,
    ensures
        ({
            let w = v.committed(ix, c, seq, found);
            &&& w.valid()
            &&& w.classes == v.classes
            &&& !w.in_progress[c]
            &&& v.classes[ix].dirty[c] ==> w.claimable(ix, c)
        }),
{
}

/// Replacing the patterns of a class makes every chunk wait for a scan for
/// that class, whatever was known or under way before, and leaves the other
/// classes alone.
pub proof fn lemma_with_set_invalidates(v: FileSearchView, ix: int, re: RegexSet)
    requires
        v.valid(),
        0 <= ix < v.classes.len(),
        v.classes[ix].generation < u64::MAX,
    ensures
        ({
            let w = v.with_set(ix, re);
            &&& w.valid()
            &&& w.classes[ix].generation > v.classes[ix].generation
            &&& forall|c: int| 0 <= c < v.bounds.len() ==> w.answer(ix, c).is_none()
            &&& forall|k: int, c: int|
                0 <= k < v.classes.len() && k != ix && 0 <= c < v.bounds.len() ==> w.answer(k, c)
                    == v.answer(k, c)
        }),
{
}

} // verus!
