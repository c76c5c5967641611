use vstd::prelude::*;
use vstd::slice::slice_subrange;

verus! {

/// A global byte offset. It stands for the line that holds that byte.
pub type LineId = u64;

/// The position of a chunk in the partition of the file.
pub type SplitId = usize;

/// The byte that ends a line.
pub const NEWLINE: u8 = 10;

/// Where chunk `i` begins: at the end of the chunk before it, or at offset 0.
pub open spec fn chunk_start(bounds: Seq<u64>, i: int) -> int {
    if i <= 0 {
        0
    } else {
        bounds[i - 1] as int
    }
}

/// The table of chunk ends is not empty and strictly increasing, and no chunk
/// is empty but the one chunk of an empty file.
pub open spec fn bounds_ordered(bounds: Seq<u64>) -> bool {
    &&& bounds.len() >= 1
    &&& bounds.len() > 1 ==> bounds[0] > 0
    &&& forall|i: int, j: int| 0 <= i < j < bounds.len() ==> bounds[i] < bounds[j]
}

/// No line ends at an offset from `lo` up to, but not including, `hi`.
pub open spec fn no_newline_in(file: Seq<u8>, lo: int, hi: int) -> bool {
    forall|k: int| lo <= k < hi && 0 <= k < file.len() ==> #[trigger] file[k] != NEWLINE
}

/// `cut` is the offset just after the first newline that lies `chunk` bytes
/// or more after `prev`.
pub open spec fn cut_after_newline(file: Seq<u8>, chunk: nat, prev: int, cut: int) -> bool {
    &&& prev + chunk < cut <= file.len()
    &&& file[cut - 1] == NEWLINE
    &&& no_newline_in(file, prev + chunk, cut - 1)
}

/// Chunk `i` of the table `bounds` is cut just after the first newline that
/// lies `chunk` bytes or more after its start.
pub open spec fn is_cut(file: Seq<u8>, chunk: nat, bounds: Seq<u64>, i: int) -> bool {
    cut_after_newline(file, chunk, chunk_start(bounds, i), bounds[i] as int)
}

/// `bounds` is the table of chunk ends of `file` for the target chunk size
/// `chunk`: every end but the last is cut just after the first newline at or
/// after the target size, counted from the chunk's start, and lies inside the
/// file; the last end is the file's length.
pub open spec fn is_partition(file: Seq<u8>, chunk: nat, bounds: Seq<u64>) -> bool {
    &&& bounds_ordered(bounds)
    &&& bounds.last() == file.len()
    &&& forall|i: int|
        0 <= i < bounds.len() - 1 ==> #[trigger] is_cut(file, chunk, bounds, i)
    &&& no_newline_in(file, chunk_start(bounds, bounds.len() - 1) + chunk, file.len() - 1)
}

/// `memchr::memchr`: the position of the first byte equal to `needle`, or
/// `None` where no byte of `haystack` equals it.
#[verifier::external_body]
pub(crate) fn find_byte(needle: u8, haystack: &[u8]) -> (found: Option<usize>)
    ensures
        match found {
            Some(at) => {
                &&& at < haystack@.len()
                &&& haystack@[at as int] == needle
                &&& forall|k: int| 0 <= k < at ==> haystack@[k] != needle
            },
            None => forall|k: int| 0 <= k < haystack@.len() ==> haystack@[k] != needle,
        },
{
    memchr::memchr(needle, haystack)
}

/// Splits a file into chunks that end after a newline, each as short as it
/// can be with at least `chunk_size` bytes before the newline that ends it.
/// Returns the ends of the chunks; the last one is the length of the file.
pub fn split_file(bytes: &[u8], chunk_size: u64) -> (splits: Vec<LineId>)
    ensures
        is_partition(bytes@, chunk_size as nat, splits@),
{
    let len = bytes.len();
    let mut splitter = Splitter::new(chunk_size);
    let mut from = splitter.wanted();
    while from < len as u64
        invariant
            len == bytes@.len(),
            splitter.wf(),
            splitter@.chunk == chunk_size,
            splitter@.tracks(bytes@),
            from == splitter@.wanted,
        decreases
                (if from < len {
                    len - from
                } else {
                    0
                }),
    {
        let ghost before = splitter@;
        let block = slice_subrange(bytes, from as usize, len);
        let found = splitter.feed(block);
        proof {
            if found.is_some() {
                assert(first_newline_at(block@, found.unwrap() as int));
            }
            lemma_feed_tracks(before, block@, bytes@, splitter@);
        }
        from = splitter.wanted();
    }
    proof {
        lemma_finish_partitions(splitter@, bytes@);
    }
    splitter.finish(len as u64)
}

/// Splits a file that is read piece by piece. It says from which offset it
/// wants bytes, takes what was read there, and goes on after the next cut,
/// so that only the bytes around the cuts are ever read.
pub struct Splitter {
    chunk_size: u64,
    splits: Vec<LineId>,
    /// The end of the last chunk that was cut.
    prev: u64,
    /// The offset from which bytes are wanted.
    next: u64,
}

/// A splitter as plain values.
pub struct SplitterView {
    /// The target chunk size.
    pub chunk: u64,
    /// The ends of the chunks that were cut so far.
    pub cuts: Seq<u64>,
    /// The offset from which bytes are wanted.
    pub wanted: u64,
}

/// The sum, or the greatest offset where the sum lies above it.
pub open spec fn capped(a: int, b: int) -> u64 {
    if a + b > u64::MAX {
        u64::MAX
    } else {
        (a + b) as u64
    }
}

impl SplitterView {
    /// The end of the last chunk that was cut.
    pub open spec fn last_cut(self) -> int {
        chunk_start(self.cuts, self.cuts.len() as int)
    }

    /// The splitter after it took `len` bytes without a newline.
    pub open spec fn skipped(self, len: int) -> SplitterView {
        SplitterView { wanted: capped(self.wanted as int, len), ..self }
    }

    /// The splitter after it took bytes with the first newline at position
    /// `at`: the chunk is cut after the newline, and bytes are wanted from
    /// the target chunk size after the cut. No cut is made at an offset that
    /// no file reaches.
    pub open spec fn cut_at(self, at: int) -> SplitterView {
        if self.wanted + at >= u64::MAX {
            SplitterView { wanted: u64::MAX, ..self }
        } else {
            SplitterView {
                cuts: self.cuts.push((self.wanted + at + 1) as u64),
                wanted: capped(self.wanted + at + 1, self.chunk as int),
                ..self
            }
        }
    }

    /// The ends of the chunks of a file of `file_len` bytes, once the
    /// splitter has come to the end of the file: the cuts, and the end of the
    /// file unless the last cut lies there.
    pub open spec fn finished(self, file_len: u64) -> Seq<u64> {
        if self.cuts.len() > 0 && self.cuts.last() >= file_len {
            self.cuts
        } else {
            self.cuts.push(file_len)
        }
    }

    /// What was fed so far were bytes of `file`: the cuts that were made are
    /// cuts of `file`, and no chunk of `file` ends between the last cut and
    /// the offset from which bytes are wanted.
    pub open spec fn tracks(self, file: Seq<u8>) -> bool {
        &&& self.last_cut() + self.chunk <= self.wanted || self.wanted == u64::MAX
        &&& no_newline_in(file, self.last_cut() + self.chunk, self.wanted as int)
        &&& forall|i: int, j: int| 0 <= i < j < self.cuts.len() ==> self.cuts[i] < self.cuts[j]
        &&& forall|i: int|
            0 <= i < self.cuts.len() ==> #[trigger] is_cut(file, self.chunk as nat, self.cuts, i)
    }
}

/// The first newline of `block` stands at position `at`.
pub open spec fn first_newline_at(block: Seq<u8>, at: int) -> bool {
    &&& 0 <= at < block.len()
    &&& block[at] == NEWLINE
    &&& forall|k: int| 0 <= k < at ==> block[k] != NEWLINE
}

/// A splitter that is fed the bytes of a file from the offset that it wants
/// keeps track of the file, and wants bytes from further on.
pub proof fn lemma_feed_tracks(v: SplitterView, block: Seq<u8>, file: Seq<u8>, w: SplitterView)
    requires
        v.tracks(file),
        file.len() <= u64::MAX,
        block.len() > 0,
        v.wanted + block.len() <= file.len(),
        block == file.subrange(v.wanted as int, v.wanted + block.len()),
        (forall|k: int| 0 <= k < block.len() ==> block[k] != NEWLINE) && w == v.skipped(
            block.len() as int,
        ) || exists|at: int| first_newline_at(block, at) && w == v.cut_at(at),
    ensures
        w.tracks(file),
        w.wanted > v.wanted,
{
    if forall|k: int| 0 <= k < block.len() ==> block[k] != NEWLINE {
        assert forall|k: int|
            v.last_cut() + v.chunk <= k < w.wanted && 0 <= k < file.len() implies #[trigger] file[k]
            != NEWLINE by {
            if k >= v.wanted {
                assert(block[k - v.wanted] == file[k]);
            }
        }
        if exists|at: int| first_newline_at(block, at) && w == v.cut_at(at) {
            let at = choose|at: int| first_newline_at(block, at) && w == v.cut_at(at);
            assert(block[at] == NEWLINE);
        }
    } else {
        let at = choose|at: int| first_newline_at(block, at) && w == v.cut_at(at);
        let cut = v.wanted + at + 1;
        assert(block[at] == file[v.wanted + at]);
        assert forall|k: int|
            v.last_cut() + v.chunk <= k < cut - 1 && 0 <= k < file.len() implies #[trigger] file[k]
            != NEWLINE by {
            if k >= v.wanted {
                assert(block[k - v.wanted] == file[k]);
            }
        }
        assert(cut_after_newline(file, v.chunk as nat, v.last_cut(), cut));
        assert forall|i: int| 0 <= i < w.cuts.len() implies #[trigger] is_cut(
            file,
            w.chunk as nat,
            w.cuts,
            i,
        ) by {
            if i < v.cuts.len() {
                assert(is_cut(file, v.chunk as nat, v.cuts, i));
                assert(w.cuts[i] == v.cuts[i]);
                assert(chunk_start(w.cuts, i) == chunk_start(v.cuts, i));
            }
        }
        assert forall|i: int, j: int| 0 <= i < j < w.cuts.len() implies w.cuts[i] < w.cuts[j] by {
            if j == v.cuts.len() {
                if i < v.cuts.len() - 1 {
                    assert(v.cuts[i] < v.cuts[v.cuts.len() - 1]);
                }
            }
        }
    }
}

/// A splitter that kept track of a file up to its end gives the partition
/// of the file.
pub proof fn lemma_finish_partitions(v: SplitterView, file: Seq<u8>)
    requires
        v.tracks(file),
        file.len() <= v.wanted,
    ensures
        is_partition(file, v.chunk as nat, v.finished(file.len() as u64)),
{
    let splits = v.finished(file.len() as u64);
    let n = v.cuts.len() as int;
    if n > 0 {
        assert(is_cut(file, v.chunk as nat, v.cuts, 0));
        assert(is_cut(file, v.chunk as nat, v.cuts, n - 1));
    }
    if !(n > 0 && v.cuts.last() >= file.len()) {
        assert forall|i: int| 0 <= i < splits.len() - 1 implies #[trigger] is_cut(
            file,
            v.chunk as nat,
            splits,
            i,
        ) by {
            assert(is_cut(file, v.chunk as nat, v.cuts, i));
            assert(splits[i] == v.cuts[i]);
            assert(chunk_start(splits, i) == chunk_start(v.cuts, i));
        }
        assert forall|i: int, j: int| 0 <= i < j < splits.len() implies splits[i] < splits[j] by {
            if j == n {
                assert(v.cuts[i] <= v.cuts[n - 1]);
            }
        }
    }
}

impl Splitter {
    pub closed spec fn view(&self) -> SplitterView {
        SplitterView { chunk: self.chunk_size, cuts: self.splits@, wanted: self.next }
    }

    /// The invariant: the end of the last cut is kept at hand.
    pub closed spec fn wf(&self) -> bool {
        self.prev == self@.last_cut()
    }

    /// A splitter for the target chunk size `chunk_size`, which has seen
    /// no byte yet and wants bytes from the offset `chunk_size` on.
    pub fn new(chunk_size: u64) -> (this: Splitter)
        ensures
            this.wf(),
            this@ == (SplitterView { chunk: chunk_size, cuts: Seq::empty(), wanted: chunk_size }),
    {
        Splitter { chunk_size, splits: Vec::new(), prev: 0, next: chunk_size }
    }

    /// The offset from which the splitter wants bytes next.
    pub fn wanted(&self) -> (offset: u64)
        ensures
            offset == self@.wanted,
    {
        self.next
    }

    /// Takes the bytes `block`, which were read from the offset `wanted()`
    /// on. Where they hold a newline, the chunk is cut after the first one
    /// and the splitter wants bytes from the target chunk size after the
    /// cut; else it wants the bytes after the block. Returns the position of
    /// that newline in the block.
    pub fn feed(&mut self, block: &[u8]) -> (found: Option<usize>)
        requires
            old(self).wf(),
        ensures
            final(self).wf(),
            match found {
                None => {
                    &&& forall|k: int| 0 <= k < block@.len() ==> block@[k] != NEWLINE
                    &&& final(self)@ == old(self)@.skipped(block@.len() as int)
                },
                Some(at) => {
                    &&& first_newline_at(block@, at as int)
                    &&& final(self)@ == old(self)@.cut_at(at as int)
                },
            },
    {
        let found = find_byte(NEWLINE, block);
        match found {
            None => {
                self.next = self.next.saturating_add(block.len() as u64);
            },
            Some(at) => {
                let ahead = self.next.saturating_add(at as u64);
                if ahead == u64::MAX {
                    self.next = u64::MAX;
                } else {
                    let cut: u64 = ahead + 1;
                    self.splits.push(cut);
                    self.prev = cut;
                    self.next = cut.saturating_add(self.chunk_size);
                }
            },
        }
        found
    }

    /// Ends the splitting of a file of `file_len` bytes, once no byte was
    /// left to read at the offset `wanted()`: the last chunk ends at the end
    /// of the file.
    pub fn finish(self, file_len: u64) -> (splits: Vec<LineId>)
        ensures
            splits@ == self@.finished(file_len),
    {
        let mut splits = self.splits;
        let n = splits.len();
        if n > 0 && splits[n - 1] >= file_len {
            return splits;
        }
        splits.push(file_len);
        splits
    }
}

/// The bytes of chunk `i`.
pub open spec fn chunk_bytes(file: Seq<u8>, bounds: Seq<u64>, i: int) -> Seq<u8> {
    file.subrange(chunk_start(bounds, i), bounds[i] as int)
}

/// The bytes of the first `n` chunks, one chunk after the other.
pub open spec fn chunks_joined(file: Seq<u8>, bounds: Seq<u64>, n: nat) -> Seq<u8>
    decreases n,
{
    if n == 0 {
        Seq::empty()
    } else {
        chunks_joined(file, bounds, (n - 1) as nat) + chunk_bytes(file, bounds, n - 1)
    }
}

/// The ends of the chunks strictly increase, the last end is the length of
/// the file, and the byte just before every other end is a newline.
pub proof fn lemma_partition_ends(file: Seq<u8>, chunk: nat, bounds: Seq<u64>)
    requires
        is_partition(file, chunk, bounds),
    ensures
        forall|i: int, j: int| 0 <= i < j < bounds.len() ==> bounds[i] < bounds[j],
        bounds[bounds.len() - 1] == file.len(),
        forall|i: int|
            0 <= i < bounds.len() - 1 ==> 0 < #[trigger] bounds[i] <= file.len() && file[bounds[i]
                - 1] == NEWLINE,
{
    assert forall|i: int| 0 <= i < bounds.len() - 1 implies 0 < #[trigger] bounds[i] <= file.len()
        && file[bounds[i] - 1] == NEWLINE by {
        assert(is_cut(file, chunk, bounds, i));
    }
}

/// The chunks cover the file without a gap and without an overlap: joined in
/// order they give the file back.
pub proof fn lemma_partition_covers(file: Seq<u8>, chunk: nat, bounds: Seq<u64>)
    requires
        is_partition(file, chunk, bounds),
    ensures
        chunks_joined(file, bounds, bounds.len()) == file,
{
    lemma_joined_prefix(file, bounds, bounds.len());
    assert(file.subrange(0, file.len() as int) == file);
}

proof fn lemma_joined_prefix(file: Seq<u8>, bounds: Seq<u64>, n: nat)
    requires
        bounds_ordered(bounds),
        bounds.last() <= file.len(),
        n <= bounds.len(),
    ensures
        chunks_joined(file, bounds, n) == file.subrange(0, chunk_start(bounds, n as int)),
    decreases n,
{
    if n == 0 {
        assert(file.subrange(0, 0) == Seq::<u8>::empty());
    } else {
        lemma_joined_prefix(file, bounds, (n - 1) as nat);
        let lo = chunk_start(bounds, n - 1);
        let hi = bounds[n - 1] as int;
        assert(lo <= hi) by {
            if n >= 2 {
                assert(bounds[n - 2] < bounds[n - 1]);
            }
        }
        assert(hi <= file.len()) by {
            if n < bounds.len() {
                assert(bounds[n - 1] < bounds[bounds.len() - 1]);
            }
        }
        assert(file.subrange(0, lo) + file.subrange(lo, hi) == file.subrange(0, hi));
    }
}

/// A file has one partition for a target chunk size.
pub proof fn lemma_partition_unique(file: Seq<u8>, chunk: nat, a: Seq<u64>, b: Seq<u64>)
    requires
        is_partition(file, chunk, a),
        is_partition(file, chunk, b),
    ensures
        a == b,
{
    lemma_same_prefix(file, chunk, a, b, a.len());
    lemma_same_prefix(file, chunk, b, a, b.len());
    assert(a.len() == b.len()) by {
        if a.len() < b.len() {
            assert(b[a.len() - 1] < b[b.len() - 1]);
        }
        if b.len() < a.len() {
            assert(a[b.len() - 1] < a[a.len() - 1]);
        }
    }
    assert(a =~= b);
}

proof fn lemma_same_prefix(file: Seq<u8>, chunk: nat, a: Seq<u64>, b: Seq<u64>, n: nat)
    requires
        is_partition(file, chunk, a),
        is_partition(file, chunk, b),
        n <= a.len(),
    ensures
        n <= b.len(),
        forall|i: int| 0 <= i < n ==> a[i] == b[i],
    decreases n,
{
    if n > 0 {
        lemma_same_prefix(file, chunk, a, b, (n - 1) as nat);
        let i = n - 1;
        let prev = chunk_start(a, i);
        assert(prev == chunk_start(b, i));
        if i < b.len() {
            lemma_end_determined(file, chunk, a, i);
            lemma_end_determined(file, chunk, b, i);
            let (x, y) = (a[i] as int, b[i] as int);
            if x < y {
                assert(file[x - 1] == NEWLINE);
            }
            if y < x {
                assert(file[y - 1] == NEWLINE);
            }
        } else {
            // b ended before a did: its last end is the length of the file
            assert(b[i - 1] == file.len());
            lemma_end_determined(file, chunk, a, i);
            assert(a[i - 1] == b[i - 1]);
            if i < a.len() - 1 {
                assert(a[i] < a[a.len() - 1]);
            }
            assert(false);
        }
    }
}

/// What fixes the end of a chunk that starts at `prev`.
spec fn end_from(file: Seq<u8>, chunk: nat, prev: int, end: int) -> bool {
    &&& prev + chunk < end <= file.len() || end == file.len()
    &&& no_newline_in(file, prev + chunk, end - 1)
    &&& end < file.len() ==> file[end - 1] == NEWLINE
}

proof fn lemma_end_determined(file: Seq<u8>, chunk: nat, bounds: Seq<u64>, i: int)
    requires
        is_partition(file, chunk, bounds),
        0 <= i < bounds.len(),
    ensures
        end_from(file, chunk, chunk_start(bounds, i), bounds[i] as int),
        chunk_start(bounds, i) <= bounds[i],
{
    if i < bounds.len() - 1 {
        assert(is_cut(file, chunk, bounds, i));
        assert(bounds[i] < bounds[bounds.len() - 1]);
    }
    if i > 0 {
        assert(bounds[i - 1] < bounds[i]);
    }
}

} // verus!
