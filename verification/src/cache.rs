use vstd::prelude::*;
use vstd::slice::slice_to_vec;
use lru::LruCache;
use std::sync::Arc;
use crate::bits::count_set;
use crate::partition::{chunk_start, LineId, SplitId};
use crate::pattern::{LineSets, PatternSet};
use crate::recency::{arc_share, arc_try_unwrap, lru_cap, lru_entries, lru_new, lru_pop, lru_put};
use crate::search::{FileSearch, FileSearchView, ScanJob};
use crate::split::{parsed, Split, SplitView};

verus! {

/// The classes of patterns that are scanned for in the background.
#[derive(Debug, Clone, Copy, PartialEq, Eq, Structural)]
pub enum SearchType {
    Tag,
    Search,
}

impl SearchType {
    /// The position of the class in per-class tables.
    pub open spec fn ix(self) -> nat {
        match self {
            SearchType::Tag => 0,
            SearchType::Search => 1,
        }
    }

    pub fn as_ix(&self) -> (ix: usize)
        ensures
            ix == self.ix(),
            ix < Self::count(),
    {
        match self {
            SearchType::Tag => 0,
            SearchType::Search => 1,
        }
    }

    /// The number of classes.
    pub open spec fn count() -> nat {
        2
    }

    pub fn max() -> (n: usize)
        ensures
            n == Self::count(),
    {
        2
    }
}

/// One cached chunk: its number, its parsed content, and the sets that its
/// lines were tested against.
pub struct CachedView {
    pub id: SplitId,
    pub split: SplitView,
    pub sets: LineSets,
}

/// The cache as plain values.
pub struct SplitCacheView {
    /// The cached chunks, the one used last first.
    pub entries: Seq<CachedView>,
    /// The number of chunks that the cache holds at most.
    pub capacity: nat,
    /// The state of the background scan.
    pub search: FileSearchView,
}

impl SplitCacheView {
    /// Where chunk `id` stands in the cache, if it is there.
    pub open spec fn position(self, id: SplitId) -> Option<int> {
        if exists|i: int| 0 <= i < self.entries.len() && (#[trigger] self.entries[i]).id == id {
            Some(choose|i: int| 0 <= i < self.entries.len() && (#[trigger] self.entries[i]).id == id)
        } else {
            None
        }
    }

    /// The number of bytes of chunk `id` in the file.
    pub open spec fn chunk_len(self, id: SplitId) -> int {
        self.search.bounds[id as int] - chunk_start(self.search.bounds, id as int)
    }

    /// The cache is consistent: it holds no more chunks than it may and none
    /// twice, and each cached chunk is a chunk of the file, has as many bytes
    /// as the chunk has in the file, and is parsed for the sets recorded with
    /// it.
    pub open spec fn valid(self) -> bool {
        &&& self.search.valid()
        &&& 0 < self.capacity
        &&& self.entries.len() <= self.capacity
        &&& forall|i: int, j: int|
            0 <= i < j < self.entries.len() ==> (#[trigger] self.entries[i]).id
                != (#[trigger] self.entries[j]).id
        &&& forall|i: int|
            0 <= i < self.entries.len() ==> {
                let e = #[trigger] self.entries[i];
                &&& e.id < self.search.bounds.len()
                &&& e.split.buf.len() == self.chunk_len(e.id)
                &&& e.split == parsed(e.split.buf, e.split.pattern_seq, e.sets)
            }
    }

    /// Every cached chunk that is at the generation of `patterns` was parsed
    /// for the sets of `patterns`: one generation, one set of patterns.
    pub open spec fn coherent_with(self, patterns: PatternSet) -> bool {
        forall|i: int|
            0 <= i < self.entries.len() && (#[trigger] self.entries[i]).split.pattern_seq
                == patterns.seq ==> self.entries[i].sets == patterns.sets()
    }

    /// The content of chunk `id` as a lookup for `patterns` finds it: as it
    /// is cached where it is at the generation of `patterns`, else parsed
    /// anew from the cached bytes.
    pub open spec fn content(self, id: SplitId, patterns: PatternSet) -> Option<CachedView> {
        match self.position(id) {
            Some(i) => {
                let e = self.entries[i];
                if e.split.pattern_seq == patterns.seq {
                    Some(e)
                } else {
                    Some(
                        CachedView {
                            id,
                            split: parsed(e.split.buf, patterns.seq, patterns.sets()),
                            sets: patterns.sets(),
                        },
                    )
                }
            },
            None => None,
        }
    }

    /// The cache after a lookup of chunk `id` for `patterns`: a chunk that was
    /// found is now the one used last, with the content that the lookup gave.
    pub open spec fn touched(self, id: SplitId, patterns: PatternSet) -> SplitCacheView {
        match self.position(id) {
            Some(i) => SplitCacheView {
                entries: seq![self.content(id, patterns).unwrap()] + self.entries.remove(i),
                ..self
            },
            None => self,
        }
    }

    /// The cache after the bytes `buf` of chunk `id` were parsed for
    /// `patterns` and stored: the chunk is the one used last; an older entry
    /// for it is gone, and where there was none and the cache was full, the
    /// entry used longest ago is gone.
    pub open spec fn stored(self, id: SplitId, buf: Seq<u8>, patterns: PatternSet) -> SplitCacheView {
        let entry = CachedView {
            id,
            split: parsed(buf, patterns.seq, patterns.sets()),
            sets: patterns.sets(),
        };
        let rest = match self.position(id) {
            Some(i) => self.entries.remove(i),
            None => if self.entries.len() == self.capacity {
                self.entries.drop_last()
            } else {
                self.entries
            },
        };
        SplitCacheView { entries: seq![entry] + rest, ..self }
    }
}

/// In a valid cache the chunk at position `i` is found there.
pub proof fn lemma_position(v: SplitCacheView, i: int)
    requires
        v.valid(),
        0 <= i < v.entries.len(),
    ensures
        v.position(v.entries[i].id) == Some(i),
{
    let id = v.entries[i].id;
    let j = choose|j: int| 0 <= j < v.entries.len() && (#[trigger] v.entries[j]).id == id;
    if j < i {
        assert(v.entries[j].id != v.entries[i].id);
    }
    if i < j {
        assert(v.entries[i].id != v.entries[j].id);
    }
}

/// A lookup leaves a valid cache valid, and one that is coherent with the
/// patterns coherent with them.
pub proof fn lemma_touched_valid(v: SplitCacheView, id: SplitId, patterns: PatternSet)
    requires
        v.valid(),
        id < v.search.bounds.len(),
    ensures
        v.touched(id, patterns).valid(),
        v.coherent_with(patterns) ==> v.touched(id, patterns).coherent_with(patterns),
{
    let w = v.touched(id, patterns);
    match v.position(id) {
        Some(at) => {
            let rest = v.entries.remove(at);
            assert(v.entries[at].id == id);
            assert forall|i: int| 0 < i < w.entries.len() implies #[trigger] w.entries[i]
                == v.entries[if i - 1 < at {
                i - 1
            } else {
                i
            }] by {
                assert(w.entries[i] == rest[i - 1]);
            }
            assert forall|i: int, j: int| 0 <= i < j < w.entries.len() implies (
            #[trigger] w.entries[i]).id != (#[trigger] w.entries[j]).id by {
                let b = if j - 1 < at {
                    j - 1
                } else {
                    j
                };
                assert(w.entries[j] == v.entries[b]);
                if i == 0 {
                    if b < at {
                        assert(v.entries[b].id != v.entries[at].id);
                    } else {
                        assert(v.entries[at].id != v.entries[b].id);
                    }
                } else {
                    let a = if i - 1 < at {
                        i - 1
                    } else {
                        i
                    };
                    assert(w.entries[i] == v.entries[a]);
                    assert(v.entries[a].id != v.entries[b].id);
                }
            }
            assert forall|i: int| 0 <= i < w.entries.len() implies ({
                let e = #[trigger] w.entries[i];
                &&& e.id < w.search.bounds.len()
                &&& e.split.buf.len() == w.chunk_len(e.id)
                &&& e.split == parsed(e.split.buf, e.split.pattern_seq, e.sets)
            }) by {
                if i > 0 {
                    let a = if i - 1 < at {
                        i - 1
                    } else {
                        i
                    };
                    assert(w.entries[i] == v.entries[a]);
                }
            }
            if v.coherent_with(patterns) {
                assert forall|i: int|
                    0 <= i < w.entries.len() && (#[trigger] w.entries[i]).split.pattern_seq
                        == patterns.seq implies w.entries[i].sets == patterns.sets() by {
                    if i > 0 {
                        let a = if i - 1 < at {
                            i - 1
                        } else {
                            i
                        };
                        assert(w.entries[i] == v.entries[a]);
                    }
                }
            }
        },
        None => {},
    }
}

/// A lookup changes what no later lookup for the same patterns finds: not of
/// the chunk looked up, not of any other.
pub proof fn lemma_touched_content(v: SplitCacheView, id: SplitId, patterns: PatternSet)
    requires
        v.valid(),
        id < v.search.bounds.len(),
    ensures
        forall|c: SplitId| #[trigger]
            v.touched(id, patterns).content(c, patterns) == v.content(c, patterns),
{
    let w = v.touched(id, patterns);
    lemma_touched_valid(v, id, patterns);
    match v.position(id) {
        Some(at) => {
            assert(v.entries[at].id == id);
            assert forall|c: SplitId| #[trigger]
                w.content(c, patterns) == v.content(c, patterns) by {
                if c == id {
                    lemma_position(w, 0);
                } else {
                    match v.position(c) {
                        Some(b) => {
                            assert(v.entries[b].id == c);
                            let a = if b < at {
                                b + 1
                            } else {
                                b
                            };
                            assert(w.entries[a] == v.entries.remove(at)[a - 1]);
                            lemma_position(w, a);
                        },
                        None => {
                            if w.position(c).is_some() {
                                let a = w.position(c).unwrap();
                                assert(w.entries[a].id == c);
                                assert(a > 0);
                                assert(w.entries[a] == v.entries.remove(at)[a - 1]);
                                let b = if a - 1 < at {
                                    a - 1
                                } else {
                                    a
                                };
                                assert(v.entries[b].id == c);
                            }
                        },
                    }
                }
            }
        },
        None => {},
    }
}

/// What a lookup finds is a chunk of the file with the bytes of the whole
/// chunk, parsed for some sets at the generation of the patterns.
pub proof fn lemma_content_parsed(v: SplitCacheView, id: SplitId, patterns: PatternSet)
    requires
        v.valid(),
        v.content(id, patterns).is_some(),
    ensures
        ({
            let e = v.content(id, patterns).unwrap();
            &&& id < v.search.bounds.len()
            &&& e.id == id
            &&& e.split.buf.len() == v.chunk_len(id)
            &&& e.split.pattern_seq == patterns.seq
            &&& e.split == parsed(e.split.buf, patterns.seq, e.sets)
        }),
{
    let at = v.position(id).unwrap();
    assert(v.entries[at].id == id);
}

/// Whichever way a chunk came into a cache that is coherent with the
/// patterns, by a read or by a refresh, now or before other chunks came and
/// went: a lookup gives what parsing the cached bytes for the patterns
/// gives.
pub proof fn lemma_lookup_is_parse(v: SplitCacheView, id: SplitId, patterns: PatternSet)
    requires
        v.valid(),
        v.coherent_with(patterns),
        v.position(id).is_some(),
    ensures
        v.content(id, patterns).unwrap().split == parsed(
            v.entries[v.position(id).unwrap()].split.buf,
            patterns.seq,
            patterns.sets(),
        ),
{
    let at = v.position(id).unwrap();
    assert(v.entries[at].id == id);
}

/// What a lookup gives depends on the bytes of the chunk and on the
/// patterns alone: two caches that are coherent with the patterns and hold
/// the same bytes for a chunk give the same line table and the same lists,
/// whatever else they hold and however the chunk came into them.
pub proof fn lemma_lookup_deterministic(
    a: SplitCacheView,
    b: SplitCacheView,
    id: SplitId,
    patterns: PatternSet,
)
    requires
        a.valid(),
        b.valid(),
        a.coherent_with(patterns),
        b.coherent_with(patterns),
        a.position(id).is_some(),
        b.position(id).is_some(),
        a.entries[a.position(id).unwrap()].split.buf == b.entries[b.position(
            id,
        ).unwrap()].split.buf,
    ensures
        a.content(id, patterns).unwrap().split == b.content(id, patterns).unwrap().split,
{
    lemma_lookup_is_parse(a, id, patterns);
    lemma_lookup_is_parse(b, id, patterns);
}

/// A chunk that was stored is found by the next lookup for the same
/// patterns, as parsing its bytes gives it.
pub proof fn lemma_stored_is_found(v: SplitCacheView, id: SplitId, buf: Seq<u8>, patterns: PatternSet)
    requires
        v.valid(),
        id < v.search.bounds.len(),
        buf.len() == v.chunk_len(id),
    ensures
        v.stored(id, buf, patterns).content(id, patterns) == Some(
            CachedView {
                id,
                split: parsed(buf, patterns.seq, patterns.sets()),
                sets: patterns.sets(),
            },
        ),
{
    lemma_stored_valid(v, id, buf, patterns);
    lemma_position(v.stored(id, buf, patterns), 0);
}

/// Storing a chunk leaves a valid cache valid, and one that is coherent with
/// the patterns coherent with them.
pub proof fn lemma_stored_valid(v: SplitCacheView, id: SplitId, buf: Seq<u8>, patterns: PatternSet)
    requires
        v.valid(),
        id < v.search.bounds.len(),
        buf.len() == v.chunk_len(id),
    ensures
        v.stored(id, buf, patterns).valid(),
        v.coherent_with(patterns) ==> v.stored(id, buf, patterns).coherent_with(patterns),
{
    let w = v.stored(id, buf, patterns);
    let rest = w.entries.subrange(1, w.entries.len() as int);
    // every entry after the first is an entry of the cache before, other
    // than the one for `id`, and their order is kept
    let src = |i: int|
        match v.position(id) {
            Some(at) => if i - 1 < at {
                i - 1
            } else {
                i
            },
            None => i - 1,
        };
    assert forall|i: int| 0 < i < w.entries.len() implies 0 <= src(i) < v.entries.len()
        && #[trigger] w.entries[i] == v.entries[src(i)] && v.entries[src(i)].id != id by {
        match v.position(id) {
            Some(at) => {
                assert(w.entries[i] == v.entries.remove(at)[i - 1]);
                assert(v.entries[at].id == id);
                if src(i) < at {
                    assert(v.entries[src(i)].id != v.entries[at].id);
                } else {
                    assert(v.entries[at].id != v.entries[src(i)].id);
                }
            },
            None => {
                if v.entries.len() == v.capacity {
                    assert(w.entries[i] == v.entries.drop_last()[i - 1]);
                } else {
                    assert(w.entries[i] == v.entries[i - 1]);
                }
            },
        }
    }
    assert forall|i: int, j: int| 0 <= i < j < w.entries.len() implies (#[trigger] w.entries[i]).id
        != (#[trigger] w.entries[j]).id by {
        assert(w.entries[j] == v.entries[src(j)]);
        if i > 0 {
            assert(w.entries[i] == v.entries[src(i)]);
            assert(src(i) < src(j));
            assert(v.entries[src(i)].id != v.entries[src(j)].id);
        }
    }
    assert forall|i: int| 0 <= i < w.entries.len() implies ({
        let e = #[trigger] w.entries[i];
        &&& e.id < w.search.bounds.len()
        &&& e.split.buf.len() == w.chunk_len(e.id)
        &&& e.split == parsed(e.split.buf, e.split.pattern_seq, e.sets)
    }) by {
        if i > 0 {
            assert(w.entries[i] == v.entries[src(i)]);
        }
    }
    if v.coherent_with(patterns) {
        assert forall|i: int|
            0 <= i < w.entries.len() && (#[trigger] w.entries[i]).split.pattern_seq
                == patterns.seq implies w.entries[i].sets == patterns.sets() by {
            if i > 0 {
                assert(w.entries[i] == v.entries[src(i)]);
            }
        }
    }
}

/// A cache of parsed chunks of bounded size, together with the bookkeeping
/// of the background scan of the same file.
pub struct SplitCache {
    lru: LruCache<SplitId, Arc<Split>>,
    file_search: FileSearch,
    sets: Ghost<Map<SplitId, LineSets>>,
}

impl SplitCache {
    pub closed spec fn view(&self) -> SplitCacheView {
        SplitCacheView {
            entries: Seq::new(
                lru_entries(self.lru).len(),
                |i: int|
                    CachedView {
                        id: lru_entries(self.lru)[i].0,
                        split: (*lru_entries(self.lru)[i].1)@,
                        sets: self.sets@[lru_entries(self.lru)[i].0],
                    },
            ),
            capacity: lru_cap(self.lru),
            search: self.file_search@,
        }
    }

    /// The invariant of the cache.
    pub closed spec fn wf(&self) -> bool {
        &&& self.file_search.wf()
        &&& self@.valid()
    }

    /// A well-formed cache has a valid view.
    pub proof fn lemma_valid(&self)
        requires
            self.wf(),
        ensures
            self@.valid(),
    {
    }

    /// An empty cache for at most `nsplits` chunks of the file that
    /// `file_search` keeps the books of.
    pub fn new(file_search: FileSearch, nsplits: usize) -> (this: SplitCache)
        requires
            file_search.wf(),
            nsplits > 0,
        ensures
            this.wf(),
            this@ == (SplitCacheView {
                entries: Seq::empty(),
                capacity: nsplits as nat,
                search: file_search@,
            }),
    {
        proof {
            file_search.lemma_valid();
        }
        let this = SplitCache { lru: lru_new(nsplits), file_search, sets: Ghost(Map::empty()) };
        assert(this@.entries =~= Seq::empty());
        this
    }

    /// The number of chunks of the file.
    pub fn num_splits(&self) -> (n: usize)
        ensures
            n == self@.search.bounds.len(),
    {
        self.file_search.num_splits()
    }

    /// The chunk that holds the byte at offset `line_id`; `None` where the
    /// offset lies at or after the end of the file.
    pub fn find_split(&self, line_id: LineId) -> (found: Option<SplitId>)
        requires
            self.wf(),
        ensures
            match found {
                Some(i) => {
                    &&& i < self@.search.bounds.len()
                    &&& chunk_start(self@.search.bounds, i as int) <= line_id
                        < self@.search.bounds[i as int]
                },
                None => line_id >= self@.search.bounds.last(),
            },
    {
        self.file_search.find_split(line_id)
    }

    /// The byte range of chunk `split`; `None` where there is no such chunk.
    pub fn get_split(&self, split: SplitId) -> (range: Option<(LineId, LineId)>)
        requires
            self.wf(),
        ensures
            range == if split < self@.search.bounds.len() {
                Some(
                    (
                        chunk_start(self@.search.bounds, split as int) as u64,
                        self@.search.bounds[split as int],
                    ),
                )
            } else {
                None
            },
            range matches Some((start, end)) ==> start <= end,
    {
        self.file_search.get_split(split)
    }

    /// The bookkeeping of the background scan.
    pub fn get_file_search(&self) -> (search: &FileSearch)
        ensures
            search@ == self@.search,
            self.wf() ==> search.wf(),
    {
        &self.file_search
    }

    /// Looks chunk `split_id` up for `patterns`. A cached chunk becomes the
    /// one used last and is returned: as it is where it is at the generation
    /// of `patterns`; else its lines are tested anew against the sets of
    /// `patterns`, with the bytes and the line table that are cached. `None`,
    /// with nothing changed, where the chunk is not cached: its bytes have to
    /// be read and handed to `load`.
    pub fn get(&mut self, split_id: SplitId, patterns: &PatternSet) -> (found: Option<Arc<Split>>)
        requires
            old(self).wf(),
            split_id < old(self)@.search.bounds.len(),
        ensures
            final(self).wf(),
            final(self)@ == old(self)@.touched(split_id, *patterns),
            match found {
                Some(split) => old(self)@.content(split_id, *patterns) matches Some(e)
                    && e.split == split@,
                None => old(self)@.position(split_id).is_none(),
            },
    {
        let ghost before = lru_entries(self.lru);
        let ghost view = self@;
        match lru_pop(&mut self.lru, split_id) {
            None => {
                proof {
                    assert(self@.entries =~= view.entries);
                    assert forall|i: int| 0 <= i < view.entries.len() implies (
                    #[trigger] view.entries[i]).id != split_id by {
                        assert(before[i].0 != split_id);
                    }
                }
                None
            },
            Some(split) => {
                let ghost at = choose|i: int|
                    0 <= i < before.len() && #[trigger] before[i] == (split_id, split)
                        && lru_entries(self.lru) == before.remove(i);
                let ghost rest = before.remove(at);
                proof {
                    assert(view.entries[at].id == split_id);
                    lemma_position(view, at);
                    assert forall|j: int| 0 <= j < rest.len() implies (#[trigger] rest[j]).0
                        != split_id by {
                        if j < at {
                            assert(view.entries[j].id != view.entries[at].id);
                        } else {
                            assert(view.entries[at].id != view.entries[j + 1].id);
                        }
                    }
                }
                let fresh = if split.pattern_seq == patterns.seq {
                    split
                } else {
                    let mut owned = match arc_try_unwrap(split) {
                        Ok(owned) => owned,
                        Err(shared) => Split {
                            pattern_seq: shared.pattern_seq,
                            buf: slice_to_vec(shared.buf.as_slice()),
                            line_ends: slice_to_vec(shared.line_ends.as_slice()),
                            tagged_lines: Vec::new(),
                            search_lines: Vec::new(),
                            hidden_lines: Vec::new(),
                        },
                    };
                    assert(owned@.buf.len() == owned.buf.len());
                    owned.annotate(patterns);
                    proof {
                        self.sets@ = self.sets@.insert(split_id, patterns.sets());
                    }
                    Arc::new(owned)
                };
                let out = arc_share(&fresh);
                let put = lru_put(&mut self.lru, split_id, fresh);
                proof {
                    if put.is_some() {
                        let j = choose|j: int|
                            0 <= j < rest.len() && #[trigger] rest[j] == (split_id, put.unwrap());
                        assert(rest[j].0 == split_id);
                    }
                    let after = old(self)@.touched(split_id, *patterns);
                    assert(lru_entries(self.lru) == seq![(split_id, fresh)] + rest);
                    assert(self@.entries.len() == after.entries.len());
                    assert forall|i: int| 0 <= i < after.entries.len() implies self@.entries[i]
                        == after.entries[i] by {
                        if i > 0 {
                            assert(lru_entries(self.lru)[i] == rest[i - 1]);
                            if i - 1 < at {
                                assert(rest[i - 1] == before[i - 1]);
                                assert(after.entries[i] == view.entries[i - 1]);
                            } else {
                                assert(rest[i - 1] == before[i]);
                                assert(after.entries[i] == view.entries[i]);
                            }
                        }
                    }
                    assert(self@.entries =~= after.entries);
                    lemma_touched_valid(view, split_id, *patterns);
                }
                Some(out)
            },
        }
    }

    /// Parses the bytes `buf` of chunk `split_id`, read from the file, for
    /// `patterns`, stores the result as the chunk used last and returns it.
    /// Where the cache is full and has no entry for the chunk, the chunk used
    /// longest ago leaves the cache.
    pub fn load(&mut self, split_id: SplitId, buf: Vec<u8>, patterns: &PatternSet) -> (split: Arc<
        Split,
    >)
        requires
            old(self).wf(),
            split_id < old(self)@.search.bounds.len(),
            buf@.len() == old(self)@.chunk_len(split_id),
        ensures
            final(self).wf(),
            final(self)@ == old(self)@.stored(split_id, buf@, *patterns),
            split@ == parsed(buf@, patterns.seq, patterns.sets()),
    {
        let ghost before = lru_entries(self.lru);
        let ghost view = self@;
        let fresh = Arc::new(Split::parse(buf, patterns));
        let out = arc_share(&fresh);
        let put = lru_put(&mut self.lru, split_id, fresh);
        proof {
            self.sets@ = self.sets@.insert(split_id, patterns.sets());
            let after = view.stored(split_id, buf@, *patterns);
            match put {
                Some(prev) => {
                    let at = choose|i: int|
                        0 <= i < before.len() && #[trigger] before[i] == (split_id, prev)
                            && lru_entries(self.lru) == seq![(split_id, fresh)] + before.remove(i);
                    assert(view.entries[at].id == split_id);
                    lemma_position(view, at);
                    let rest = before.remove(at);
                    assert forall|i: int| 0 <= i < after.entries.len() implies self@.entries[i]
                        == after.entries[i] by {
                        if i > 0 {
                            assert(lru_entries(self.lru)[i] == rest[i - 1]);
                            if i - 1 < at {
                                assert(rest[i - 1] == before[i - 1]);
                                assert(after.entries[i] == view.entries[i - 1]);
                                assert(view.entries[i - 1].id != view.entries[at].id);
                            } else {
                                assert(rest[i - 1] == before[i]);
                                assert(after.entries[i] == view.entries[i]);
                                assert(view.entries[at].id != view.entries[i].id);
                            }
                        }
                    }
                },
                None => {
                    assert forall|i: int| 0 <= i < view.entries.len() implies (
                    #[trigger] view.entries[i]).id != split_id by {
                        assert(before[i].0 != split_id);
                    }
                    assert(view.position(split_id).is_none());
                    assert forall|i: int| 0 <= i < after.entries.len() implies self@.entries[i]
                        == after.entries[i] by {
                        if i > 0 {
                            assert(lru_entries(self.lru)[i] == before[i - 1]);
                            assert(after.entries[i] == view.entries[i - 1]);
                            assert(view.entries[i - 1].id != split_id);
                        }
                    }
                },
            }
            assert(self@.entries =~= after.entries);
            lemma_stored_valid(view, split_id, buf@, *patterns);
        }
        out
    }

    /// Hands the patterns of class `st` to the background scan: the tagging
    /// set for `Tag`, the search set for `Search`. Cached chunks are left as
    /// they are; a lookup notices the new generation.
    pub fn set_re(&mut self, st: SearchType, patterns: &PatternSet)
        requires
            old(self).wf(),
            st.ix() < old(self)@.search.classes.len(),
            old(self)@.search.classes[st.ix() as int].generation < u64::MAX,
        ensures
            final(self).wf(),
            final(self)@ == (SplitCacheView {
                search: old(self)@.search.with_set(
                    st.ix() as int,
                    match st {
                        SearchType::Tag => patterns.tagged_re,
                        SearchType::Search => patterns.search_re,
                    },
                ),
                ..old(self)@
            }),
    {
        match st {
            SearchType::Tag => {
                self.file_search.set_re(st.as_ix(), &patterns.tagged_re);
            },
            SearchType::Search => {
                self.file_search.set_re(st.as_ix(), &patterns.search_re);
            },
        }
        proof {
            self.file_search.lemma_valid();
            assert(self@.entries =~= old(self)@.entries);
        }
    }

    /// Whether chunk `split_id` holds a match of class `st`, as far as the
    /// background scan has found out: `None` while the answer is stale.
    pub fn has_matches(&self, st: SearchType, split_id: SplitId) -> (answer: Option<bool>)
        requires
            self.wf(),
            st.ix() < self@.search.classes.len(),
            split_id < self@.search.bounds.len(),
        ensures
            answer == self@.search.answer(st.ix() as int, split_id as int),
    {
        self.file_search.split_has_matches(st.as_ix(), split_id)
    }

    /// Hands the next scan to a worker; see `FileSearch::claim`.
    pub fn claim(&mut self) -> (job: Option<ScanJob>)
        requires
            old(self).wf(),
        ensures
            final(self).wf(),
            final(self)@.entries == old(self)@.entries,
            final(self)@.capacity == old(self)@.capacity,
            match job {
                None => {
                    &&& final(self)@.search == old(self)@.search
                    &&& forall|ix: int, c: int| !old(self)@.search.claimable(ix, c)
                },
                Some(job) => {
                    &&& old(self)@.search.nearest_claimable(job.ix as int, job.split_id as int)
                    &&& forall|ix: int, c: int| ix < job.ix ==> !old(self)@.search.claimable(ix, c)
                    &&& job.seq == old(self)@.search.classes[job.ix as int].generation
                    &&& job.re == old(self)@.search.classes[job.ix as int].set
                    &&& job.start == chunk_start(old(self)@.search.bounds, job.split_id as int)
                    &&& job.end == old(self)@.search.bounds[job.split_id as int]
                    &&& job.start <= job.end
                    &&& final(self)@.search == old(self)@.search.claimed(job.split_id as int)
                },
            },
    {
        let job = self.file_search.claim();
        proof {
            self.file_search.lemma_valid();
            assert(self@.entries =~= old(self)@.entries);
        }
        job
    }

    /// Takes the result of a scan; see `FileSearch::commit`.
    pub fn commit(&mut self, ix: usize, split_id: SplitId, seq: u64, found: bool) -> (taken: bool)
        requires
            old(self).wf(),
            ix < old(self)@.search.classes.len(),
            split_id < old(self)@.search.bounds.len(),
        ensures
            final(self).wf(),
            final(self)@.entries == old(self)@.entries,
            final(self)@.capacity == old(self)@.capacity,
            taken == (old(self)@.search.classes[ix as int].generation == seq),
            final(self)@.search == old(self)@.search.committed(
                ix as int,
                split_id as int,
                seq,
                found,
            ),
    {
        let taken = self.file_search.commit(ix, split_id, seq, found);
        proof {
            self.file_search.lemma_valid();
            assert(self@.entries =~= old(self)@.entries);
        }
        taken
    }

    /// How far the background scan has come; see `FileSearch::get_progress`.
    pub fn get_progress(&self) -> (waiting: Vec<usize>)
        requires
            self.wf(),
        ensures
            waiting@.len() == self@.search.classes.len(),
            forall|ix: int|
                0 <= ix < waiting@.len() ==> #[trigger] waiting@[ix] == count_set(
                    self@.search.classes[ix].dirty,
                    self@.search.classes[ix].dirty.len(),
                ),
    {
        self.file_search.get_progress()
    }

    /// Tells the background scan which chunk the user looks at.
    pub fn set_current_split(&mut self, split_id: SplitId)
        requires
            old(self).wf(),
            split_id < old(self)@.search.bounds.len(),
        ensures
            final(self).wf(),
            final(self)@ == (SplitCacheView {
                search: FileSearchView { hint: split_id, ..old(self)@.search },
                ..old(self)@
            }),
    {
        self.file_search.set_current_split(split_id);
        proof {
            self.file_search.lemma_valid();
            assert(self@.entries =~= old(self)@.entries);
        }
    }
}

} // verus!
