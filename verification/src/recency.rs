use vstd::prelude::*;
use lru::LruCache;
use std::num::NonZeroUsize;
use std::sync::Arc;
use crate::partition::SplitId;
use crate::split::Split;

verus! {

/// `lru::LruCache`: a map of bounded size that gives up the entry used longest
/// ago when a new key arrives at a full map. Verus sees nothing inside a value
/// of it; `lru_entries` and `lru_cap` name what it holds.
#[verifier::external_type_specification]
#[verifier::external_body]
#[verifier::reject_recursive_types(K)]
#[verifier::reject_recursive_types(V)]
#[verifier::reject_recursive_types(S)]
pub struct ExLruCache<K, V, S>(LruCache<K, V, S>);

/// `lru::DefaultHasher`: the hasher that an `LruCache` uses unless it is given
/// another.
#[verifier::external_type_specification]
#[verifier::external_body]
pub struct ExDefaultHasher(lru::DefaultHasher);

/// The entries of the cache, the one used last first.
pub uninterp spec fn lru_entries(cache: LruCache<SplitId, Arc<Split>>) -> Seq<
    (SplitId, Arc<Split>),
>;

/// The number of entries that the cache was made to hold.
pub uninterp spec fn lru_cap(cache: LruCache<SplitId, Arc<Split>>) -> nat;

/// `LruCache::sparse`: an empty cache for at most `cap` entries, which takes
/// its room as the entries come.
#[verifier::external_body]
pub(crate) fn lru_new(cap: usize) -> (cache: LruCache<SplitId, Arc<Split>>)
    requires
        cap > 0,
    ensures
        lru_entries(cache) == Seq::<(SplitId, Arc<Split>)>::empty(),
        lru_cap(cache) == cap,
{
    LruCache::sparse(NonZeroUsize::new(cap).unwrap())
}

/// `LruCache::pop`: takes the entry for `key` out of the cache and returns its
/// value; the other entries keep their order. `None`, with nothing changed,
/// where the cache has no entry for `key`.
#[verifier::external_body]
pub(crate) fn lru_pop(cache: &mut LruCache<SplitId, Arc<Split>>, key: SplitId) -> (value: Option<
    Arc<Split>,
>)
    ensures
        lru_cap(*final(cache)) == lru_cap(*old(cache)),
        match value {
            Some(value) => exists|i: int|
                0 <= i < lru_entries(*old(cache)).len() && #[trigger] lru_entries(*old(cache))[i]
                    == (key, value) && lru_entries(*final(cache)) == lru_entries(
                    *old(cache),
                ).remove(i),
            None => {
                &&& lru_entries(*final(cache)) == lru_entries(*old(cache))
                &&& forall|i: int|
                    0 <= i < lru_entries(*old(cache)).len() ==> (#[trigger] lru_entries(
                        *old(cache),
                    )[i]).0 != key
            },
        },
{
    cache.pop(&key)
}

/// `LruCache::put`: makes `(key, value)` the entry used last. An entry that
/// the cache had for `key` is replaced and its value returned. Else `None` is
/// returned, and where the cache was full the entry used longest ago is
/// dropped to make room.
#[verifier::external_body]
pub(crate) fn lru_put(cache: &mut LruCache<SplitId, Arc<Split>>, key: SplitId, value: Arc<Split>) -> (before:
    Option<Arc<Split>>)
    ensures
        lru_cap(*final(cache)) == lru_cap(*old(cache)),
        match before {
            Some(before) => exists|i: int|
                0 <= i < lru_entries(*old(cache)).len() && #[trigger] lru_entries(*old(cache))[i]
                    == (key, before) && lru_entries(*final(cache)) == seq![(key, value)]
                    + lru_entries(*old(cache)).remove(i),
            None => {
                &&& forall|i: int|
                    0 <= i < lru_entries(*old(cache)).len() ==> (#[trigger] lru_entries(
                        *old(cache),
                    )[i]).0 != key
                &&& lru_entries(*final(cache)) == seq![(key, value)] + (if lru_entries(
                    *old(cache),
                ).len() == lru_cap(*old(cache)) {
                    lru_entries(*old(cache)).drop_last()
                } else {
                    lru_entries(*old(cache))
                })
            },
        },
{
    cache.put(key, value)
}

/// `Arc::clone`: one more handle to the same value.
#[verifier::external_body]
pub(crate) fn arc_share(split: &Arc<Split>) -> (other: Arc<Split>)
    ensures
        other == *split,
{
    Arc::clone(split)
}

/// `Arc::try_unwrap`: the value itself where `split` is the only handle to
/// it, else the handle back.
#[verifier::external_body]
pub(crate) fn arc_try_unwrap(split: Arc<Split>) -> (inner: Result<Split, Arc<Split>>)
    ensures
        match inner {
            Ok(value) => value == *split,
            Err(handle) => handle == split,
        },
{
    Arc::try_unwrap(split)
}

} // verus!
