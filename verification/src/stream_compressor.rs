//! Interning of repeated strings for a stream of encoded values.
//!
//! A string that is seen for the first time may be admitted to the future
//! cache, where its uses are counted. Strings of the active cache have an
//! index, by which an alias stands for them.

use crate::encoded_data;
use crate::encoded_data::{
    encode_data_type_length, length_tail, Data, DecodeFailure, EncodedData, EncodedSpecial,
    STRING_FLAG_LENGTH_SIZE,
};
use vstd::prelude::*;
use vstd::seq_lib::{to_multiset_build, to_multiset_insert};
use vstd::utf8::encode_utf8;

verus! {

pub struct Conf {
    /// How many strings the active cache may hold.
    pub max_cache: usize,
    /// How many strings the future cache may hold.
    pub max_future_cache: usize,
}

#[derive(Debug, PartialEq, Clone)]
pub enum DecodeError {
    BadFormat(encoded_data::DecodeError),
    /// An alias stands for an identifier that is not bound.
    UnknownAlias(u64),
    /// An eviction names an identifier that is not bound.
    ForgetUnknown(u64),
}

/// Why a record of a stream gives no value.
pub enum StreamFailure {
    BadFormat(DecodeFailure),
    UnknownAlias(u64),
    ForgetUnknown(u64),
}

impl View for DecodeError {
    type V = StreamFailure;

    open spec fn view(&self) -> StreamFailure {
        match self {
            DecodeError::BadFormat(e) => StreamFailure::BadFormat(e@),
            DecodeError::UnknownAlias(id) => StreamFailure::UnknownAlias(*id),
            DecodeError::ForgetUnknown(id) => StreamFailure::ForgetUnknown(*id),
        }
    }
}

/// A string of the active cache.
#[derive(Debug, PartialEq, Eq, Clone, Copy)]
pub struct CacheEntry {
    pub index: usize,
    pub max_gain: usize,
    pub nb_use: usize,
}

impl CacheEntry {
    pub fn new(index: usize, max_gain: usize) -> (r: Self)
        ensures
            r == (CacheEntry { index, max_gain, nb_use: 0 }),
    {
        Self { index, nb_use: 0, max_gain }
    }
}

/// A string of the future cache.
#[derive(Debug, PartialEq, Eq, Clone, Copy)]
pub struct PotentialCacheEntry {
    pub max_gain: usize,
    pub nb_use: usize,
}

impl PotentialCacheEntry {
    pub fn new(max_gain: usize) -> (r: Self)
        ensures
            r == (PotentialCacheEntry { max_gain, nb_use: 0 }),
    {
        Self { nb_use: 0, max_gain }
    }
}

/// What a lookup found.
#[derive(Debug, PartialEq, Eq, Clone, Copy)]
pub enum CachingResult {
    /// The string is in the active cache, at this index.
    Cached(usize),
    /// The string was admitted to the future cache by this lookup.
    FutureCached,
    /// The string is written as it is.
    NotCached,
}

pub struct StringCache {
    cache: Vec<(String, CacheEntry)>,
    future_cache: Vec<(String, PotentialCacheEntry)>,
}

/// The entries with their keys as sequences of characters.
pub open spec fn keyed<T>(entries: Seq<(String, T)>) -> Seq<(Seq<char>, T)> {
    Seq::new(entries.len(), |i: int| (entries[i].0@, entries[i].1))
}

/// The index of the first entry at or after `from` whose key is `key`, or the
/// number of entries where there is none.
pub open spec fn find_key<T>(entries: Seq<(Seq<char>, T)>, key: Seq<char>, from: nat) -> nat
    decreases entries.len() - from,
{
    if from >= entries.len() {
        entries.len()
    } else if entries[from as int].0 == key {
        from
    } else {
        find_key(entries, key, from + 1)
    }
}

/// Whether no two entries share a key.
pub open spec fn unique_keys<T>(entries: Seq<(Seq<char>, T)>) -> bool {
    forall|i: int, j: int|
        0 <= i < j < entries.len() ==> (#[trigger] entries[i]).0 != (#[trigger] entries[j]).0
}

/// A use counter after one more use. It stops at the largest number.
pub open spec fn bump(n: usize) -> usize {
    if n < usize::MAX {
        (n + 1) as usize
    } else {
        n
    }
}

/// What an alias saves at best on a string of `len` bytes: the header of the
/// string with its length, and the bytes, less the one byte that the shortest
/// alias takes. It stops at the largest number.
pub open spec fn string_gain(len: usize) -> usize {
    let gain = 1 + length_tail(len as u64, STRING_FLAG_LENGTH_SIZE).len() + len - 1;
    if gain <= usize::MAX {
        gain as usize
    } else {
        usize::MAX
    }
}

/// The rank of an entry: its gain times its uses. It stops at the largest
/// number.
pub open spec fn rank(max_gain: usize, nb_use: usize) -> usize {
    if max_gain * nb_use <= usize::MAX {
        (max_gain * nb_use) as usize
    } else {
        usize::MAX
    }
}

/// One lookup of the string `key` in the two caches: what it finds, and the
/// caches after it.
///
/// A string of the active cache is used once more and found at its index. A
/// string of the future cache is used once more. Another string is admitted
/// to the future cache, unused, if there is room and its gain is above zero.
pub open spec fn lookup(
    active: Seq<(Seq<char>, CacheEntry)>,
    future: Seq<(Seq<char>, PotentialCacheEntry)>,
    key: Seq<char>,
    available_future_cache: bool,
) -> (CachingResult, Seq<(Seq<char>, CacheEntry)>, Seq<(Seq<char>, PotentialCacheEntry)>) {
    let len = encode_utf8(key).len() as usize;
    let i = find_key(active, key, 0) as int;
    let j = find_key(future, key, 0) as int;
    if i < active.len() {
        (
            CachingResult::Cached(active[i].1.index),
            active.update(i, (key, CacheEntry { nb_use: bump(active[i].1.nb_use), ..active[i].1 })),
            future,
        )
    } else if j < future.len() {
        (
            CachingResult::NotCached,
            active,
            future.update(
                j,
                (key, PotentialCacheEntry { nb_use: bump(future[j].1.nb_use), ..future[j].1 }),
            ),
        )
    } else if available_future_cache && string_gain(len) > 0 {
        (
            CachingResult::FutureCached,
            active,
            future.push((key, PotentialCacheEntry { max_gain: string_gain(len), nb_use: 0 })),
        )
    } else {
        (CachingResult::NotCached, active, future)
    }
}

/// The caches after the string `key` has gone from the future cache to the
/// active cache, where it gets `index` and keeps its gain and its uses; and
/// whether it has: it has not where the future cache does not hold it or the
/// active cache already does.
pub open spec fn promoted(
    active: Seq<(Seq<char>, CacheEntry)>,
    future: Seq<(Seq<char>, PotentialCacheEntry)>,
    key: Seq<char>,
    index: usize,
) -> (bool, Seq<(Seq<char>, CacheEntry)>, Seq<(Seq<char>, PotentialCacheEntry)>) {
    let j = find_key(future, key, 0) as int;
    if j < future.len() && find_key(active, key, 0) >= active.len() {
        (
            true,
            active.push(
                (key, CacheEntry { index, max_gain: future[j].1.max_gain, nb_use: future[j].1.nb_use }),
            ),
            future.remove(j),
        )
    } else {
        (false, active, future)
    }
}

/// The position of the first entry at or after `from` that has `index`, or
/// the number of entries where there is none.
pub open spec fn find_index(active: Seq<(Seq<char>, CacheEntry)>, index: usize, from: nat) -> nat
    decreases active.len() - from,
{
    if from >= active.len() {
        active.len()
    } else if active[from as int].1.index == index {
        from
    } else {
        find_index(active, index, from + 1)
    }
}

/// The active cache after the string with `index` has left it, and whether
/// there was one.
pub open spec fn forgotten(active: Seq<(Seq<char>, CacheEntry)>, index: usize) -> (
    bool,
    Seq<(Seq<char>, CacheEntry)>,
) {
    let i = find_index(active, index, 0) as int;
    if i < active.len() {
        (true, active.remove(i))
    } else {
        (false, active)
    }
}

/// The keys of the entries with their ranks.
pub open spec fn active_ranks(active: Seq<(Seq<char>, CacheEntry)>) -> Seq<(Seq<char>, usize)> {
    Seq::new(active.len(), |i: int| (active[i].0, rank(active[i].1.max_gain, active[i].1.nb_use)))
}

/// The keys of the entries with their ranks.
pub open spec fn future_ranks(future: Seq<(Seq<char>, PotentialCacheEntry)>) -> Seq<
    (Seq<char>, usize),
> {
    Seq::new(future.len(), |i: int| (future[i].0, rank(future[i].1.max_gain, future[i].1.nb_use)))
}

/// Whether the ranks never grow along the sequence.
pub open spec fn descending(ranks: Seq<(Seq<char>, usize)>) -> bool {
    forall|i: int, j: int| 0 <= i <= j < ranks.len() ==> ranks[i].1 >= ranks[j].1
}

/// Finds the first entry whose key is `key`.
fn find<T: Copy>(entries: &Vec<(String, T)>, key: &String) -> (r: usize)
    ensures
        r == find_key(keyed(entries@), key@, 0),
        r <= entries.len(),
        r < entries.len() ==> entries[r as int].0@ == key@,
{
    let mut i: usize = 0;
    while i < entries.len()
        invariant
            i <= entries.len(),
            find_key(keyed(entries@), key@, 0) == find_key(keyed(entries@), key@, i as nat),
        decreases entries.len() - i,
    {
        if entries[i].0 == *key {
            return i;
        }
        i += 1;
    }
    i
}

/// The exec form of [`rank`].
fn rank_of(max_gain: usize, nb_use: usize) -> (r: usize)
    ensures
        r == rank(max_gain, nb_use),
{
    proof {
        assert(max_gain * nb_use <= 0xFFFF_FFFF_FFFF_FFFF * 0xFFFF_FFFF_FFFF_FFFF)
            by (nonlinear_arith)
            requires
                0 <= max_gain <= 0xFFFF_FFFF_FFFF_FFFF,
                0 <= nb_use <= 0xFFFF_FFFF_FFFF_FFFF,
        ;
    }
    let product: u128 = max_gain as u128 * nb_use as u128;
    if product <= usize::MAX as u128 {
        product as usize
    } else {
        usize::MAX
    }
}

/// Puts `item` into `out` before the first entry of a lower rank.
fn insert_ranked(out: &mut Vec<(String, usize)>, item: (String, usize))
    requires
        descending(keyed(old(out)@)),
    ensures
        descending(keyed(final(out)@)),
        keyed(final(out)@).to_multiset() == keyed(old(out)@).to_multiset().insert(
            (item.0@, item.1),
        ),
        final(out)@.len() == old(out)@.len() + 1,
{
    let mut p: usize = 0;
    while p < out.len() && out[p].1 >= item.1
        invariant
            p <= out.len(),
            *out == *old(out),
            forall|i: int| 0 <= i < p ==> (#[trigger] out[i]).1 >= item.1,
        decreases out.len() - p,
    {
        p += 1;
    }
    let ghost before = keyed(out@);
    let ghost pair = (item.0@, item.1);
    out.insert(p, item);
    proof {
        assert(keyed(out@) =~= before.insert(p as int, pair));
        to_multiset_insert(before, p as int, pair);
        assert forall|i: int, j: int| 0 <= i <= j < out@.len() implies keyed(out@)[i].1 >= keyed(
            out@,
        )[j].1 by {
            if i < p && j > p {
                assert(before[i].1 >= before[j - 1].1);
            } else if i > p {
                assert(before[i - 1].1 >= before[j - 1].1);
            } else if i < p && j < p {
                assert(before[i].1 >= before[j].1);
            } else if i == p && j > p {
                assert(before[p as int].1 >= before[j - 1].1);
            }
        }
    }
}

impl StringCache {
    /// The strings of the active cache, in the order in which they came.
    pub closed spec fn active(&self) -> Seq<(Seq<char>, CacheEntry)> {
        keyed(self.cache@)
    }

    /// The strings of the future cache, in the order in which they came.
    pub closed spec fn future(&self) -> Seq<(Seq<char>, PotentialCacheEntry)> {
        keyed(self.future_cache@)
    }

    /// Whether neither cache holds a string twice.
    pub open spec fn well_formed(&self) -> bool {
        unique_keys(self.active()) && unique_keys(self.future())
    }

    pub fn new() -> (r: Self)
        ensures
            r.active() == Seq::<(Seq<char>, CacheEntry)>::empty(),
            r.future() == Seq::<(Seq<char>, PotentialCacheEntry)>::empty(),
            r.well_formed(),
    {
        let r = Self { cache: Vec::new(), future_cache: Vec::new() };
        proof {
            assert(r.active() =~= Seq::empty());
            assert(r.future() =~= Seq::empty());
        }
        r
    }

    /// The strings of both caches with their ranks, the highest rank first.
    pub fn get_best_gains(&self) -> (gains: Vec<(String, usize)>)
        ensures
            descending(keyed(gains@)),
            keyed(gains@).to_multiset() == (active_ranks(self.active()) + future_ranks(
                self.future(),
            )).to_multiset(),
            gains@.len() == self.active().len() + self.future().len(),
    {
        let ghost all = active_ranks(self.active()) + future_ranks(self.future());
        let mut gains: Vec<(String, usize)> = Vec::new();
        proof {
            assert(keyed(gains@) =~= all.subrange(0, 0));
        }
        let mut i: usize = 0;
        while i < self.cache.len()
            invariant
                i <= self.cache.len(),
                all == active_ranks(self.active()) + future_ranks(self.future()),
                descending(keyed(gains@)),
                gains@.len() == i,
                keyed(gains@).to_multiset() == all.subrange(0, i as int).to_multiset(),
            decreases self.cache.len() - i,
        {
            let entry: CacheEntry = self.cache[i].1;
            let item: (String, usize) = (
                self.cache[i].0.clone(),
                rank_of(entry.max_gain, entry.nb_use),
            );
            proof {
                assert(all[i as int] == (item.0@, item.1));
                assert(all.subrange(0, i + 1) =~= all.subrange(0, i as int).push(all[i as int]));
                to_multiset_build(all.subrange(0, i as int), all[i as int]);
            }
            insert_ranked(&mut gains, item);
            i += 1;
        }
        let n: usize = self.cache.len();
        let mut j: usize = 0;
        while j < self.future_cache.len()
            invariant
                j <= self.future_cache.len(),
                n == self.cache.len(),
                all == active_ranks(self.active()) + future_ranks(self.future()),
                descending(keyed(gains@)),
                gains@.len() == n + j,
                keyed(gains@).to_multiset() == all.subrange(0, n + j).to_multiset(),
            decreases self.future_cache.len() - j,
        {
            let entry: PotentialCacheEntry = self.future_cache[j].1;
            let item: (String, usize) = (
                self.future_cache[j].0.clone(),
                rank_of(entry.max_gain, entry.nb_use),
            );
            proof {
                assert(all[n + j] == (item.0@, item.1));
                assert(all.subrange(0, n + j + 1) =~= all.subrange(0, n + j).push(all[n + j]));
                to_multiset_build(all.subrange(0, n + j), all[n + j]);
            }
            insert_ranked(&mut gains, item);
            j += 1;
        }
        proof {
            assert(all.subrange(0, n + j) =~= all);
        }
        gains
    }

    /// Looks the string `s` up, counts the use, and admits it to the future
    /// cache where [`lookup`] says so.
    pub fn get_cached(&mut self, s: &str, available_future_cache: bool) -> (r: CachingResult)
        ensures
            (r, final(self).active(), final(self).future()) == lookup(
                old(self).active(),
                old(self).future(),
                s@,
                available_future_cache,
            ),
    {
        let key: String = s.to_owned();
        let i: usize = find(&self.cache, &key);
        if i < self.cache.len() {
            let entry: CacheEntry = self.cache[i].1;
            let nb_use: usize = if entry.nb_use < usize::MAX {
                entry.nb_use + 1
            } else {
                entry.nb_use
            };
            self.cache.set(i, (key, CacheEntry { index: entry.index, max_gain: entry.max_gain, nb_use }));
            return CachingResult::Cached(entry.index);
        }
        let j: usize = find(&self.future_cache, &key);
        if j < self.future_cache.len() {
            let entry: PotentialCacheEntry = self.future_cache[j].1;
            let nb_use: usize = if entry.nb_use < usize::MAX {
                entry.nb_use + 1
            } else {
                entry.nb_use
            };
            self.future_cache.set(j, (key, PotentialCacheEntry { max_gain: entry.max_gain, nb_use }));
            return CachingResult::NotCached;
        }
        if !available_future_cache {
            return CachingResult::NotCached;
        }
        let (_, tail) = encode_data_type_length(s.len() as u64, STRING_FLAG_LENGTH_SIZE);
        let header: usize = tail.len();
        let gain: usize = if s.len() > usize::MAX - header {
            usize::MAX
        } else {
            header + s.len()
        };
        if gain > 0 {
            self.future_cache.push((key, PotentialCacheEntry::new(gain)));
            proof {
                assert(self.future() =~= old(self).future().push(
                    (s@, PotentialCacheEntry { max_gain: gain, nb_use: 0 }),
                ));
            }
            CachingResult::FutureCached
        } else {
            CachingResult::NotCached
        }
    }

    /// Moves the string `s` from the future cache to the active cache, under
    /// `index`, and says whether it did, as [`promoted`] says.
    pub fn promote(&mut self, s: &str, index: usize) -> (r: bool)
        ensures
            (r, final(self).active(), final(self).future()) == promoted(
                old(self).active(),
                old(self).future(),
                s@,
                index,
            ),
    {
        let key: String = s.to_owned();
        let j: usize = find(&self.future_cache, &key);
        if j >= self.future_cache.len() {
            return false;
        }
        let i: usize = find(&self.cache, &key);
        if i < self.cache.len() {
            return false;
        }
        let (k, entry) = self.future_cache.remove(j);
        self.cache.push((k, CacheEntry { index, max_gain: entry.max_gain, nb_use: entry.nb_use }));
        proof {
            assert(self.future() =~= old(self).future().remove(j as int));
            assert(self.active() =~= old(self).active().push(
                (s@, CacheEntry { index, max_gain: entry.max_gain, nb_use: entry.nb_use }),
            ));
        }
        true
    }

    /// Takes the string with `index` out of the active cache, and says
    /// whether there was one, as [`forgotten`] says.
    pub fn forget(&mut self, index: usize) -> (r: bool)
        ensures
            (r, final(self).active()) == forgotten(old(self).active(), index),
            final(self).future() == old(self).future(),
    {
        let mut i: usize = 0;
        while i < self.cache.len()
            invariant
                i <= self.cache.len(),
                *self == *old(self),
                find_index(self.active(), index, 0) == find_index(self.active(), index, i as nat),
            decreases self.cache.len() - i,
        {
            if self.cache[i].1.index == index {
                self.cache.remove(i);
                proof {
                    assert(self.active() =~= old(self).active().remove(i as int));
                }
                return true;
            }
            i += 1;
        }
        false
    }
}

/// What a [`Cache`] holds.
pub struct CacheState {
    pub active: Seq<(Seq<char>, CacheEntry)>,
    pub future: Seq<(Seq<char>, PotentialCacheEntry)>,
    pub available_cache: usize,
    pub available_future_cache: usize,
    pub next_index: usize,
}

impl CacheState {
    /// Whether promoting the string `s` moves it: the active cache has room,
    /// an index is left, and [`promoted`] says that the string moves.
    pub open spec fn will_promote(self, s: Seq<char>) -> bool {
        &&& self.available_cache > 0
        &&& self.next_index < usize::MAX
        &&& promoted(self.active, self.future, s, self.next_index).0
    }

    /// The cache after the promotion of the string `s`. A string that moves
    /// gets the next index and takes one place of the active cache; its
    /// place in the future cache is free again. Else nothing changes.
    pub open spec fn promote(self, s: Seq<char>) -> CacheState {
        let moved = promoted(self.active, self.future, s, self.next_index);
        if self.will_promote(s) {
            CacheState {
                active: moved.1,
                future: moved.2,
                available_cache: (self.available_cache - 1) as usize,
                available_future_cache: bump(self.available_future_cache),
                next_index: (self.next_index + 1) as usize,
            }
        } else {
            self
        }
    }

    /// The cache after the promotion of the first `n` of the candidates, one
    /// after the other.
    pub open spec fn promote_each(self, candidates: Seq<(Seq<char>, usize)>, n: nat) -> CacheState
        decreases n,
    {
        if n == 0 || n > candidates.len() {
            self
        } else {
            self.promote_each(candidates, (n - 1) as nat).promote(candidates[n - 1].0)
        }
    }

    /// The definitions that announce the promotions among the first `n` of
    /// the candidates, in their order.
    pub open spec fn definitions(self, candidates: Seq<(Seq<char>, usize)>, n: nat) -> Seq<Data>
        decreases n,
    {
        if n == 0 || n > candidates.len() {
            Seq::empty()
        } else {
            let before = self.promote_each(candidates, (n - 1) as nat);
            let earlier = self.definitions(candidates, (n - 1) as nat);
            if before.will_promote(candidates[n - 1].0) {
                earlier.push(Data::Define(Box::new(Data::Text(candidates[n - 1].0))))
            } else {
                earlier
            }
        }
    }
}

/// The string cache with what is left of the two capacities.
pub struct Cache {
    strings: StringCache,
    available_cache: usize,
    available_future_cache: usize,
    next_index: usize,
}

impl Cache {
    pub closed spec fn strings(&self) -> StringCache {
        self.strings
    }

    /// How many more strings the active cache may take.
    pub closed spec fn available_cache(&self) -> usize {
        self.available_cache
    }

    /// How many more strings the future cache may take.
    pub closed spec fn available_future_cache(&self) -> usize {
        self.available_future_cache
    }

    /// The index that the next string of the active cache gets. Indices
    /// start at zero, grow by one, and are not given twice.
    pub closed spec fn next_index(&self) -> usize {
        self.next_index
    }

    pub fn new(max_cache: usize, max_future_cache: usize) -> (r: Self)
        ensures
            r.strings().active() == Seq::<(Seq<char>, CacheEntry)>::empty(),
            r.strings().future() == Seq::<(Seq<char>, PotentialCacheEntry)>::empty(),
            r.available_cache() == max_cache,
            r.available_future_cache() == max_future_cache,
            r.next_index() == 0,
    {
        Self {
            strings: StringCache::new(),
            available_cache: max_cache,
            available_future_cache: max_future_cache,
            next_index: 0,
        }
    }

    /// The index by which an alias stands for `o`: the one that [`lookup`]
    /// finds, if `o` is a string of the active cache.
    pub open spec fn found(&self, o: &EncodedData) -> Option<usize> {
        match o {
            EncodedData::String(s) => match lookup(
                self.strings().active(),
                self.strings().future(),
                s@,
                self.available_future_cache() > 0,
            ).0 {
                CachingResult::Cached(index) => Some(index),
                _ => None,
            },
            _ => None,
        }
    }

    /// Whether `after` is this cache after `o` has been looked up. A string
    /// is looked up as [`lookup`] says, with room in the future cache while
    /// its capacity is not used up; one that is admitted takes one place of
    /// that capacity. Other values leave the cache as it is.
    pub open spec fn looked_up(&self, after: &Cache, o: &EncodedData) -> bool {
        &&& after.available_cache() == self.available_cache()
        &&& after.next_index() == self.next_index()
        &&& match o {
            EncodedData::String(s) => {
                let found = lookup(
                    self.strings().active(),
                    self.strings().future(),
                    s@,
                    self.available_future_cache() > 0,
                );
                &&& after.strings().active() == found.1
                &&& after.strings().future() == found.2
                &&& after.available_future_cache() == if found.0 == CachingResult::FutureCached {
                    (self.available_future_cache() - 1) as usize
                } else {
                    self.available_future_cache()
                }
            },
            _ => {
                &&& after.strings().active() == self.strings().active()
                &&& after.strings().future() == self.strings().future()
                &&& after.available_future_cache() == self.available_future_cache()
            },
        }
    }

    /// Looks `o` up, and gives the index by which an alias stands for it if
    /// it is a string of the active cache.
    pub fn get_cached(&mut self, o: &EncodedData) -> (r: Option<usize>)
        ensures
            r == old(self).found(o),
            old(self).looked_up(final(self), o),
    {
        match o {
            EncodedData::String(s) => {
                let available: bool = self.available_future_cache > 0;
                match self.strings.get_cached(s.as_str(), available) {
                    CachingResult::Cached(index) => Some(index),
                    CachingResult::NotCached => None,
                    CachingResult::FutureCached => {
                        self.available_future_cache -= 1;
                        None
                    },
                }
            },
            _ => None,
        }
    }

    /// What the cache holds.
    pub open spec fn state(&self) -> CacheState {
        CacheState {
            active: self.strings().active(),
            future: self.strings().future(),
            available_cache: self.available_cache(),
            available_future_cache: self.available_future_cache(),
            next_index: self.next_index(),
        }
    }

    /// Whether promoting the string `s` moves it.
    pub open spec fn will_promote(&self, s: Seq<char>) -> bool {
        self.state().will_promote(s)
    }

    /// Whether `after` is this cache after the promotion of the string `s`.
    pub open spec fn promoting(&self, after: &Cache, s: Seq<char>) -> bool {
        after.state() == self.state().promote(s)
    }

    /// Promotes the string `s` of the future cache to the active cache, and
    /// gives the definition that announces it, if the string moves.
    pub fn promote(&mut self, s: &str) -> (r: Option<EncodedData>)
        ensures
            old(self).promoting(final(self), s@),
            match r {
                Some(d) => old(self).will_promote(s@) && d@ == Data::Define(
                    Box::new(Data::Text(s@)),
                ),
                None => !old(self).will_promote(s@),
            },
    {
        if self.available_cache == 0 || self.next_index == usize::MAX {
            return None;
        }
        if !self.strings.promote(s, self.next_index) {
            return None;
        }
        self.available_cache -= 1;
        if self.available_future_cache < usize::MAX {
            self.available_future_cache += 1;
        }
        self.next_index += 1;
        let text = EncodedData::String(s.to_owned());
        proof {
            assert(text@ == Data::Text(s@));
        }
        let record = EncodedData::Special(EncodedSpecial::Define(Box::new(text)));
        proof {
            assert(record@ == Data::Define(Box::new(text@)));
        }
        Some(record)
    }

    /// Whether `after` is this cache after the eviction of the string with
    /// `index`, as [`forgotten`] says. The place of a string that leaves is
    /// free again; its index is not given to another string.
    pub open spec fn forgetting(&self, after: &Cache, index: usize) -> bool {
        let gone = forgotten(self.strings().active(), index);
        &&& after.strings().active() == gone.1
        &&& after.strings().future() == self.strings().future()
        &&& after.available_future_cache() == self.available_future_cache()
        &&& after.next_index() == self.next_index()
        &&& after.available_cache() == if gone.0 {
            bump(self.available_cache())
        } else {
            self.available_cache()
        }
    }

    /// Takes the string with `index` out of the active cache and gives the
    /// record that announces it, if there is such a string.
    pub fn forget(&mut self, index: usize) -> (r: Option<EncodedData>)
        ensures
            old(self).forgetting(final(self), index),
            match r {
                Some(d) => forgotten(old(self).strings().active(), index).0 && d@ == Data::Forget(
                    index as u64,
                ),
                None => !forgotten(old(self).strings().active(), index).0,
            },
    {
        if !self.strings.forget(index) {
            return None;
        }
        if self.available_cache < usize::MAX {
            self.available_cache += 1;
        }
        Some(EncodedData::Special(EncodedSpecial::Forget(index as u64)))
    }

    /// Promotes the candidates in their order, each as [`Cache::promote`]
    /// does, and gives the definitions that announce the promotions. With
    /// the candidates ranked highest first, the best of them are promoted as
    /// far as the active cache has room.
    pub fn promote_ranked(&mut self, candidates: &Vec<(String, usize)>) -> (r: Vec<EncodedData>)
        ensures
            final(self).state() == old(self).state().promote_each(
                keyed(candidates@),
                candidates@.len(),
            ),
            encoded_data::item_views(r@) == old(self).state().definitions(
                keyed(candidates@),
                candidates@.len(),
            ),
    {
        let ghost start = self.state();
        let ghost keys = keyed(candidates@);
        let mut records: Vec<EncodedData> = Vec::new();
        let mut i: usize = 0;
        proof {
            assert(encoded_data::item_views(records@) =~= Seq::empty());
        }
        while i < candidates.len()
            invariant
                i <= candidates.len(),
                keys == keyed(candidates@),
                self.state() == start.promote_each(keys, i as nat),
                encoded_data::item_views(records@) == start.definitions(keys, i as nat),
            decreases candidates.len() - i,
        {
            let ghost before = encoded_data::item_views(records@);
            proof {
                assert(keys[i as int].0 == candidates[i as int].0@);
            }
            match self.promote(candidates[i].0.as_str()) {
                Some(record) => {
                    records.push(record);
                    proof {
                        assert(encoded_data::item_views(records@) =~= before.push(record@));
                    }
                },
                None => {},
            }
            i += 1;
        }
        records
    }
}

pub struct StreamCompressor {
    cache: Cache,
}

impl StreamCompressor {
    pub closed spec fn cache(&self) -> Cache {
        self.cache
    }

    /// A compressor whose caches are empty and may grow as far as `conf`
    /// says.
    pub fn new(conf: Conf) -> (r: Self)
        ensures
            r.cache().strings().active() == Seq::<(Seq<char>, CacheEntry)>::empty(),
            r.cache().strings().future() == Seq::<(Seq<char>, PotentialCacheEntry)>::empty(),
            r.cache().available_cache() == conf.max_cache,
            r.cache().available_future_cache() == conf.max_future_cache,
            r.cache().next_index() == 0,
    {
        Self { cache: Cache::new(conf.max_cache, conf.max_future_cache) }
    }

    /// The bytes that stand for `object` in the stream: those of an alias
    /// with its index where `object` is a string of the active cache, else
    /// those of `object` itself. The cache counts the lookup.
    pub fn emit(&mut self, object: &EncodedData) -> (r: Vec<u8>)
        ensures
            old(self).cache().looked_up(&final(self).cache(), object),
            r@ == match old(self).cache().found(object) {
                Some(index) => encoded_data::encode_spec(Data::Alias(index as u64)),
                None => encoded_data::encode_spec(object@),
            },
    {
        match self.cache.get_cached(object) {
            Some(index) => EncodedData::Alias(index as u64).encode(),
            None => object.encode(),
        }
    }

    /// Promotes the string `s` and gives the bytes of the definition that
    /// announces it; no bytes where the string does not move.
    pub fn promote(&mut self, s: &str) -> (r: Vec<u8>)
        ensures
            old(self).cache().promoting(&final(self).cache(), s@),
            r@ == if old(self).cache().will_promote(s@) {
                encoded_data::encode_spec(Data::Define(Box::new(Data::Text(s@))))
            } else {
                Seq::<u8>::empty()
            },
    {
        match self.cache.promote(s) {
            Some(record) => record.encode(),
            None => Vec::new(),
        }
    }

    /// Evicts the string with `index` and gives the bytes of the record that
    /// announces it; no bytes where no string has the index.
    pub fn forget(&mut self, index: usize) -> (r: Vec<u8>)
        ensures
            old(self).cache().forgetting(&final(self).cache(), index),
            r@ == if forgotten(old(self).cache().strings().active(), index).0 {
                encoded_data::encode_spec(Data::Forget(index as u64))
            } else {
                Seq::<u8>::empty()
            },
    {
        match self.cache.forget(index) {
            Some(record) => record.encode(),
            None => Vec::new(),
        }
    }

    /// Promotes the candidates in their order, as [`Cache::promote_ranked`]
    /// does, and gives the bytes of the definitions that announce the
    /// promotions, one after the other.
    pub fn promote_ranked(&mut self, candidates: &Vec<(String, usize)>) -> (r: Vec<u8>)
        ensures
            final(self).cache().state() == old(self).cache().state().promote_each(
                keyed(candidates@),
                candidates@.len(),
            ),
            ({
                let definitions = old(self).cache().state().definitions(
                    keyed(candidates@),
                    candidates@.len(),
                );
                r@ == encoded_data::encode_items(definitions, definitions.len())
            }),
    {
        let records: Vec<EncodedData> = self.cache.promote_ranked(candidates);
        let ghost definitions = encoded_data::item_views(records@);
        let mut out: Vec<u8> = Vec::new();
        let mut i: usize = 0;
        while i < records.len()
            invariant
                i <= records.len(),
                definitions == encoded_data::item_views(records@),
                out@ == encoded_data::encode_items(definitions, i as nat),
            decreases records.len() - i,
        {
            let ghost before = out@;
            records[i].encode_into(&mut out);
            proof {
                assert(definitions[i as int] == records[i as int]@);
                assert(out@ =~= encoded_data::encode_items(definitions, (i + 1) as nat));
            }
            i += 1;
        }
        out
    }

    /// The strings of both caches with their ranks, the highest rank first:
    /// the order in which they are candidates for promotion.
    pub fn get_best_gains(&self) -> (gains: Vec<(String, usize)>)
        ensures
            descending(keyed(gains@)),
            keyed(gains@).to_multiset() == (active_ranks(self.cache().strings().active())
                + future_ranks(self.cache().strings().future())).to_multiset(),
    {
        self.cache.strings.get_best_gains()
    }

    /// The bytes of `object`.
    pub fn compress(object: &EncodedData) -> (r: Vec<u8>)
        ensures
            r@ == encoded_data::encode_spec(object@),
    {
        object.encode()
    }

    /// The value at the front of `data` and the number of bytes it takes.
    pub fn decompress(data: &[u8]) -> (r: Result<(EncodedData, usize), DecodeError>)
        ensures
            match r {
                Ok((v, size)) => encoded_data::decode_spec(data@) == Ok::<
                    (Data, nat),
                    DecodeFailure,
                >((v@, size as nat)) && 0 < size <= data@.len(),
                Err(e) => e@ is BadFormat && encoded_data::decode_spec(data@) == Err::<
                    (Data, nat),
                    DecodeFailure,
                >(e@->BadFormat_0),
            },
    {
        match EncodedData::decode(data) {
            Ok((decoded, size)) => Ok((decoded, size)),
            Err(e) => Err(DecodeError::BadFormat(e)),
        }
    }
}

/// The position of the first binding at or after `from` of the identifier
/// `id`, or the number of bindings where there is none.
pub open spec fn find_id(bindings: Seq<(u64, Data)>, id: u64, from: nat) -> nat
    decreases bindings.len() - from,
{
    if from >= bindings.len() {
        bindings.len()
    } else if bindings[from as int].0 == id {
        from
    } else {
        find_id(bindings, id, from + 1)
    }
}

/// What a record of a stream does to the bindings of the reader, and what
/// it gives: a definition binds its value to the next identifier and gives
/// nothing, an eviction unbinds an identifier and gives nothing, an alias
/// gives the value that its identifier is bound to, and any other value
/// gives itself. An alias or an eviction of an identifier that is not bound
/// fails and changes nothing. Identifiers start at zero, grow by one, and are
/// not given twice; once the largest has been reached a definition binds
/// nothing.
pub open spec fn resolve(bindings: Seq<(u64, Data)>, next_id: u64, record: Data) -> (
    Result<Option<Data>, StreamFailure>,
    Seq<(u64, Data)>,
    u64,
) {
    match record {
        Data::Define(v) => if next_id < u64::MAX {
            (Ok(None), bindings.push((next_id, *v)), (next_id + 1) as u64)
        } else {
            (Ok(None), bindings, next_id)
        },
        Data::Forget(id) => {
            let i = find_id(bindings, id, 0) as int;
            if i < bindings.len() {
                (Ok(None), bindings.remove(i), next_id)
            } else {
                (Err(StreamFailure::ForgetUnknown(id)), bindings, next_id)
            }
        },
        Data::Alias(id) => {
            let i = find_id(bindings, id, 0) as int;
            if i < bindings.len() {
                (Ok(Some(bindings[i].1)), bindings, next_id)
            } else {
                (Err(StreamFailure::UnknownAlias(id)), bindings, next_id)
            }
        },
        other => (Ok(Some(other)), bindings, next_id),
    }
}

/// The values that the identifiers of a stream are bound to, on the side
/// that reads it.
pub struct AliasTable {
    bindings: Vec<(u64, EncodedData)>,
    next_id: u64,
}

impl AliasTable {
    /// The bound identifiers with their values, in the order in which they
    /// were bound.
    pub closed spec fn bindings(&self) -> Seq<(u64, Data)> {
        Seq::new(self.bindings@.len(), |i: int| (self.bindings@[i].0, self.bindings@[i].1@))
    }

    /// The identifier that the next definition binds.
    pub closed spec fn next_id(&self) -> u64 {
        self.next_id
    }

    pub fn new() -> (r: Self)
        ensures
            r.bindings() == Seq::<(u64, Data)>::empty(),
            r.next_id() == 0,
    {
        let r = Self { bindings: Vec::new(), next_id: 0 };
        proof {
            assert(r.bindings() =~= Seq::empty());
        }
        r
    }

    /// Finds the first binding of `id`.
    fn position(&self, id: u64) -> (i: usize)
        ensures
            i == find_id(self.bindings(), id, 0),
            i <= self.bindings@.len(),
            self.bindings@.len() == self.bindings().len(),
    {
        let mut i: usize = 0;
        while i < self.bindings.len()
            invariant
                i <= self.bindings.len(),
                find_id(self.bindings(), id, 0) == find_id(self.bindings(), id, i as nat),
            decreases self.bindings.len() - i,
        {
            if self.bindings[i].0 == id {
                return i;
            }
            i += 1;
        }
        i
    }

    /// Takes one record of the stream, as [`resolve`] says.
    pub fn apply(&mut self, record: EncodedData) -> (r: Result<Option<EncodedData>, DecodeError>)
        ensures
            ({
                let expected = resolve(old(self).bindings(), old(self).next_id(), record@);
                &&& final(self).bindings() == expected.1
                &&& final(self).next_id() == expected.2
                &&& match r {
                    Ok(Some(v)) => expected.0 == Ok::<Option<Data>, StreamFailure>(Some(v@)),
                    Ok(None) => expected.0 == Ok::<Option<Data>, StreamFailure>(None),
                    Err(e) => expected.0 == Err::<Option<Data>, StreamFailure>(e@),
                }
            }),
    {
        match record {
            EncodedData::Special(EncodedSpecial::Define(o)) => {
                if self.next_id < u64::MAX {
                    let v: EncodedData = *o;
                    let ghost before = self.bindings();
                    self.bindings.push((self.next_id, v));
                    proof {
                        assert(self.bindings() =~= before.push((self.next_id, v@)));
                    }
                    self.next_id += 1;
                }
                Ok(None)
            },
            EncodedData::Special(EncodedSpecial::Forget(id)) => {
                let i: usize = self.position(id);
                if i < self.bindings.len() {
                    let ghost before = self.bindings();
                    self.bindings.remove(i);
                    proof {
                        assert(self.bindings() =~= before.remove(i as int));
                    }
                    Ok(None)
                } else {
                    Err(DecodeError::ForgetUnknown(id))
                }
            },
            EncodedData::Alias(id) => {
                let i: usize = self.position(id);
                if i < self.bindings.len() {
                    Ok(Some(self.bindings[i].1.duplicate()))
                } else {
                    Err(DecodeError::UnknownAlias(id))
                }
            },
            other => Ok(Some(other)),
        }
    }

    /// Decodes the record at the front of `data` and takes it, as
    /// [`resolve`] says; with the outcome comes the number of bytes of the
    /// record. Bytes that do not decode leave the bindings as they are.
    pub fn receive(&mut self, data: &[u8]) -> (r: Result<(Option<EncodedData>, usize), DecodeError>)
        ensures
            match encoded_data::decode_spec(data@) {
                Ok((record, size)) => {
                    let expected = resolve(old(self).bindings(), old(self).next_id(), record);
                    &&& final(self).bindings() == expected.1
                    &&& final(self).next_id() == expected.2
                    &&& match r {
                        Ok((Some(v), n)) => n == size && expected.0 == Ok::<
                            Option<Data>,
                            StreamFailure,
                        >(Some(v@)),
                        Ok((None, n)) => n == size && expected.0 == Ok::<
                            Option<Data>,
                            StreamFailure,
                        >(None),
                        Err(e) => expected.0 == Err::<Option<Data>, StreamFailure>(e@),
                    }
                },
                Err(failure) => {
                    &&& final(self).bindings() == old(self).bindings()
                    &&& final(self).next_id() == old(self).next_id()
                    &&& r matches Err(e) && e@ == StreamFailure::BadFormat(failure)
                },
            },
    {
        match EncodedData::decode(data) {
            Ok((record, size)) => match self.apply(record) {
                Ok(v) => Ok((v, size)),
                Err(e) => Err(e),
            },
            Err(e) => Err(DecodeError::BadFormat(e)),
        }
    }
}

/// The index of the first entry with the key, and what comes before it.
proof fn lemma_find_key<T>(entries: Seq<(Seq<char>, T)>, key: Seq<char>, from: nat)
    requires
        from <= entries.len(),
    ensures
        from <= find_key(entries, key, from) <= entries.len(),
        find_key(entries, key, from) < entries.len() ==> entries[find_key(
            entries,
            key,
            from,
        ) as int].0 == key,
        forall|i: int| from <= i < find_key(entries, key, from) ==> (#[trigger] entries[i]).0 != key,
    decreases entries.len() - from,
{
    if from < entries.len() && entries[from as int].0 != key {
        lemma_find_key(entries, key, from + 1);
    }
}

/// A lookup leaves no string twice in a cache that held none twice.
pub proof fn lemma_lookup_keeps_unique(
    active: Seq<(Seq<char>, CacheEntry)>,
    future: Seq<(Seq<char>, PotentialCacheEntry)>,
    key: Seq<char>,
    available_future_cache: bool,
)
    requires
        unique_keys(active),
        unique_keys(future),
    ensures
        unique_keys(lookup(active, future, key, available_future_cache).1),
        unique_keys(lookup(active, future, key, available_future_cache).2),
{
    lemma_find_key(active, key, 0);
    lemma_find_key(future, key, 0);
}

/// A string that has been promoted is found in the active cache from then
/// on, under the index that it was given.
pub proof fn lemma_promoted_is_cached(
    active: Seq<(Seq<char>, CacheEntry)>,
    future: Seq<(Seq<char>, PotentialCacheEntry)>,
    key: Seq<char>,
    index: usize,
    available_future_cache: bool,
)
    requires
        promoted(active, future, key, index).0,
    ensures
        lookup(
            promoted(active, future, key, index).1,
            promoted(active, future, key, index).2,
            key,
            available_future_cache,
        ).0 == CachingResult::Cached(index),
{
    let after = promoted(active, future, key, index).1;
    lemma_find_key(active, key, 0);
    lemma_find_key(after, key, 0);
    let found = find_key(after, key, 0) as int;
    assert(after[active.len() as int].0 == key);
    if found < active.len() {
        assert(after[found] == active[found]);
        assert(active[found].0 != key);
    }
}

/// Promoting a string leaves no string twice in a cache that held none
/// twice.
pub proof fn lemma_promoted_keeps_unique(
    active: Seq<(Seq<char>, CacheEntry)>,
    future: Seq<(Seq<char>, PotentialCacheEntry)>,
    key: Seq<char>,
    index: usize,
)
    requires
        unique_keys(active),
        unique_keys(future),
    ensures
        unique_keys(promoted(active, future, key, index).1),
        unique_keys(promoted(active, future, key, index).2),
{
    lemma_find_key(active, key, 0);
    lemma_find_key(future, key, 0);
}

proof fn lemma_find_id(bindings: Seq<(u64, Data)>, id: u64, from: nat)
    requires
        from <= bindings.len(),
    ensures
        from <= find_id(bindings, id, from) <= bindings.len(),
        find_id(bindings, id, from) < bindings.len() ==> bindings[find_id(
            bindings,
            id,
            from,
        ) as int].0 == id,
        forall|i: int| from <= i < find_id(bindings, id, from) ==> (#[trigger] bindings[i]).0 != id,
    decreases bindings.len() - from,
{
    if from < bindings.len() && bindings[from as int].0 != id {
        lemma_find_id(bindings, id, from + 1);
    }
}

/// Whether every bound identifier is below `next_id` and none is bound
/// twice.
pub open spec fn fresh_ids(bindings: Seq<(u64, Data)>, next_id: u64) -> bool {
    &&& forall|i: int| 0 <= i < bindings.len() ==> (#[trigger] bindings[i]).0 < next_id
    &&& forall|i: int, j: int|
        0 <= i < j < bindings.len() ==> (#[trigger] bindings[i]).0 != (#[trigger] bindings[j]).0
}

/// A definition binds its value to the identifier that was next, so that an
/// alias of that identifier gives the value; and an identifier that has been
/// evicted is unknown to an alias from then on.
pub proof fn lemma_define_then_alias(bindings: Seq<(u64, Data)>, next_id: u64, v: Data, id: u64)
    requires
        fresh_ids(bindings, next_id),
        next_id < u64::MAX,
    ensures
        ({
            let defined = resolve(bindings, next_id, Data::Define(Box::new(v)));
            &&& fresh_ids(defined.1, defined.2)
            &&& resolve(defined.1, defined.2, Data::Alias(next_id)).0 == Ok::<
                Option<Data>,
                StreamFailure,
            >(Some(v))
        }),
        ({
            let evicted = resolve(bindings, next_id, Data::Forget(id));
            &&& fresh_ids(evicted.1, evicted.2)
            &&& resolve(evicted.1, evicted.2, Data::Alias(id)).0 == Err::<
                Option<Data>,
                StreamFailure,
            >(StreamFailure::UnknownAlias(id))
        }),
{
    let defined = resolve(bindings, next_id, Data::Define(Box::new(v)));
    lemma_find_id(defined.1, next_id, 0);
    assert(defined.1[bindings.len() as int].0 == next_id);
    let found = find_id(defined.1, next_id, 0) as int;
    if found < bindings.len() {
        assert(defined.1[found] == bindings[found]);
    }
    let evicted = resolve(bindings, next_id, Data::Forget(id));
    lemma_find_id(bindings, id, 0);
    lemma_find_id(evicted.1, id, 0);
    let gone = find_id(bindings, id, 0) as int;
    let again = find_id(evicted.1, id, 0) as int;
    if gone < bindings.len() {
        assert forall|i: int| 0 <= i < evicted.1.len() implies (#[trigger] evicted.1[i]).0
            != id by {
            if i < gone {
                assert(evicted.1[i] == bindings[i]);
            } else {
                assert(evicted.1[i] == bindings[i + 1]);
            }
        }
        if again < evicted.1.len() {
            assert(evicted.1[again].0 == id);
        }
        assert forall|i: int, j: int| 0 <= i < j < evicted.1.len() implies (
        #[trigger] evicted.1[i]).0 != (#[trigger] evicted.1[j]).0 by {
            let a = if i < gone {
                i
            } else {
                i + 1
            };
            let b = if j < gone {
                j
            } else {
                j + 1
            };
            assert(evicted.1[i] == bindings[a]);
            assert(evicted.1[j] == bindings[b]);
        }
        assert forall|i: int| 0 <= i < evicted.1.len() implies (#[trigger] evicted.1[i]).0
            < next_id by {
            let a = if i < gone {
                i
            } else {
                i + 1
            };
            assert(evicted.1[i] == bindings[a]);
        }
    }
}

/// Whether the reader's bindings are those of the writer's active cache:
/// entry by entry the index of the string as the identifier, bound to the
/// string, no identifier twice, and the same identifier next.
pub open spec fn in_step(
    active: Seq<(Seq<char>, CacheEntry)>,
    next_index: usize,
    bindings: Seq<(u64, Data)>,
    next_id: u64,
) -> bool {
    &&& next_id == next_index
    &&& bindings.len() == active.len()
    &&& forall|i: int|
        0 <= i < active.len() ==> #[trigger] bindings[i] == (
            active[i].1.index as u64,
            Data::Text(active[i].0),
        )
    &&& fresh_ids(bindings, next_id)
}

proof fn lemma_find_index_is_find_id(
    active: Seq<(Seq<char>, CacheEntry)>,
    bindings: Seq<(u64, Data)>,
    index: usize,
    from: nat,
)
    requires
        bindings.len() == active.len(),
        forall|i: int|
            0 <= i < active.len() ==> #[trigger] bindings[i] == (
                active[i].1.index as u64,
                Data::Text(active[i].0),
            ),
    ensures
        find_index(active, index, from) == find_id(bindings, index as u64, from),
    decreases active.len() - from,
{
    if from < active.len() {
        assert(bindings[from as int].0 == active[from as int].1.index as u64);
        if active[from as int].1.index != index {
            lemma_find_index_is_find_id(active, bindings, index, from + 1);
        }
    }
}

/// The writer and the reader stay in step over a promotion and the
/// definition that announces it: the reader binds the string to the index
/// that the writer gave it.
pub proof fn lemma_promotion_in_step(
    active: Seq<(Seq<char>, CacheEntry)>,
    future: Seq<(Seq<char>, PotentialCacheEntry)>,
    key: Seq<char>,
    next_index: usize,
    bindings: Seq<(u64, Data)>,
    next_id: u64,
)
    requires
        in_step(active, next_index, bindings, next_id),
        next_index < usize::MAX,
        promoted(active, future, key, next_index).0,
    ensures
        ({
            let moved = promoted(active, future, key, next_index);
            let read = resolve(bindings, next_id, Data::Define(Box::new(Data::Text(key))));
            in_step(moved.1, (next_index + 1) as usize, read.1, read.2)
        }),
{
    let moved = promoted(active, future, key, next_index);
    let read = resolve(bindings, next_id, Data::Define(Box::new(Data::Text(key))));
    assert forall|i: int| 0 <= i < moved.1.len() implies #[trigger] read.1[i] == (
        moved.1[i].1.index as u64,
        Data::Text(moved.1[i].0),
    ) by {
        if i < active.len() {
            assert(read.1[i] == bindings[i]);
            assert(moved.1[i] == active[i]);
        }
    }
    assert forall|i: int| 0 <= i < read.1.len() implies (#[trigger] read.1[i]).0 < read.2 by {
        if i < bindings.len() {
            assert(read.1[i] == bindings[i]);
        }
    }
    assert forall|i: int, j: int| 0 <= i < j < read.1.len() implies (#[trigger] read.1[i]).0 != (
    #[trigger] read.1[j]).0 by {
        assert(read.1[i] == bindings[i]);
        if j < bindings.len() {
            assert(read.1[j] == bindings[j]);
        }
    }
}

/// The writer and the reader stay in step over an eviction and the record
/// that announces it, and the reader knows the identifier exactly where the
/// writer has a string with the index.
pub proof fn lemma_eviction_in_step(
    active: Seq<(Seq<char>, CacheEntry)>,
    index: usize,
    next_index: usize,
    bindings: Seq<(u64, Data)>,
    next_id: u64,
)
    requires
        in_step(active, next_index, bindings, next_id),
    ensures
        ({
            let gone = forgotten(active, index);
            let read = resolve(bindings, next_id, Data::Forget(index as u64));
            &&& in_step(gone.1, next_index, read.1, read.2)
            &&& gone.0 <==> read.0 is Ok
        }),
{
    lemma_find_index_is_find_id(active, bindings, index, 0);
    let gone = forgotten(active, index);
    let read = resolve(bindings, next_id, Data::Forget(index as u64));
    let at = find_id(bindings, index as u64, 0) as int;
    lemma_find_id(bindings, index as u64, 0);
    if at < bindings.len() {
        assert forall|i: int| 0 <= i < gone.1.len() implies #[trigger] read.1[i] == (
            gone.1[i].1.index as u64,
            Data::Text(gone.1[i].0),
        ) by {
            let a = if i < at {
                i
            } else {
                i + 1
            };
            assert(read.1[i] == bindings[a]);
            assert(gone.1[i] == active[a]);
        }
        assert forall|i: int| 0 <= i < read.1.len() implies (#[trigger] read.1[i]).0 < read.2 by {
            let a = if i < at {
                i
            } else {
                i + 1
            };
            assert(read.1[i] == bindings[a]);
        }
        assert forall|i: int, j: int| 0 <= i < j < read.1.len() implies (#[trigger] read.1[i]).0
            != (#[trigger] read.1[j]).0 by {
            let a = if i < at {
                i
            } else {
                i + 1
            };
            let b = if j < at {
                j
            } else {
                j + 1
            };
            assert(read.1[i] == bindings[a]);
            assert(read.1[j] == bindings[b]);
        }
    }
}

/// The writer and the reader stay in step over a lookup, and where the
/// lookup finds the string in the active cache, the alias of its index gives
/// the reader the string.
pub proof fn lemma_lookup_in_step(
    active: Seq<(Seq<char>, CacheEntry)>,
    future: Seq<(Seq<char>, PotentialCacheEntry)>,
    key: Seq<char>,
    available_future_cache: bool,
    next_index: usize,
    bindings: Seq<(u64, Data)>,
    next_id: u64,
)
    requires
        in_step(active, next_index, bindings, next_id),
    ensures
        ({
            let found = lookup(active, future, key, available_future_cache);
            &&& in_step(found.1, next_index, bindings, next_id)
            &&& found.0 matches CachingResult::Cached(index) ==> resolve(
                bindings,
                next_id,
                Data::Alias(index as u64),
            ).0 == Ok::<Option<Data>, StreamFailure>(Some(Data::Text(key)))
        }),
{
    let found = lookup(active, future, key, available_future_cache);
    let i = find_key(active, key, 0) as int;
    lemma_find_key(active, key, 0);
    assert forall|k: int| 0 <= k < found.1.len() implies #[trigger] bindings[k] == (
        found.1[k].1.index as u64,
        Data::Text(found.1[k].0),
    ) by {
        assert(bindings[k] == (active[k].1.index as u64, Data::Text(active[k].0)));
    }
    if i < active.len() {
        let id = active[i].1.index as u64;
        lemma_find_id(bindings, id, 0);
        let j = find_id(bindings, id, 0) as int;
        assert(bindings[i] == (id, Data::Text(active[i].0)));
        if j < i {
            assert(bindings[j].0 != bindings[i].0);
        }
    }
}

} // verus!
