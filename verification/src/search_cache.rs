//! The bounded cache of completed catalogue searches: the least recently
//! used leave first, by number of searches and by number of matches.

use vstd::prelude::*;

use crate::sums;
use crate::table::{Table, TableKey};
use crate::window;
use crate::window::TimeInterval;

verus! {

/// The most completed searches that are kept.
pub const MAX_CACHED_SEARCHES: usize = 256;

/// The most matches over all searches that are kept.
pub const MAX_CACHED_SEARCH_MATCHES: usize = 8192;

/// A search block, by its column and row, and the pull time it was
/// searched for.
#[derive(Clone, Copy, Debug, PartialEq, Eq, Hash, Structural)]
pub struct SearchKey {
    pub ix: i32,
    pub iy: i32,
    pub time: Option<TimeInterval>,
}

impl TableKey for SearchKey {
    fn same_key(&self, other: &Self) -> (r: bool) {
        *self == *other
    }
}

impl SearchKey {
    /// The order of keys: by column, row and time.
    pub open spec fn before(self, other: SearchKey) -> bool {
        ||| self.ix < other.ix
        ||| self.ix == other.ix && self.iy < other.iy
        ||| self.ix == other.ix && self.iy == other.iy && window::time_before(self.time, other.time)
    }

    fn precedes(&self, other: &SearchKey) -> (r: bool)
        ensures
            r == self.before(*other),
    {
        if self.ix != other.ix {
            self.ix < other.ix
        } else if self.iy != other.iy {
            self.iy < other.iy
        } else {
            match (self.time, other.time) {
                (None, Some(_)) => true,
                (Some(s), Some(t)) => s.start_ms < t.start_ms || (s.start_ms == t.start_ms
                    && s.end_ms < t.end_ms),
                _ => false,
            }
        }
    }
}

/// A completed search: its result, how many matches it refers to, and when
/// it was last used.
#[derive(Debug)]
pub struct CachedSearch<R> {
    pub result: R,
    pub matches: usize,
    pub last_used: u64,
}

/// The matches of a search.
pub open spec fn matches_of<R>(e: CachedSearch<R>) -> nat {
    e.matches as nat
}

/// The matches of all searches.
pub open spec fn all_matches<R>(m: Map<SearchKey, CachedSearch<R>>) -> nat {
    sums::map_total(m, |e: CachedSearch<R>| matches_of(e))
}

/// A search leaves before another: used longer ago, or first in order.
pub open spec fn leaves_before<R>(
    m: Map<SearchKey, CachedSearch<R>>,
    a: SearchKey,
    b: SearchKey,
) -> bool {
    m[a].last_used < m[b].last_used || (m[a].last_used == m[b].last_used && a.before(b))
}

pub open spec fn is_oldest<R>(m: Map<SearchKey, CachedSearch<R>>, k: SearchKey) -> bool {
    m.contains_key(k) && forall|j: SearchKey|
        #[trigger] m.contains_key(j) && j != k ==> leaves_before(m, k, j)
}

pub open spec fn oldest<R>(m: Map<SearchKey, CachedSearch<R>>) -> SearchKey {
    choose|k: SearchKey| is_oldest(m, k)
}

/// Searches leave, the longest unused first, until both bounds hold.
pub open spec fn bounded<R>(m: Map<SearchKey, CachedSearch<R>>) -> Map<SearchKey, CachedSearch<R>>
    decreases m.dom().len(),
    when m.dom().finite()
    via bounded_shrinks::<R>
{
    if m.dom().len() == 0 || (m.dom().len() <= MAX_CACHED_SEARCHES && all_matches(m)
        <= MAX_CACHED_SEARCH_MATCHES) {
        m
    } else if !m.contains_key(oldest(m)) {
        m
    } else {
        bounded(m.remove(oldest(m)))
    }
}

#[via_fn]
proof fn bounded_shrinks<R>(m: Map<SearchKey, CachedSearch<R>>) {
    if m.contains_key(oldest(m)) {
        assert(m.remove(oldest(m)).dom() =~= m.dom().remove(oldest(m)));
    }
}

/// Finitely many searches are kept, and both bounds hold of them.
pub open spec fn within_bounds<R>(m: Map<SearchKey, CachedSearch<R>>) -> bool {
    &&& m.dom().finite()
    &&& m.dom().len() <= MAX_CACHED_SEARCHES
    &&& all_matches(m) <= MAX_CACHED_SEARCH_MATCHES
}

/// What is kept, and how often the cache was asked.
pub struct SearchState<R> {
    pub entries: Map<SearchKey, CachedSearch<R>>,
    pub tick: nat,
}

impl<R> SearchState<R> {
    pub open spec fn start() -> SearchState<R> {
        SearchState { entries: Map::empty(), tick: 0 }
    }

    /// Once a search was asked for: it counts as used now.
    pub open spec fn asked(self, key: SearchKey) -> SearchState<R> {
        SearchState {
            entries: if self.entries.contains_key(key) {
                let e = self.entries[key];
                self.entries.insert(
                    key,
                    CachedSearch {
                        result: e.result,
                        matches: e.matches,
                        last_used: (self.tick + 1) as u64,
                    },
                )
            } else {
                self.entries
            },
            tick: self.tick + 1,
        }
    }

    /// Once a result was handed in: others leave for it, unless one is kept
    /// for the key already.
    pub open spec fn handed(self, key: SearchKey, result: R, matches: usize) -> SearchState<R> {
        if self.entries.contains_key(key) {
            self.asked(key)
        } else {
            SearchState {
                entries: bounded(
                    self.entries.insert(
                        key,
                        CachedSearch { result, matches, last_used: (self.tick + 2) as u64 },
                    ),
                ),
                tick: self.tick + 2,
            }
        }
    }

    /// The result that a search goes on with: the one kept for the key,
    /// else the one handed in.
    pub open spec fn kept(self, key: SearchKey, result: R) -> R {
        if self.entries.contains_key(key) {
            self.entries[key].result
        } else {
            result
        }
    }
}

/// The result that a search goes on with.
#[derive(Debug)]
pub enum Kept<'a, R> {
    /// It is in the cache.
    Cached(&'a R),
    /// It was handed in and left at once.
    Left(R),
}

impl<'a, R> Kept<'a, R> {
    pub open spec fn value(self) -> R {
        match self {
            Kept::Cached(r) => *r,
            Kept::Left(r) => r,
        }
    }

    pub fn get(&self) -> (r: &R)
        ensures
            *r == self.value(),
    {
        match self {
            Kept::Cached(r) => r,
            Kept::Left(r) => r,
        }
    }
}

/// The cache of completed searches.
#[derive(Debug)]
pub struct SearchCache<R> {
    entries: Table<SearchKey, CachedSearch<R>>,
    match_references: usize,
    tick: u64,
}

impl<R> SearchCache<R> {
    pub closed spec fn entries(&self) -> Map<SearchKey, CachedSearch<R>> {
        self.entries@
    }

    pub closed spec fn tick(&self) -> nat {
        self.tick as nat
    }

    /// What is kept, and how often the cache was asked. The matches that the
    /// cache counts are those of what is kept.
    pub open spec fn state(&self) -> SearchState<R> {
        SearchState { entries: self.entries(), tick: self.tick() }
    }

    /// The matches are counted right.
    spec fn counted(&self) -> bool {
        &&& self.entries.wf()
        &&& self.entries@.dom().finite()
        &&& self.match_references == all_matches(self.entries@)
    }

    /// The matches are counted right and both bounds hold.
    pub closed spec fn wf(&self) -> bool {
        self.counted() && within_bounds(self.entries@)
    }

    /// Both bounds hold of what is kept.
    pub proof fn state_is_sound(&self)
        requires
            self.wf(),
        ensures
            within_bounds(self.entries()),
    {
    }

    pub fn new() -> (r: Self)
        ensures
            r.wf(),
            r.entries() == Map::<SearchKey, CachedSearch<R>>::empty(),
            r.tick() == 0,
    {
        let r = SearchCache { entries: Table::new(), match_references: 0, tick: 0 };
        assert(Map::<SearchKey, CachedSearch<R>>::empty().dom() =~= Set::empty());
        assert(within_bounds(r.entries@));
        r
    }

    /// How many searches are kept.
    pub fn len(&self) -> (n: usize)
        requires
            self.wf(),
        ensures
            n == self.entries().dom().len(),
    {
        self.entries.len()
    }

    /// How many matches the kept searches refer to.
    pub fn match_references(&self) -> (n: usize)
        requires
            self.wf(),
        ensures
            n == all_matches(self.entries()),
    {
        self.match_references
    }

    /// Whether a search is kept.
    pub fn contains_key(&self, key: &SearchKey) -> (r: bool)
        requires
            self.wf(),
        ensures
            r == self.entries().contains_key(*key),
    {
        self.entries.get(key).is_some()
    }

    /// The result of a search, where it is kept, without using it.
    pub fn peek(&self, key: &SearchKey) -> (r: Option<&R>)
        requires
            self.wf(),
        ensures
            match r {
                Some(v) => self.entries().contains_key(*key) && *v == self.entries()[*key].result,
                None => !self.entries().contains_key(*key),
            },
    {
        match self.entries.get(key) {
            Some(e) => Some(&e.result),
            None => None,
        }
    }

    /// The result of a search, where it is kept; it counts as used now.
    pub fn get(&mut self, key: &SearchKey) -> (r: Option<&R>)
        requires
            old(self).wf(),
            old(self).tick() < u64::MAX,
        ensures
            final(self).wf(),
            final(self).state() == old(self).state().asked(*key),
            within_bounds(final(self).entries()),
            final(self).tick() == old(self).tick() + 1,
            old(self).entries().contains_key(*key) ==> {
                let e = old(self).entries()[*key];
                &&& r matches Some(v) && *v == e.result
                &&& final(self).entries() == old(self).entries().insert(
                    *key,
                    CachedSearch {
                        result: e.result,
                        matches: e.matches,
                        last_used: (old(self).tick() + 1) as u64,
                    },
                )
            },
            !old(self).entries().contains_key(*key) ==> r is None && final(self).entries() == old(
                self,
            ).entries(),
    {
        let ghost before = self.entries@;
        self.tick = self.tick + 1;
        let tick: u64 = self.tick;
        match self.entries.remove(key) {
            None => {
                return None;
            },
            Some(e) => {
                let used = CachedSearch { result: e.result, matches: e.matches, last_used: tick };
                proof {
                    sums::map_total_insert(
                        before,
                        |e: CachedSearch<R>| matches_of(e),
                        *key,
                        used,
                    );
                    sums::map_total_remove(before, |e: CachedSearch<R>| matches_of(e), *key);
                    assert(before.remove(*key).insert(*key, used) =~= before.insert(*key, used));
                    assert(before.insert(*key, used).dom() =~= before.dom());
                }
                self.entries.insert(*key, used);
            },
        }
        match self.entries.get(key) {
            Some(e) => Some(&e.result),
            None => None,
        }
    }

    fn find_oldest(&self) -> (k: SearchKey)
        requires
            self.counted(),
            self.entries@.dom().len() > 0,
        ensures
            is_oldest(self.entries@, k),
            k == oldest(self.entries@),
    {
        let ghost m = self.entries@;
        let ghost listing = self.entries.listing();
        proof {
            self.entries.listing_is_complete();
        }
        let n: usize = self.entries.len();
        let mut best: SearchKey = self.entries.key_at(0);
        let mut age: u64 = self.entries.value_at(0).last_used;
        for i in 1..n
            invariant
                self.counted(),
                m == self.entries@,
                listing == self.entries.listing(),
                n == listing.len(),
                forall|k: int|
                    0 <= k < listing.len() ==> m.contains_key((#[trigger] listing[k]).0)
                        && m[listing[k].0] == listing[k].1,
                m.contains_key(best),
                age == m[best].last_used,
                forall|k: int|
                    0 <= k < i && (#[trigger] listing[k]).0 != best ==> leaves_before(
                        m,
                        best,
                        listing[k].0,
                    ),
        {
            let key = self.entries.key_at(i);
            let used: u64 = self.entries.value_at(i).last_used;
            let ghost prior = best;
            if used < age || (used == age && key.precedes(&best)) {
                best = key;
                age = used;
            }
            proof {
                assert forall|k: int|
                    0 <= k < i + 1 && (#[trigger] listing[k]).0 != best implies leaves_before(
                    m,
                    best,
                    listing[k].0,
                ) by {
                    if k < i && listing[k].0 != prior {
                        assert(leaves_before(m, prior, listing[k].0));
                    }
                }
            }
        }
        proof {
            assert(is_oldest(m, best)) by {
                assert forall|j: SearchKey| #[trigger] m.contains_key(j) && j != best implies
                    leaves_before(m, best, j) by {
                    let k = choose|k: int|
                        0 <= k < listing.len() && #[trigger] listing[k].0 == j;
                    assert(listing[k].0 == j);
                }
            }
            let c = oldest(m);
            assert(is_oldest(m, c));
            if c != best {
                assert(leaves_before(m, c, best));
                assert(leaves_before(m, best, c));
            }
        }
        best
    }

    /// Keep a result, unless one is kept for the key already; others leave
    /// for it. Gives the one that the search goes on with: what was kept,
    /// else the result itself, even where it left at once.
    pub fn insert(&mut self, key: SearchKey, result: R, matches: usize) -> (r: Kept<'_, R>)
        requires
            old(self).wf(),
            old(self).tick() + 2 <= u64::MAX,
            matches + MAX_CACHED_SEARCH_MATCHES <= usize::MAX,
        ensures
            final(self).wf(),
            final(self).state() == old(self).state().handed(key, result, matches),
            within_bounds(final(self).entries()),
            r.value() == old(self).state().kept(key, result),
    {
        let ghost before = self.entries@;
        if self.contains_key(&key) {
            return match self.get(&key) {
                Some(r) => Kept::Cached(r),
                None => Kept::Left(result),
            };
        }
        self.tick = self.tick + 2;
        let last_used: u64 = self.tick;
        let fresh = CachedSearch { result, matches, last_used };
        proof {
            sums::map_total_insert(before, |e: CachedSearch<R>| matches_of(e), key, fresh);
        }
        self.match_references = self.match_references + matches;
        self.entries.insert(key, fresh);
        let ghost start = self.entries@;
        let mut left: Option<R> = None;
        while self.entries.len() > MAX_CACHED_SEARCHES || self.match_references
            > MAX_CACHED_SEARCH_MATCHES
            invariant
                self.counted(),
                self.tick == last_used,
                bounded(start) == bounded(self.entries@),
                match left {
                    None => self.entries@.contains_key(key) && self.entries@[key].result == result,
                    Some(r) => r == result && !self.entries@.contains_key(key),
                },
            decreases self.entries@.dom().len(),
        {
            let ghost m = self.entries@;
            proof {
                if m.dom().len() == 0 {
                    assert(m.dom() =~= Set::empty());
                }
            }
            let k = self.find_oldest();
            proof {
                sums::map_total_remove(m, |e: CachedSearch<R>| matches_of(e), k);
                assert(m.remove(k).dom() =~= m.dom().remove(k));
            }
            match self.entries.remove(&k) {
                Some(e) => {
                    self.match_references = self.match_references - e.matches;
                    if k == key {
                        left = Some(e.result);
                    }
                },
                None => {},
            }
        }
        assert(bounded(self.entries@) == self.entries@);
        match left {
            Some(r) => Kept::Left(r),
            None => match self.entries.get(&key) {
                Some(e) => Kept::Cached(&e.result),
                None => vstd::pervasive::unreached(),
            },
        }
    }
}

/// A call on the cache.
pub enum SearchCall<R> {
    Get(SearchKey),
    Insert(SearchKey, R, usize),
}

/// The cache after the first `n` of some calls.
pub open spec fn after_calls<R>(calls: Seq<SearchCall<R>>, n: int) -> SearchState<R>
    decreases n,
{
    if n <= 0 {
        SearchState::start()
    } else {
        let before = after_calls(calls, n - 1);
        match calls[n - 1] {
            SearchCall::Get(key) => before.asked(key),
            SearchCall::Insert(key, result, matches) => before.handed(key, result, matches),
        }
    }
}

proof fn asking_keeps_bounds<R>(s: SearchState<R>, key: SearchKey)
    requires
        within_bounds(s.entries),
    ensures
        within_bounds(s.asked(key).entries),
        s.asked(key).entries.dom() == s.entries.dom(),
        all_matches(s.asked(key).entries) == all_matches(s.entries),
{
    let w = |e: CachedSearch<R>| matches_of(e);
    if s.entries.contains_key(key) {
        let used = s.asked(key).entries[key];
        sums::map_total_insert(s.entries, w, key, used);
        sums::map_total_remove(s.entries, w, key);
        assert(s.asked(key).entries.dom() =~= s.entries.dom());
    }
}

/// A result handed in for a key that is kept changes nothing but when the
/// key was used: what was kept is what the search goes on with.
pub open spec fn keeps_the_first<R>(
    s: SearchState<R>,
    key: SearchKey,
    result: R,
    matches: usize,
) -> bool {
    let after = s.handed(key, result, matches);
    &&& s.kept(key, result) == s.entries[key].result
    &&& after.entries.dom() == s.entries.dom()
    &&& all_matches(after.entries) == all_matches(s.entries)
    &&& after.entries[key].result == s.entries[key].result
}

/// Whatever calls came, both bounds hold, and the first result handed in for
/// a key stays for as long as the key is kept.
pub proof fn bounds_hold_after_any_calls<R>(calls: Seq<SearchCall<R>>, n: int)
    ensures
        within_bounds(after_calls(calls, n).entries),
        forall|key: SearchKey, result: R, matches: usize|
            after_calls(calls, n).entries.contains_key(key) ==> #[trigger] keeps_the_first(
                after_calls(calls, n),
                key,
                result,
                matches,
            ),
    decreases n,
{
    if n > 0 {
        bounds_hold_after_any_calls(calls, n - 1);
        let before = after_calls(calls, n - 1);
        match calls[n - 1] {
            SearchCall::Get(key) => asking_keeps_bounds(before, key),
            SearchCall::Insert(key, result, matches) => {
                if before.entries.contains_key(key) {
                    asking_keeps_bounds(before, key);
                } else {
                    let fresh = CachedSearch {
                        result,
                        matches,
                        last_used: (before.tick + 2) as u64,
                    };
                    bounds_hold(before.entries.insert(key, fresh));
                }
            },
        }
    } else {
        let none = Map::<SearchKey, CachedSearch<R>>::empty();
        assert(none.dom() =~= Set::empty());
        sums::map_total_empty::<SearchKey, CachedSearch<R>>(|e: CachedSearch<R>| matches_of(e));
    }
    let s = after_calls(calls, n);
    assert forall|key: SearchKey, result: R, matches: usize| s.entries.contains_key(
        key,
    ) implies #[trigger] keeps_the_first(s, key, result, matches) by {
        asking_keeps_bounds(s, key);
    }
}

/// Whatever is kept, both bounds hold after a result was added.
pub proof fn bounds_hold<R>(m: Map<SearchKey, CachedSearch<R>>)
    requires
        m.dom().finite(),
    ensures
        bounded(m).dom().finite(),
        bounded(m).dom().len() <= MAX_CACHED_SEARCHES,
        all_matches(bounded(m)) <= MAX_CACHED_SEARCH_MATCHES,
        forall|k: SearchKey|
            #[trigger] bounded(m).contains_key(k) ==> m.contains_key(k) && bounded(m)[k] == m[k],
    decreases m.dom().len(),
{
    if m.dom().len() == 0 {
        assert(m.dom() =~= Set::empty());
    } else if m.dom().len() > MAX_CACHED_SEARCHES || all_matches(m) > MAX_CACHED_SEARCH_MATCHES {
        let k = some_oldest(m, m.dom());
        assert(is_oldest(m, k));
        assert(m.contains_key(oldest(m)));
        let o = oldest(m);
        assert(m.remove(o).dom() =~= m.dom().remove(o));
        bounds_hold(m.remove(o));
    }
}

proof fn some_oldest<R>(m: Map<SearchKey, CachedSearch<R>>, among: Set<SearchKey>) -> (k: SearchKey)
    requires
        among.finite(),
        among.len() > 0,
        among.subset_of(m.dom()),
    ensures
        among.contains(k),
        forall|j: SearchKey| #[trigger] among.contains(j) && j != k ==> leaves_before(m, k, j),
    decreases among.len(),
{
    let c = among.choose();
    assert(among.contains(c));
    let rest = among.remove(c);
    if rest.len() == 0 {
        assert forall|j: SearchKey| #[trigger] among.contains(j) && j != c implies leaves_before(
            m,
            c,
            j,
        ) by {
            assert(rest.contains(j));
        }
        c
    } else {
        let b = some_oldest(m, rest);
        assert(rest.contains(b));
        if leaves_before(m, b, c) {
            assert forall|j: SearchKey|
                #[trigger] among.contains(j) && j != b implies leaves_before(m, b, j) by {
                if j != c {
                    assert(rest.contains(j));
                }
            }
            b
        } else {
            assert forall|j: SearchKey|
                #[trigger] among.contains(j) && j != c implies leaves_before(m, c, j) by {
                assert(rest.contains(j));
                if j != b {
                    assert(leaves_before(m, b, j));
                }
            }
            c
        }
    }
}

/// What was used last stays, as long as it alone is within bounds.
pub proof fn the_newest_search_stays<R>(m: Map<SearchKey, CachedSearch<R>>, key: SearchKey)
    requires
        m.dom().finite(),
        m.contains_key(key),
        m[key].matches <= MAX_CACHED_SEARCH_MATCHES,
        forall|j: SearchKey|
            #[trigger] m.contains_key(j) && j != key ==> m[j].last_used < m[key].last_used,
    ensures
        bounded(m).contains_key(key),
    decreases m.dom().len(),
{
    if m.dom().len() > MAX_CACHED_SEARCHES || all_matches(m) > MAX_CACHED_SEARCH_MATCHES {
        let k = some_oldest(m, m.dom());
        assert(is_oldest(m, k));
        let o = oldest(m);
        assert(is_oldest(m, o));
        let w = |e: CachedSearch<R>| matches_of(e);
        if o == key {
            let rest = m.remove(key);
            assert(rest.dom() =~= Set::empty()) by {
                assert forall|j: SearchKey| !rest.dom().contains(j) by {
                    if rest.dom().contains(j) {
                        assert(m.contains_key(j));
                        assert(leaves_before(m, key, j));
                    }
                }
            }
            sums::map_total_remove(m, w, key);
            assert(m.dom() =~= rest.dom().insert(key));
            assert(false);
        }
        assert(m.remove(o).dom() =~= m.dom().remove(o));
        assert(m.dom().contains(key));
        the_newest_search_stays(m.remove(o), key);
    }
}

/// The searches that leave are those that have not been used for the longest
/// time: none that stays was used before one that leaves. What stays is not
/// changed, and nothing leaves while both bounds hold.
pub proof fn the_longest_unused_search_leaves_first<R>(
    m: Map<SearchKey, CachedSearch<R>>,
    a: SearchKey,
    b: SearchKey,
)
    requires
        m.dom().finite(),
    ensures
        bounded(m).contains_key(a) ==> m.contains_key(a) && bounded(m)[a] == m[a],
        bounded(m).contains_key(b) ==> m.contains_key(b) && bounded(m)[b] == m[b],
        m.contains_key(a) && !bounded(m).contains_key(a) && bounded(m).contains_key(b)
            ==> m[a].last_used <= m[b].last_used,
        m.dom().len() <= MAX_CACHED_SEARCHES && all_matches(m) <= MAX_CACHED_SEARCH_MATCHES
            ==> bounded(m) == m,
    decreases m.dom().len(),
{
    if m.dom().len() > 0 && (m.dom().len() > MAX_CACHED_SEARCHES || all_matches(m)
        > MAX_CACHED_SEARCH_MATCHES) {
        let o = oldest(m);
        if m.contains_key(o) {
            let rest = m.remove(o);
            assert(rest.dom() =~= m.dom().remove(o));
            the_longest_unused_search_leaves_first(rest, a, b);
            let k = some_oldest(m, m.dom());
            assert(is_oldest(m, k));
            assert(is_oldest(m, o));
            if a == o && bounded(m).contains_key(b) {
                assert(rest.contains_key(b));
                assert(m.contains_key(b));
            }
        }
    }
}

} // verus!
