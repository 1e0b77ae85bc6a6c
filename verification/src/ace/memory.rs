//! Memory of the concept engine: what was used lately, how similar pairs are, and what
//! may be forgotten. Times are nanoseconds on a clock that starts with the structure.

use std::collections::VecDeque;
use std::time::Instant;

use vstd::prelude::*;

verus! {

/// A point in time of the system's monotonic clock.
#[verifier::external_type_specification]
#[verifier::external_body]
pub struct ExInstant(Instant);

/// `Instant::now`: the current time. Nothing is said of it.
#[verifier::external_body]
fn instant_now() -> (t: Instant) {
    Instant::now()
}

/// `Instant::elapsed`: the time since `base`, in nanoseconds. Nothing is said of it.
#[verifier::external_body]
fn nanos_since(base: &Instant) -> (n: u64) {
    base.elapsed().as_nanos() as u64
}

/// A clock that counts nanoseconds from its start.
pub struct Clock {
    base: Instant,
}

impl Clock {
    /// A clock that starts now.
    pub fn start() -> (c: Clock) {
        Clock { base: instant_now() }
    }

    /// Nanoseconds since the start.
    pub fn nanos(&self) -> (n: u64) {
        nanos_since(&self.base)
    }
}

/// How long an entry of the working set counts, in nanoseconds.
pub const WORKING_SET_TTL: u64 = 30_000_000_000;

/// How many entries the working set holds at most.
pub const WORKING_SET_MAX: usize = 1000;

/// How long an entry of the similarity cache counts, in nanoseconds.
pub const SIMILARITY_TTL: u64 = 500_000_000;

/// Nanoseconds from `then` to `now`, none where `then` is later.
pub open spec fn age(now: u64, then: u64) -> int {
    if now >= then {
        now - then
    } else {
        0
    }
}

fn age_of(now: u64, then: u64) -> (r: u64)
    ensures
        r == age(now, then),
{
    if now >= then {
        now - then
    } else {
        0
    }
}

/// Concepts that were used lately, oldest first.
pub struct WorkingSet {
    recent: VecDeque<(u32, u64)>,
    clock: Clock,
}

/// The entries from the first that still counts.
pub open spec fn evicted(s: Seq<(u32, u64)>, now: u64) -> Seq<(u32, u64)>
    decreases s.len(),
{
    if s.len() > 0 && age(now, s[0].1) >= WORKING_SET_TTL {
        evicted(s.drop_first(), now)
    } else {
        s
    }
}

/// The entries after a use of `id` at `now`: what no longer counts leaves, then the oldest
/// where the set is full, and the use comes last.
pub open spec fn touched(s: Seq<(u32, u64)>, id: u32, now: u64) -> Seq<(u32, u64)> {
    let e = evicted(s, now);
    let room = if e.len() >= WORKING_SET_MAX {
        e.drop_first()
    } else {
        e
    };
    room.push((id, now))
}

/// The concepts of the entries that still count, in order.
pub open spec fn fresh_ids(s: Seq<(u32, u64)>, now: u64) -> Seq<u32>
    decreases s.len(),
{
    if s.len() == 0 {
        Seq::empty()
    } else {
        let rest = fresh_ids(s.drop_last(), now);
        if age(now, s.last().1) < WORKING_SET_TTL {
            rest.push(s.last().0)
        } else {
            rest
        }
    }
}

impl View for WorkingSet {
    type V = Seq<(u32, u64)>;

    closed spec fn view(&self) -> Seq<(u32, u64)> {
        self.recent@
    }
}

impl WorkingSet {
    /// The set holds no more than it may.
    pub open spec fn wf(&self) -> bool {
        self@.len() <= WORKING_SET_MAX
    }

    /// A set without entries.
    pub fn new() -> (r: WorkingSet)
        ensures
            r.wf(),
            r@ == Seq::<(u32, u64)>::empty(),
    {
        WorkingSet { recent: VecDeque::new(), clock: Clock::start() }
    }

    /// Notes a use of a concept.
    pub fn touch(&mut self, id: u32)
        requires
            old(self).wf(),
        ensures
            final(self).wf(),
            exists|now: u64| final(self)@ == #[trigger] touched(old(self)@, id, now),
    {
        let now: u64 = self.clock.nanos();
        self.touch_at(id, now);
    }

    /// Notes a use of a concept at a time.
    pub fn touch_at(&mut self, id: u32, now: u64)
        requires
            old(self).wf(),
        ensures
            final(self).wf(),
            final(self)@ == touched(old(self)@, id, now),
    {
        self.evict_stale(now);
        proof {
            lemma_evicted_len(old(self)@, now);
        }
        if self.recent.len() >= WORKING_SET_MAX {
            let ghost before = self.recent@;
            let _ = self.recent.pop_front();
            assert(self.recent@ =~= before.drop_first());
        }
        self.recent.push_back((id, now));
    }

    fn evict_stale(&mut self, now: u64)
        ensures
            final(self)@ == evicted(old(self)@, now),
    {
        while self.recent.len() > 0 && age_of(now, self.recent[0].1) >= WORKING_SET_TTL
            invariant
                evicted(self.recent@, now) == evicted(old(self).recent@, now),
            decreases self.recent@.len(),
        {
            let ghost before = self.recent@;
            let _ = self.recent.pop_front();
            assert(self.recent@ =~= before.drop_first());
        }
    }

    /// Whether a concept is among those that still count.
    pub fn contains(&self, id: u32) -> (r: bool)
        ensures
            exists|now: u64| r == #[trigger] fresh_ids(self@, now).contains(id),
    {
        let now: u64 = self.clock.nanos();
        self.contains_at(id, now)
    }

    /// Whether a concept is among those that still count at a time.
    pub fn contains_at(&self, id: u32, now: u64) -> (r: bool)
        ensures
            r == fresh_ids(self@, now).contains(id),
    {
        let ids = self.ids_at(now);
        let mut i: usize = 0;
        while i < ids.len()
            invariant
                i <= ids@.len(),
                ids@ == fresh_ids(self@, now),
                forall|k: int| 0 <= k < i ==> #[trigger] ids@[k] != id,
            decreases ids@.len() - i,
        {
            if ids[i] == id {
                assert(ids@[i as int] == id);
                return true;
            }
            i += 1;
        }
        false
    }

    /// Number of uses that still count.
    pub fn len(&self) -> (n: usize)
        ensures
            exists|now: u64| n == #[trigger] fresh_ids(self@, now).len(),
    {
        let now: u64 = self.clock.nanos();
        self.len_at(now)
    }

    /// Number of uses that still count at a time.
    pub fn len_at(&self, now: u64) -> (n: usize)
        ensures
            n == fresh_ids(self@, now).len(),
    {
        self.ids_at(now).len()
    }

    /// Whether no use counts any more.
    pub fn is_empty(&self) -> (r: bool)
        ensures
            exists|now: u64| r == (#[trigger] fresh_ids(self@, now).len() == 0),
    {
        let now: u64 = self.clock.nanos();
        self.len_at(now) == 0
    }

    /// The concepts that still count.
    pub fn ids(&self) -> (r: Vec<u32>)
        ensures
            exists|now: u64| r@ == #[trigger] fresh_ids(self@, now),
    {
        let now: u64 = self.clock.nanos();
        self.ids_at(now)
    }

    /// The concepts that still count at a time.
    pub fn ids_at(&self, now: u64) -> (r: Vec<u32>)
        ensures
            r@ == fresh_ids(self@, now),
    {
        let mut out: Vec<u32> = Vec::new();
        let mut i: usize = 0;
        let ghost s = self.recent@;
        assert(s.take(0) =~= Seq::<(u32, u64)>::empty());
        while i < self.recent.len()
            invariant
                i <= s.len(),
                s == self.recent@,
                out@ == fresh_ids(s.take(i as int), now),
            decreases s.len() - i,
        {
            proof {
                assert(s.take(i + 1).drop_last() =~= s.take(i as int));
                assert(s.take(i + 1).last() == s[i as int]);
            }
            if age_of(now, self.recent[i].1) < WORKING_SET_TTL {
                out.push(self.recent[i].0);
            }
            i += 1;
        }
        assert(s.take(i as int) =~= s);
        out
    }
}

proof fn lemma_evicted_len(s: Seq<(u32, u64)>, now: u64)
    ensures
        evicted(s, now).len() <= s.len(),
    decreases s.len(),
{
    if s.len() > 0 && age(now, s[0].1) >= WORKING_SET_TTL {
        lemma_evicted_len(s.drop_first(), now);
    }
}

/// A concept that was used is in the set while its use counts, and the set stays within its
/// limit.
pub proof fn law_touch_keeps(s: Seq<(u32, u64)>, id: u32, now: u64)
    requires
        s.len() <= WORKING_SET_MAX,
    ensures
        touched(s, id, now).len() <= WORKING_SET_MAX,
        touched(s, id, now).last() == (id, now),
        forall|later: u64|
            age(later, now) < WORKING_SET_TTL ==> #[trigger] fresh_ids(
                touched(s, id, now),
                later,
            ).contains(id),
{
    lemma_evicted_len(s, now);
    let t = touched(s, id, now);
    assert forall|later: u64| age(later, now) < WORKING_SET_TTL implies #[trigger] fresh_ids(
        t,
        later,
    ).contains(id) by {
        let f = fresh_ids(t, later);
        assert(f == fresh_ids(t.drop_last(), later).push(id));
        assert(f[f.len() - 1] == id);
    }
}

/// Entries leave only by age or for want of room: what a use leaves of the set is its end.
pub proof fn law_touch_drops_oldest(s: Seq<(u32, u64)>, id: u32, now: u64)
    ensures
        exists|k: int|
            0 <= k <= s.len() && touched(s, id, now) == (#[trigger] s.skip(k)).push((id, now)),
{
    lemma_evicted_is_end(s, now);
    let k = choose|k: int| 0 <= k <= s.len() && evicted(s, now) == #[trigger] s.skip(k);
    if evicted(s, now).len() >= WORKING_SET_MAX {
        assert(s.skip(k).drop_first() =~= s.skip(k + 1));
        assert(touched(s, id, now) == s.skip(k + 1).push((id, now)));
    } else {
        assert(touched(s, id, now) == s.skip(k).push((id, now)));
    }
}

proof fn lemma_evicted_is_end(s: Seq<(u32, u64)>, now: u64)
    ensures
        exists|k: int| 0 <= k <= s.len() && evicted(s, now) == #[trigger] s.skip(k),
    decreases s.len(),
{
    if s.len() > 0 && age(now, s[0].1) >= WORKING_SET_TTL {
        lemma_evicted_is_end(s.drop_first(), now);
        let k = choose|k: int|
            0 <= k <= s.drop_first().len() && evicted(s.drop_first(), now)
                == #[trigger] s.drop_first().skip(k);
        assert(s.drop_first().skip(k) =~= s.skip(k + 1));
        assert(evicted(s, now) == s.skip(k + 1));
    } else {
        assert(s.skip(0) =~= s);
    }
}

/// A pair of concepts, the smaller first.
pub open spec fn pair_of(a: u32, b: u32) -> (u32, u32) {
    if a < b {
        (a, b)
    } else {
        (b, a)
    }
}

/// An entry of the similarity cache: the pair, its score, and when it was last used.
pub struct CacheEntry<V> {
    pub key: (u32, u32),
    pub score: V,
    pub used: u64,
}

/// Whether entry `i` is the first for a pair that still counts.
pub open spec fn first_fresh<V>(
    s: Seq<CacheEntry<V>>,
    key: (u32, u32),
    now: u64,
    i: int,
) -> bool {
    &&& 0 <= i < s.len()
    &&& s[i].key == key && age(now, s[i].used) < SIMILARITY_TTL
    &&& forall|k: int|
        0 <= k < i ==> !((#[trigger] s[k]).key == key && age(now, s[k].used) < SIMILARITY_TTL)
}

/// Whether entry `i` is the first for a pair.
pub open spec fn first_of<V>(s: Seq<CacheEntry<V>>, key: (u32, u32), i: int) -> bool {
    &&& 0 <= i < s.len()
    &&& s[i].key == key
    &&& forall|k: int| 0 <= k < i ==> (#[trigger] s[k]).key != key
}

/// The entries after entry `i` was used: it goes to the end, behind all that were used
/// before.
pub open spec fn used_anew<V>(s: Seq<CacheEntry<V>>, i: int, e: CacheEntry<V>) -> Seq<
    CacheEntry<V>,
> {
    s.remove(i).push(e)
}

/// The entries after a score for a pair was put in: it goes to the end, in place of the
/// pair's entry if there is one; else the entry that was used longest ago makes room in a
/// full cache.
pub open spec fn put<V>(
    s: Seq<CacheEntry<V>>,
    capacity: usize,
    key: (u32, u32),
    score: V,
    now: u64,
) -> Seq<CacheEntry<V>> {
    let e = CacheEntry { key, score, used: now };
    if exists|i: int| first_of(s, key, i) {
        used_anew(s, choose|i: int| first_of(s, key, i), e)
    } else if s.len() >= capacity {
        s.drop_first().push(e)
    } else {
        s.push(e)
    }
}

/// Scores of pairs of concepts, the one that was used longest ago first, of limited number and
/// age.
pub struct SimilarityCache<V> {
    entries: Vec<CacheEntry<V>>,
    capacity: usize,
    hits: u64,
    misses: u64,
    clock: Clock,
}

impl<V: Copy> SimilarityCache<V> {
    pub closed spec fn list(&self) -> Seq<CacheEntry<V>> {
        self.entries@
    }

    pub closed spec fn spec_capacity(&self) -> usize {
        self.capacity
    }

    pub closed spec fn spec_hits(&self) -> u64 {
        self.hits
    }

    pub closed spec fn spec_misses(&self) -> u64 {
        self.misses
    }

    /// The cache holds no more than it may.
    pub open spec fn wf(&self) -> bool {
        self.list().len() <= self.spec_capacity()
    }

    /// How many pairs there is room for.
    pub fn capacity(&self) -> (r: usize)
        ensures
            r == self.spec_capacity(),
    {
        self.capacity
    }

    /// The time on the cache's own clock.
    pub(crate) fn nanos(&self) -> u64 {
        self.clock.nanos()
    }

    /// A cache without entries.
    pub fn new(capacity: usize) -> (r: SimilarityCache<V>)
        ensures
            r.wf(),
            r.list() == Seq::<CacheEntry<V>>::empty(),
            r.spec_capacity() == capacity,
            r.spec_hits() == 0,
            r.spec_misses() == 0,
    {
        SimilarityCache {
            entries: Vec::new(),
            capacity,
            hits: 0,
            misses: 0,
            clock: Clock::start(),
        }
    }

    /// What a lookup of a pair at `now` does and gives: the score of the first entry that
    /// still counts, which is then used anew, or nothing.
    pub open spec fn looked_up(
        &self,
        post: &SimilarityCache<V>,
        key: (u32, u32),
        now: u64,
        r: Option<V>,
    ) -> bool {
        &&& post.spec_capacity() == self.spec_capacity()
        &&& match r {
            Some(v) => {
                &&& post.spec_hits() == self.spec_hits().wrapping_add(1)
                &&& post.spec_misses() == self.spec_misses()
                &&& exists|i: int| #[trigger]
                    first_fresh(self.list(), key, now, i) && v == self.list()[i].score
                        && post.list() == used_anew(
                        self.list(),
                        i,
                        CacheEntry { key, score: v, used: now },
                    )
            },
            None => {
                &&& post.spec_hits() == self.spec_hits()
                &&& post.spec_misses() == self.spec_misses().wrapping_add(1)
                &&& post.list() == self.list()
                &&& forall|i: int| !first_fresh(self.list(), key, now, i)
            },
        }
    }

    /// The score of a pair, in either order.
    pub fn get(&mut self, a: u32, b: u32) -> (r: Option<V>)
        ensures
            exists|now: u64| #[trigger]
                old(self).looked_up(final(self), pair_of(a, b), now, r),
    {
        let now: u64 = self.clock.nanos();
        self.get_at(a, b, now)
    }

    /// The score of a pair, in either order, at a time.
    pub fn get_at(&mut self, a: u32, b: u32, now: u64) -> (r: Option<V>)
        ensures
            old(self).looked_up(final(self), pair_of(a, b), now, r),
    {
        let key: (u32, u32) = if a < b {
            (a, b)
        } else {
            (b, a)
        };
        let mut i: usize = 0;
        while i < self.entries.len()
            invariant
                *self == *old(self),
                i <= self.entries@.len(),
                key == pair_of(a, b),
                forall|k: int|
                    0 <= k < i ==> !((#[trigger] self.entries@[k]).key == key && age(
                        now,
                        self.entries@[k].used,
                    ) < SIMILARITY_TTL),
            decreases self.entries@.len() - i,
        {
            if self.entries[i].key.0 == key.0 && self.entries[i].key.1 == key.1 && age_of(
                now,
                self.entries[i].used,
            ) < SIMILARITY_TTL {
                assert(first_fresh(self.list(), key, now, i as int));
                let v: V = self.entries[i].score;
                let _ = self.entries.remove(i);
                self.entries.push(CacheEntry { key, score: v, used: now });
                self.hits = self.hits.wrapping_add(1);
                return Some(v);
            }
            i += 1;
        }
        self.misses = self.misses.wrapping_add(1);
        None
    }

    /// Puts in the score of a pair.
    pub fn insert(&mut self, a: u32, b: u32, score: V)
        requires
            old(self).wf(),
            old(self).spec_capacity() > 0,
        ensures
            final(self).wf(),
            final(self).spec_capacity() == old(self).spec_capacity(),
            final(self).spec_hits() == old(self).spec_hits(),
            final(self).spec_misses() == old(self).spec_misses(),
            exists|now: u64|
                final(self).list() == #[trigger] put(
                    old(self).list(),
                    old(self).spec_capacity(),
                    pair_of(a, b),
                    score,
                    now,
                ),
    {
        let now: u64 = self.clock.nanos();
        self.insert_at(a, b, score, now);
    }

    /// Puts in the score of a pair at a time.
    pub fn insert_at(&mut self, a: u32, b: u32, score: V, now: u64)
        requires
            old(self).wf(),
            old(self).spec_capacity() > 0,
        ensures
            final(self).wf(),
            final(self).spec_capacity() == old(self).spec_capacity(),
            final(self).spec_hits() == old(self).spec_hits(),
            final(self).spec_misses() == old(self).spec_misses(),
            final(self).list() == put(
                old(self).list(),
                old(self).spec_capacity(),
                pair_of(a, b),
                score,
                now,
            ),
    {
        let key: (u32, u32) = if a < b {
            (a, b)
        } else {
            (b, a)
        };
        let mut i: usize = 0;
        while i < self.entries.len()
            invariant
                *self == *old(self),
                self.wf(),
                i <= self.entries@.len(),
                key == pair_of(a, b),
                forall|k: int| 0 <= k < i ==> (#[trigger] self.entries@[k]).key != key,
            decreases self.entries@.len() - i,
        {
            if self.entries[i].key.0 == key.0 && self.entries[i].key.1 == key.1 {
                proof {
                    assert(first_of(self.list(), key, i as int));
                    let c = choose|c: int| first_of(self.list(), key, c);
                    assert(c == i) by {
                        if c < i {
                            assert(self.entries@[c].key != key);
                        }
                        if i < c {
                            assert(self.list()[i as int].key != key);
                        }
                    }
                }
                let _ = self.entries.remove(i);
                self.entries.push(CacheEntry { key, score, used: now });
                return ;
            }
            i += 1;
        }
        proof {
            assert forall|c: int| !first_of(self.list(), key, c) by {
                if first_of(self.list(), key, c) {
                    assert(self.entries@[c].key != key);
                }
            }
        }
        if self.entries.len() >= self.capacity {
            let ghost before = self.entries@;
            let _ = self.entries.remove(0);
            assert(self.entries@ =~= before.drop_first());
        }
        self.entries.push(CacheEntry { key, score, used: now });
    }

    /// The share of lookups that found a score, as numerator and denominator; the whole
    /// where there was none.
    pub fn hit_rate(&self) -> (r: (u64, u128))
        ensures
            r == (if self.spec_hits() + self.spec_misses() == 0 {
                (1u64, 1u128)
            } else {
                (self.spec_hits(), (self.spec_hits() + self.spec_misses()) as u128)
            }),
    {
        let total: u128 = self.hits as u128 + self.misses as u128;
        if total == 0 {
            (1, 1)
        } else {
            (self.hits, total)
        }
    }

    /// Forgets all entries and counts.
    pub fn clear(&mut self)
        ensures
            final(self).list() == Seq::<CacheEntry<V>>::empty(),
            final(self).spec_capacity() == old(self).spec_capacity(),
            final(self).spec_hits() == 0,
            final(self).spec_misses() == 0,
    {
        self.entries.clear();
        self.hits = 0;
        self.misses = 0;
    }
}

/// No pair has two entries.
pub open spec fn distinct_pairs<V>(s: Seq<CacheEntry<V>>) -> bool {
    forall|i: int, j: int|
        0 <= i < j < s.len() ==> (#[trigger] s[i]).key != (#[trigger] s[j]).key
}

/// A score that was put in is the one that a lookup finds while it counts, in either order
/// of the pair, and no pair ever has two entries.
pub proof fn law_put_then_found<V>(
    s: Seq<CacheEntry<V>>,
    capacity: usize,
    a: u32,
    b: u32,
    score: V,
    now: u64,
    later: u64,
)
    requires
        distinct_pairs(s),
        s.len() <= capacity,
        capacity > 0,
        age(later, now) < SIMILARITY_TTL,
    ensures
        pair_of(a, b) == pair_of(b, a),
        distinct_pairs(put(s, capacity, pair_of(a, b), score, now)),
        exists|i: int|
            {
                &&& #[trigger] first_fresh(
                    put(s, capacity, pair_of(a, b), score, now),
                    pair_of(a, b),
                    later,
                    i,
                )
                &&& put(s, capacity, pair_of(a, b), score, now)[i].score == score
            },
{
    let key = pair_of(a, b);
    let t = put(s, capacity, key, score, now);
    if exists|i: int| first_of(s, key, i) {
        let i = choose|i: int| first_of(s, key, i);
        let last = t.len() - 1;
        lemma_used_anew(s, i, CacheEntry { key, score, used: now });
        assert(t[last].key == key);
        assert forall|k: int| 0 <= k < last implies (#[trigger] t[k]).key != key by {
            assert(t[k].key != t[last].key);
        }
        assert(first_fresh(t, key, later, last));
    } else {
        assert forall|k: int| 0 <= k < s.len() implies (#[trigger] s[k]).key != key by {
            if s[k].key == key {
                lemma_first_of(s, key, k);
            }
        }
        let i = t.len() - 1;
        assert forall|k: int| 0 <= k < i implies (#[trigger] t[k]).key != key by {
            if s.len() >= capacity {
                assert(t[k] == s[k + 1]);
            } else {
                assert(t[k] == s[k]);
            }
        }
        assert(first_fresh(t, key, later, i));
        assert forall|x: int, y: int| 0 <= x < y < t.len() implies (#[trigger] t[x]).key
            != (#[trigger] t[y]).key by {
            if y < i {
                if s.len() >= capacity {
                    assert(t[x] == s[x + 1] && t[y] == s[y + 1]);
                } else {
                    assert(t[x] == s[x] && t[y] == s[y]);
                }
            }
        }
    }
}

/// Using an entry keeps the pairs apart.
proof fn lemma_used_anew<V>(s: Seq<CacheEntry<V>>, i: int, e: CacheEntry<V>)
    requires
        distinct_pairs(s),
        0 <= i < s.len(),
        e.key == s[i].key,
    ensures
        distinct_pairs(used_anew(s, i, e)),
        used_anew(s, i, e).len() == s.len(),
        used_anew(s, i, e).last() == e,
{
    let t = used_anew(s, i, e);
    assert forall|x: int, y: int| 0 <= x < y < t.len() implies (#[trigger] t[x]).key
        != (#[trigger] t[y]).key by {
        let a = if x < i {
            x
        } else {
            x + 1
        };
        let b = if y == t.len() - 1 {
            i
        } else if y < i {
            y
        } else {
            y + 1
        };
        assert(t[x] == s[a]);
        assert(t[y].key == s[b].key);
        if a < b {
            assert(s[a].key != s[b].key);
        } else {
            assert(s[b].key != s[a].key);
        }
    }
}

/// The entries stand in the order of their last use.
pub open spec fn in_order_of_use<V>(s: Seq<CacheEntry<V>>) -> bool {
    forall|i: int, j: int| 0 <= i < j < s.len() ==> (#[trigger] s[i]).used <= (#[trigger] s[j]).used
}

/// While time goes on, entries stay in the order of their last use, whether one is looked up or
/// put in: the first, which makes room in a full cache, is the one that was used longest ago.
pub proof fn law_cache_in_order_of_use<V>(
    s: Seq<CacheEntry<V>>,
    capacity: usize,
    i: int,
    key: (u32, u32),
    score: V,
    now: u64,
)
    requires
        capacity > 0,
        in_order_of_use(s),
        forall|k: int| 0 <= k < s.len() ==> (#[trigger] s[k]).used <= now,
    ensures
        0 <= i < s.len() ==> in_order_of_use(
            used_anew(s, i, (CacheEntry { key: s[i].key, score: s[i].score, used: now })),
        ),
        in_order_of_use(put(s, capacity, key, score, now)),
{
    if 0 <= i < s.len() {
        lemma_used_anew_ordered(s, i, CacheEntry { key: s[i].key, score: s[i].score, used: now });
    }
    let e = CacheEntry { key, score, used: now };
    if exists|j: int| first_of(s, key, j) {
        let j = choose|j: int| first_of(s, key, j);
        lemma_used_anew_ordered(s, j, e);
    } else {
        let t = put(s, capacity, key, score, now);
        let d: int = if s.len() >= capacity {
            1
        } else {
            0
        };
        assert forall|x: int, y: int| 0 <= x < y < t.len() implies (#[trigger] t[x]).used <= (
        #[trigger] t[y]).used by {
            assert(t[x] == s[x + d]);
            if y < t.len() - 1 {
                assert(t[y] == s[y + d]);
            }
        }
    }
}

proof fn lemma_used_anew_ordered<V>(s: Seq<CacheEntry<V>>, i: int, e: CacheEntry<V>)
    requires
        in_order_of_use(s),
        forall|k: int| 0 <= k < s.len() ==> (#[trigger] s[k]).used <= e.used,
        0 <= i < s.len(),
    ensures
        in_order_of_use(used_anew(s, i, e)),
{
    let t = used_anew(s, i, e);
    assert forall|x: int, y: int| 0 <= x < y < t.len() implies (#[trigger] t[x]).used <= (
    #[trigger] t[y]).used by {
        let a = if x < i {
            x
        } else {
            x + 1
        };
        assert(t[x] == s[a]);
        if y < t.len() - 1 {
            let b = if y < i {
                y
            } else {
                y + 1
            };
            assert(t[y] == s[b]);
        }
    }
}

/// What was just looked up stays: with room for two, the next pair that is put in drops
/// another one, the one that was used longest ago.
pub proof fn law_least_recent_leaves<V>(
    s: Seq<CacheEntry<V>>,
    capacity: usize,
    i: int,
    now: u64,
    other: (u32, u32),
    score: V,
    later: u64,
)
    requires
        distinct_pairs(s),
        2 <= s.len() <= capacity,
        0 <= i < s.len(),
        other != s[i].key,
    ensures
        ({
            let e = CacheEntry { key: s[i].key, score: s[i].score, used: now };
            let t = used_anew(s, i, e);
            let u = put(t, capacity, other, score, later);
            &&& distinct_pairs(t)
            &&& u.len() >= 2
            &&& u[u.len() - 2] == e
            &&& u.last() == (CacheEntry { key: other, score, used: later })
            &&& (s.len() == capacity && forall|k: int|
                0 <= k < s.len() ==> (#[trigger] s[k]).key != other) ==> u == t.drop_first().push(
                (CacheEntry { key: other, score, used: later }),
            )
        }),
{
    let e = CacheEntry { key: s[i].key, score: s[i].score, used: now };
    let t = used_anew(s, i, e);
    lemma_used_anew(s, i, e);
    if exists|j: int| first_of(t, other, j) {
        let j = choose|j: int| first_of(t, other, j);
        assert(j < t.len() - 1);
        if forall|k: int| 0 <= k < s.len() ==> (#[trigger] s[k]).key != other {
            let a = if j < i {
                j
            } else {
                j + 1
            };
            assert(t[j] == s[a]);
        }
    }
}

proof fn lemma_first_of<V>(s: Seq<CacheEntry<V>>, key: (u32, u32), k: int)
    requires
        0 <= k < s.len(),
        s[k].key == key,
    ensures
        exists|i: int| first_of(s, key, i),
    decreases k,
{
    if exists|j: int| 0 <= j < k && (#[trigger] s[j]).key == key {
        let j = choose|j: int| 0 <= j < k && (#[trigger] s[j]).key == key;
        lemma_first_of(s, key, j);
    } else {
        assert(first_of(s, key, k));
    }
}

/// An entry of the forgetting curve: a concept, its last use, and how often it was used.
#[derive(Clone, Copy, Debug)]
pub struct UseEntry {
    pub id: u32,
    pub last: u64,
    pub count: u64,
}

/// How much a concept matters: uses over one second plus its age, both in nanoseconds.
#[derive(Clone, Copy, Debug)]
pub struct Score {
    pub uses_by_nano: u128,
    pub nanos: u128,
}

/// Uses of concepts, for deciding what may be forgotten.
pub struct ForgettingCurve {
    entries: Vec<UseEntry>,
    clock: Clock,
}

pub open spec fn first_use(s: Seq<UseEntry>, id: u32, i: int) -> bool {
    &&& 0 <= i < s.len()
    &&& s[i].id == id
    &&& forall|k: int| 0 <= k < i ==> (#[trigger] s[k]).id != id
}

pub open spec fn unused(s: Seq<UseEntry>, id: u32) -> bool {
    forall|k: int| 0 <= k < s.len() ==> (#[trigger] s[k]).id != id
}

/// That `t` is `s` after a use of `id` at `now`.
pub open spec fn used(s: Seq<UseEntry>, id: u32, now: u64, t: Seq<UseEntry>) -> bool {
    ||| exists|i: int| #[trigger]
        first_use(s, id, i) && t == s.update(
            i,
            UseEntry { id, last: now, count: s[i].count.wrapping_add(1) },
        )
    ||| unused(s, id) && t == s.push(UseEntry { id, last: now, count: 1 })
}

/// The score of an entry at `now`: `count / (1 + age in seconds)`.
pub open spec fn score_of(e: UseEntry, now: u64) -> Score {
    Score {
        uses_by_nano: (e.count * 1_000_000_000) as u128,
        nanos: (1_000_000_000 + age(now, e.last)) as u128,
    }
}

/// Whether a score is below `num / den`.
pub open spec fn score_below(s: Score, num: u32, den: u32) -> bool {
    s.uses_by_nano * den < num * s.nanos
}

/// The concepts whose score is below `num / den`, in order.
pub open spec fn stale_ids(s: Seq<UseEntry>, num: u32, den: u32, now: u64) -> Seq<u32>
    decreases s.len(),
{
    if s.len() == 0 {
        Seq::empty()
    } else {
        let rest = stale_ids(s.drop_last(), num, den, now);
        if score_below(score_of(s.last(), now), num, den) {
            rest.push(s.last().id)
        } else {
            rest
        }
    }
}

/// The entries of other concepts, in order.
pub open spec fn without(s: Seq<UseEntry>, id: u32) -> Seq<UseEntry>
    decreases s.len(),
{
    if s.len() == 0 {
        Seq::empty()
    } else if s.last().id == id {
        without(s.drop_last(), id)
    } else {
        without(s.drop_last(), id).push(s.last())
    }
}

fn entry_score(e: &UseEntry, now: u64) -> (r: Score)
    ensures
        r == score_of(*e, now),
{
    Score {
        uses_by_nano: e.count as u128 * 1_000_000_000,
        nanos: 1_000_000_000 + age_of(now, e.last) as u128,
    }
}

impl View for ForgettingCurve {
    type V = Seq<UseEntry>;

    closed spec fn view(&self) -> Seq<UseEntry> {
        self.entries@
    }
}

impl ForgettingCurve {
    /// A curve without entries.
    pub fn new() -> (r: ForgettingCurve)
        ensures
            r@ == Seq::<UseEntry>::empty(),
            distinct_uses(r@),
    {
        ForgettingCurve { entries: Vec::new(), clock: Clock::start() }
    }

    /// Notes a use of a concept.
    pub fn touch(&mut self, id: u32)
        ensures
            exists|now: u64| #[trigger] used(old(self)@, id, now, final(self)@),
            distinct_uses(old(self)@) ==> distinct_uses(final(self)@),
    {
        let now: u64 = self.clock.nanos();
        self.touch_at(id, now);
    }

    fn position(&self, id: u32) -> (r: Option<usize>)
        ensures
            match r {
                Some(i) => first_use(self@, id, i as int),
                None => unused(self@, id),
            },
    {
        let mut i: usize = 0;
        while i < self.entries.len()
            invariant
                i <= self.entries@.len(),
                forall|k: int| 0 <= k < i ==> (#[trigger] self.entries@[k]).id != id,
            decreases self.entries@.len() - i,
        {
            if self.entries[i].id == id {
                return Some(i);
            }
            i += 1;
        }
        None
    }

    /// Notes a use of a concept at a time.
    pub fn touch_at(&mut self, id: u32, now: u64)
        ensures
            used(old(self)@, id, now, final(self)@),
            distinct_uses(old(self)@) ==> distinct_uses(final(self)@),
    {
        match self.position(id) {
            Some(i) => {
                let count: u64 = self.entries[i].count.wrapping_add(1);
                self.entries.set(i, UseEntry { id, last: now, count });
                assert(first_use(old(self)@, id, i as int));
            },
            None => {
                self.entries.push(UseEntry { id, last: now, count: 1 });
            },
        }
        proof {
            if distinct_uses(old(self)@) {
                law_use_keeps_distinct(old(self)@, id, now, self@);
            }
        }
    }

    /// The score of a concept, if it was ever used.
    pub fn score(&self, id: u32) -> (r: Option<Score>)
        ensures
            match r {
                Some(s) => exists|i: int, now: u64| #[trigger]
                    first_use(self@, id, i) && s == #[trigger] score_of(self@[i], now),
                None => unused(self@, id),
            },
    {
        let now: u64 = self.clock.nanos();
        self.score_at(id, now)
    }

    /// The score of a concept at a time, if it was ever used.
    pub fn score_at(&self, id: u32, now: u64) -> (r: Option<Score>)
        ensures
            match r {
                Some(s) => exists|i: int| #[trigger]
                    first_use(self@, id, i) && s == score_of(self@[i], now),
                None => unused(self@, id),
            },
    {
        match self.position(id) {
            Some(i) => Some(entry_score(&self.entries[i], now)),
            None => None,
        }
    }

    /// The concepts whose score is below `num / den`.
    pub fn stale(&self, num: u32, den: u32) -> (r: Vec<u32>)
        ensures
            exists|now: u64| r@ == #[trigger] stale_ids(self@, num, den, now),
    {
        let now: u64 = self.clock.nanos();
        self.stale_at(num, den, now)
    }

    /// The concepts whose score is below `num / den` at a time.
    pub fn stale_at(&self, num: u32, den: u32, now: u64) -> (r: Vec<u32>)
        ensures
            r@ == stale_ids(self@, num, den, now),
    {
        let mut out: Vec<u32> = Vec::new();
        let mut i: usize = 0;
        let ghost s = self.entries@;
        assert(s.take(0) =~= Seq::<UseEntry>::empty());
        while i < self.entries.len()
            invariant
                i <= s.len(),
                s == self.entries@,
                out@ == stale_ids(s.take(i as int), num, den, now),
            decreases s.len() - i,
        {
            proof {
                assert(s.take(i + 1).drop_last() =~= s.take(i as int));
                assert(s.take(i + 1).last() == s[i as int]);
            }
            let sc = entry_score(&self.entries[i], now);
            let a: u128 = sc.uses_by_nano;
            let b: u128 = sc.nanos;
            assert(0 <= a * den <= 0xFFFF_FFFF_FFFF_FFFF * 1_000_000_000 * 0xFFFF_FFFF)
                by (nonlinear_arith)
                requires
                    a <= 0xFFFF_FFFF_FFFF_FFFF * 1_000_000_000,
                    den <= 0xFFFF_FFFF,
            ;
            assert(0 <= num * b <= 0xFFFF_FFFF * 0x1_FFFF_FFFF_FFFF_FFFF) by (nonlinear_arith)
                requires
                    b <= 0x1_FFFF_FFFF_FFFF_FFFF,
                    num <= 0xFFFF_FFFF,
            ;
            if a * (den as u128) < num as u128 * b {
                out.push(self.entries[i].id);
            }
            i += 1;
        }
        assert(s.take(i as int) =~= s);
        out
    }

    /// Forgets a concept.
    pub fn remove(&mut self, id: u32)
        ensures
            final(self)@ == without(old(self)@, id),
            distinct_uses(old(self)@) ==> distinct_uses(final(self)@),
    {
        let mut out: Vec<UseEntry> = Vec::new();
        let mut i: usize = 0;
        let ghost s = self.entries@;
        assert(s.take(0) =~= Seq::<UseEntry>::empty());
        while i < self.entries.len()
            invariant
                i <= s.len(),
                s == self.entries@,
                out@ == without(s.take(i as int), id),
            decreases s.len() - i,
        {
            proof {
                assert(s.take(i + 1).drop_last() =~= s.take(i as int));
                assert(s.take(i + 1).last() == s[i as int]);
            }
            if self.entries[i].id != id {
                out.push(self.entries[i]);
            }
            i += 1;
        }
        assert(s.take(i as int) =~= s);
        self.entries = out;
        proof {
            if distinct_uses(s) {
                law_removed_once(s, id);
            }
        }
    }

    /// The concepts that are tracked, in order.
    pub fn ids(&self) -> (r: Vec<u32>)
        ensures
            r@ == self@.map_values(|e: UseEntry| e.id),
    {
        let mut out: Vec<u32> = Vec::new();
        let mut i: usize = 0;
        while i < self.entries.len()
            invariant
                i <= self.entries@.len(),
                out@ =~= self.entries@.map_values(|e: UseEntry| e.id).take(i as int),
            decreases self.entries@.len() - i,
        {
            out.push(self.entries[i].id);
            i += 1;
        }
        assert(self.entries@.map_values(|e: UseEntry| e.id).take(i as int)
            =~= self.entries@.map_values(|e: UseEntry| e.id));
        out
    }

    /// Number of concepts with uses.
    pub fn len(&self) -> (n: usize)
        ensures
            n == self@.len(),
    {
        self.entries.len()
    }

    pub fn is_empty(&self) -> (r: bool)
        ensures
            r == (self@.len() == 0),
    {
        self.entries.len() == 0
    }
}

/// No concept has two entries.
pub open spec fn distinct_uses(s: Seq<UseEntry>) -> bool {
    forall|i: int, j: int| 0 <= i < j < s.len() ==> (#[trigger] s[i]).id != (#[trigger] s[j]).id
}

/// A use gives a concept at most one entry.
pub proof fn law_use_keeps_distinct(s: Seq<UseEntry>, id: u32, now: u64, t: Seq<UseEntry>)
    requires
        distinct_uses(s),
        used(s, id, now, t),
    ensures
        distinct_uses(t),
{
    if exists|i: int| #[trigger]
        first_use(s, id, i) && t == s.update(
            i,
            UseEntry { id, last: now, count: s[i].count.wrapping_add(1) },
        ) {
        assert forall|x: int, y: int| 0 <= x < y < t.len() implies (#[trigger] t[x]).id != (
        #[trigger] t[y]).id by {
            assert(t[x].id == s[x].id && t[y].id == s[y].id);
            assert(s[x].id != s[y].id);
        }
    } else {
        assert forall|x: int, y: int| 0 <= x < y < t.len() implies (#[trigger] t[x]).id != (
        #[trigger] t[y]).id by {
            assert(t[x] == s[x]);
            if y < s.len() {
                assert(t[y] == s[y]);
            }
        }
    }
}

/// Where no concept has two entries, forgetting one takes out its entry and no other: the
/// rest keep their order, the length drops by one exactly where there was an entry, and
/// forgetting again changes nothing.
pub proof fn law_removed_once(s: Seq<UseEntry>, id: u32)
    requires
        distinct_uses(s),
    ensures
        distinct_uses(without(s, id)),
        unused(s, id) ==> without(s, id) == s,
        forall|i: int| #[trigger] first_use(s, id, i) ==> without(s, id) == s.remove(i),
        without(s, id).len() == s.len() - (if unused(s, id) {
            0int
        } else {
            1
        }),
        without(without(s, id), id) == without(s, id),
{
    if unused(s, id) {
        lemma_without_unused(s, id);
    } else {
        let k = choose|k: int| 0 <= k < s.len() && (#[trigger] s[k]).id == id;
        assert forall|j: int| 0 <= j < k implies (#[trigger] s[j]).id != id by {
            assert(s[j].id != s[k].id);
        }
        assert(first_use(s, id, k));
        lemma_without_one(s, id, k);
        assert forall|i: int| #[trigger] first_use(s, id, i) implies without(s, id) == s.remove(
            i,
        ) by {
            if i < k {
                assert(s[i].id != s[k].id);
            } else if k < i {
                assert(s[k].id != s[i].id);
            }
        }
        let w = s.remove(k);
        assert forall|x: int, y: int| 0 <= x < y < w.len() implies (#[trigger] w[x]).id != (
        #[trigger] w[y]).id by {
            let a = if x < k {
                x
            } else {
                x + 1
            };
            let b = if y < k {
                y
            } else {
                y + 1
            };
            assert(w[x] == s[a] && w[y] == s[b]);
        }
    }
    law_removed_is_gone(s, id);
    lemma_without_unused(without(s, id), id);
}

proof fn lemma_without_unused(s: Seq<UseEntry>, id: u32)
    requires
        unused(s, id),
    ensures
        without(s, id) == s,
    decreases s.len(),
{
    if s.len() > 0 {
        let d = s.drop_last();
        assert forall|k: int| 0 <= k < d.len() implies (#[trigger] d[k]).id != id by {
            assert(d[k] == s[k]);
        }
        lemma_without_unused(d, id);
        assert(s[s.len() - 1].id != id);
        assert(d.push(s.last()) =~= s);
    }
}

proof fn lemma_without_one(s: Seq<UseEntry>, id: u32, k: int)
    requires
        distinct_uses(s),
        0 <= k < s.len(),
        s[k].id == id,
    ensures
        without(s, id) == s.remove(k),
    decreases s.len(),
{
    let d = s.drop_last();
    if k == s.len() - 1 {
        assert forall|j: int| 0 <= j < d.len() implies (#[trigger] d[j]).id != id by {
            assert(d[j] == s[j]);
            assert(s[j].id != s[k].id);
        }
        lemma_without_unused(d, id);
        assert(s.remove(k) =~= d);
    } else {
        assert(s[k].id != s[s.len() - 1].id);
        assert forall|x: int, y: int| 0 <= x < y < d.len() implies (#[trigger] d[x]).id != (
        #[trigger] d[y]).id by {
            assert(d[x] == s[x] && d[y] == s[y]);
        }
        lemma_without_one(d, id, k);
        assert(d.remove(k).push(s.last()) =~= s.remove(k));
    }
}

/// A concept that was forgotten has no entry, and the others keep theirs.
pub proof fn law_removed_is_gone(s: Seq<UseEntry>, id: u32)
    ensures
        unused(without(s, id), id),
        forall|e: UseEntry| #![auto] e.id != id ==> (s.contains(e) <==> without(s, id).contains(e)),
    decreases s.len(),
{
    if s.len() > 0 {
        law_removed_is_gone(s.drop_last(), id);
        let w = without(s.drop_last(), id);
        assert(s =~= s.drop_last().push(s.last()));
        assert forall|e: UseEntry| #![auto] e.id != id implies (s.contains(e) <==> without(
            s,
            id,
        ).contains(e)) by {
            assert(s.contains(e) <==> (s.drop_last().contains(e) || e == s.last())) by {
                if s.contains(e) {
                    let k = choose|k: int| 0 <= k < s.len() && s[k] == e;
                    if k < s.len() - 1 {
                        assert(s.drop_last()[k] == e);
                    }
                }
                if s.drop_last().contains(e) {
                    let k = choose|k: int| 0 <= k < s.drop_last().len() && s.drop_last()[k] == e;
                    assert(s[k] == e);
                }
                if e == s.last() {
                    assert(s[s.len() - 1] == e);
                }
            }
            if s.last().id != id {
                let v = w.push(s.last());
                assert(v.contains(e) <==> (w.contains(e) || e == s.last())) by {
                    if v.contains(e) {
                        let k = choose|k: int| 0 <= k < v.len() && v[k] == e;
                        if k < w.len() {
                            assert(w[k] == e);
                        }
                    }
                    if w.contains(e) {
                        let k = choose|k: int| 0 <= k < w.len() && w[k] == e;
                        assert(v[k] == e);
                    }
                    if e == s.last() {
                        assert(v[w.len() as int] == e);
                    }
                }
            }
        }
    }
}

proof fn lemma_fresh_ids(s: Seq<(u32, u64)>, now: u64, id: u32)
    ensures
        fresh_ids(s, now).len() <= s.len(),
        fresh_ids(s, now).contains(id) <==> exists|k: int|
            0 <= k < s.len() && (#[trigger] s[k]).0 == id && age(now, s[k].1) < WORKING_SET_TTL,
    decreases s.len(),
{
    if s.len() > 0 {
        let d = s.drop_last();
        let rest = fresh_ids(d, now);
        lemma_fresh_ids(d, now, id);
        let all = fresh_ids(s, now);
        if all.contains(id) {
            let k = choose|k: int| 0 <= k < all.len() && all[k] == id;
            if k < rest.len() {
                assert(rest[k] == id);
                let m = choose|m: int|
                    0 <= m < d.len() && (#[trigger] d[m]).0 == id && age(now, d[m].1)
                        < WORKING_SET_TTL;
                assert(s[m] == d[m]);
            } else {
                assert(s[s.len() - 1].0 == id);
            }
        }
        if exists|k: int|
            0 <= k < s.len() && (#[trigger] s[k]).0 == id && age(now, s[k].1) < WORKING_SET_TTL {
            let k = choose|k: int|
                0 <= k < s.len() && (#[trigger] s[k]).0 == id && age(now, s[k].1)
                    < WORKING_SET_TTL;
            if k < d.len() {
                assert(d[k] == s[k]);
                let m = choose|m: int| 0 <= m < rest.len() && rest[m] == id;
                assert(all[m] == id);
            } else {
                assert(all[rest.len() as int] == id);
            }
        }
    }
}

/// Half a minute is how long a use counts: a concept is in the set exactly where one of its uses is
/// less than thirty seconds old, the concepts listed are those, and the set is as large as the
/// list is long.
pub proof fn law_counts_for_half_a_minute(
    w: &WorkingSet,
    id: u32,
    now: u64,
    there: bool,
    listed: Vec<u32>,
    n: usize,
)
    requires
        forall|k: int| 0 <= k < w@.len() ==> (#[trigger] w@[k]).1 <= now,
        call_ensures(WorkingSet::contains_at, (w, id, now), there),
        call_ensures(WorkingSet::ids_at, (w, now), listed),
        call_ensures(WorkingSet::len_at, (w, now), n),
    ensures
        there <==> exists|k: int|
            0 <= k < w@.len() && (#[trigger] w@[k]).0 == id && now - w@[k].1 < 30_000_000_000,
        listed@.contains(id) <==> there,
        n == listed@.len(),
        n <= w@.len(),
{
    lemma_fresh_ids(w@, now, id);
    if there {
        let k = choose|k: int|
            0 <= k < w@.len() && (#[trigger] w@[k]).0 == id && age(now, w@[k].1) < WORKING_SET_TTL;
        assert(w@[k].1 <= now);
    }
    if exists|k: int|
        0 <= k < w@.len() && (#[trigger] w@[k]).0 == id && now - w@[k].1 < 30_000_000_000 {
        let k = choose|k: int|
            0 <= k < w@.len() && (#[trigger] w@[k]).0 == id && now - w@[k].1 < 30_000_000_000;
        assert(age(now, w@[k].1) < WORKING_SET_TTL);
    }
}

/// After a use the set holds at most a thousand entries, the last of them that use.
pub proof fn law_set_limited(w: &mut WorkingSet, id: u32, now: u64)
    requires
        old(w).wf(),
        call_ensures(WorkingSet::touch_at, (w, id, now), ()),
    ensures
        1 <= final(w)@.len() <= 1000,
        final(w)@.last() == (id, now),
        final(w)@.len() <= old(w)@.len() + 1,
        (old(w)@.len() == 0 || now < old(w)@[0].1 + 30_000_000_000) && old(w)@.len() < 1000
            ==> final(w)@ == old(w)@.push((id, now)),
{
    law_touch_keeps(old(w)@, id, now);
    law_touch_drops_oldest(old(w)@, id, now);
    let k = choose|k: int|
        0 <= k <= old(w)@.len() && final(w)@ == (#[trigger] old(w)@.skip(k)).push((id, now));
}

proof fn lemma_only_fresh<V>(s: Seq<CacheEntry<V>>, key: (u32, u32), now: u64, i: int, j: int)
    requires
        distinct_pairs(s),
        first_fresh(s, key, now, i),
        0 <= j < s.len(),
        s[j].key == key,
    ensures
        i == j,
{
    if i < j {
        assert(s[i].key != s[j].key);
    }
    if j < i {
        assert(s[j].key != s[i].key);
    }
}

/// A score that was put in for a pair is found for the pair in either order for half a second, and
/// not from then on; it is counted as a hit, or as a miss.
pub proof fn law_remembered_for_half_a_second<V: Copy>(
    insert: &mut SimilarityCache<V>,
    get: &mut SimilarityCache<V>,
    a: u32,
    b: u32,
    score: V,
    now: u64,
    later: u64,
    r: Option<V>,
)
    requires
        old(insert).wf(),
        old(insert).spec_capacity() > 0,
        distinct_pairs(old(insert).list()),
        now <= later,
        call_ensures(SimilarityCache::<V>::insert_at, (insert, a, b, score, now), ()),
        *old(get) == *final(insert),
        call_ensures(SimilarityCache::<V>::get_at, (get, b, a, later), r),
        old(insert).spec_hits() < u64::MAX,
        old(insert).spec_misses() < u64::MAX,
    ensures
        later - now < 500_000_000 ==> r == Some(score) && final(get).spec_hits() == old(insert).spec_hits() + 1,
        later - now >= 500_000_000 ==> r is None && final(get).spec_misses() == old(insert).spec_misses() + 1,
{
    let s = old(insert).list();
    let cap = old(insert).spec_capacity();
    let key = pair_of(a, b);
    let t = put(s, cap, key, score, now);
    assert(pair_of(b, a) == key);
    law_put_then_found(s, cap, a, b, score, now, now);
    let last = t.len() - 1;
    assert(t[last] == (CacheEntry { key, score, used: now })) by {
        let i = choose|i: int| first_fresh(t, key, now, i) && t[i].score == score;
        if exists|i: int| first_of(s, key, i) {
            let k = choose|i: int| first_of(s, key, i);
            assert(t == s.remove(k).push(CacheEntry { key, score, used: now }));
        }
    }
    if later - now < 500_000_000 {
        law_put_then_found(s, cap, a, b, score, now, later);
        let i = choose|i: int| first_fresh(t, key, later, i) && t[i].score == score;
        assert(first_fresh(t, key, later, i));
        assert(r is Some);
        let j = choose|j: int| #[trigger] first_fresh(t, key, later, j) && r->0 == t[j].score
            && final(get).list() == used_anew(
            t,
            j,
            CacheEntry { key, score: r->0, used: later },
        );
        lemma_only_fresh(t, key, later, j, i);
    } else {
        if r is Some {
            let j = choose|j: int| #[trigger] first_fresh(t, key, later, j) && r->0 == t[j].score
                && final(get).list() == used_anew(
                t,
                j,
                CacheEntry { key, score: r->0, used: later },
            );
            lemma_only_fresh(t, key, later, j, last);
        }
    }
}

/// A use of a concept raises its count by one and makes its age begin anew, and leaves the score of
/// every other concept as it was.
pub proof fn law_use_raises_score(
    touch: &mut ForgettingCurve,
    id: u32,
    now: u64,
    later: u64,
    before: Option<Score>,
    after: Option<Score>,
    other: u32,
    other_before: Option<Score>,
    other_after: Option<Score>,
)
    requires
        distinct_uses(old(touch)@),
        now <= later,
        other != id,
        forall|k: int| 0 <= k < old(touch)@.len() ==> (#[trigger] old(touch)@[k]).count < u32::MAX,
        call_ensures(ForgettingCurve::score_at, (&*old(touch), id, later), before),
        call_ensures(ForgettingCurve::score_at, (&*old(touch), other, later), other_before),
        call_ensures(ForgettingCurve::touch_at, (touch, id, now), ()),
        call_ensures(ForgettingCurve::score_at, (&*final(touch), id, later), after),
        call_ensures(ForgettingCurve::score_at, (&*final(touch), other, later), other_after),
    ensures
        after matches Some(x) && x.nanos == 1_000_000_000 + (later - now) && x.uses_by_nano
            == 1_000_000_000 + (match before {
            Some(y) => y.uses_by_nano as int,
            None => 0,
        }),
        other_after == other_before,
{
    let s = old(touch)@;
    let t = final(touch)@;
    let at = if unused(s, id) {
        s.len() as int
    } else {
        choose|i: int|
            #[trigger] first_use(s, id, i) && t == s.update(
                i,
                UseEntry { id, last: now, count: s[i].count.wrapping_add(1) },
            )
    };
    if unused(s, id) {
        assert(t == s.push(UseEntry { id, last: now, count: 1 })) by {
            if exists|i: int|
                #[trigger] first_use(s, id, i) && t == s.update(
                    i,
                    UseEntry { id, last: now, count: s[i].count.wrapping_add(1) },
                ) {
                let i = choose|i: int|
                    #[trigger] first_use(s, id, i) && t == s.update(
                        i,
                        UseEntry { id, last: now, count: s[i].count.wrapping_add(1) },
                    );
                assert(s[i].id == id);
            }
        }
    } else {
        assert(first_use(s, id, at));
        assert(s[at].count < u32::MAX);
        assert(before is Some);
        let i = choose|i: int| #[trigger] first_use(s, id, i) && before->0 == score_of(s[i], later);
        assert(i == at) by {
            if i != at {
                assert(s[i].id == s[at].id);
            }
        }
    }
    assert(t[at].id == id && t[at].last == now);
    assert(distinct_uses(t)) by {
        law_use_keeps_distinct(s, id, now, t);
    }
    assert(after is Some) by {
        if after is None {
            assert(t[at].id != id);
        }
    }
    let j = choose|j: int| #[trigger] first_use(t, id, j) && after->0 == score_of(t[j], later);
    assert(j == at) by {
        if j != at {
            assert(t[j].id == t[at].id);
        }
    }
    if other_before is Some {
        let m = choose|m: int|
            #[trigger] first_use(s, other, m) && other_before->0 == score_of(s[m], later);
        assert(m != at);
        assert(t[m] == s[m]);
        assert(other_after is Some) by {
            if other_after is None {
                assert(t[m].id != other);
            }
        }
        let q = choose|q: int|
            #[trigger] first_use(t, other, q) && other_after->0 == score_of(t[q], later);
        assert(q == m) by {
            if q != m {
                assert(t[q].id == t[m].id);
            }
        }
    } else if other_after is Some {
        let q = choose|q: int|
            #[trigger] first_use(t, other, q) && other_after->0 == score_of(t[q], later);
        assert(q != at);
        assert(s[q].id != other);
        assert(t[q] == s[q]);
    }
}

proof fn lemma_stale_ids(s: Seq<UseEntry>, num: u32, den: u32, now: u64, id: u32)
    ensures
        stale_ids(s, num, den, now).contains(id) <==> exists|k: int|
            0 <= k < s.len() && (#[trigger] s[k]).id == id && score_below(
                score_of(s[k], now),
                num,
                den,
            ),
    decreases s.len(),
{
    if s.len() > 0 {
        let d = s.drop_last();
        let rest = stale_ids(d, num, den, now);
        let all = stale_ids(s, num, den, now);
        lemma_stale_ids(d, num, den, now, id);
        if all.contains(id) {
            let k = choose|k: int| 0 <= k < all.len() && all[k] == id;
            if k < rest.len() {
                assert(rest[k] == id);
                let m = choose|m: int|
                    0 <= m < d.len() && (#[trigger] d[m]).id == id && score_below(
                        score_of(d[m], now),
                        num,
                        den,
                    );
                assert(s[m] == d[m]);
            } else {
                assert(s[s.len() - 1].id == id);
            }
        }
        if exists|k: int|
            0 <= k < s.len() && (#[trigger] s[k]).id == id && score_below(
                score_of(s[k], now),
                num,
                den,
            ) {
            let k = choose|k: int|
                0 <= k < s.len() && (#[trigger] s[k]).id == id && score_below(
                    score_of(s[k], now),
                    num,
                    den,
                );
            if k < d.len() {
                assert(d[k] == s[k]);
                let m = choose|m: int| 0 <= m < rest.len() && rest[m] == id;
                assert(all[m] == id);
            } else {
                assert(all[rest.len() as int] == id);
            }
        }
    }
}

/// What is stale are the concepts whose score, uses by age, is below the share asked for.
pub proof fn law_stale_below_share(
    c: &ForgettingCurve,
    num: u32,
    den: u32,
    now: u64,
    id: u32,
    stale: Vec<u32>,
    score: Option<Score>,
)
    requires
        distinct_uses(c@),
        call_ensures(ForgettingCurve::stale_at, (c, num, den, now), stale),
        call_ensures(ForgettingCurve::score_at, (c, id, now), score),
    ensures
        stale@.contains(id) <==> (score matches Some(x) && x.uses_by_nano * den < num * x.nanos),
{
    lemma_stale_ids(c@, num, den, now, id);
    if score is Some {
        let i = choose|i: int| #[trigger] first_use(c@, id, i) && score->0 == score_of(c@[i], now);
        if stale@.contains(id) {
            let k = choose|k: int|
                0 <= k < c@.len() && (#[trigger] c@[k]).id == id && score_below(
                    score_of(c@[k], now),
                    num,
                    den,
                );
            assert(k == i) by {
                if k != i {
                    assert(c@[k].id == c@[i].id);
                }
            }
        }
        if score_below(score->0, num, den) {
            assert(c@[i].id == id);
        }
    } else if stale@.contains(id) {
        let k = choose|k: int|
            0 <= k < c@.len() && (#[trigger] c@[k]).id == id && score_below(
                score_of(c@[k], now),
                num,
                den,
            );
        assert(c@[k].id != id);
    }
}

} // verus!
