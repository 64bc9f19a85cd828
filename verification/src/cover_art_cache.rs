//! How many large covers are kept decoded, and which one is dropped first.
use vstd::prelude::*;
use crate::thumbnail::decodes;

verus! {

/// The fewest large covers kept.
pub const LARGE_COVER_MIN_CAPACITY: usize = 32;

/// The most large covers kept, unless more are on screen at once.
pub const LARGE_COVER_MAX_CAPACITY: usize = 512;

/// How many screens of covers are kept.
pub const LARGE_COVER_SCREENS: usize = 3;

pub open spec fn sat_usize(x: int) -> int {
    if x > usize::MAX {
        usize::MAX as int
    } else {
        x
    }
}

/// The capacity for `visible` covers on screen: three screens' worth
/// (saturating), at least the minimum and at most the larger of the maximum
/// and one more than is visible.
pub open spec fn capacity_spec(visible: usize) -> int {
    let ceiling = if LARGE_COVER_MAX_CAPACITY >= sat_usize(visible + 1) {
        LARGE_COVER_MAX_CAPACITY as int
    } else {
        sat_usize(visible + 1)
    };
    let wanted = sat_usize(visible * LARGE_COVER_SCREENS);
    if wanted < LARGE_COVER_MIN_CAPACITY {
        LARGE_COVER_MIN_CAPACITY as int
    } else if wanted > ceiling {
        ceiling
    } else {
        wanted
    }
}

/// The capacity for `visible` covers on screen.
pub fn capacity_for_visible(visible: usize) -> (r: usize)
    ensures
        r == capacity_spec(visible),
{
    let grown = visible.saturating_add(1);
    let ceiling = if LARGE_COVER_MAX_CAPACITY >= grown {
        LARGE_COVER_MAX_CAPACITY
    } else {
        grown
    };
    let wanted = match visible.checked_mul(LARGE_COVER_SCREENS) {
        Some(w) => w,
        None => usize::MAX,
    };
    if wanted < LARGE_COVER_MIN_CAPACITY {
        LARGE_COVER_MIN_CAPACITY
    } else if wanted > ceiling {
        ceiling
    } else {
        wanted
    }
}

/// Raises `peak` to `visible` when more are visible, and gives the capacity
/// for the peak, so that a pass that sees fewer covers never shrinks it.
pub fn capacity_for_peak_visible(peak: &mut usize, visible: usize) -> (r: usize)
    ensures
        *final(peak) == if *old(peak) >= visible {
            *old(peak)
        } else {
            visible
        },
        r == capacity_spec(*final(peak)),
{
    if *peak < visible {
        *peak = visible;
    }
    capacity_for_visible(*peak)
}

/// The capacity always exceeds what is visible, so the covers on screen
/// never push each other out (short of the largest count there is).
pub proof fn law_capacity_outgrows_visible(visible: usize)
    requires
        visible < usize::MAX,
    ensures
        capacity_spec(visible) > visible,
{
}

/// The capacity stays between its bounds: at least the minimum, at most the
/// larger of the maximum and one more than is visible.
pub proof fn law_capacity_within_bounds(visible: usize)
    ensures
        LARGE_COVER_MIN_CAPACITY <= capacity_spec(visible),
        capacity_spec(visible) <= LARGE_COVER_MAX_CAPACITY || capacity_spec(visible) <= sat_usize(
            visible + 1,
        ),
{
}

/// The capacity is three screens of covers, kept between 32 and 512 (or one
/// more than is visible, when more than 511 are).
pub proof fn law_capacity_is_three_screens(visible: usize)
    requires
        3 * visible <= usize::MAX,
    ensures
        capacity_spec(visible) == if 3 * visible < 32 {
            32
        } else if 3 * visible > 512 && 3 * visible > visible + 1 {
            if visible + 1 > 512 {
                visible + 1
            } else {
                512
            }
        } else {
            3 * visible
        },
{
}

/// More covers on screen never mean a smaller capacity.
pub proof fn law_capacity_grows_with_visible(a: usize, b: usize)
    requires
        a <= b,
    ensures
        capacity_spec(a) <= capacity_spec(b),
{
    assert(sat_usize(a * LARGE_COVER_SCREENS) <= sat_usize(b * LARGE_COVER_SCREENS)) by (
    nonlinear_arith)
        requires
            a <= b,
            LARGE_COVER_SCREENS == 3,
    {
    }
}

// ---------------------------------------------------------------------------
// Least recently used
// ---------------------------------------------------------------------------

/// A cover that is kept, and the tick at which it was last used.
#[derive(Clone, Copy, Debug, PartialEq, Eq)]
pub struct LruEntry {
    pub id: i64,
    pub used: u64,
}

/// The large covers kept, by cover id, with the tick at which each was last
/// used; each use takes a new tick.
pub struct CoverLru {
    entries: Vec<LruEntry>,
    capacity: usize,
    tick: u64,
}

pub struct CoverLruView {
    pub entries: Seq<LruEntry>,
    pub capacity: usize,
    pub tick: u64,
}

impl View for CoverLru {
    type V = CoverLruView;

    closed spec fn view(&self) -> CoverLruView {
        CoverLruView { entries: self.entries@, capacity: self.capacity, tick: self.tick }
    }
}

/// No cover is kept twice, no two uses share a tick, and no use lies ahead
/// of the clock.
pub open spec fn lru_ok(entries: Seq<LruEntry>, tick: u64) -> bool {
    &&& forall|i: int, j: int|
        0 <= i < j < entries.len() ==> (#[trigger] entries[i]).id != (#[trigger] entries[j]).id
    &&& forall|i: int, j: int|
        0 <= i < j < entries.len() ==> (#[trigger] entries[i]).used != (#[trigger] entries[j]).used
    &&& forall|i: int| 0 <= i < entries.len() ==> (#[trigger] entries[i]).used <= tick
}

pub open spec fn has_id(entries: Seq<LruEntry>, id: i64) -> bool {
    exists|i: int| 0 <= i < entries.len() && (#[trigger] entries[i]).id == id
}

/// A kept cover that no view still paints, and that may be dropped.
pub open spec fn evictable(held: Seq<i64>, e: LruEntry) -> bool {
    !held.contains(e.id)
}

/// `id` is the evictable cover used longest ago.
pub open spec fn is_coldest(entries: Seq<LruEntry>, held: Seq<i64>, id: i64) -> bool {
    exists|i: int|
        0 <= i < entries.len() && (#[trigger] entries[i]).id == id && evictable(held, entries[i])
            && forall|j: int|
            0 <= j < entries.len() && evictable(held, #[trigger] entries[j]) ==> entries[i].used
                <= entries[j].used
}

pub open spec fn no_evictable(entries: Seq<LruEntry>, held: Seq<i64>) -> bool {
    forall|i: int| 0 <= i < entries.len() ==> !evictable(held, #[trigger] entries[i])
}

/// What an eviction down to `capacity` leaves of `before`: it drops only
/// evictable covers, each used longer ago than every evictable one it keeps,
/// never goes below the capacity, and stops above it only when nothing left
/// may be dropped.
pub open spec fn evicted_down(
    before: Seq<LruEntry>,
    after: Seq<LruEntry>,
    dropped: Seq<i64>,
    held: Seq<i64>,
    capacity: usize,
) -> bool {
    &&& forall|e: LruEntry| #[trigger] after.contains(e) ==> before.contains(e)
    &&& forall|e: LruEntry|
        #[trigger] before.contains(e) ==> (after.contains(e) <==> !dropped.contains(e.id))
    &&& forall|k: int| 0 <= k < dropped.len() ==> has_id(before, #[trigger] dropped[k])
    &&& forall|k: int| 0 <= k < dropped.len() ==> !held.contains(#[trigger] dropped[k])
    &&& forall|e: LruEntry, f: LruEntry|
        #[trigger] before.contains(e) && dropped.contains(e.id) && #[trigger] after.contains(f)
            && evictable(held, f) ==> e.used < f.used
    &&& dropped.len() > 0 ==> after.len() >= capacity
    &&& after.len() > capacity ==> no_evictable(after, held)
}

impl CoverLru {
    #[verifier::type_invariant]
    closed spec fn inv(self) -> bool {
        &&& lru_ok(self.entries@, self.tick)
        &&& self.capacity >= 1
    }

    /// No covers, room for the minimum.
    pub fn new() -> (r: CoverLru)
        ensures
            r@.entries == Seq::<LruEntry>::empty(),
            r@.capacity == LARGE_COVER_MIN_CAPACITY,
            r@.tick == 0,
    {
        Self::with_large_capacity(LARGE_COVER_MIN_CAPACITY)
    }

    /// No covers, room for `large_capacity` of them (at least one).
    pub fn with_large_capacity(large_capacity: usize) -> (r: CoverLru)
        ensures
            r@.entries == Seq::<LruEntry>::empty(),
            r@.capacity == if large_capacity >= 1 {
                large_capacity
            } else {
                1
            },
            r@.tick == 0,
    {
        CoverLru {
            entries: Vec::new(),
            capacity: if large_capacity >= 1 {
                large_capacity
            } else {
                1
            },
            tick: 0,
        }
    }

    /// The covers kept, with their last use.
    pub fn entries(&self) -> (r: Vec<LruEntry>)
        ensures
            r@ == self@.entries,
    {
        let mut r: Vec<LruEntry> = Vec::new();
        for i in 0..self.entries.len()
            invariant
                r@ == self.entries@.take(i as int),
        {
            r.push(self.entries[i]);
            assert(r@ =~= self.entries@.take(i + 1));
        }
        assert(self.entries@.take(self.entries@.len() as int) =~= self.entries@);
        r
    }

    /// How many covers may be kept.
    pub fn capacity(&self) -> (r: usize)
        ensures
            r == self@.capacity,
            r >= 1,
    {
        proof {
            use_type_invariant(self);
        }
        self.capacity
    }

    /// The clock.
    pub fn tick(&self) -> (r: u64)
        ensures
            r == self@.tick,
    {
        self.tick
    }

    fn index_of(&self, id: i64) -> (r: Option<usize>)
        ensures
            match r {
                Some(i) => i < self@.entries.len() && self@.entries[i as int].id == id,
                None => !has_id(self@.entries, id),
            },
    {
        for i in 0..self.entries.len()
            invariant
                forall|j: int| 0 <= j < i ==> (#[trigger] self.entries@[j]).id != id,
        {
            if self.entries[i].id == id {
                return Some(i);
            }
        }
        None
    }

    /// Whether the cover `id` is kept.
    pub fn holds_large(&self, id: i64) -> (r: bool)
        ensures
            r == has_id(self@.entries, id),
    {
        self.index_of(id).is_some()
    }

    /// Moves the clock on and marks the cover `id`, if it is kept, as used
    /// now; tells whether it is kept.
    pub fn touch_large(&mut self, id: i64) -> (r: bool)
        requires
            old(self)@.tick < u64::MAX,
        ensures
            r == has_id(old(self)@.entries, id),
            final(self)@.tick == old(self)@.tick + 1,
            final(self)@.capacity == old(self)@.capacity,
            final(self)@.entries == match old(self).index_of_spec(id) {
                Some(i) => old(self)@.entries.update(
                    i,
                    LruEntry { id, used: final(self)@.tick },
                ),
                None => old(self)@.entries,
            },
    {
        proof {
            use_type_invariant(&*self);
        }
        let tick = self.tick + 1;
        let found = self.index_of(id);
        let ghost before = self.entries@;
        let mut entries: Vec<LruEntry> = Vec::new();
        std::mem::swap(&mut entries, &mut self.entries);
        match found {
            Some(i) => {
                entries.set(i, LruEntry { id, used: tick });
                assert(lru_ok(entries@, tick)) by {
                    assert forall|a: int, b: int| 0 <= a < b < entries@.len() implies (
                    #[trigger] entries@[a]).id != (#[trigger] entries@[b]).id by {
                        assert(before[a].id != before[b].id);
                    }
                    assert forall|a: int, b: int| 0 <= a < b < entries@.len() implies (
                    #[trigger] entries@[a]).used != (#[trigger] entries@[b]).used by {
                        assert(before[a].used != before[b].used);
                    }
                }
                proof {
                    lemma_index_of_spec(before, id, i as int);
                }
            },
            None => {
                proof {
                    lemma_index_of_spec_none(before, id);
                }
            },
        }
        self.tick = tick;
        self.entries = entries;
        found.is_some()
    }

    pub closed spec fn index_of_spec(&self, id: i64) -> Option<int> {
        index_in(self.entries@, id)
    }

    fn coldest_index(&self, held: &[i64]) -> (r: Option<usize>)
        ensures
            match r {
                Some(b) => b < self@.entries.len() && evictable(held@, self@.entries[b as int])
                    && forall|j: int|
                    0 <= j < self@.entries.len() && evictable(held@, #[trigger] self@.entries[j])
                        ==> self@.entries[b as int].used <= self@.entries[j].used,
                None => forall|i: int|
                    0 <= i < self@.entries.len() ==> !evictable(held@, #[trigger] self@.entries[i]),
            },
    {
        let mut best: Option<usize> = None;
        for i in 0..self.entries.len()
            invariant
                match best {
                    Some(b) => b < i && evictable(held@, self.entries@[b as int]) && forall|j: int|
                        0 <= j < i && evictable(held@, #[trigger] self.entries@[j])
                            ==> self.entries@[b as int].used <= self.entries@[j].used,
                    None => forall|j: int|
                        0 <= j < i ==> !evictable(held@, #[trigger] self.entries@[j]),
                },
        {
            if !contains_id(held, self.entries[i].id) {
                match best {
                    Some(b) => {
                        if self.entries[i].used < self.entries[b].used {
                            best = Some(i);
                        }
                    },
                    None => {
                        best = Some(i);
                    },
                }
            }
        }
        best
    }

    /// The evictable cover used longest ago, if any.
    pub fn coldest_evictable(&self, held: &[i64]) -> (r: Option<i64>)
        ensures
            match r {
                Some(id) => is_coldest(self@.entries, held@, id),
                None => forall|i: int|
                    0 <= i < self@.entries.len() ==> !evictable(held@, #[trigger] self@.entries[i]),
            },
    {
        match self.coldest_index(held) {
            Some(b) => Some(self.entries[b].id),
            None => None,
        }
    }

    /// Drops the evictable covers used longest ago while more are kept than
    /// the capacity; gives the ids dropped, in the order they went.
    fn evict_large(&mut self, held: &[i64]) -> (dropped: Vec<i64>)
        ensures
            final(self)@.tick == old(self)@.tick,
            final(self)@.capacity == old(self)@.capacity,
            evicted_down(old(self)@.entries, final(self)@.entries, dropped@, held@, old(self)@.capacity),
    {
        proof {
            use_type_invariant(&*self);
        }
        let ghost start = self.entries@;
        let mut dropped: Vec<i64> = Vec::new();
        while self.entries.len() > self.capacity
            invariant
                self@.tick == old(self)@.tick,
                self@.capacity == old(self)@.capacity,
                self.capacity >= 1,
                lru_ok(self.entries@, self.tick),
                lru_ok(start, self.tick),
                start == old(self)@.entries,
                evicted_down_part(start, self.entries@, dropped@, held@),
                dropped@.len() > 0 ==> self.entries@.len() >= self.capacity,
            ensures
                self.entries@.len() > self.capacity ==> no_evictable(self.entries@, held@),
                dropped@.len() > 0 ==> self.entries@.len() >= self.capacity,
                self@.tick == old(self)@.tick,
                self@.capacity == old(self)@.capacity,
                evicted_down_part(start, self.entries@, dropped@, held@),
            decreases self.entries@.len(),
        {
            let i = match self.coldest_index(held) {
                Some(i) => i,
                None => {
                    assert forall|k: int| 0 <= k < self.entries@.len() implies !evictable(
                        held@,
                        #[trigger] self.entries@[k],
                    ) by {
                        assert(self@.entries[k] == self.entries@[k]);
                    }
                    break;
                },
            };
            let coldest = self.entries[i].id;
            let ghost before = self.entries@;
            let mut entries: Vec<LruEntry> = Vec::new();
            std::mem::swap(&mut entries, &mut self.entries);
            entries.remove(i);
            proof {
                lemma_remove_keeps_ok(before, i as int, self.tick);
                lemma_drop_coldest(start, before, entries@, dropped@, held@, i as int);
            }
            self.entries = entries;
            dropped.push(coldest);
        }
        dropped
    }

    /// Keeps the cover `id`: a kept one is marked as used now; a new one is
    /// added as used now, and then the covers used longest ago are dropped
    /// down to the capacity. Gives the ids dropped.
    pub fn insert_large(&mut self, id: i64, held: &[i64]) -> (dropped: Vec<i64>)
        requires
            old(self)@.tick < u64::MAX - 1,
        ensures
            final(self)@.capacity == old(self)@.capacity,
            has_id(old(self)@.entries, id) ==> dropped@.len() == 0 && final(self)@.tick
                == old(self)@.tick + 1 && final(self)@.entries == old(self)@.entries.update(
                old(self).index_of_spec(id)->0,
                LruEntry { id, used: final(self)@.tick },
            ),
            !has_id(old(self)@.entries, id) ==> final(self)@.tick == old(self)@.tick + 2
                && evicted_down(
                old(self)@.entries.push(LruEntry { id, used: final(self)@.tick }),
                final(self)@.entries,
                dropped@,
                held@,
                old(self)@.capacity,
            ),
    {
        if self.touch_large(id) {
            proof {
                lemma_index_of_spec_some(old(self)@.entries, id);
            }
            return Vec::new();
        }
        proof {
            use_type_invariant(&*self);
        }
        let tick = self.tick + 1;
        let ghost before = self.entries@;
        let mut entries: Vec<LruEntry> = Vec::new();
        std::mem::swap(&mut entries, &mut self.entries);
        entries.push(LruEntry { id, used: tick });
        assert(lru_ok(entries@, tick)) by {
            assert forall|a: int, b: int| 0 <= a < b < entries@.len() implies (
            #[trigger] entries@[a]).id != (#[trigger] entries@[b]).id by {
                if b == before.len() {
                    assert(entries@[a] == before[a]);
                } else {
                    assert(before[a].id != before[b].id);
                }
            }
            assert forall|a: int, b: int| 0 <= a < b < entries@.len() implies (
            #[trigger] entries@[a]).used != (#[trigger] entries@[b]).used by {
                if b == before.len() {
                    assert(entries@[a] == before[a]);
                } else {
                    assert(before[a].used != before[b].used);
                }
            }
        }
        self.tick = tick;
        self.entries = entries;
        self.evict_large(held)
    }

    /// Sets how many covers may be kept (at least one) and drops the covers
    /// used longest ago down to it. Gives the ids dropped.
    pub fn set_large_capacity(&mut self, capacity: usize, held: &[i64]) -> (dropped: Vec<i64>)
        ensures
            final(self)@.capacity == if capacity >= 1 {
                capacity
            } else {
                1
            },
            final(self)@.tick == old(self)@.tick,
            final(self)@.capacity == old(self)@.capacity ==> dropped@.len() == 0
                && final(self)@.entries == old(self)@.entries,
            evicted_down(
                old(self)@.entries,
                final(self)@.entries,
                dropped@,
                held@,
                final(self)@.capacity,
            ) || final(self)@.capacity == old(self)@.capacity,
    {
        let capacity = if capacity >= 1 {
            capacity
        } else {
            1
        };
        if capacity == self.capacity {
            return Vec::new();
        }
        proof {
            use_type_invariant(&*self);
        }
        self.capacity = capacity;
        self.evict_large(held)
    }

    /// Drops every cover; gives their ids.
    pub fn clear(&mut self) -> (dropped: Vec<i64>)
        ensures
            final(self)@.entries == Seq::<LruEntry>::empty(),
            final(self)@.capacity == old(self)@.capacity,
            final(self)@.tick == old(self)@.tick,
            dropped@ == Seq::new(old(self)@.entries.len(), |i: int| old(self)@.entries[i].id),
    {
        proof {
            use_type_invariant(&*self);
        }
        let mut dropped: Vec<i64> = Vec::new();
        for i in 0..self.entries.len()
            invariant
                dropped@ == Seq::new(i as nat, |k: int| self.entries@[k].id),
        {
            dropped.push(self.entries[i].id);
            assert(dropped@ =~= Seq::new((i + 1) as nat, |k: int| self.entries@[k].id));
        }
        self.entries = Vec::new();
        dropped
    }
}

/// The index of the entry for `id`.
pub open spec fn index_in(entries: Seq<LruEntry>, id: i64) -> Option<int> {
    if has_id(entries, id) {
        Some(choose|i: int| 0 <= i < entries.len() && (#[trigger] entries[i]).id == id)
    } else {
        None
    }
}

proof fn lemma_index_of_spec(entries: Seq<LruEntry>, id: i64, i: int)
    requires
        0 <= i < entries.len(),
        entries[i].id == id,
        forall|a: int, b: int|
            0 <= a < b < entries.len() ==> (#[trigger] entries[a]).id != (#[trigger] entries[b]).id,
    ensures
        index_in(entries, id) == Some(i),
{
    let k = choose|k: int| 0 <= k < entries.len() && (#[trigger] entries[k]).id == id;
    if k < i {
        assert(entries[k].id != entries[i].id);
    }
    if i < k {
        assert(entries[i].id != entries[k].id);
    }
}

proof fn lemma_index_of_spec_none(entries: Seq<LruEntry>, id: i64)
    requires
        !has_id(entries, id),
    ensures
        index_in(entries, id) is None,
{
}

proof fn lemma_index_of_spec_some(entries: Seq<LruEntry>, id: i64)
    requires
        has_id(entries, id),
    ensures
        index_in(entries, id) is Some,
        0 <= index_in(entries, id)->0 < entries.len(),
        entries[index_in(entries, id)->0].id == id,
{
}

fn contains_id(held: &[i64], id: i64) -> (r: bool)
    ensures
        r == held@.contains(id),
{
    for i in 0..held.len()
        invariant
            forall|j: int| 0 <= j < i ==> held@[j] != id,
    {
        if held[i] == id {
            return true;
        }
    }
    false
}

/// The part of `evicted_down` that holds after every step of an eviction.
pub open spec fn evicted_down_part(
    before: Seq<LruEntry>,
    after: Seq<LruEntry>,
    dropped: Seq<i64>,
    held: Seq<i64>,
) -> bool {
    &&& forall|e: LruEntry| #[trigger] after.contains(e) ==> before.contains(e)
    &&& forall|e: LruEntry|
        #[trigger] before.contains(e) ==> (after.contains(e) <==> !dropped.contains(e.id))
    &&& forall|k: int| 0 <= k < dropped.len() ==> has_id(before, #[trigger] dropped[k])
    &&& forall|k: int| 0 <= k < dropped.len() ==> !held.contains(#[trigger] dropped[k])
    &&& forall|e: LruEntry, f: LruEntry|
        #[trigger] before.contains(e) && dropped.contains(e.id) && #[trigger] after.contains(f)
            && evictable(held, f) ==> e.used < f.used
}

proof fn lemma_remove_keeps_ok(entries: Seq<LruEntry>, i: int, tick: u64)
    requires
        0 <= i < entries.len(),
        lru_ok(entries, tick),
    ensures
        lru_ok(entries.remove(i), tick),
{
    let r = entries.remove(i);
    assert forall|a: int, b: int| 0 <= a < b < r.len() implies (#[trigger] r[a]).id != (
    #[trigger] r[b]).id && r[a].used != r[b].used by {
        let a0 = if a < i {
            a
        } else {
            a + 1
        };
        let b0 = if b < i {
            b
        } else {
            b + 1
        };
        assert(r[a] == entries[a0] && r[b] == entries[b0]);
    }
    assert forall|a: int| 0 <= a < r.len() implies (#[trigger] r[a]).used <= tick by {
        let a0 = if a < i {
            a
        } else {
            a + 1
        };
        assert(r[a] == entries[a0]);
    }
}

proof fn lemma_drop_coldest(
    start: Seq<LruEntry>,
    before: Seq<LruEntry>,
    after: Seq<LruEntry>,
    dropped: Seq<i64>,
    held: Seq<i64>,
    i: int,
)
    requires
        0 <= i < before.len(),
        after == before.remove(i),
        evicted_down_part(start, before, dropped, held),
        is_coldest(before, held, before[i].id),
        lru_ok(before, 0xffff_ffff_ffff_ffff),
        lru_ok(start, 0xffff_ffff_ffff_ffff),
    ensures
        evicted_down_part(start, after, dropped.push(before[i].id), held),
{
    let x = before[i];
    let nd = dropped.push(x.id);
    let w = choose|w: int|
        0 <= w < before.len() && (#[trigger] before[w]).id == x.id && evictable(held, before[w])
            && forall|j: int|
            0 <= j < before.len() && evictable(held, #[trigger] before[j]) ==> before[w].used
                <= before[j].used;
    if w != i {
        if w < i {
            assert(before[w].id != before[i].id);
        } else {
            assert(before[i].id != before[w].id);
        }
    }
    assert forall|e: LruEntry| #[trigger] after.contains(e) implies start.contains(e) by {
        let k = choose|k: int| 0 <= k < after.len() && after[k] == e;
        let k0 = if k < i {
            k
        } else {
            k + 1
        };
        assert(after[k] == before[k0]);
        assert(before.contains(e));
    }
    assert forall|e: LruEntry| #[trigger] start.contains(e) implies (after.contains(e)
        <==> !nd.contains(e.id)) by {
        if after.contains(e) {
            let k = choose|k: int| 0 <= k < after.len() && after[k] == e;
            let k0 = if k < i {
                k
            } else {
                k + 1
            };
            assert(after[k] == before[k0]);
            assert(before.contains(e));
            assert(!dropped.contains(e.id));
            if e.id == x.id {
                if k0 < i {
                    assert(before[k0].id != before[i].id);
                } else {
                    assert(before[i].id != before[k0].id);
                }
            }
            assert(!nd.contains(e.id)) by {
                if nd.contains(e.id) {
                    let q = choose|q: int| 0 <= q < nd.len() && nd[q] == e.id;
                    if q < dropped.len() {
                        assert(dropped[q] == e.id);
                    }
                }
            }
        } else {
            if before.contains(e) {
                let k = choose|k: int| 0 <= k < before.len() && before[k] == e;
                if k != i {
                    let k1 = if k < i {
                        k
                    } else {
                        k - 1
                    };
                    assert(after[k1] == e);
                }
                assert(nd[dropped.len() as int] == x.id);
            } else {
                assert(dropped.contains(e.id));
                let q = choose|q: int| 0 <= q < dropped.len() && dropped[q] == e.id;
                assert(nd[q] == e.id);
            }
        }
    }
    assert forall|k: int| 0 <= k < nd.len() implies has_id(start, #[trigger] nd[k]) by {
        if k == dropped.len() {
            assert(before.contains(x));
            assert(start.contains(x));
            let q = choose|q: int| 0 <= q < start.len() && start[q] == x;
            assert(start[q].id == x.id);
        } else {
            assert(nd[k] == dropped[k]);
        }
    }
    assert forall|k: int| 0 <= k < nd.len() implies !held.contains(#[trigger] nd[k]) by {
        if k < dropped.len() {
            assert(nd[k] == dropped[k]);
        }
    }
    assert forall|e: LruEntry, f: LruEntry|
        #[trigger] start.contains(e) && nd.contains(e.id) && #[trigger] after.contains(f)
            && evictable(held, f) implies e.used < f.used by {
        let k = choose|k: int| 0 <= k < after.len() && after[k] == f;
        let k0 = if k < i {
            k
        } else {
            k + 1
        };
        assert(after[k] == before[k0]);
        assert(before.contains(f));
        if dropped.contains(e.id) {
        } else {
            assert(e.id == x.id) by {
                let q = choose|q: int| 0 <= q < nd.len() && nd[q] == e.id;
                if q < dropped.len() {
                    assert(dropped[q] == e.id);
                }
            }
            assert(before.contains(e)) by {
                if !before.contains(e) {
                    assert(dropped.contains(e.id));
                }
            }
            let m = choose|m: int| 0 <= m < before.len() && before[m] == e;
            if m != i {
                if m < i {
                    assert(before[m].id != before[i].id);
                } else {
                    assert(before[i].id != before[m].id);
                }
            }
            assert(before[i].used <= before[k0].used);
            if k0 < i {
                assert(before[k0].used != before[i].used);
            } else {
                assert(before[i].used != before[k0].used);
            }
        }
    }
}

/// Touching a kept cover makes it the one used last: its new tick is later
/// than that of every other kept cover.
pub proof fn law_touch_makes_newest(entries: Seq<LruEntry>, tick: u64, id: i64)
    requires
        lru_ok(entries, tick),
        tick < u64::MAX,
        has_id(entries, id),
    ensures
        forall|j: int|
            0 <= j < entries.len() && j != index_in(entries, id)->0 ==> (#[trigger] entries.update(
                index_in(entries, id)->0,
                LruEntry { id, used: (tick + 1) as u64 },
            )[j]).used < tick + 1,
{
}

/// Nothing is dropped while every kept cover is still painted by a view.
pub proof fn law_nothing_evicted_while_all_held(
    before: Seq<LruEntry>,
    after: Seq<LruEntry>,
    dropped: Seq<i64>,
    held: Seq<i64>,
    capacity: usize,
)
    requires
        forall|i: int| 0 <= i < before.len() ==> held.contains(#[trigger] before[i].id),
        evicted_down(before, after, dropped, held, capacity),
    ensures
        dropped.len() == 0,
        forall|e: LruEntry| #[trigger] before.contains(e) ==> after.contains(e),
{
    if dropped.len() > 0 {
        assert(has_id(before, dropped[0]));
        let i = choose|i: int| 0 <= i < before.len() && (#[trigger] before[i]).id == dropped[0];
        assert(held.contains(before[i].id));
    }
    assert forall|e: LruEntry| #[trigger] before.contains(e) implies after.contains(e) by {
        if !after.contains(e) {
            assert(dropped.contains(e.id));
        }
    }
}

} // verus!

verus! {

// ---------------------------------------------------------------------------
// Decoding a cover for display
// ---------------------------------------------------------------------------

/// The RGBA bytes, row by row, of the image the bytes `data` decode to, as
/// `DynamicImage::to_rgba8` gives them; a function of the bytes alone.
pub uninterp spec fn tile_rgba(data: Seq<u8>) -> Seq<u8>;

/// `image::ImageReader` over the bytes, `with_guessed_format`, `decode`, then
/// `to_rgba8`. These are the steps of `image::load_from_memory`, so the
/// contract claims that it gives pixels exactly when `decodes` holds; of the
/// pixels it claims only that they are `tile_rgba` of the bytes.
#[verifier::external_body]
fn rgba_pixels(data: &[u8]) -> (r: Option<Vec<u8>>)
    ensures
        r is Some == decodes(data@),
        r matches Some(p) ==> p@ == tile_rgba(data@),
{
    let reader = image::ImageReader::new(std::io::Cursor::new(data)).with_guessed_format().ok()?;
    let decoded = reader.decode().ok()?;
    Some(decoded.to_rgba8().into_raw())
}

/// Four-byte pixels with their first and third bytes swapped (RGBA to
/// BGRA); bytes after the last whole pixel stay.
pub open spec fn swap_red_blue(p: Seq<u8>) -> Seq<u8> {
    let whole = p.len() - p.len() % 4;
    Seq::new(
        p.len(),
        |k: int|
            if k < whole && k % 4 == 0 {
                p[k + 2]
            } else if k < whole && k % 4 == 2 {
                p[k - 2]
            } else {
                p[k]
            },
    )
}

/// The pixels of a cover as the display takes them: decoded, as RGBA, with
/// red and blue swapped; none when the bytes are no image.
pub fn decode_cover_tile(bytes: &[u8]) -> (r: Option<Vec<u8>>)
    ensures
        r is Some == decodes(bytes@),
        r matches Some(p) ==> p@ == swap_red_blue(tile_rgba(bytes@)),
{
    let mut p = match rgba_pixels(bytes) {
        None => {
            return None;
        },
        Some(p) => p,
    };
    let ghost orig = p@;
    let ghost whole = orig.len() - orig.len() % 4;
    let mut i: usize = 0;
    while 4 <= p.len() - i
        invariant
            p@.len() == orig.len(),
            orig == tile_rgba(bytes@),
            whole == orig.len() - orig.len() % 4,
            i % 4 == 0,
            i <= whole,
            forall|k: int|
                0 <= k < orig.len() ==> #[trigger] p@[k] == if k < i {
                    swap_red_blue(orig)[k]
                } else {
                    orig[k]
                },
        decreases p.len() - i,
    {
        let red = p[i];
        let blue = p[i + 2];
        p.set(i, blue);
        p.set(i + 2, red);
        assert(i + 4 <= whole);
        i = i + 4;
    }
    assert(i == whole);
    assert(p@ =~= swap_red_blue(orig));
    Some(p)
}

} // verus!
