//! The order of the tracks in a playlist, the liked-tracks playlist among them.
//!
//! Positions are dense (the first track is at 0, the next at 1, ...) and a
//! track is held at most once, so adding a track twice is harmless.
use vstd::prelude::*;

verus! {

/// The tracks of one playlist, in position order.
pub struct PlaylistTracks {
    tracks: Vec<i64>,
}

impl View for PlaylistTracks {
    type V = Seq<i64>;

    closed spec fn view(&self) -> Seq<i64> {
        self.tracks@
    }
}

/// The order after adding `track`: appended at the end, unless it is held already.
pub open spec fn added(s: Seq<i64>, track: i64) -> Seq<i64> {
    if s.contains(track) {
        s
    } else {
        s.push(track)
    }
}

/// The order after adding each of `tracks` in turn.
pub open spec fn added_all(s: Seq<i64>, tracks: Seq<i64>) -> Seq<i64>
    decreases tracks.len(),
{
    if tracks.len() == 0 {
        s
    } else {
        added(added_all(s, tracks.drop_last()), tracks.last())
    }
}

/// The order after removing `track`, where it is held; the tracks after it
/// move up one place.
pub open spec fn removed(s: Seq<i64>, track: i64) -> Seq<i64> {
    if s.contains(track) {
        s.remove(s.index_of(track))
    } else {
        s
    }
}

/// Whether a move from `from` to `to` does anything: both are positions of
/// the playlist and they differ.
pub open spec fn moves(s: Seq<i64>, from: int, to: int) -> bool {
    from != to && 0 <= from < s.len() && 0 <= to < s.len()
}

/// The order after taking the track at `from` out and putting it back at
/// `to`; a move that does nothing leaves the order as it is.
pub open spec fn moved(s: Seq<i64>, from: int, to: int) -> Seq<i64> {
    if moves(s, from, to) {
        s.remove(from).insert(to, s[from])
    } else {
        s
    }
}

fn holds(tracks: &Vec<i64>, track: i64) -> (r: Option<usize>)
    ensures
        r is None <==> !tracks@.contains(track),
        r matches Some(i) ==> i < tracks@.len() && tracks@[i as int] == track && forall|j: int|
            0 <= j < i ==> tracks@[j] != track,
{
    for k in 0..tracks.len()
        invariant
            forall|j: int| 0 <= j < k ==> tracks@[j] != track,
    {
        if tracks[k] == track {
            return Some(k);
        }
    }
    None
}

impl PlaylistTracks {
    /// An empty playlist.
    pub fn new() -> (r: Self)
        ensures
            r@ == Seq::<i64>::empty(),
            r@.no_duplicates(),
    {
        PlaylistTracks { tracks: Vec::new() }
    }

    /// A playlist holding `tracks` in this order, or `None` where a track
    /// occurs twice.
    pub fn from_tracks(tracks: Vec<i64>) -> (r: Option<Self>)
        ensures
            r is Some <==> tracks@.no_duplicates(),
            r matches Some(p) ==> p@ == tracks@,
    {
        let n = tracks.len();
        for k in 0..n
            invariant
                n == tracks@.len(),
                tracks@.take(k as int).no_duplicates(),
        {
            for j in 0..k
                invariant
                    n == tracks@.len(),
                    j <= k < n,
                    forall|i: int| 0 <= i < j ==> tracks@[i] != tracks@[k as int],
            {
                if tracks[j] == tracks[k] {
                    proof {
                        assert(tracks@[j as int] == tracks@[k as int]);
                    }
                    return None;
                }
            }
            proof {
                let t = tracks@.take(k + 1);
                assert forall|a: int, b: int| 0 <= a < t.len() && 0 <= b < t.len() && a != b implies t[a] != t[b] by {
                    if a < k && b < k {
                        assert(tracks@.take(k as int)[a] == t[a]);
                        assert(tracks@.take(k as int)[b] == t[b]);
                    }
                }
            }
        }
        proof {
            assert(tracks@.take(n as int) == tracks@);
        }
        Some(PlaylistTracks { tracks })
    }

    /// The tracks, in position order.
    pub fn tracks(&self) -> (r: &Vec<i64>)
        ensures
            r@ == self@,
    {
        &self.tracks
    }

    /// The position of `track`, where the playlist holds it.
    pub fn position_of(&self, track: i64) -> (r: Option<usize>)
        requires
            self@.no_duplicates(),
        ensures
            r is None <==> !self@.contains(track),
            r matches Some(i) ==> i < self@.len() && self@[i as int] == track,
    {
        holds(&self.tracks, track)
    }

    /// Appends `track`, unless the playlist holds it already.
    pub fn add_track(&mut self, track: i64)
        requires
            old(self)@.no_duplicates(),
        ensures
            final(self)@ == added(old(self)@, track),
            final(self)@.no_duplicates(),
    {
        if holds(&self.tracks, track).is_none() {
            self.tracks.push(track);
        }
    }

    /// Appends each of `tracks` in turn, passing over those the playlist
    /// holds already.
    pub fn add_tracks(&mut self, tracks: &[i64])
        requires
            old(self)@.no_duplicates(),
        ensures
            final(self)@ == added_all(old(self)@, tracks@),
            final(self)@.no_duplicates(),
    {
        let ghost start = self@;
        for k in 0..tracks.len()
            invariant
                self@ == added_all(start, tracks@.take(k as int)),
                self@.no_duplicates(),
        {
            proof {
                assert(tracks@.take(k + 1).drop_last() == tracks@.take(k as int));
            }
            self.add_track(tracks[k]);
        }
        proof {
            assert(tracks@.take(tracks@.len() as int) == tracks@);
        }
    }

    /// Removes `track` where the playlist holds it; the tracks after it move
    /// up one place.
    pub fn remove_track(&mut self, track: i64)
        requires
            old(self)@.no_duplicates(),
        ensures
            final(self)@ == removed(old(self)@, track),
            final(self)@.no_duplicates(),
    {
        match holds(&self.tracks, track) {
            Some(i) => {
                let ghost before = self@;
                proof {
                    assert(before.index_of(track) == i as int) by {
                        assert(before.contains(track));
                        let c = before.index_of(track);
                        assert(before[c] == track);
                        if c != i as int {
                            assert(before[c] == before[i as int]);
                        }
                    }
                }
                self.tracks.remove(i);
                proof {
                    let after = self@;
                    assert forall|a: int, b: int| 0 <= a < after.len() && 0 <= b < after.len() && a != b implies after[a] != after[b] by {
                        let a0 = if a < i { a } else { a + 1 };
                        let b0 = if b < i { b } else { b + 1 };
                        assert(after[a] == before[a0]);
                        assert(after[b] == before[b0]);
                    }
                }
            },
            None => {},
        }
    }

    /// Moves the track at `from` to `to`; the tracks between shift by one.
    /// Nothing happens where `from` equals `to` or either is past the end.
    pub fn move_track(&mut self, from: usize, to: usize)
        requires
            old(self)@.no_duplicates(),
        ensures
            final(self)@ == moved(old(self)@, from as int, to as int),
            final(self)@.no_duplicates(),
    {
        if from == to || from >= self.tracks.len() || to >= self.tracks.len() {
            return;
        }
        let ghost before = self@;
        let track = self.tracks.remove(from);
        let ghost mid = self@;
        self.tracks.insert(to, track);
        proof {
            let after = self@;
            assert(after == before.remove(from as int).insert(to as int, before[from as int]));
            assert forall|a: int, b: int| 0 <= a < mid.len() && 0 <= b < mid.len() && a != b implies mid[a] != mid[b] by {
                let a0 = if a < from { a } else { a + 1 };
                let b0 = if b < from { b } else { b + 1 };
                assert(mid[a] == before[a0]);
                assert(mid[b] == before[b0]);
            }
            assert forall|a: int| 0 <= a < mid.len() implies mid[a] != track by {
                let a0 = if a < from { a } else { a + 1 };
                assert(mid[a] == before[a0]);
            }
            assert forall|a: int, b: int| 0 <= a < after.len() && 0 <= b < after.len() && a != b implies after[a] != after[b] by {
                if a != to && b != to {
                    let a0 = if a < to { a } else { a - 1 };
                    let b0 = if b < to { b } else { b - 1 };
                    assert(after[a] == mid[a0]);
                    assert(after[b] == mid[b0]);
                } else if a == to {
                    let b0 = if b < to { b } else { b - 1 };
                    assert(after[b] == mid[b0]);
                } else {
                    let a0 = if a < to { a } else { a - 1 };
                    assert(after[a] == mid[a0]);
                }
            }
        }
    }
}

/// Liking a track adds it to the liked playlist and unliking removes it.
pub fn set_liked(liked: &mut PlaylistTracks, track: i64, like: bool)
    requires
        old(liked)@.no_duplicates(),
    ensures
        final(liked)@ == if like {
            added(old(liked)@, track)
        } else {
            removed(old(liked)@, track)
        },
        final(liked)@.no_duplicates(),
{
    if like {
        liked.add_track(track);
    } else {
        liked.remove_track(track);
    }
}

} // verus!

verus! {

/// Adding a track that is already there changes nothing.
pub proof fn law_adding_twice_is_adding_once(s: Seq<i64>, track: i64)
    ensures
        added(added(s, track), track) == added(s, track),
{
    if !s.contains(track) {
        assert(s.push(track)[s.len() as int] == track);
    }
}

/// Removing a track undoes adding it.
pub proof fn law_removing_undoes_adding(s: Seq<i64>, track: i64)
    requires
        !s.contains(track),
    ensures
        removed(added(s, track), track) == s,
{
    let t = s.push(track);
    assert(t[s.len() as int] == track);
    assert(t.contains(track));
    let i = t.index_of(track);
    assert(t[i] == track);
    if i < s.len() {
        assert(s[i] == track);
    }
    assert(t.remove(i) =~= s);
}

/// After liking a track it is in the liked playlist, and after unliking it
/// it is not.
pub proof fn law_a_like_is_held_until_unliked(s: Seq<i64>, track: i64)
    requires
        s.no_duplicates(),
    ensures
        added(s, track).contains(track),
        !removed(s, track).contains(track),
{
    if !s.contains(track) {
        assert(s.push(track)[s.len() as int] == track);
    } else {
        let i = s.index_of(track);
        let r = s.remove(i);
        if r.contains(track) {
            let j = choose|j: int| 0 <= j < r.len() && r[j] == track;
            let j0 = if j < i { j } else { j + 1 };
            assert(r[j] == s[j0]);
        }
    }
}

/// Moving a track back to where it was undoes the move.
pub proof fn law_moving_back_undoes_a_move(s: Seq<i64>, from: int, to: int)
    requires
        moves(s, from, to),
    ensures
        moved(moved(s, from, to), to, from) == s,
{
    let m = moved(s, from, to);
    assert(m.len() == s.len());
    assert(m[to] == s[from]);
    assert(m.remove(to) =~= s.remove(from));
    assert(s.remove(from).insert(from, s[from]) =~= s);
}

/// A move keeps every track, each as often as before.
pub proof fn law_a_move_keeps_the_tracks(s: Seq<i64>, from: int, to: int)
    ensures
        moved(s, from, to).to_multiset() == s.to_multiset(),
{
    if moves(s, from, to) {
        broadcast use vstd::multiset::group_multiset_axioms;

        let x = s[from];
        vstd::seq_lib::to_multiset_remove(s, from);
        vstd::seq_lib::to_multiset_insert(s.remove(from), to, x);
        assert(s.contains(x));
        vstd::seq_lib::to_multiset_contains(s, x);
        assert(s.to_multiset().remove(x).insert(x) =~= s.to_multiset());
    }
}

} // verus!
