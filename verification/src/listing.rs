//! What a server listing does to the catalog: which listed songs the
//! catalog binds already, which bindings come back, and which songs arrive
//! new, once each and in the order of their keys.
use vstd::prelude::*;
use crate::adoption::{Descriptor, Tier, WHOLE_FILE};
use crate::models::{RemoteSong, RemoteSyncReport};
use crate::ordering::{
    is_selection, key_lt, lemma_key_irreflexive, lemma_selection_empty, lemma_selection_skip, pick,
    picks_cover, picks_sorted, picks_wanted,
};
use crate::text::{chars_of, same_chars};

verus! {

// ---------------------------------------------------------------------------
// Known bindings
// ---------------------------------------------------------------------------

/// A binding the catalog holds for a key of the listing server.
#[derive(Debug, Clone, PartialEq, Eq)]
pub struct KnownBinding {
    pub key: String,
    pub binding_id: i64,
    pub item_id: i64,
    pub present: bool,
}

/// The binding known for `key`: the last one listed for it, as a map filled
/// from the list in order keeps.
pub open spec fn known_for(known: Seq<KnownBinding>, key: Seq<char>) -> Option<int>
    decreases known.len(),
{
    if known.len() == 0 {
        None
    } else if known.last().key@ == key {
        Some(known.len() - 1)
    } else {
        known_for(known.drop_last(), key)
    }
}

fn find_known(known: &[KnownBinding], key: &Vec<char>) -> (r: Option<usize>)
    ensures
        match r {
            Some(k) => known_for(known@, key@) == Some(k as int) && k < known@.len(),
            None => known_for(known@, key@) is None,
        },
{
    let mut n = known.len();
    assert(known@.take(n as int) =~= known@);
    while n > 0
        invariant
            n <= known@.len(),
            known_for(known@.take(n as int), key@) == known_for(known@, key@),
        decreases n,
    {
        let k = n - 1;
        let other = chars_of(known[k].key.as_str());
        assert(known@.take(n as int).last() == known@[k as int]);
        if same_chars(&other, key) {
            return Some(k);
        }
        assert(known@.take(n as int).drop_last() =~= known@.take(k as int));
        n = k;
    }
    assert(known@.take(0) =~= Seq::<KnownBinding>::empty());
    None
}

/// A listing with no songs from a server whose songs are present is refused:
/// the server is taken to have failed, not to have emptied.
pub fn listing_refused(songs: &[RemoteSong], known: &[KnownBinding]) -> (r: bool)
    ensures
        r == (songs@.len() == 0 && exists|i: int|
            0 <= i < known@.len() && (#[trigger] known@[i]).present),
{
    if songs.len() > 0 {
        return false;
    }
    for i in 0..known.len()
        invariant
            songs@.len() == 0,
            forall|j: int| 0 <= j < i ==> !(#[trigger] known@[j]).present,
    {
        if known[i].present {
            assert(known@[i as int].present);
            return true;
        }
    }
    false
}

// ---------------------------------------------------------------------------
// The plan of a listing
// ---------------------------------------------------------------------------

pub open spec fn is_known(songs: Seq<RemoteSong>, known: Seq<KnownBinding>, i: int) -> bool {
    known_for(known, songs[i].key@) is Some
}

/// The key each listed song is ordered and told apart by.
pub open spec fn song_keys(songs: Seq<RemoteSong>) -> Seq<(Seq<char>, i64)> {
    Seq::new(songs.len(), |i: int| (songs[i].key@, 0i64))
}

/// Which listed songs the catalog does not know yet.
pub open spec fn new_songs(songs: Seq<RemoteSong>, known: Seq<KnownBinding>) -> Seq<bool> {
    Seq::new(songs.len(), |i: int| !is_known(songs, known, i))
}

/// The bindings of the listed songs the catalog knows, in the order of the
/// listing (a song listed twice counts twice).
pub open spec fn seen_spec(songs: Seq<RemoteSong>, known: Seq<KnownBinding>) -> Seq<i64>
    decreases songs.len(),
{
    if songs.len() == 0 {
        Seq::empty()
    } else {
        let before = seen_spec(songs.drop_last(), known);
        match known_for(known, songs.last().key@) {
            Some(k) => before.push(known[k].binding_id),
            None => before,
        }
    }
}

/// How many listed songs bring back a binding that was gone.
pub open spec fn revived_spec(songs: Seq<RemoteSong>, known: Seq<KnownBinding>) -> int
    decreases songs.len(),
{
    if songs.len() == 0 {
        0
    } else {
        let before = revived_spec(songs.drop_last(), known);
        match known_for(known, songs.last().key@) {
            Some(k) => if known[k].present {
                before
            } else {
                before + 1
            },
            None => before,
        }
    }
}

/// What a listing changes before matching: the bindings seen again, how
/// many of them come back, and the songs to match (by index).
pub struct ListingPlan {
    pub seen: Vec<i64>,
    pub revived: usize,
    pub arrivals: Vec<usize>,
}

/// The plan of a listing: the known bindings seen again (in the order of the
/// listing), how many of them come back, and the new songs, each key once
/// (by the first song listed with it) and in the order of the keys.
pub fn plan_listing(songs: &[RemoteSong], known: &[KnownBinding]) -> (r: ListingPlan)
    ensures
        r.seen@ == seen_spec(songs@, known@),
        r.revived == revived_spec(songs@, known@),
        is_selection(song_keys(songs@), new_songs(songs@, known@), r.arrivals@, songs@.len() as int),
{
    let ghost keys = song_keys(songs@);
    let ghost wanted = new_songs(songs@, known@);
    let mut seen: Vec<i64> = Vec::new();
    let mut revived: usize = 0;
    let mut arrivals: Vec<usize> = Vec::new();
    let mut sel_keys: Vec<(Vec<char>, i64)> = Vec::new();
    proof {
        lemma_selection_empty(keys, wanted);
    }
    for i in 0..songs.len()
        invariant
            keys == song_keys(songs@),
            wanted == new_songs(songs@, known@),
            seen@ == seen_spec(songs@.take(i as int), known@),
            revived == revived_spec(songs@.take(i as int), known@),
            revived <= i,
            sel_keys@.len() == arrivals@.len(),
            forall|a: int|
                0 <= a < sel_keys@.len() ==> ((#[trigger] sel_keys@[a]).0@, sel_keys@[a].1)
                    == keys[arrivals@[a] as int],
            is_selection(keys, wanted, arrivals@, i as int),
    {
        let ghost ts = songs@.take(i + 1);
        assert(ts.drop_last() =~= songs@.take(i as int));
        assert(ts.last() == songs@[i as int]);
        let key = chars_of(songs[i].key.as_str());
        match find_known(known, &key) {
            Some(k) => {
                proof {
                    lemma_selection_skip(keys, wanted, arrivals@, i as int);
                }
                seen.push(known[k].binding_id);
                if !known[k].present {
                    revived = revived + 1;
                }
            },
            None => {
                pick(&mut arrivals, &mut sel_keys, key, 0, i, Ghost(keys), Ghost(wanted));
            },
        }
    }
    assert(songs@.take(songs@.len() as int) =~= songs@);
    ListingPlan { seen, revived, arrivals }
}

// ---------------------------------------------------------------------------
// Matching arrivals and the report
// ---------------------------------------------------------------------------

/// What matching knows of a listed song: its tags, its duration, its file
/// when the server gave its size, and the listing server as its source.
pub open spec fn arrival_descriptor_spec(source_id: i64, song: RemoteSong, d: Descriptor) -> bool {
    &&& d.item_id == 0
    &&& d.title@ == song.title@
    &&& d.artist@ == match song.artist {
        Some(a) => a@,
        None => Seq::empty(),
    }
    &&& d.artist_aliases@.len() == song.artist_aliases@.len()
    &&& forall|k: int|
        0 <= k < song.artist_aliases@.len() ==> (#[trigger] d.artist_aliases@[k])@
            == song.artist_aliases@[k]@
    &&& d.album == song.album
    &&& d.duration_ms == song.duration_ms
    &&& d.files@ == match song.size {
        Some(size) => seq![(size, WHOLE_FILE)],
        None => Seq::empty(),
    }
    &&& d.sources@ == seq![source_id]
    &&& !d.live
}

/// A listed song as matching sees it.
pub fn arrival_descriptor(source_id: i64, song: &RemoteSong) -> (d: Descriptor)
    ensures
        arrival_descriptor_spec(source_id, *song, d),
{
    let mut aliases: Vec<String> = Vec::new();
    for k in 0..song.artist_aliases.len()
        invariant
            aliases@.len() == k,
            forall|j: int| 0 <= j < k ==> (#[trigger] aliases@[j])@ == song.artist_aliases@[j]@,
    {
        aliases.push(song.artist_aliases[k].clone());
    }
    let mut files: Vec<(i64, i64)> = Vec::new();
    match song.size {
        Some(size) => files.push((size, WHOLE_FILE)),
        None => {},
    }
    let mut sources: Vec<i64> = Vec::new();
    sources.push(source_id);
    assert(sources@ =~= seq![source_id]);
    assert(files@ =~= match song.size {
        Some(size) => seq![(size, WHOLE_FILE)],
        None => Seq::<(i64, i64)>::empty(),
    });
    Descriptor {
        item_id: 0,
        title: song.title.clone(),
        artist: match &song.artist {
            Some(a) => a.clone(),
            None => String::new(),
        },
        artist_aliases: aliases,
        album: song.album.clone(),
        duration_ms: song.duration_ms,
        files,
        sources,
        live: false,
    }
}

pub open spec fn count_some(a: Seq<Option<(i64, Tier)>>) -> int
    decreases a.len(),
{
    if a.len() == 0 {
        0
    } else {
        count_some(a.drop_last()) + if a.last() is Some {
            1int
        } else {
            0int
        }
    }
}

proof fn lemma_count_some_le(a: Seq<Option<(i64, Tier)>>)
    ensures
        0 <= count_some(a) <= a.len(),
    decreases a.len(),
{
    if a.len() > 0 {
        lemma_count_some_le(a.drop_last());
    }
}

/// The report of a listing: every listed song counts in the total; a new
/// song matched to an item is adopted, one matched to none is added.
pub fn listing_report(
    total: usize,
    was_available: bool,
    revived: usize,
    updated: usize,
    retired: usize,
    assignments: &[Option<(i64, Tier)>],
) -> (r: RemoteSyncReport)
    ensures
        r.total == total,
        r.became_available == !was_available,
        r.revived == revived,
        r.updated == updated,
        r.retired == retired,
        r.adopted == count_some(assignments@),
        r.added == assignments@.len() - count_some(assignments@),
        r.added + r.adopted == assignments@.len(),
{
    let mut adopted: usize = 0;
    let mut added: usize = 0;
    for i in 0..assignments.len()
        invariant
            adopted == count_some(assignments@.take(i as int)),
            added == i - count_some(assignments@.take(i as int)),
    {
        proof {
            assert(assignments@.take(i + 1).drop_last() =~= assignments@.take(i as int));
            lemma_count_some_le(assignments@.take(i as int));
        }
        match assignments[i] {
            Some(_) => adopted = adopted + 1,
            None => added = added + 1,
        }
    }
    assert(assignments@.take(assignments@.len() as int) =~= assignments@);
    RemoteSyncReport {
        total,
        added,
        adopted,
        retired,
        updated,
        revived,
        became_available: !was_available,
    }
}

} // verus!

verus! {

/// The bindings a listing retires: those of the server that were present and
/// that the listing did not see, in the order they are known.
pub open spec fn retired_spec(known: Seq<KnownBinding>, seen: Seq<i64>) -> Seq<i64>
    decreases known.len(),
{
    if known.len() == 0 {
        seq![]
    } else {
        let rest = retired_spec(known.drop_last(), seen);
        let k = known.last();
        if k.present && !seen.contains(k.binding_id) {
            rest.push(k.binding_id)
        } else {
            rest
        }
    }
}

/// The bindings a listing retires (see `retired_spec`).
pub fn retired_bindings(known: &[KnownBinding], seen: &[i64]) -> (r: Vec<i64>)
    ensures
        r@ == retired_spec(known@, seen@),
{
    let mut r: Vec<i64> = Vec::new();
    for i in 0..known.len()
        invariant
            r@ == retired_spec(known@.take(i as int), seen@),
    {
        proof {
            assert(known@.take(i + 1).drop_last() == known@.take(i as int));
            assert(known@.take(i + 1).last() == known@[i as int]);
        }
        if known[i].present {
            let id = known[i].binding_id;
            let mut listed = false;
            for j in 0..seen.len()
                invariant
                    listed == exists|m: int| 0 <= m < j && seen@[m] == id,
            {
                if seen[j] == id {
                    listed = true;
                }
            }
            proof {
                if listed {
                    let m = choose|m: int| 0 <= m < seen@.len() && seen@[m] == id;
                    assert(seen@.contains(id));
                }
            }
            if !listed {
                r.push(id);
            }
        }
    }
    proof {
        assert(known@.take(known@.len() as int) == known@);
    }
    r
}


// ---------------------------------------------------------------------------
// The bindings once a listing is taken in
// ---------------------------------------------------------------------------

/// The bindings of the server once a listing is taken in: a known binding is
/// present exactly when the listing saw it (seen ones come back, the others
/// are retired), and each arrival gets a binding of its own under its key,
/// whose binding id and item id `new_bindings` gives.
pub open spec fn known_after(
    songs: Seq<RemoteSong>,
    known: Seq<KnownBinding>,
    arrivals: Seq<usize>,
    new_bindings: Seq<(i64, i64)>,
) -> Seq<KnownBinding> {
    let seen = seen_spec(songs, known);
    Seq::new(
        known.len(),
        |i: int|
            KnownBinding {
                key: known[i].key,
                binding_id: known[i].binding_id,
                item_id: known[i].item_id,
                present: seen.contains(known[i].binding_id),
            },
    ) + Seq::new(
        arrivals.len(),
        |j: int|
            KnownBinding {
                key: songs[arrivals[j] as int].key,
                binding_id: new_bindings[j].0,
                item_id: new_bindings[j].1,
                present: true,
            },
    )
}

/// The binding a listed song is seen by, if the catalog knows its key.
spec fn seen_id(songs: Seq<RemoteSong>, known: Seq<KnownBinding>, i: int) -> Option<i64> {
    match known_for(known, songs[i].key@) {
        Some(k) => Some(known[k].binding_id),
        None => None,
    }
}

/// Whether a listed song brings back a binding that was gone.
spec fn revives(songs: Seq<RemoteSong>, known: Seq<KnownBinding>, i: int) -> bool {
    match known_for(known, songs[i].key@) {
        Some(k) => !known[k].present,
        None => false,
    }
}

proof fn lemma_known_for(known: Seq<KnownBinding>, key: Seq<char>)
    ensures
        match known_for(known, key) {
            Some(k) => 0 <= k < known.len() && known[k].key@ == key && forall|j: int|
                k < j < known.len() ==> (#[trigger] known[j]).key@ != key,
            None => forall|j: int| 0 <= j < known.len() ==> (#[trigger] known[j]).key@ != key,
        },
    decreases known.len(),
{
    if known.len() > 0 {
        let rest = known.drop_last();
        lemma_known_for(rest, key);
        assert forall|j: int| 0 <= j < rest.len() implies rest[j] == known[j] by {}
    }
}

proof fn lemma_known_for_at(known: Seq<KnownBinding>, key: Seq<char>, k: int)
    requires
        0 <= k < known.len(),
        known[k].key@ == key,
        forall|j: int| k < j < known.len() ==> (#[trigger] known[j]).key@ != key,
    ensures
        known_for(known, key) == Some(k),
{
    lemma_known_for(known, key);
    match known_for(known, key) {
        Some(m) => {
            if m < k {
                assert(known[k].key@ != key);
            } else if m > k {
                assert(known[m].key@ != key);
            }
        },
        None => {
            assert(known[k].key@ != key);
        },
    }
}

proof fn lemma_seen(songs: Seq<RemoteSong>, known: Seq<KnownBinding>)
    ensures
        forall|i: int|
            0 <= i < songs.len() && (#[trigger] seen_id(songs, known, i)) is Some ==> seen_spec(
                songs,
                known,
            ).contains(seen_id(songs, known, i)->0),
        forall|x: i64|
            #![trigger seen_spec(songs, known).contains(x)]
            seen_spec(songs, known).contains(x) ==> exists|i: int|
                0 <= i < songs.len() && seen_id(songs, known, i) == Some(x),
    decreases songs.len(),
{
    let seen = seen_spec(songs, known);
    if songs.len() > 0 {
        let rest = songs.drop_last();
        let before = seen_spec(rest, known);
        let last = songs.len() - 1;
        lemma_seen(rest, known);
        assert forall|i: int| 0 <= i < rest.len() implies seen_id(rest, known, i) == seen_id(
            songs,
            known,
            i,
        ) by {
            assert(rest[i] == songs[i]);
        }
        assert(songs.last() == songs[last]);
        assert forall|i: int| 0 <= i < songs.len() && (#[trigger] seen_id(songs, known, i)) is Some implies seen.contains(
            seen_id(songs, known, i)->0,
        ) by {
            if i < last {
                assert(seen_id(rest, known, i) == seen_id(songs, known, i));
                let w = choose|w: int| 0 <= w < before.len() && before[w] == seen_id(rest, known, i)->0;
                assert(seen[w] == before[w]);
            } else {
                assert(seen[seen.len() - 1] == seen_id(songs, known, i)->0);
            }
        }
        assert forall|x: i64| seen.contains(x) implies exists|i: int|
            0 <= i < songs.len() && seen_id(songs, known, i) == Some(x) by {
            let w = choose|w: int| 0 <= w < seen.len() && seen[w] == x;
            if w < before.len() {
                assert(before[w] == x);
                assert(before.contains(x));
                let i = choose|i: int| 0 <= i < rest.len() && seen_id(rest, known, i) == Some(x);
                assert(seen_id(songs, known, i) == Some(x));
            } else {
                assert(seen_id(songs, known, last) == Some(x));
            }
        }
    } else {
        assert forall|x: i64| !seen.contains(x) by {}
    }
}

proof fn lemma_nothing_revived(songs: Seq<RemoteSong>, known: Seq<KnownBinding>)
    requires
        forall|i: int| 0 <= i < songs.len() ==> !#[trigger] revives(songs, known, i),
    ensures
        revived_spec(songs, known) == 0,
    decreases songs.len(),
{
    if songs.len() > 0 {
        let rest = songs.drop_last();
        assert forall|i: int| 0 <= i < rest.len() implies !#[trigger] revives(rest, known, i) by {
            assert(rest[i] == songs[i]);
            assert(!revives(songs, known, i));
        }
        lemma_nothing_revived(rest, known);
        assert(!revives(songs, known, songs.len() - 1));
        assert(songs.last() == songs[songs.len() - 1]);
    }
}

proof fn lemma_nothing_retired(known: Seq<KnownBinding>, seen: Seq<i64>)
    requires
        forall|j: int|
            0 <= j < known.len() && (#[trigger] known[j]).present ==> seen.contains(
                known[j].binding_id,
            ),
    ensures
        retired_spec(known, seen) == Seq::<i64>::empty(),
    decreases known.len(),
{
    if known.len() > 0 {
        let rest = known.drop_last();
        assert forall|j: int| 0 <= j < rest.len() && (#[trigger] rest[j]).present implies seen.contains(
            rest[j].binding_id,
        ) by {
            assert(rest[j] == known[j]);
        }
        lemma_nothing_retired(rest, seen);
        assert(known.last() == known[known.len() - 1]);
    }
}

/// What a selection of arrivals tells of their keys: none is known, no two
/// are the same, and every unknown listed key is among them.
proof fn lemma_arrival_keys(songs: Seq<RemoteSong>, known: Seq<KnownBinding>, arrivals: Seq<usize>)
    requires
        is_selection(song_keys(songs), new_songs(songs, known), arrivals, songs.len() as int),
    ensures
        forall|a: int|
            0 <= a < arrivals.len() ==> (#[trigger] arrivals[a]) < songs.len() && known_for(
                known,
                songs[arrivals[a] as int].key@,
            ) is None,
        forall|a: int, b: int|
            0 <= a < arrivals.len() && 0 <= b < arrivals.len() && a != b ==> songs[#[trigger] arrivals[a] as int].key@
                != songs[#[trigger] arrivals[b] as int].key@,
        forall|i: int|
            0 <= i < songs.len() && known_for(known, (#[trigger] songs[i]).key@) is None ==> exists|a: int|
                0 <= a < arrivals.len() && songs[arrivals[a] as int].key@ == songs[i].key@,
{
    let keys = song_keys(songs);
    let wanted = new_songs(songs, known);
    reveal(picks_wanted);
    reveal(picks_sorted);
    reveal(picks_cover);
    assert forall|a: int| 0 <= a < arrivals.len() implies (#[trigger] arrivals[a]) < songs.len()
        && known_for(known, songs[arrivals[a] as int].key@) is None by {
        assert(wanted[arrivals[a] as int]);
    }
    assert forall|a: int, b: int|
        0 <= a < arrivals.len() && 0 <= b < arrivals.len() && a != b implies songs[#[trigger] arrivals[a] as int].key@
            != songs[#[trigger] arrivals[b] as int].key@ by {
        let ka = keys[arrivals[a] as int];
        let kb = keys[arrivals[b] as int];
        if a < b {
            assert(key_lt(ka, kb));
        } else {
            assert(key_lt(kb, ka));
        }
        lemma_key_irreflexive(ka);
    }
    assert forall|i: int| 0 <= i < songs.len() && known_for(known, (#[trigger] songs[i]).key@) is None implies exists|a: int|
        0 <= a < arrivals.len() && songs[arrivals[a] as int].key@ == songs[i].key@ by {
        assert(wanted[i]);
        let a = choose|a: int| 0 <= a < arrivals.len() && keys[arrivals[a] as int] == keys[i];
        assert(keys[arrivals[a] as int].0 == songs[arrivals[a] as int].key@);
    }
}

/// Where the bindings after a listing put an arrival's key: on its own
/// new binding.
proof fn lemma_after_arrival(
    songs: Seq<RemoteSong>,
    known: Seq<KnownBinding>,
    arrivals: Seq<usize>,
    new_bindings: Seq<(i64, i64)>,
    a: int,
)
    requires
        is_selection(song_keys(songs), new_songs(songs, known), arrivals, songs.len() as int),
        new_bindings.len() == arrivals.len(),
        0 <= a < arrivals.len(),
    ensures
        known_for(known_after(songs, known, arrivals, new_bindings), songs[arrivals[a] as int].key@)
            == Some(known.len() + a),
{
    let after = known_after(songs, known, arrivals, new_bindings);
    let n = known.len() as int;
    let key = songs[arrivals[a] as int].key@;
    lemma_arrival_keys(songs, known, arrivals);
    assert(after[n + a].key@ == key);
    assert forall|j: int| n + a < j < after.len() implies (#[trigger] after[j]).key@ != key by {
        let b = j - n;
        assert(after[j].key@ == songs[arrivals[b] as int].key@);
        assert(arrivals[a] == arrivals[a] && arrivals[b] == arrivals[b]);
    }
    lemma_known_for_at(after, key, n + a);
}

/// A key the catalog knew keeps its binding once a listing is taken in.
proof fn lemma_after_known(
    songs: Seq<RemoteSong>,
    known: Seq<KnownBinding>,
    arrivals: Seq<usize>,
    new_bindings: Seq<(i64, i64)>,
    key: Seq<char>,
)
    requires
        is_selection(song_keys(songs), new_songs(songs, known), arrivals, songs.len() as int),
        new_bindings.len() == arrivals.len(),
        known_for(known, key) is Some,
    ensures
        known_for(known_after(songs, known, arrivals, new_bindings), key) == known_for(known, key),
{
    let after = known_after(songs, known, arrivals, new_bindings);
    let n = known.len() as int;
    let k = known_for(known, key)->0;
    lemma_known_for(known, key);
    lemma_arrival_keys(songs, known, arrivals);
    assert(after[k].key@ == key);
    assert forall|j: int| k < j < after.len() implies (#[trigger] after[j]).key@ != key by {
        if j < n {
            assert(after[j].key@ == known[j].key@);
        } else {
            let b = j - n;
            let other = songs[arrivals[b] as int].key@;
            assert(after[j].key@ == other);
            assert(known_for(known, other) is None);
            lemma_known_for(known, other);
            assert(known[k].key@ != other);
        }
    }
    lemma_known_for_at(after, key, k);
}

/// Where a listed key stands once the listing is taken in: on the binding it
/// had, or on the new binding of an arrival with that key.
proof fn lemma_after_listed(
    songs: Seq<RemoteSong>,
    known: Seq<KnownBinding>,
    arrivals: Seq<usize>,
    new_bindings: Seq<(i64, i64)>,
    i: int,
) -> (a: int)
    requires
        is_selection(song_keys(songs), new_songs(songs, known), arrivals, songs.len() as int),
        new_bindings.len() == arrivals.len(),
        0 <= i < songs.len(),
    ensures
        known_for(known, songs[i].key@) is Some ==> known_for(
            known_after(songs, known, arrivals, new_bindings),
            songs[i].key@,
        ) == known_for(known, songs[i].key@),
        known_for(known, songs[i].key@) is None ==> 0 <= a < arrivals.len() && known_for(
            known_after(songs, known, arrivals, new_bindings),
            songs[i].key@,
        ) == Some(known.len() + a),
{
    let key = songs[i].key@;
    if known_for(known, key) is Some {
        lemma_after_known(songs, known, arrivals, new_bindings, key);
        0
    } else {
        lemma_arrival_keys(songs, known, arrivals);
        assert(known_for(known, songs[i].key@) is None);
        let a = choose|a: int| 0 <= a < arrivals.len() && songs[arrivals[a] as int].key@ == key;
        lemma_after_arrival(songs, known, arrivals, new_bindings, a);
        a
    }
}

proof fn lemma_after_all_known(
    songs: Seq<RemoteSong>,
    known: Seq<KnownBinding>,
    arrivals: Seq<usize>,
    new_bindings: Seq<(i64, i64)>,
)
    requires
        is_selection(song_keys(songs), new_songs(songs, known), arrivals, songs.len() as int),
        new_bindings.len() == arrivals.len(),
    ensures
        forall|i: int|
            0 <= i < songs.len() ==> #[trigger] is_known(
                songs,
                known_after(songs, known, arrivals, new_bindings),
                i,
            ),
        forall|i: int|
            0 <= i < songs.len() ==> !#[trigger] revives(
                songs,
                known_after(songs, known, arrivals, new_bindings),
                i,
            ),
{
    let after = known_after(songs, known, arrivals, new_bindings);
    let seen = seen_spec(songs, known);
    lemma_seen(songs, known);
    assert forall|i: int| 0 <= i < songs.len() implies #[trigger] is_known(songs, after, i) && !revives(
        songs,
        after,
        i,
    ) by {
        let a = lemma_after_listed(songs, known, arrivals, new_bindings, i);
        lemma_known_for(known, songs[i].key@);
        match known_for(known, songs[i].key@) {
            Some(k) => {
                assert(seen_id(songs, known, i) == Some(known[k].binding_id));
                assert(seen.contains(known[k].binding_id));
                assert(after[k].present);
            },
            None => {
                assert(after[known.len() + a].present);
            },
        }
    }
    assert forall|i: int| 0 <= i < songs.len() implies !#[trigger] revives(songs, after, i) by {
        assert(is_known(songs, after, i));
    }
}

proof fn lemma_after_all_seen(
    songs: Seq<RemoteSong>,
    known: Seq<KnownBinding>,
    arrivals: Seq<usize>,
    new_bindings: Seq<(i64, i64)>,
)
    requires
        is_selection(song_keys(songs), new_songs(songs, known), arrivals, songs.len() as int),
        new_bindings.len() == arrivals.len(),
    ensures
        forall|j: int|
            0 <= j < known_after(songs, known, arrivals, new_bindings).len() && (#[trigger] known_after(
                songs,
                known,
                arrivals,
                new_bindings,
            )[j]).present ==> seen_spec(songs, known_after(songs, known, arrivals, new_bindings)).contains(
                known_after(songs, known, arrivals, new_bindings)[j].binding_id,
            ),
{
    let after = known_after(songs, known, arrivals, new_bindings);
    let n = known.len() as int;
    let seen = seen_spec(songs, known);
    let seen_again = seen_spec(songs, after);
    lemma_seen(songs, known);
    lemma_seen(songs, after);
    assert forall|j: int| 0 <= j < after.len() && (#[trigger] after[j]).present implies seen_again.contains(
        after[j].binding_id,
    ) by {
        if j < n {
            let id = known[j].binding_id;
            assert(seen.contains(id));
            let i = choose|i: int| 0 <= i < songs.len() && seen_id(songs, known, i) == Some(id);
            lemma_after_listed(songs, known, arrivals, new_bindings, i);
            lemma_known_for(known, songs[i].key@);
            let k = known_for(known, songs[i].key@)->0;
            assert(known[k].binding_id == id);
            assert(after[k].binding_id == known[k].binding_id);
            assert(known_for(after, songs[i].key@) == Some(k));
            assert(seen_id(songs, after, i) == Some(id));
        } else {
            let a = j - n;
            let i = arrivals[a] as int;
            lemma_arrival_keys(songs, known, arrivals);
            lemma_after_arrival(songs, known, arrivals, new_bindings, a);
            assert(seen_id(songs, after, i) == Some(after[j].binding_id));
        }
    }
}

/// Taking in the same listing again, right after it was taken in, changes
/// nothing: every listed song is known, none brings a binding back, none
/// arrives, and no binding is retired.
pub proof fn law_a_repeated_listing_changes_nothing(
    songs: Seq<RemoteSong>,
    known: Seq<KnownBinding>,
    arrivals: Seq<usize>,
    new_bindings: Seq<(i64, i64)>,
)
    requires
        is_selection(song_keys(songs), new_songs(songs, known), arrivals, songs.len() as int),
        new_bindings.len() == arrivals.len(),
    ensures
        forall|i: int|
            0 <= i < songs.len() ==> is_known(
                songs,
                known_after(songs, known, arrivals, new_bindings),
                i,
            ),
        revived_spec(songs, known_after(songs, known, arrivals, new_bindings)) == 0,
        forall|again: Seq<usize>|
            is_selection(
                song_keys(songs),
                new_songs(songs, known_after(songs, known, arrivals, new_bindings)),
                again,
                songs.len() as int,
            ) ==> again.len() == 0,
        retired_spec(
            known_after(songs, known, arrivals, new_bindings),
            seen_spec(songs, known_after(songs, known, arrivals, new_bindings)),
        ) == Seq::<i64>::empty(),
{
    let after = known_after(songs, known, arrivals, new_bindings);
    lemma_after_all_known(songs, known, arrivals, new_bindings);
    lemma_nothing_revived(songs, after);
    let wanted = new_songs(songs, after);
    assert forall|again: Seq<usize>|
        is_selection(song_keys(songs), wanted, again, songs.len() as int) implies again.len() == 0 by {
        reveal(picks_wanted);
        if again.len() > 0 {
            assert(wanted[again[0] as int]);
            assert(!revives(songs, after, again[0] as int));
        }
    }
    lemma_after_all_seen(songs, known, arrivals, new_bindings);
    lemma_nothing_retired(after, seen_spec(songs, after));
}

} // verus!

verus! {

// ---------------------------------------------------------------------------
// Whether a listed song changes its stored row
// ---------------------------------------------------------------------------

/// What the catalog stores of a listed song and tells a change by.
#[derive(Debug, Clone, PartialEq, Eq, Default)]
pub struct RemoteTrackRow {
    pub title: String,
    pub artist: Option<String>,
    pub album: Option<String>,
    pub album_artist: Option<String>,
    pub track_number: Option<u32>,
    pub disc_number: Option<u32>,
    pub year: Option<i32>,
    pub genre: Option<String>,
    pub duration_ms: Option<i64>,
    pub suffix: Option<String>,
    pub content_type: Option<String>,
    pub bitrate: Option<u32>,
    pub cover_hash: Option<String>,
}

pub open spec fn text_view(t: Option<String>) -> Option<Seq<char>> {
    match t {
        Some(s) => Some(s@),
        None => None,
    }
}

/// Whether the song differs from the stored row in any field the row keeps
/// (the file size and the cover key are not among them).
pub open spec fn row_differs(row: RemoteTrackRow, song: RemoteSong) -> bool {
    ||| row.title@ != song.title@
    ||| text_view(row.artist) != text_view(song.artist)
    ||| text_view(row.album) != text_view(song.album)
    ||| text_view(row.album_artist) != text_view(song.album_artist)
    ||| row.track_number != song.track_number
    ||| row.disc_number != song.disc_number
    ||| row.year != song.year
    ||| text_view(row.genre) != text_view(song.genre)
    ||| row.duration_ms != song.duration_ms
    ||| text_view(row.suffix) != text_view(song.suffix)
    ||| text_view(row.content_type) != text_view(song.content_type)
    ||| row.bitrate != song.bitrate
    ||| text_view(row.cover_hash) != text_view(song.cover_hash)
}

/// Whether writing the song changes what is stored: there is no row yet, or
/// the row differs from the song.
pub open spec fn row_changed(stored: Option<RemoteTrackRow>, song: RemoteSong) -> bool {
    match stored {
        None => true,
        Some(row) => row_differs(row, song),
    }
}

/// The row stored for a song.
pub open spec fn row_of(song: RemoteSong) -> RemoteTrackRow {
    RemoteTrackRow {
        title: song.title,
        artist: song.artist,
        album: song.album,
        album_artist: song.album_artist,
        track_number: song.track_number,
        disc_number: song.disc_number,
        year: song.year,
        genre: song.genre,
        duration_ms: song.duration_ms,
        suffix: song.suffix,
        content_type: song.content_type,
        bitrate: song.bitrate,
        cover_hash: song.cover_hash,
    }
}

fn same_text(a: &Option<String>, b: &Option<String>) -> (r: bool)
    ensures
        r == (text_view(*a) == text_view(*b)),
{
    match (a, b) {
        (Some(x), Some(y)) => *x == *y,
        (None, None) => true,
        _ => false,
    }
}

fn same_u32(a: Option<u32>, b: Option<u32>) -> (r: bool)
    ensures
        r == (a == b),
{
    match (a, b) {
        (Some(x), Some(y)) => x == y,
        (None, None) => true,
        _ => false,
    }
}

fn same_i32(a: Option<i32>, b: Option<i32>) -> (r: bool)
    ensures
        r == (a == b),
{
    match (a, b) {
        (Some(x), Some(y)) => x == y,
        (None, None) => true,
        _ => false,
    }
}

fn same_i64(a: Option<i64>, b: Option<i64>) -> (r: bool)
    ensures
        r == (a == b),
{
    match (a, b) {
        (Some(x), Some(y)) => x == y,
        (None, None) => true,
        _ => false,
    }
}

/// Whether writing `song` over the `stored` row changes it (see
/// `row_changed`); a listing counts such a song as updated.
pub fn remote_row_changed(stored: &Option<RemoteTrackRow>, song: &RemoteSong) -> (r: bool)
    ensures
        r == row_changed(*stored, *song),
{
    match stored {
        None => true,
        Some(row) => {
            !(row.title == song.title && same_text(&row.artist, &song.artist) && same_text(
                &row.album,
                &song.album,
            ) && same_text(&row.album_artist, &song.album_artist) && same_u32(
                row.track_number,
                song.track_number,
            ) && same_u32(row.disc_number, song.disc_number) && same_i32(row.year, song.year)
                && same_text(&row.genre, &song.genre) && same_i64(row.duration_ms, song.duration_ms)
                && same_text(&row.suffix, &song.suffix) && same_text(
                &row.content_type,
                &song.content_type,
            ) && same_u32(row.bitrate, song.bitrate) && same_text(&row.cover_hash, &song.cover_hash))
        },
    }
}

/// A song listed again over the row it was stored as changes nothing, so a
/// listing repeated right after it was taken in counts no song as updated.
pub proof fn law_a_stored_song_reads_unchanged(song: RemoteSong)
    ensures
        !row_changed(Some(row_of(song)), song),
{
}

/// A song leaves its stored row as it is exactly when the row already holds
/// its title, artist, album, album artist, track and disc numbers, year,
/// genre, duration, suffix, content type, bitrate and cover hash; a song with
/// no row yet always writes one. (Its size and cover key are not compared.)
pub proof fn law_a_row_changes_when_a_kept_field_differs(row: RemoteTrackRow, song: RemoteSong)
    ensures
        !row_changed(Some(row), song) <==> (row.title@ == song.title@ && text_view(row.artist)
            == text_view(song.artist) && text_view(row.album) == text_view(song.album) && text_view(
            row.album_artist,
        ) == text_view(song.album_artist) && row.track_number == song.track_number
            && row.disc_number == song.disc_number && row.year == song.year && text_view(row.genre)
            == text_view(song.genre) && row.duration_ms == song.duration_ms && text_view(row.suffix)
            == text_view(song.suffix) && text_view(row.content_type) == text_view(song.content_type)
            && row.bitrate == song.bitrate && text_view(row.cover_hash) == text_view(
            song.cover_hash,
        )),
        row_changed(None, song),
{
}

} // verus!
