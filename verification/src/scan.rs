//! The decisions of a folder scan: what a scanned file is stored as, what
//! becomes of a file the scan sees, and which stored copy a catalog row
//! comes from.
use vstd::prelude::*;
use crate::adoption::Descriptor;
use crate::catalog::{
    fallback_title, fallback_title_from_path, file_piece, piece, root_index, source_for_path,
    Identity, LocalRoot, Occupancy, PLACEHOLDER_SOURCE_ID, files_of, occupying_sources,
};
use crate::models::{NewTrack, ScanTrack};
use crate::ordering::{is_selection, lemma_selection_empty, pick};

verus! {

// ---------------------------------------------------------------------------
// What a scanned file is stored as
// ---------------------------------------------------------------------------

/// The title a track is stored under: its tag, or the stem of its file name.
pub open spec fn title_of_spec(title: Option<String>, path: Seq<char>) -> Seq<char> {
    match title {
        Some(t) => t@,
        None => fallback_title(path),
    }
}

/// The title a scanned track is stored under.
pub fn scan_title(track: &ScanTrack) -> (r: String)
    ensures
        r@ == title_of_spec(track.title, track.path@),
{
    match &track.title {
        Some(t) => t.clone(),
        None => fallback_title_from_path(track.path.as_str()),
    }
}

/// Where in its file a scanned track starts: its offset, or 0.
pub open spec fn start_offset_spec(track: ScanTrack) -> i64 {
    match track.start_offset_ms {
        Some(ms) => ms as i64,
        None => 0,
    }
}

pub fn scan_start_offset(track: &ScanTrack) -> (r: i64)
    ensures
        r == start_offset_spec(*track),
{
    match track.start_offset_ms {
        Some(ms) => ms as i64,
        None => 0,
    }
}

/// The source a local path belongs to.
pub open spec fn source_of(roots: Seq<LocalRoot>, path: Seq<char>) -> i64 {
    match root_index(roots, path) {
        Some(i) => roots[i].source_id,
        None => PLACEHOLDER_SOURCE_ID,
    }
}

/// What matching knows of a scanned file: its tags (the first artist as the
/// credit, the others as aliases), its duration, its file piece when its size
/// is known, and the folder that holds it as its source.
pub open spec fn scan_descriptor_spec(
    track: ScanTrack,
    roots: Seq<LocalRoot>,
    d: Descriptor,
) -> bool {
    &&& d.item_id == 0
    &&& d.title@ == title_of_spec(track.title, track.path@)
    &&& d.artist@ == if track.artist_names@.len() > 0 {
        track.artist_names@[0]@
    } else {
        Seq::empty()
    }
    &&& d.artist_aliases@.len() == if track.artist_names@.len() > 0 {
        track.artist_names@.len() - 1
    } else {
        0
    }
    &&& forall|k: int|
        0 <= k < d.artist_aliases@.len() ==> (#[trigger] d.artist_aliases@[k])@
            == track.artist_names@[k + 1]@
    &&& d.album == track.album_title
    &&& d.duration_ms == match track.duration_ms {
        Some(ms) => Some(ms as i64),
        None => None::<i64>,
    }
    &&& d.files@ == match track.file_size {
        Some(size) => seq![(size as i64, piece(track.is_cue, start_offset_spec(track)))],
        None => Seq::empty(),
    }
    &&& d.sources@ == seq![source_of(roots, track.path@)]
    &&& !d.live
}

/// A scanned file as matching sees it.
pub fn scan_descriptor(track: &ScanTrack, roots: &[LocalRoot]) -> (d: Descriptor)
    ensures
        scan_descriptor_spec(*track, roots@, d),
{
    let n = track.artist_names.len();
    let mut aliases: Vec<String> = Vec::new();
    let mut k: usize = 1;
    while k < n
        invariant
            n == track.artist_names@.len(),
            1 <= k,
            k <= n || k == 1,
            aliases@.len() == k - 1,
            forall|j: int| 0 <= j < k - 1 ==> (#[trigger] aliases@[j])@ == track.artist_names@[j
                + 1]@,
        decreases n - k,
    {
        aliases.push(track.artist_names[k].clone());
        k = k + 1;
    }
    assert(n > 0 ==> k == n);
    let artist = if n > 0 {
        track.artist_names[0].clone()
    } else {
        String::new()
    };
    let mut files: Vec<(i64, i64)> = Vec::new();
    match track.file_size {
        Some(size) => files.push((size as i64, file_piece(track.is_cue, scan_start_offset(track)))),
        None => {},
    }
    let mut sources: Vec<i64> = Vec::new();
    sources.push(source_for_path(roots, track.path.as_str()));
    assert(sources@ =~= seq![source_of(roots@, track.path@)]);
    assert(files@ =~= match track.file_size {
        Some(size) => seq![(size as i64, piece(track.is_cue, start_offset_spec(*track)))],
        None => Seq::<(i64, i64)>::empty(),
    });
    Descriptor {
        item_id: 0,
        title: scan_title(track),
        artist,
        artist_aliases: aliases,
        album: track.album_title.clone(),
        duration_ms: match track.duration_ms {
            Some(ms) => Some(ms as i64),
            None => None,
        },
        files,
        sources,
        live: false,
    }
}

/// The values a track row is stored with.
#[derive(Clone, Debug, PartialEq, Eq)]
pub struct TrackRow {
    pub title: String,
    pub track_number: Option<i64>,
    pub disc_number: i64,
    pub duration_ms: Option<i64>,
    pub start_offset_ms: i64,
}

/// The row of a scanned track: its title, its number, its disc (1 when
/// untagged), its duration and where in its file it starts.
pub fn scan_row(track: &ScanTrack) -> (r: TrackRow)
    ensures
        r.title@ == title_of_spec(track.title, track.path@),
        r.track_number == match track.track_number {
            Some(n) => Some(n as i64),
            None => None::<i64>,
        },
        r.disc_number == match track.disc_number {
            Some(n) => n as i64,
            None => 1,
        },
        r.duration_ms == match track.duration_ms {
            Some(ms) => Some(ms as i64),
            None => None::<i64>,
        },
        r.start_offset_ms == start_offset_spec(*track),
{
    TrackRow {
        title: scan_title(track),
        track_number: match track.track_number {
            Some(n) => Some(n as i64),
            None => None,
        },
        disc_number: match track.disc_number {
            Some(n) => n as i64,
            None => 1,
        },
        duration_ms: match track.duration_ms {
            Some(ms) => Some(ms as i64),
            None => None,
        },
        start_offset_ms: scan_start_offset(track),
    }
}

/// The row of a track added or updated one at a time. Numbers are stored as
/// the database's 32-bit integers, wrapping as a cast does.
pub fn new_track_row(track: &NewTrack) -> (r: TrackRow)
    ensures
        r.title@ == title_of_spec(track.title, track.path@),
        r.track_number == match track.track_number {
            Some(n) => Some((n as i32) as i64),
            None => None::<i64>,
        },
        r.disc_number == (match track.disc_number {
            Some(n) => n,
            None => 1,
        } as i32) as i64,
        r.duration_ms == match track.duration_ms {
            Some(ms) => Some(ms as i64),
            None => None::<i64>,
        },
        r.start_offset_ms == (match track.start_offset_ms {
            Some(ms) => ms,
            None => 0,
        } as i32) as i64,
{
    let title = match &track.title {
        Some(t) => t.clone(),
        None => fallback_title_from_path(track.path.as_str()),
    };
    let disc: u32 = match track.disc_number {
        Some(n) => n,
        None => 1,
    };
    let offset: u64 = match track.start_offset_ms {
        Some(ms) => ms,
        None => 0,
    };
    TrackRow {
        title,
        track_number: match track.track_number {
            Some(n) => Some((n as i32) as i64),
            None => None,
        },
        disc_number: (disc as i32) as i64,
        duration_ms: match track.duration_ms {
            Some(ms) => Some(ms as i64),
            None => None,
        },
        start_offset_ms: (offset as i32) as i64,
    }
}

// ---------------------------------------------------------------------------
// What becomes of a file the scan sees
// ---------------------------------------------------------------------------

/// What a scan does with a file.
#[derive(Clone, Copy, Debug, PartialEq, Eq, Structural)]
pub enum InsertAction {
    /// Seen already in this scan.
    Skip,
    /// New to the catalog while arrivals are collected: match it later.
    Buffer,
    /// Its binding's item was already placed from this folder by another
    /// file: drop the binding and give the file an item of its own.
    Remint { binding_id: i64 },
    /// Known: mark its binding present and keep its item.
    Refresh { binding_id: i64, item_id: i64 },
    /// New: give it an item of its own.
    Mint,
}

/// The decision for a file: `seen` tells whether the scan met the same file
/// piece before, `binding` is the catalog's binding of it (id, item),
/// `collecting` whether arrivals are being collected, and `placed` whether
/// the binding's item was already placed from the file's folder.
pub open spec fn insert_action_spec(
    seen: bool,
    binding: Option<(i64, i64)>,
    collecting: bool,
    placed: bool,
) -> InsertAction {
    if seen {
        InsertAction::Skip
    } else {
        match binding {
            None => if collecting {
                InsertAction::Buffer
            } else {
                InsertAction::Mint
            },
            Some((binding_id, item_id)) => if placed {
                InsertAction::Remint { binding_id }
            } else {
                InsertAction::Refresh { binding_id, item_id }
            },
        }
    }
}

pub fn insert_action(seen: bool, binding: Option<(i64, i64)>, collecting: bool, placed: bool) -> (r:
    InsertAction)
    ensures
        r == insert_action_spec(seen, binding, collecting, placed),
{
    if seen {
        return InsertAction::Skip;
    }
    match binding {
        None => if collecting {
            InsertAction::Buffer
        } else {
            InsertAction::Mint
        },
        Some((binding_id, item_id)) => if placed {
            InsertAction::Remint { binding_id }
        } else {
            InsertAction::Refresh { binding_id, item_id }
        },
    }
}

/// Which copy a catalog row comes from.
#[derive(Clone, Copy, Debug, PartialEq, Eq, Structural)]
pub enum PlaceAction {
    /// No copy wrote the row yet: write it.
    Write,
    /// A copy of a later folder wrote it: replace it by this one.
    Rewrite,
    /// A copy of this or an earlier folder wrote it: keep it.
    Keep,
}

/// The row of an item comes from the copy in the first folder: a file of
/// folder `source_id` writes it when no copy has (`written_by` is none) or
/// when the copy that did lies in a later folder.
pub open spec fn place_action_spec(written_by: Option<i64>, source_id: i64) -> PlaceAction {
    match written_by {
        None => PlaceAction::Write,
        Some(w) => if source_id < w {
            PlaceAction::Rewrite
        } else {
            PlaceAction::Keep
        },
    }
}

pub fn place_action(written_by: Option<i64>, source_id: i64) -> (r: PlaceAction)
    ensures
        r == place_action_spec(written_by, source_id),
{
    match written_by {
        None => PlaceAction::Write,
        Some(w) => if source_id < w {
            PlaceAction::Rewrite
        } else {
            PlaceAction::Keep
        },
    }
}

/// The folder a catalog row is written from after a file of `source_id` is
/// placed.
pub open spec fn writer_after(written_by: Option<i64>, source_id: i64) -> Option<i64> {
    match place_action_spec(written_by, source_id) {
        PlaceAction::Keep => written_by,
        _ => Some(source_id),
    }
}

/// Whatever order the copies of an item are placed in, its row ends up
/// written from the first folder among them: placing copies one after
/// another leaves the row with the smallest source id.
pub proof fn law_row_comes_from_the_first_folder(written_by: Option<i64>, a: i64, b: i64)
    ensures
        writer_after(writer_after(written_by, a), b) == writer_after(
            writer_after(written_by, b),
            a,
        ),
        writer_after(writer_after(None, a), b) == Some(if a <= b {
            a
        } else {
            b
        }),
{
}

// ---------------------------------------------------------------------------
// Items that lost their files
// ---------------------------------------------------------------------------

/// Items that hold user data but can no longer play, and items without user
/// data that can: the first are matched against the second after a scan.
pub struct RevivePlan {
    pub spare: Vec<Descriptor>,
    pub lost: Vec<Descriptor>,
}

pub open spec fn playable_spec(identity: Identity) -> bool {
    exists|k: int|
        0 <= k < identity.bindings@.len() && (#[trigger] identity.bindings@[k]).enabled
            && identity.bindings@[k].available && identity.bindings@[k].present
}

/// `d` describes `identity` with its present bindings holding it.
pub open spec fn describes(identity: Identity, d: Descriptor) -> bool {
    &&& d.item_id == identity.item_id
    &&& d.title@ == identity.title@
    &&& d.artist@ == identity.artist@
    &&& d.album == identity.album
    &&& d.duration_ms == identity.duration_ms
    &&& d.files@ == files_of(identity.bindings@)
    &&& occupying_sources(Occupancy::Present, identity.bindings@, d.sources@)
    &&& d.live == (d.sources@.len() > 0)
}

/// The indices of the identities that meet `want` (cherished and lost, or
/// spare and playable), in order.
pub open spec fn chosen(ids: Seq<Identity>, lost: bool) -> Seq<int>
    decreases ids.len(),
{
    if ids.len() == 0 {
        Seq::empty()
    } else {
        let before = chosen(ids.drop_last(), lost);
        let i = ids.last();
        let pick = if lost {
            i.cherished && !playable_spec(i)
        } else {
            !i.cherished && playable_spec(i)
        };
        if pick {
            before.push(ids.len() - 1)
        } else {
            before
        }
    }
}

/// The spare and the lost items of the catalog, described.
pub fn revive_plan(identities: &[Identity]) -> (r: RevivePlan)
    ensures
        r.spare@.len() == chosen(identities@, false).len(),
        r.lost@.len() == chosen(identities@, true).len(),
        forall|k: int|
            0 <= k < r.spare@.len() ==> describes(
                identities@[chosen(identities@, false)[k]],
                #[trigger] r.spare@[k],
            ),
        forall|k: int|
            0 <= k < r.lost@.len() ==> describes(
                identities@[chosen(identities@, true)[k]],
                #[trigger] r.lost@[k],
            ),
{
    let mut spare: Vec<Descriptor> = Vec::new();
    let mut lost: Vec<Descriptor> = Vec::new();
    let present = Occupancy::Present;
    for i in 0..identities.len()
        invariant
            present == Occupancy::Present,
            spare@.len() == chosen(identities@.take(i as int), false).len(),
            lost@.len() == chosen(identities@.take(i as int), true).len(),
            forall|k: int|
                0 <= k < spare@.len() ==> describes(
                    identities@[chosen(identities@.take(i as int), false)[k]],
                    #[trigger] spare@[k],
                ),
            forall|k: int|
                0 <= k < lost@.len() ==> describes(
                    identities@[chosen(identities@.take(i as int), true)[k]],
                    #[trigger] lost@[k],
                ),
    {
        let ghost ts = identities@.take(i + 1);
        assert(ts.drop_last() =~= identities@.take(i as int));
        assert(ts.last() == identities@[i as int]);
        let id = &identities[i];
        let playable = id.playable();
        let ghost sb = spare@;
        let ghost lb = lost@;
        if id.cherished && !playable {
            let d = id.descriptor(&present);
            lost.push(d);
            assert forall|k: int| 0 <= k < lost@.len() implies describes(
                identities@[chosen(ts, true)[k]],
                #[trigger] lost@[k],
            ) by {
                if k < lb.len() {
                    assert(lost@[k] == lb[k]);
                }
            }
        }
        if !id.cherished && playable {
            let d = id.descriptor(&present);
            spare.push(d);
            assert forall|k: int| 0 <= k < spare@.len() implies describes(
                identities@[chosen(ts, false)[k]],
                #[trigger] spare@[k],
            ) by {
                if k < sb.len() {
                    assert(spare@[k] == sb[k]);
                }
            }
        }
    }
    assert(identities@.take(identities@.len() as int) =~= identities@);
    RevivePlan { spare, lost }
}

// ---------------------------------------------------------------------------
// Settling the arrivals of a scan
// ---------------------------------------------------------------------------

/// The key a scanned file is told apart by: its path and where in it the
/// track starts.
pub open spec fn scan_keys(tracks: Seq<ScanTrack>) -> Seq<(Seq<char>, i64)> {
    Seq::new(tracks.len(), |i: int| (tracks[i].path@, start_offset_spec(tracks[i])))
}

pub open spec fn every(n: nat) -> Seq<bool> {
    Seq::new(n, |i: int| true)
}

/// The arrivals of a scan in the order they are settled: by path, then
/// offset, each file piece once (the first scanned).
pub fn arrival_order(tracks: &[ScanTrack]) -> (r: Vec<usize>)
    ensures
        is_selection(scan_keys(tracks@), every(tracks@.len()), r@, tracks@.len() as int),
{
    let ghost keys = scan_keys(tracks@);
    let ghost wanted = every(tracks@.len());
    let mut order: Vec<usize> = Vec::new();
    let mut order_keys: Vec<(Vec<char>, i64)> = Vec::new();
    proof {
        lemma_selection_empty(keys, wanted);
    }
    for i in 0..tracks.len()
        invariant
            keys == scan_keys(tracks@),
            wanted == every(tracks@.len()),
            order_keys@.len() == order@.len(),
            forall|a: int|
                0 <= a < order_keys@.len() ==> ((#[trigger] order_keys@[a]).0@, order_keys@[a].1)
                    == keys[order@[a] as int],
            is_selection(keys, wanted, order@, i as int),
    {
        let path = crate::text::chars_of(tracks[i].path.as_str());
        let offset = scan_start_offset(&tracks[i]);
        pick(&mut order, &mut order_keys, path, offset, i, Ghost(keys), Ghost(wanted));
    }
    order
}

/// The arrivals in `order` that lie in the folder of source `s`, in order.
pub open spec fn members(
    tracks: Seq<ScanTrack>,
    roots: Seq<LocalRoot>,
    order: Seq<usize>,
    s: i64,
) -> Seq<usize>
    decreases order.len(),
{
    if order.len() == 0 {
        Seq::empty()
    } else {
        let before = members(tracks, roots, order.drop_last(), s);
        if source_of(roots, tracks[order.last() as int].path@) == s {
            before.push(order.last())
        } else {
            before
        }
    }
}

proof fn lemma_members_nonempty(
    tracks: Seq<ScanTrack>,
    roots: Seq<LocalRoot>,
    order: Seq<usize>,
    s: i64,
    a: int,
)
    requires
        0 <= a < order.len(),
        source_of(roots, tracks[order[a] as int].path@) == s,
    ensures
        members(tracks, roots, order, s).len() > 0,
    decreases order.len(),
{
    if a < order.len() - 1 {
        lemma_members_nonempty(tracks, roots, order.drop_last(), s, a);
    }
}

/// Whether a group of `groups` is that of source `s`.
pub open spec fn has_group(groups: Seq<(i64, Vec<usize>)>, s: i64) -> bool {
    exists|g: int| 0 <= g < groups.len() && (#[trigger] groups[g]).0 == s
}

/// The arrivals grouped by the folder that holds them, folders in increasing
/// source id and each group in the order given.
pub fn group_by_source(tracks: &[ScanTrack], roots: &[LocalRoot], order: &[usize]) -> (r: Vec<
    (i64, Vec<usize>),
>)
    requires
        forall|a: int| 0 <= a < order@.len() ==> (#[trigger] order@[a]) < tracks@.len(),
    ensures
        forall|g: int, h: int| 0 <= g < h < r@.len() ==> (#[trigger] r@[g]).0 < (#[trigger] r@[h]).0,
        forall|g: int|
            0 <= g < r@.len() ==> (#[trigger] r@[g]).1@ == members(tracks@, roots@, order@, r@[g].0)
                && r@[g].1@.len() > 0,
        forall|a: int|
            0 <= a < order@.len() ==> has_group(
                r@,
                source_of(roots@, tracks@[#[trigger] order@[a] as int].path@),
            ),
{
    let mut sources: Vec<i64> = Vec::new();
    let mut srcs: Vec<i64> = Vec::new();
    for a in 0..order.len()
        invariant
            forall|k: int| 0 <= k < order@.len() ==> (#[trigger] order@[k]) < tracks@.len(),
            srcs@.len() == a,
            forall|k: int|
                0 <= k < a ==> #[trigger] srcs@[k] == source_of(
                    roots@,
                    tracks@[order@[k] as int].path@,
                ),
            crate::catalog::strictly_increasing(sources@),
            forall|x: i64| sources@.contains(x) <==> exists|k: int| 0 <= k < a && srcs@[k] == x,
    {
        let s = source_for_path(roots, tracks[order[a]].path.as_str());
        let ghost srcs_before = srcs@;
        srcs.push(s);
        let ghost before = sources@;
        crate::catalog::insert_sorted(&mut sources, s);
        assert forall|x: i64| sources@.contains(x) implies exists|k: int|
            0 <= k < a + 1 && srcs@[k] == x by {
            if x == s {
                assert(srcs@[a as int] == x);
            } else {
                assert(before.contains(x));
                let k = choose|k: int| 0 <= k < a && srcs_before[k] == x;
                assert(srcs@[k] == srcs_before[k]);
            }
        }
        assert forall|x: i64| (exists|k: int| 0 <= k < a + 1 && srcs@[k] == x) implies sources@.contains(
            x,
        ) by {
            let k = choose|k: int| 0 <= k < a + 1 && srcs@[k] == x;
            if k < a {
                assert(srcs_before[k] == x);
                assert(before.contains(x));
            }
        }
    }
    let mut r: Vec<(i64, Vec<usize>)> = Vec::new();
    for g in 0..sources.len()
        invariant
            forall|k: int| 0 <= k < order@.len() ==> (#[trigger] order@[k]) < tracks@.len(),
            srcs@.len() == order@.len(),
            forall|k: int|
                0 <= k < order@.len() ==> #[trigger] srcs@[k] == source_of(
                    roots@,
                    tracks@[order@[k] as int].path@,
                ),
            crate::catalog::strictly_increasing(sources@),
            forall|x: i64|
                sources@.contains(x) <==> exists|k: int| 0 <= k < order@.len() && srcs@[k] == x,
            r@.len() == g,
            forall|h: int| 0 <= h < g ==> (#[trigger] r@[h]).0 == sources@[h],
            forall|h: int|
                0 <= h < g ==> (#[trigger] r@[h]).1@ == members(tracks@, roots@, order@, r@[h].0)
                    && r@[h].1@.len() > 0,
    {
        let s = sources[g];
        let mut group: Vec<usize> = Vec::new();
        for a in 0..order.len()
            invariant
                forall|k: int| 0 <= k < order@.len() ==> (#[trigger] order@[k]) < tracks@.len(),
                srcs@.len() == order@.len(),
                forall|k: int|
                    0 <= k < order@.len() ==> #[trigger] srcs@[k] == source_of(
                        roots@,
                        tracks@[order@[k] as int].path@,
                    ),
                group@ == members(tracks@, roots@, order@.take(a as int), s),
        {
            assert(order@.take(a + 1).drop_last() =~= order@.take(a as int));
            assert(order@.take(a + 1).last() == order@[a as int]);
            if srcs[a] == s {
                group.push(order[a]);
            }
        }
        assert(order@.take(order@.len() as int) =~= order@);
        proof {
            assert(sources@.contains(s)) by {
                assert(sources@[g as int] == s);
            }
            let k = choose|k: int| 0 <= k < order@.len() && srcs@[k] == s;
            lemma_members_nonempty(tracks@, roots@, order@, s, k);
        }
        r.push((s, group));
    }
    proof {
        assert forall|g: int, h: int| 0 <= g < h < r@.len() implies (#[trigger] r@[g]).0 < (
        #[trigger] r@[h]).0 by {
            assert(r@[g].0 == sources@[g] && r@[h].0 == sources@[h]);
        }
        assert forall|a: int| 0 <= a < order@.len() implies has_group(
            r@,
            source_of(roots@, tracks@[#[trigger] order@[a] as int].path@),
        ) by {
            let x = srcs@[a];
            assert(sources@.contains(x));
            let g = choose|g: int| 0 <= g < sources@.len() && sources@[g] == x;
            assert(r@[g].0 == x);
            assert(x == source_of(roots@, tracks@[order@[a] as int].path@));
            assert(0 <= g < r@.len() && r@[g].0 == source_of(
                roots@,
                tracks@[order@[a] as int].path@,
            ));
        }
    }
    r
}

} // verus!

verus! {

// ---------------------------------------------------------------------------
// Server songs projected into the catalog, and bindings no folder holds
// ---------------------------------------------------------------------------

/// A song of a media server as the catalog keeps it.
#[derive(Debug, Clone, PartialEq, Eq)]
pub struct RemoteTrackRow {
    pub source_id: i64,
    pub key: String,
    pub title: String,
    pub artist: Option<String>,
    pub album: Option<String>,
    pub album_artist: Option<String>,
    pub track_number: Option<u32>,
    pub disc_number: Option<u32>,
    pub year: Option<i32>,
    pub genre: Option<String>,
    pub duration_ms: Option<i64>,
    pub suffix: Option<String>,
    pub content_type: Option<String>,
    pub bitrate: Option<u32>,
    pub cover_hash: Option<String>,
}

/// A name as a list: the name alone, or nothing where it is missing or empty.
pub open spec fn names_of(s: Option<String>) -> Seq<Seq<char>> {
    match s {
        Some(n) => if n@.len() > 0 {
            seq![n@]
        } else {
            seq![]
        },
        None => seq![],
    }
}

pub open spec fn text_list(v: Seq<String>) -> Seq<Seq<char>> {
    v.map_values(|s: String| s@)
}

pub open spec fn opt_view(s: Option<String>) -> Option<Seq<char>> {
    match s {
        Some(t) => Some(t@),
        None => None,
    }
}

/// A server song as a scanned track: its locator for a path, its names as
/// lists, no negative duration, and nothing that only files have.
pub open spec fn projects_to(row: RemoteTrackRow, t: ScanTrack) -> bool {
    &&& t.path@ == crate::remote::locator_spec(
        row.source_id,
        row.key@,
        crate::remote::suffix_for_spec(opt_view(row.suffix), opt_view(row.content_type)),
    )
    &&& t.title == Some(row.title)
    &&& t.album_title == row.album
    &&& text_list(t.artist_names@) == names_of(row.artist)
    &&& text_list(t.album_artist_names@) == names_of(row.album_artist)
    &&& t.track_number == row.track_number
    &&& t.disc_number == row.disc_number
    &&& t.year == row.year
    &&& text_list(t.genres@) == names_of(row.genre)
    &&& t.duration_ms == match row.duration_ms {
        Some(d) => Some(if d < 0 { 0u64 } else { d as u64 }),
        None => None,
    }
    &&& t.cover_hash == row.cover_hash
    &&& t.start_offset_ms is None
    &&& t.bitrate == row.bitrate
    &&& !t.is_cue
    &&& t.lyrics is None
    &&& t.file_size is None
}

fn name_list(s: &Option<String>) -> (r: Vec<String>)
    ensures
        text_list(r@) == names_of(*s),
{
    let mut r: Vec<String> = Vec::new();
    match s {
        Some(n) => if crate::text::chars_of(n.as_str()).len() > 0 {
            r.push(n.clone());
            proof {
                assert(text_list(r@) =~= seq![n@]);
            }
        } else {
            proof {
                assert(text_list(r@) =~= Seq::<Seq<char>>::empty());
            }
        },
        None => {
            proof {
                assert(text_list(r@) =~= Seq::<Seq<char>>::empty());
            }
        },
    }
    r
}

fn copy_opt(s: &Option<String>) -> (r: Option<String>)
    ensures
        r == *s,
{
    match s {
        Some(t) => Some(t.clone()),
        None => None,
    }
}

/// A server song as the scan writes it into the catalog.
pub fn remote_scan_track(row: &RemoteTrackRow) -> (t: ScanTrack)
    ensures
        projects_to(*row, t),
{
    let suffix = crate::remote::suffix_for(
        match &row.suffix {
            Some(s) => Some(s.as_str()),
            None => None,
        },
        match &row.content_type {
            Some(s) => Some(s.as_str()),
            None => None,
        },
    );
    let path = crate::remote::locator(row.source_id, row.key.as_str(), suffix.as_str());
    ScanTrack {
        path,
        title: Some(row.title.clone()),
        album_title: copy_opt(&row.album),
        artist_names: name_list(&row.artist),
        album_artist_names: name_list(&row.album_artist),
        track_number: row.track_number,
        disc_number: row.disc_number,
        year: row.year,
        genres: name_list(&row.genre),
        duration_ms: match row.duration_ms {
            Some(d) => Some(if d < 0 { 0u64 } else { d as u64 }),
            None => None,
        },
        cover_hash: copy_opt(&row.cover_hash),
        start_offset_ms: None,
        bitrate: row.bitrate,
        is_cue: false,
        lyrics: None,
        file_size: None,
    }
}

/// Whether a binding that no folder placed is marked gone: unless it lies
/// under a folder that is offline, where it may yet come back.
pub fn retires_unplaced(roots: &[LocalRoot], key: &str) -> (r: bool)
    ensures
        r == match root_index(roots@, key@) {
            Some(i) => roots@[i].available,
            None => true,
        },
{
    match crate::catalog::root_for_path(roots, key) {
        Some(root) => root.available,
        None => true,
    }
}

} // verus!
