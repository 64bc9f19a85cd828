//! The catalog's own rules that do not touch the database: sort names,
//! fallback titles, artist membership queries, the folders that own a path,
//! and what matching needs to know of a stored item.
use vstd::prelude::*;
use std::collections::HashSet;
use crate::adoption::{Descriptor, WHOLE_FILE};
use crate::models::{ArtistGrouping, ArtistSummary, RemoteSong};
use crate::paths::{
    file_name, path_file_name, file_stem, path_starts_with, starts_with_path, stem_of,
};
use crate::text::{
    chars_of, has_prefix, lower, lowercase_chars, push_all, push_str, slice_chars, starts_with,
    string_of, trim, trimmed,
};
use crate::NO_METADATA_ARTIST_ID;

verus! {

/// The source id of paths that lie under no configured folder.
pub const PLACEHOLDER_SOURCE_ID: i64 = 1;

// ---------------------------------------------------------------------------
// Names
// ---------------------------------------------------------------------------

/// The name an artist sorts under: a leading "the " or "a " (in any case) moves
/// to the end of the lowered name; other names sort as they are, trimmed.
pub open spec fn sort_name(name: Seq<char>) -> Seq<char> {
    let t = trimmed(name);
    let l = lower(t);
    if has_prefix(l, seq!['t', 'h', 'e', ' ']) {
        l.skip(4) + seq![',', ' ', 't', 'h', 'e']
    } else if has_prefix(l, seq!['a', ' ']) {
        l.skip(2) + seq![',', ' ', 'a']
    } else {
        t
    }
}

pub fn compute_sort_name(name: &str) -> (r: String)
    ensures
        r@ == sort_name(name@),
{
    let chars = chars_of(name);
    let t = trim(&chars);
    let l = lowercase_chars(&t);
    let mut the: Vec<char> = Vec::new();
    the.push('t');
    the.push('h');
    the.push('e');
    the.push(' ');
    assert(the@ =~= seq!['t', 'h', 'e', ' ']);
    if starts_with(&l, &the) {
        let mut out = slice_chars(&l, 4, l.len());
        out.push(',');
        out.push(' ');
        out.push('t');
        out.push('h');
        out.push('e');
        assert(out@ =~= l@.skip(4) + seq![',', ' ', 't', 'h', 'e']);
        return string_of(&out);
    }
    let mut a: Vec<char> = Vec::new();
    a.push('a');
    a.push(' ');
    assert(a@ =~= seq!['a', ' ']);
    if starts_with(&l, &a) {
        let mut out = slice_chars(&l, 2, l.len());
        out.push(',');
        out.push(' ');
        out.push('a');
        assert(out@ =~= l@.skip(2) + seq![',', ' ', 'a']);
        return string_of(&out);
    }
    string_of(&t)
}

/// An artist whose name, trimmed and lowered, reads "the " or "a " and then
/// `rest` sorts as `rest, the` or `rest, a`; a name that starts with neither
/// sorts as itself, trimmed.
pub proof fn law_leading_articles_move_to_the_end(name: Seq<char>, rest: Seq<char>)
    ensures
        lower(trimmed(name)) == seq!['t', 'h', 'e', ' '] + rest ==> sort_name(name) == rest
            + seq![',', ' ', 't', 'h', 'e'],
        lower(trimmed(name)) == seq!['a', ' '] + rest ==> sort_name(name) == rest + seq![
            ',',
            ' ',
            'a',
        ],
        !has_prefix(lower(trimmed(name)), seq!['t', 'h', 'e', ' ']) && !has_prefix(
            lower(trimmed(name)),
            seq!['a', ' '],
        ) ==> sort_name(name) == trimmed(name),
{
    let l = lower(trimmed(name));
    if l == seq!['t', 'h', 'e', ' '] + rest {
        assert(l.take(4) =~= seq!['t', 'h', 'e', ' ']);
        assert(l.skip(4) =~= rest);
    }
    if l == seq!['a', ' '] + rest {
        assert(l.take(2) =~= seq!['a', ' ']);
        assert(l.skip(2) =~= rest);
        assert(!has_prefix(l, seq!['t', 'h', 'e', ' '])) by {
            if l.len() >= 4 {
                assert(l[0] == 'a');
                assert(l.take(4)[0] == 'a');
            }
        }
    }
}

/// The title of a track without a title tag: the stem of its file name, or
/// the whole path when it has no file name.
pub open spec fn fallback_title(path: Seq<char>) -> Seq<char> {
    match file_name(path) {
        Some(n) => stem_of(n),
        None => path,
    }
}

pub fn fallback_title_from_path(path: &str) -> (r: String)
    ensures
        r@ == fallback_title(path@),
{
    let chars = chars_of(path);
    match path_file_name(&chars) {
        Some(name) => {
            let stem = file_stem(&name);
            string_of(&stem)
        },
        None => string_of(&chars),
    }
}

// ---------------------------------------------------------------------------
// Artist membership
// ---------------------------------------------------------------------------

/// The rows (artist, track, position) that list a track under an artist.
pub open spec fn membership_sql(grouping: ArtistGrouping) -> Seq<char> {
    match grouping {
        ArtistGrouping::TrackArtist => "SELECT artist_id, track_id, position FROM track_artists"@,
        ArtistGrouping::AlbumArtist => "SELECT artist_id, track_id, position FROM track_album_artists UNION ALL SELECT aa.artist_id, t.id, aa.position FROM tracks t JOIN albums al ON al.id = t.album_id AND al.artist_known = 1 JOIN album_artists aa ON aa.album_id = al.id WHERE NOT EXISTS (SELECT 1 FROM track_album_artists x WHERE x.track_id = t.id) UNION ALL SELECT ta.artist_id, ta.track_id, ta.position FROM track_artists ta JOIN tracks t ON t.id = ta.track_id LEFT JOIN albums al ON al.id = t.album_id WHERE NOT EXISTS (SELECT 1 FROM track_album_artists x WHERE x.track_id = ta.track_id) AND COALESCE(al.artist_known, 0) = 0"@,
    }
}

pub fn artist_membership_sql(grouping: ArtistGrouping) -> (r: &'static str)
    ensures
        r@ == membership_sql(grouping),
{
    match grouping {
        ArtistGrouping::TrackArtist => "SELECT artist_id, track_id, position FROM track_artists",
        ArtistGrouping::AlbumArtist => "SELECT artist_id, track_id, position FROM track_album_artists UNION ALL SELECT aa.artist_id, t.id, aa.position FROM tracks t JOIN albums al ON al.id = t.album_id AND al.artist_known = 1 JOIN album_artists aa ON aa.album_id = al.id WHERE NOT EXISTS (SELECT 1 FROM track_album_artists x WHERE x.track_id = t.id) UNION ALL SELECT ta.artist_id, ta.track_id, ta.position FROM track_artists ta JOIN tracks t ON t.id = ta.track_id LEFT JOIN albums al ON al.id = t.album_id WHERE NOT EXISTS (SELECT 1 FROM track_album_artists x WHERE x.track_id = ta.track_id) AND COALESCE(al.artist_known, 0) = 0",
    }
}

/// The rows that merely credit a track to an artist, on top of the listed ones.
pub open spec fn credited_sql(grouping: ArtistGrouping) -> Seq<char> {
    match grouping {
        ArtistGrouping::TrackArtist => "SELECT * FROM m"@,
        ArtistGrouping::AlbumArtist => "SELECT * FROM m UNION SELECT artist_id, track_id, position FROM track_artists"@,
    }
}

/// The common table expressions `m` (listed) and `u` (listed or credited).
pub open spec fn membership_ctes_spec(grouping: ArtistGrouping) -> Seq<char> {
    "m AS ("@ + membership_sql(grouping) + "), u AS ("@ + credited_sql(grouping) + ")"@
}

pub fn membership_ctes(grouping: ArtistGrouping) -> (r: String)
    ensures
        r@ == membership_ctes_spec(grouping),
{
    let listed = artist_membership_sql(grouping);
    let credited = match grouping {
        ArtistGrouping::TrackArtist => "SELECT * FROM m",
        ArtistGrouping::AlbumArtist => "SELECT * FROM m UNION SELECT artist_id, track_id, position FROM track_artists",
    };
    let mut out: Vec<char> = Vec::new();
    push_str(&mut out, "m AS (");
    push_str(&mut out, listed);
    push_str(&mut out, "), u AS (");
    push_str(&mut out, credited);
    push_str(&mut out, ")");
    assert(out@ =~= membership_ctes_spec(grouping));
    string_of(&out)
}

/// The bucket that holds the tracks no artist is listed for.
pub fn no_metadata_artist(track_count: i64) -> (r: ArtistSummary)
    ensures
        r.id == NO_METADATA_ARTIST_ID,
        r.name@.len() == 0,
        r.sort_name@.len() == 0,
        r.track_count == track_count,
{
    ArtistSummary { id: NO_METADATA_ARTIST_ID, name: String::new(), sort_name: String::new(), track_count }
}

// ---------------------------------------------------------------------------
// Folders
// ---------------------------------------------------------------------------

/// A configured music folder.
pub struct LocalRoot {
    pub path: String,
    pub source_id: i64,
    pub available: bool,
}

pub open spec fn is_first_root(roots: Seq<LocalRoot>, path: Seq<char>, i: int) -> bool {
    &&& 0 <= i < roots.len()
    &&& path_starts_with(path, roots[i].path@)
    &&& forall|j: int| 0 <= j < i ==> !path_starts_with(path, roots[j].path@)
}

/// The first folder (in the given order) that holds `path`.
pub open spec fn root_index(roots: Seq<LocalRoot>, path: Seq<char>) -> Option<int> {
    if exists|i: int| is_first_root(roots, path, i) {
        Some(choose|i: int| is_first_root(roots, path, i))
    } else {
        None
    }
}

fn root_position(roots: &[LocalRoot], path: &str) -> (r: Option<usize>)
    ensures
        match r {
            Some(i) => root_index(roots@, path@) == Some(i as int) && i < roots@.len(),
            None => root_index(roots@, path@) is None,
        },
{
    let p = chars_of(path);
    for i in 0..roots.len()
        invariant
            p@ == path@,
            forall|j: int| 0 <= j < i ==> !path_starts_with(path@, roots@[j].path@),
    {
        let root = chars_of(roots[i].path.as_str());
        if starts_with_path(&p, &root) {
            assert(is_first_root(roots@, path@, i as int));
            let ghost k = choose|k: int| is_first_root(roots@, path@, k);
            assert(k == i);
            return Some(i);
        }
    }
    None
}

pub fn root_for_path<'a>(roots: &'a [LocalRoot], path: &str) -> (r: Option<&'a LocalRoot>)
    ensures
        match root_index(roots@, path@) {
            Some(i) => r == Some(&roots@[i]),
            None => r is None,
        },
{
    match root_position(roots, path) {
        Some(i) => Some(&roots[i]),
        None => None,
    }
}

/// The source a local path belongs to: that of the first folder holding it.
pub fn source_for_path(roots: &[LocalRoot], path: &str) -> (r: i64)
    ensures
        r == match root_index(roots@, path@) {
            Some(i) => roots@[i].source_id,
            None => PLACEHOLDER_SOURCE_ID,
        },
{
    match root_for_path(roots, path) {
        Some(root) => root.source_id,
        None => PLACEHOLDER_SOURCE_ID,
    }
}

// ---------------------------------------------------------------------------
// Stored items as matching sees them
// ---------------------------------------------------------------------------

/// What the catalog knows of one binding of an item to a file or server track.
#[derive(Debug, Clone, Copy, PartialEq, Eq)]
pub struct BindingFacts {
    pub binding_id: i64,
    pub source_id: i64,
    pub local: bool,
    pub enabled: bool,
    pub available: bool,
    pub present: bool,
    pub last_seen_scan: i64,
    pub file_size: Option<i64>,
    pub start_offset_ms: i64,
    pub cue: bool,
}

/// A stored item with its bindings, and whether user data (likes, playlist
/// entries, history) refers to it.
pub struct Identity {
    pub item_id: i64,
    pub title: String,
    pub artist: String,
    pub album: Option<String>,
    pub duration_ms: Option<i64>,
    pub bindings: Vec<BindingFacts>,
    pub cherished: bool,
}

/// Which bindings count as holding their item while matching runs.
pub enum Occupancy {
    /// A server listing: the listed bindings of that server, and the present
    /// bindings of every other source.
    Listing { source_id: i64, seen: HashSet<i64> },
    /// The present bindings.
    Present,
    /// A folder scan: the bindings of available folders seen by this scan, and
    /// the present bindings of everything else.
    Scan { scan_id: i64 },
}

pub open spec fn occupies(o: Occupancy, b: BindingFacts) -> bool {
    match o {
        Occupancy::Listing { source_id, seen } => b.enabled && if b.source_id == source_id {
            seen@.contains(b.binding_id)
        } else {
            b.present
        },
        Occupancy::Present => b.enabled && b.present,
        Occupancy::Scan { scan_id } => b.enabled && if b.local && b.available {
            b.last_seen_scan == scan_id
        } else {
            b.present
        },
    }
}

fn occupies_exec(o: &Occupancy, b: &BindingFacts) -> (r: bool)
    ensures
        r == occupies(*o, *b),
{
    broadcast use vstd::std_specs::hash::group_hash_axioms;

    match o {
        Occupancy::Listing { source_id, seen } => b.enabled && if b.source_id == *source_id {
            seen.contains(&b.binding_id)
        } else {
            b.present
        },
        Occupancy::Present => b.enabled && b.present,
        Occupancy::Scan { scan_id } => b.enabled && if b.local && b.available {
            b.last_seen_scan == *scan_id
        } else {
            b.present
        },
    }
}

/// The piece of a file a binding stands for: its offset for a cue track, the
/// whole file otherwise.
pub open spec fn piece(cue: bool, start_offset_ms: i64) -> i64 {
    if cue {
        start_offset_ms
    } else {
        WHOLE_FILE
    }
}

pub fn file_piece(cue: bool, start_offset_ms: i64) -> (r: i64)
    ensures
        r == piece(cue, start_offset_ms),
{
    if cue {
        start_offset_ms
    } else {
        WHOLE_FILE
    }
}

/// The (size, piece) of every binding whose file size is known, in order.
pub open spec fn files_of(bindings: Seq<BindingFacts>) -> Seq<(i64, i64)>
    decreases bindings.len(),
{
    if bindings.len() == 0 {
        Seq::empty()
    } else {
        let before = files_of(bindings.drop_last());
        let b = bindings.last();
        match b.file_size {
            Some(size) => before.push((size, piece(b.cue, b.start_offset_ms))),
            None => before,
        }
    }
}

pub open spec fn strictly_increasing(s: Seq<i64>) -> bool {
    forall|i: int, j: int| 0 <= i < j < s.len() ==> s[i] < s[j]
}

/// The sources whose bindings occupy the item, in increasing order without repeats.
pub open spec fn occupying_sources(o: Occupancy, bindings: Seq<BindingFacts>, s: Seq<i64>) -> bool {
    &&& strictly_increasing(s)
    &&& forall|x: i64|
        s.contains(x) <==> exists|k: int|
            0 <= k < bindings.len() && occupies(o, #[trigger] bindings[k]) && bindings[k].source_id
                == x
}

/// Inserts `x` into a strictly increasing sequence, unless it is there already.
pub(crate) fn insert_sorted(v: &mut Vec<i64>, x: i64)
    requires
        strictly_increasing(old(v)@),
    ensures
        strictly_increasing(final(v)@),
        forall|y: i64| final(v)@.contains(y) <==> (old(v)@.contains(y) || y == x),
{
    let mut i: usize = 0;
    while i < v.len() && v[i] < x
        invariant
            i <= v@.len(),
            strictly_increasing(v@),
            forall|j: int| 0 <= j < i ==> v@[j] < x,
        decreases v.len() - i,
    {
        i += 1;
    }
    if i < v.len() && v[i] == x {
        assert(v@[i as int] == x);
        assert(v@.contains(x));
        return;
    }
    let ghost before = v@;
    v.insert(i, x);
    proof {
        assert(v@ == before.insert(i as int, x));
        assert forall|a: int, b: int| 0 <= a < b < v@.len() implies v@[a] < v@[b] by {
            if b < i {
            } else if b == i {
            } else if a < i {
                assert(v@[b] == before[b - 1]);
            } else if a == i {
                assert(v@[b] == before[b - 1]);
                assert(before[i as int] > x);
                if b - 1 > i {
                    assert(before[i as int] < before[b - 1]);
                }
            } else {
                assert(v@[a] == before[a - 1]);
                assert(v@[b] == before[b - 1]);
            }
        }
        lemma_insert_contains(before, i as int, x);
    }
}

proof fn lemma_insert_contains(before: Seq<i64>, i: int, x: i64)
    requires
        0 <= i <= before.len(),
    ensures
        forall|y: i64| before.insert(i, x).contains(y) <==> (before.contains(y) || y == x),
{
    let v = before.insert(i, x);
    assert forall|y: i64| v.contains(y) implies (before.contains(y) || y == x) by {
        let k = choose|k: int| 0 <= k < v.len() && v[k] == y;
        if k < i {
            assert(before[k] == y);
        } else if k > i {
            assert(before[k - 1] == y);
        }
    }
    assert forall|y: i64| (before.contains(y) || y == x) implies v.contains(y) by {
        if y == x {
            assert(v[i] == x);
        } else {
            let k = choose|k: int| 0 <= k < before.len() && before[k] == y;
            if k < i {
                assert(v[k] == y);
            } else {
                assert(v[k + 1] == y);
            }
        }
    }
}

impl Identity {
    /// The item as matching sees it, with the given bindings counting as
    /// holding it: its sources and files, and whether anything holds it.
    pub fn descriptor(&self, occupancy: &Occupancy) -> (d: Descriptor)
        ensures
            d.item_id == self.item_id,
            d.title@ == self.title@,
            d.artist@ == self.artist@,
            d.artist_aliases@.len() == 0,
            d.album == self.album,
            d.duration_ms == self.duration_ms,
            d.files@ == files_of(self.bindings@),
            occupying_sources(*occupancy, self.bindings@, d.sources@),
            d.live == (d.sources@.len() > 0),
    {
        let mut sources: Vec<i64> = Vec::new();
        let mut files: Vec<(i64, i64)> = Vec::new();
        for k in 0..self.bindings.len()
            invariant
                strictly_increasing(sources@),
                forall|x: i64|
                    sources@.contains(x) <==> exists|j: int|
                        0 <= j < k && occupies(*occupancy, #[trigger] self.bindings@[j])
                            && self.bindings@[j].source_id == x,
                files@ == files_of(self.bindings@.take(k as int)),
        {
            let b = &self.bindings[k];
            assert(self.bindings@.take(k + 1).drop_last() == self.bindings@.take(k as int));
            let ghost before = sources@;
            if occupies_exec(occupancy, b) {
                insert_sorted(&mut sources, b.source_id);
            }
            proof {
                assert forall|x: i64| sources@.contains(x) <==> exists|j: int|
                    0 <= j < k + 1 && occupies(*occupancy, #[trigger] self.bindings@[j])
                        && self.bindings@[j].source_id == x by {
                    if exists|j: int|
                        0 <= j < k + 1 && occupies(*occupancy, #[trigger] self.bindings@[j])
                            && self.bindings@[j].source_id == x {
                        let j = choose|j: int|
                            0 <= j < k + 1 && occupies(*occupancy, #[trigger] self.bindings@[j])
                                && self.bindings@[j].source_id == x;
                        if j < k {
                            assert(before.contains(x));
                        }
                    }
                }
            }
            match b.file_size {
                Some(size) => files.push((size, file_piece(b.cue, b.start_offset_ms))),
                None => {},
            }
        }
        assert(self.bindings@.take(self.bindings@.len() as int) == self.bindings@);
        let live = sources.len() > 0;
        Descriptor {
            item_id: self.item_id,
            title: self.title.clone(),
            artist: self.artist.clone(),
            artist_aliases: Vec::new(),
            album: self.album.clone(),
            duration_ms: self.duration_ms,
            files,
            live,
            sources,
        }
    }

    /// Whether some binding can play the item now.
    pub fn playable(&self) -> (r: bool)
        ensures
            r == exists|k: int|
                0 <= k < self.bindings@.len() && (#[trigger] self.bindings@[k]).enabled
                    && self.bindings@[k].available && self.bindings@[k].present,
    {
        for k in 0..self.bindings.len()
            invariant
                forall|j: int|
                    0 <= j < k ==> !((#[trigger] self.bindings@[j]).enabled
                        && self.bindings@[j].available && self.bindings@[j].present),
        {
            let b = &self.bindings[k];
            if b.enabled && b.available && b.present {
                return true;
            }
        }
        false
    }
}

/// Where a new binding points.
pub struct BindingSpec<'a> {
    pub source_id: i64,
    pub key: &'a str,
    pub start_offset_ms: i64,
    pub file_size: Option<i64>,
    pub scan_id: i64,
}

/// The binding of a server song: the song's key under the server's source.
pub fn remote_spec(source_id: i64, song: &RemoteSong) -> (r: BindingSpec<'_>)
    ensures
        r.source_id == source_id,
        r.key@ == song.key@,
        r.start_offset_ms == 0,
        r.file_size == song.size,
        r.scan_id == 0,
{
    BindingSpec {
        source_id,
        key: song.key.as_str(),
        start_offset_ms: 0,
        file_size: song.size,
        scan_id: 0,
    }
}

// ---------------------------------------------------------------------------
// Content hashes
// ---------------------------------------------------------------------------

/// What SHA-256 gives for these bytes.
pub uninterp spec fn sha256(data: Seq<u8>) -> Seq<u8>;

/// `sha2::Sha256::digest`: the 32-byte SHA-256 digest of `data`.
#[verifier::external_body]
fn sha256_digest(data: &[u8]) -> (r: Vec<u8>)
    ensures
        r@ == sha256(data@),
        r@.len() == 32,
{
    <sha2::Sha256 as sha2::Digest>::digest(data).to_vec()
}

pub open spec fn hex_digit(d: int) -> char {
    if d < 10 {
        crate::text::digit_char(d)
    } else if d == 10 {
        'a'
    } else if d == 11 {
        'b'
    } else if d == 12 {
        'c'
    } else if d == 13 {
        'd'
    } else if d == 14 {
        'e'
    } else {
        'f'
    }
}

/// Each byte as two lower-case hex digits, high nibble first.
pub open spec fn hex_lower(bytes: Seq<u8>) -> Seq<char>
    decreases bytes.len(),
{
    if bytes.len() == 0 {
        Seq::empty()
    } else {
        let b = bytes.last() as int;
        hex_lower(bytes.drop_last()) + seq![hex_digit(b / 16), hex_digit(b % 16)]
    }
}

fn hex_char(d: u8) -> (c: char)
    requires
        d < 16,
    ensures
        c == hex_digit(d as int),
{
    if d < 10 {
        let mut v: Vec<char> = Vec::new();
        crate::text::push_dec_u64(&mut v, d as u64);
        assert(v@ == crate::text::dec_nat(d as nat));
        v[0]
    } else if d == 10 {
        'a'
    } else if d == 11 {
        'b'
    } else if d == 12 {
        'c'
    } else if d == 13 {
        'd'
    } else if d == 14 {
        'e'
    } else {
        'f'
    }
}

/// The lower-case hex SHA-256 of `data`, as content addresses are written.
pub fn sha256_hex(data: &[u8]) -> (r: String)
    ensures
        r@ == hex_lower(sha256(data@)),
        r@.len() == 64,
{
    let digest = sha256_digest(data);
    let mut out: Vec<char> = Vec::new();
    for i in 0..digest.len()
        invariant
            out@ == hex_lower(digest@.take(i as int)),
            out@.len() == 2 * i,
    {
        let b = digest[i];
        let hi = b / 16;
        let lo = b % 16;
        out.push(hex_char(hi));
        out.push(hex_char(lo));
        assert(digest@.take(i + 1).drop_last() == digest@.take(i as int));
        assert(out@ =~= hex_lower(digest@.take(i + 1)));
    }
    assert(digest@.take(digest@.len() as int) == digest@);
    string_of(&out)
}

// ---------------------------------------------------------------------------
// Files beside the database
// ---------------------------------------------------------------------------

/// The path of a file beside the database: its path with `suffix` appended.
pub fn sidecar(db_path: &str, suffix: &str) -> (r: String)
    ensures
        r@ == db_path@ + suffix@,
{
    let mut out: Vec<char> = Vec::new();
    crate::text::push_str(&mut out, db_path);
    crate::text::push_str(&mut out, suffix);
    string_of(&out)
}

} // verus!

verus! {

/// The identity that rows for `id` attach to: the last one with that id.
pub open spec fn slot_of(ids: Seq<Identity>, id: i64) -> Option<int>
    decreases ids.len(),
{
    if ids.len() == 0 {
        None
    } else if ids.last().item_id == id {
        Some(ids.len() - 1)
    } else {
        slot_of(ids.drop_last(), id)
    }
}

proof fn lemma_slot_of(ids: Seq<Identity>, id: i64)
    ensures
        slot_of(ids, id) matches Some(k) ==> 0 <= k < ids.len() && ids[k].item_id == id,
    decreases ids.len(),
{
    if ids.len() > 0 {
        lemma_slot_of(ids.drop_last(), id);
    }
}

/// The binding rows that attach to identity `k`, in the order they come.
pub open spec fn attached(ids: Seq<Identity>, rows: Seq<(i64, BindingFacts)>, k: int) -> Seq<BindingFacts>
    decreases rows.len(),
{
    if rows.len() == 0 {
        seq![]
    } else {
        let rest = attached(ids, rows.drop_last(), k);
        if slot_of(ids, rows.last().0) == Some(k) {
            rest.push(rows.last().1)
        } else {
            rest
        }
    }
}

/// Whether user data refers to identity `k`.
pub open spec fn cherished_at(ids: Seq<Identity>, cherished: Seq<i64>, k: int) -> bool {
    exists|c: int| 0 <= c < cherished.len() && slot_of(ids, cherished[c]) == Some(k)
}

fn find_slot(ids: &Vec<Identity>, id: i64) -> (r: Option<usize>)
    ensures
        match r {
            Some(k) => slot_of(ids@, id) == Some(k as int) && k < ids@.len(),
            None => slot_of(ids@, id) is None,
        },
{
    proof {
        assert(ids@.take(ids@.len() as int) == ids@);
        lemma_slot_of(ids@, id);
    }
    let mut n = ids.len();
    while n > 0
        invariant
            n <= ids@.len(),
            slot_of(ids@, id) == slot_of(ids@.take(n as int), id),
        decreases n,
    {
        proof {
            assert(ids@.take(n as int).drop_last() == ids@.take(n - 1));
            assert(ids@.take(n as int).last() == ids@[n - 1]);
        }
        if ids[n - 1].item_id == id {
            return Some(n - 1);
        }
        n = n - 1;
    }
    None
}

/// The identities with their binding rows and user-data marks attached:
/// each row (item id, facts) goes to the identity of that item, in the order
/// the rows come, and each item id that user data refers to marks its
/// identity. Rows for items that are not listed are passed over.
pub fn identities_from_rows(
    identities: Vec<Identity>,
    bindings: &[(i64, BindingFacts)],
    cherished: &[i64],
) -> (r: Vec<Identity>)
    ensures
        r@.len() == identities@.len(),
        forall|k: int|
            0 <= k < r@.len() ==> {
                &&& (#[trigger] r@[k]).item_id == identities@[k].item_id
                &&& r@[k].title == identities@[k].title
                &&& r@[k].artist == identities@[k].artist
                &&& r@[k].album == identities@[k].album
                &&& r@[k].duration_ms == identities@[k].duration_ms
                &&& r@[k].bindings@ == identities@[k].bindings@ + attached(identities@, bindings@, k)
                &&& r@[k].cherished == (identities@[k].cherished || cherished_at(identities@, cherished@, k))
            },
{
    let ghost start = identities@;
    let mut ids = identities;
    proof {
        assert forall|k: int| 0 <= k < start.len() implies attached(start, bindings@.take(0), k) == Seq::<BindingFacts>::empty() by {}
        assert forall|k: int| 0 <= k < start.len() implies #[trigger] start[k].bindings@ + Seq::<BindingFacts>::empty() == start[k].bindings@ by {
            assert(start[k].bindings@ + Seq::<BindingFacts>::empty() =~= start[k].bindings@);
        }
    }
    for n in 0..bindings.len()
        invariant
            ids@.len() == start.len(),
            forall|k: int|
                0 <= k < ids@.len() ==> {
                    &&& (#[trigger] ids@[k]).item_id == start[k].item_id
                    &&& ids@[k].title == start[k].title
                    &&& ids@[k].artist == start[k].artist
                    &&& ids@[k].album == start[k].album
                    &&& ids@[k].duration_ms == start[k].duration_ms
                    &&& ids@[k].bindings@ == start[k].bindings@ + attached(start, bindings@.take(n as int), k)
                    &&& ids@[k].cherished == start[k].cherished
                },
    {
        let (item_id, facts) = bindings[n];
        proof {
            assert(bindings@.take(n + 1).drop_last() == bindings@.take(n as int));
            assert(bindings@.take(n + 1).last() == (item_id, facts));
        }
        let slot = find_slot(&ids, item_id);
        proof {
            lemma_same_ids_same_slot(ids@, start, item_id);
        }
        let ghost before = ids@;
        match slot {
            Some(ix) => {
                ids[ix].bindings.push(facts);
            },
            None => {},
        }
        proof {
            assert forall|k: int| 0 <= k < ids@.len() implies {
                &&& (#[trigger] ids@[k]).item_id == start[k].item_id
                &&& ids@[k].title == start[k].title
                &&& ids@[k].artist == start[k].artist
                &&& ids@[k].album == start[k].album
                &&& ids@[k].duration_ms == start[k].duration_ms
                &&& ids@[k].bindings@ == start[k].bindings@ + attached(start, bindings@.take(n + 1), k)
                &&& ids@[k].cherished == start[k].cherished
            } by {
                let prev = attached(start, bindings@.take(n as int), k);
                if slot is Some && slot->0 as int == k {
                    assert(ids@[k].bindings@ == before[k].bindings@.push(facts));
                    assert(start[k].bindings@ + prev.push(facts) =~= (start[k].bindings@ + prev).push(facts));
                } else {
                    assert(ids@[k] == before[k]);
                }
            }
        }
    }
    proof {
        assert(bindings@.take(bindings@.len() as int) == bindings@);
        assert forall|k: int| 0 <= k < start.len() implies !cherished_at(start, cherished@.take(0), k) by {}
    }
    for n in 0..cherished.len()
        invariant
            ids@.len() == start.len(),
            forall|k: int|
                0 <= k < ids@.len() ==> {
                    &&& (#[trigger] ids@[k]).item_id == start[k].item_id
                    &&& ids@[k].title == start[k].title
                    &&& ids@[k].artist == start[k].artist
                    &&& ids@[k].album == start[k].album
                    &&& ids@[k].duration_ms == start[k].duration_ms
                    &&& ids@[k].bindings@ == start[k].bindings@ + attached(start, bindings@, k)
                    &&& ids@[k].cherished == (start[k].cherished || cherished_at(start, cherished@.take(n as int), k))
                },
    {
        let item_id = cherished[n];
        let slot = find_slot(&ids, item_id);
        proof {
            lemma_same_ids_same_slot(ids@, start, item_id);
        }
        let ghost before = ids@;
        match slot {
            Some(ix) => {
                ids[ix].cherished = true;
            },
            None => {},
        }
        proof {
            let t0 = cherished@.take(n as int);
            let t1 = cherished@.take(n + 1);
            assert(t1[n as int] == item_id);
            assert forall|k: int| 0 <= k < ids@.len() implies {
                &&& (#[trigger] ids@[k]).item_id == start[k].item_id
                &&& ids@[k].title == start[k].title
                &&& ids@[k].artist == start[k].artist
                &&& ids@[k].album == start[k].album
                &&& ids@[k].duration_ms == start[k].duration_ms
                &&& ids@[k].bindings@ == start[k].bindings@ + attached(start, bindings@, k)
                &&& ids@[k].cherished == (start[k].cherished || cherished_at(start, t1, k))
            } by {
                if !(slot is Some && slot->0 as int == k) {
                    assert(ids@[k] == before[k]);
                }
                if cherished_at(start, t0, k) {
                    let c = choose|c: int| 0 <= c < t0.len() && slot_of(start, t0[c]) == Some(k);
                    assert(t1[c] == t0[c]);
                }
                if cherished_at(start, t1, k) {
                    let c = choose|c: int| 0 <= c < t1.len() && slot_of(start, t1[c]) == Some(k);
                    if c < n {
                        assert(t0[c] == t1[c]);
                    }
                }
            }
        }
    }
    proof {
        assert(bindings@.take(bindings@.len() as int) == bindings@);
        assert(cherished@.take(cherished@.len() as int) == cherished@);
    }
    ids
}

proof fn lemma_same_ids_same_slot(a: Seq<Identity>, b: Seq<Identity>, id: i64)
    requires
        a.len() == b.len(),
        forall|k: int| 0 <= k < a.len() ==> #[trigger] a[k].item_id == b[k].item_id,
    ensures
        slot_of(a, id) == slot_of(b, id),
    decreases a.len(),
{
    if a.len() > 0 {
        lemma_same_ids_same_slot(a.drop_last(), b.drop_last(), id);
    }
}

} // verus!

verus! {

// ---------------------------------------------------------------------------
// Genres, playback locations, and folders with media
// ---------------------------------------------------------------------------

/// Whether a genre with lower-case key `key` is linked already.
pub open spec fn links_key(links: Seq<(Seq<char>, Seq<char>, int)>, key: Seq<char>) -> bool {
    exists|i: int| 0 <= i < links.len() && links[i].1 == key
}

/// The genres a track is linked to: each name trimmed, empty ones passed
/// over, with its lower-case key and the position it had in the list. Names
/// that differ only in case are one genre, linked at the first of them.
pub open spec fn genre_links_spec(genres: Seq<Seq<char>>) -> Seq<(Seq<char>, Seq<char>, int)>
    decreases genres.len(),
{
    if genres.len() == 0 {
        seq![]
    } else {
        let rest = genre_links_spec(genres.drop_last());
        let name = crate::text::trimmed(genres.last());
        if name.len() == 0 || links_key(rest, crate::text::lower(name)) {
            rest
        } else {
            rest.push((name, crate::text::lower(name), genres.len() - 1))
        }
    }
}

pub open spec fn link_views(v: Seq<(String, String, i64)>) -> Seq<(Seq<char>, Seq<char>, int)> {
    v.map_values(|e: (String, String, i64)| (e.0@, e.1@, e.2 as int))
}

/// The genre links of a track (see `genre_links_spec`), as name, key and position.
pub fn genre_links(genres: &[String]) -> (r: Vec<(String, String, i64)>)
    requires
        genres@.len() <= i64::MAX,
    ensures
        link_views(r@) == genre_links_spec(genres@.map_values(|g: String| g@)),
{
    let ghost views = genres@.map_values(|g: String| g@);
    let mut r: Vec<(String, String, i64)> = Vec::new();
    for i in 0..genres.len()
        invariant
            views == genres@.map_values(|g: String| g@),
            genres@.len() <= i64::MAX,
            link_views(r@) == genre_links_spec(views.take(i as int)),
    {
        proof {
            assert(views.take(i + 1).drop_last() == views.take(i as int));
            assert(views.take(i + 1).last() == genres@[i as int]@);
        }
        let chars = chars_of(genres[i].as_str());
        let name = crate::text::trim(&chars);
        if name.len() > 0 {
            let name_text = string_of(&name);
            let key = crate::text::to_lowercase(name_text.as_str());
            let mut seen = false;
            for j in 0..r.len()
                invariant
                    seen == exists|m: int| 0 <= m < j && r@[m].1@ == key@,
            {
                if r[j].1 == key {
                    seen = true;
                }
            }
            proof {
                let lv = link_views(r@);
                if seen {
                    let m = choose|m: int| 0 <= m < r@.len() && r@[m].1@ == key@;
                    assert(lv[m].1 == key@);
                } else {
                    assert forall|m: int| 0 <= m < lv.len() implies lv[m].1 != key@ by {
                        assert(lv[m].1 == r@[m].1@);
                    }
                }
            }
            if !seen {
                let ghost before = r@;
                r.push((name_text, key, i as i64));
                proof {
                    assert(link_views(r@) =~= link_views(before).push((name@, crate::text::lower(name@), i as int)));
                }
            }
        }
    }
    proof {
        assert(views.take(genres@.len() as int) == views);
    }
    r
}

/// Where a stored binding plays from: a file's own path, or the locator of
/// a server track.
pub open spec fn playback_locator_spec(
    local: bool,
    source_id: i64,
    key: Seq<char>,
    suffix: Option<Seq<char>>,
    content_type: Option<Seq<char>>,
) -> Seq<char> {
    if local {
        key
    } else {
        crate::remote::locator_spec(source_id, key, crate::remote::suffix_for_spec(suffix, content_type))
    }
}

/// The path a binding plays from, with the offset it starts at.
pub fn playback_locator(
    local: bool,
    source_id: i64,
    key: &str,
    start_offset_ms: i64,
    suffix: Option<&str>,
    content_type: Option<&str>,
) -> (r: (String, i64))
    ensures
        r.0@ == playback_locator_spec(
            local,
            source_id,
            key@,
            crate::remote::opt_str_view(suffix),
            crate::remote::opt_str_view(content_type),
        ),
        r.1 == start_offset_ms,
{
    if local {
        (key.to_owned(), start_offset_ms)
    } else {
        let s = crate::remote::suffix_for(suffix, content_type);
        (crate::remote::locator(source_id, key, s.as_str()), start_offset_ms)
    }
}

/// The prefix that paths under the folder `root` start with: the folder
/// with one separator at its end.
pub open spec fn folder_prefix_spec(root: Seq<char>, separator: char) -> Seq<char> {
    if root.len() > 0 && root.last() == separator {
        root
    } else {
        root.push(separator)
    }
}

pub fn folder_prefix(root: &str, separator: char) -> (r: String)
    ensures
        r@ == folder_prefix_spec(root@, separator),
{
    let mut chars = chars_of(root);
    let n = chars.len();
    if n > 0 && chars[n - 1] == separator {
        return root.to_owned();
    }
    chars.push(separator);
    string_of(&chars)
}

} // verus!
