//! Matching newly seen tracks (arrivals) against the identities the library
//! already holds (candidates), in three tiers of decreasing confidence.
use vstd::prelude::*;
use crate::text::{chars_of, collapse_whitespace, collapsed, lower, string_of, to_lowercase};

verus! {

pub const FILE_TOLERANCE_MS: i64 = 2_000;
pub const TAG_TOLERANCE_MS: i64 = 5_000;

/// The `start_offset_ms` that stands for a whole file (not a cue piece).
pub const WHOLE_FILE: i64 = -1;

/// How an arrival was recognised as a known item.
#[derive(Debug, Clone, Copy, PartialEq, Eq, Structural)]
pub enum Tier {
    File,
    Tags,
    Title,
}

/// The position of a tier in matching order: `File`, then `Tags`, then `Title`.
pub open spec fn tier_rank(t: Tier) -> int {
    match t {
        Tier::File => 0,
        Tier::Tags => 1,
        Tier::Title => 2,
    }
}

impl Tier {
    pub fn as_str(self) -> (r: &'static str)
        ensures
            r@ == match self {
                Tier::File => "file"@,
                Tier::Tags => "tags"@,
                Tier::Title => "title"@,
            },
    {
        match self {
            Tier::File => "file",
            Tier::Tags => "tags",
            Tier::Title => "title",
        }
    }
}

/// What matching knows of a track: its tags, its duration, the files
/// (size, piece offset) it is made of and the sources that hold it.
#[derive(Debug, Clone, Default, PartialEq, Eq)]
pub struct Descriptor {
    pub item_id: i64,
    pub title: String,
    pub artist: String,
    pub artist_aliases: Vec<String>,
    pub album: Option<String>,
    pub duration_ms: Option<i64>,
    pub files: Vec<(i64, i64)>,
    pub sources: Vec<i64>,
    pub live: bool,
}

// ---------------------------------------------------------------------------
// Keys
// ---------------------------------------------------------------------------

/// A tag value reduced for comparison: words joined by single spaces, lower case.
pub open spec fn norm(s: Seq<char>) -> Seq<char> {
    lower(collapsed(s))
}

pub fn normalize_tag(value: &str) -> (r: String)
    ensures
        r@ == norm(value@),
{
    let chars = chars_of(value);
    let words = collapse_whitespace(&chars);
    let joined = string_of(&words);
    to_lowercase(joined.as_str())
}

pub open spec fn album_text(album: Option<String>) -> Seq<char> {
    match album {
        Some(a) => a@,
        None => Seq::empty(),
    }
}

/// The texts matching compares, already normalized (see `normalize_tag`):
/// the artist credits (the main artist first, then the aliases), the title
/// and the album.
#[derive(Debug, Clone, Default, PartialEq, Eq)]
pub struct NormalTags {
    pub credits: Vec<String>,
    pub title: String,
    pub album: String,
}

/// The texts of a `NormalTags`.
pub struct TagTexts {
    pub credits: Seq<Seq<char>>,
    pub title: Seq<char>,
    pub album: Seq<char>,
}

pub open spec fn tag_texts(n: NormalTags) -> TagTexts {
    TagTexts {
        credits: Seq::new(n.credits@.len(), |k: int| n.credits@[k]@),
        title: n.title@,
        album: n.album@,
    }
}

pub open spec fn texts_view(ns: Seq<NormalTags>) -> Seq<TagTexts> {
    Seq::new(ns.len(), |i: int| tag_texts(ns[i]))
}

/// The normalized texts of a descriptor.
pub open spec fn normalized_texts(d: Descriptor) -> TagTexts {
    TagTexts {
        credits: Seq::new(credit_count(d) as nat, |k: int| norm(credit(d, k))),
        title: norm(d.title@),
        album: norm(album_text(d.album)),
    }
}

/// The texts of the arrivals and of the candidates.
pub struct MatchTexts {
    pub arrivals: Seq<TagTexts>,
    pub candidates: Seq<TagTexts>,
}

/// The texts `match_tracks` compares: those of the descriptors, normalized.
pub open spec fn normalized_match_texts(arrivals: Seq<Descriptor>, candidates: Seq<Descriptor>) -> MatchTexts {
    MatchTexts {
        arrivals: Seq::new(arrivals.len(), |i: int| normalized_texts(arrivals[i])),
        candidates: Seq::new(candidates.len(), |i: int| normalized_texts(candidates[i])),
    }
}

/// The (artist, title, album) key of normalized texts; none without an artist.
pub open spec fn tags_key_of(artist: Seq<char>, title: Seq<char>, album: Seq<char>) -> Option<
    (Seq<char>, Seq<char>, Seq<char>),
> {
    if artist.len() == 0 {
        None
    } else {
        Some((artist, title, album))
    }
}

/// The (artist, title) key of normalized texts; none without an artist.
pub open spec fn title_key_of(artist: Seq<char>, title: Seq<char>) -> Option<
    (Seq<char>, Seq<char>),
> {
    if artist.len() == 0 {
        None
    } else {
        Some((artist, title))
    }
}

pub open spec fn key3_view(k: Option<(String, String, String)>) -> Option<
    (Seq<char>, Seq<char>, Seq<char>),
> {
    match k {
        Some((a, b, c)) => Some((a@, b@, c@)),
        None => None,
    }
}

pub open spec fn key2_view(k: Option<(String, String)>) -> Option<(Seq<char>, Seq<char>)> {
    match k {
        Some((a, b)) => Some((a@, b@)),
        None => None,
    }
}

fn tags_key(artist: &String, title: &String, album: &String) -> (r: Option<
    (String, String, String),
>)
    ensures
        key3_view(r) == tags_key_of(artist@, title@, album@),
{
    if artist.as_str().is_empty() {
        return None;
    }
    Some((artist.clone(), title.clone(), album.clone()))
}

fn title_key(artist: &String, title: &String) -> (r: Option<(String, String)>)
    ensures
        key2_view(r) == title_key_of(artist@, title@),
{
    if artist.as_str().is_empty() {
        return None;
    }
    Some((artist.clone(), title.clone()))
}

/// The normalized texts of a descriptor.
pub fn normal_tags(d: &Descriptor) -> (r: NormalTags)
    ensures
        tag_texts(r) == normalized_texts(*d),
{
    let mut credits: Vec<String> = Vec::new();
    credits.push(normalize_tag(d.artist.as_str()));
    for k in 0..d.artist_aliases.len()
        invariant
            credits@.len() == k + 1,
            forall|j: int| 0 <= j < credits@.len() ==> (#[trigger] credits@[j])@ == norm(credit(*d, j)),
    {
        credits.push(normalize_tag(d.artist_aliases[k].as_str()));
    }
    let album = match &d.album {
        Some(a) => normalize_tag(a.as_str()),
        None => normalize_tag(""),
    };
    proof {
        reveal_strlit("");
    }
    let r = NormalTags { credits, title: normalize_tag(d.title.as_str()), album };
    assert(tag_texts(r).credits =~= normalized_texts(*d).credits);
    r
}

fn same_key3(x: &Option<(String, String, String)>, y: &Option<(String, String, String)>) -> (r:
    bool)
    ensures
        r == (key3_view(*x) is Some && key3_view(*x) == key3_view(*y)),
{
    match (x, y) {
        (Some((a1, b1, c1)), Some((a2, b2, c2))) => *a1 == *a2 && *b1 == *b2 && *c1 == *c2,
        _ => false,
    }
}

fn same_key2(x: &Option<(String, String)>, y: &Option<(String, String)>) -> (r: bool)
    ensures
        r == (key2_view(*x) is Some && key2_view(*x) == key2_view(*y)),
{
    match (x, y) {
        (Some((a1, b1)), Some((a2, b2))) => *a1 == *a2 && *b1 == *b2,
        _ => false,
    }
}

// ---------------------------------------------------------------------------
// What a pair of descriptors has in common
// ---------------------------------------------------------------------------

/// The `k`-th artist credit of `d`: its main artist, then its aliases.
pub open spec fn credit(d: Descriptor, k: int) -> Seq<char> {
    if k == 0 {
        d.artist@
    } else {
        d.artist_aliases@[k - 1]@
    }
}

pub open spec fn credit_count(d: Descriptor) -> int {
    d.artist_aliases@.len() + 1int
}

pub open spec fn shares_file(a: Descriptor, b: Descriptor) -> bool {
    exists|i: int, j: int|
        0 <= i < a.files@.len() && 0 <= j < b.files@.len() && a.files@[i] == b.files@[j]
}

pub open spec fn shares_source(a: Descriptor, b: Descriptor) -> bool {
    exists|i: int, j: int|
        0 <= i < a.sources@.len() && 0 <= j < b.sources@.len() && a.sources@[i]
            == b.sources@[j]
}

/// Whether the arrival `a` finds the candidate `c` under the key of tier `t`.
/// (`at` and `ct` are the normalized texts of `a` and `c`; a candidate is
/// found by its main artist only.)
pub open spec fn key_matches(t: Tier, a: Descriptor, c: Descriptor, at: TagTexts, ct: TagTexts) -> bool {
    match t {
        Tier::File => exists|i: int, j: int|
            0 <= i < a.files@.len() && 0 <= j < c.files@.len() && a.files@[i] == c.files@[j]
                && c.files@[j].0 > 0,
        Tier::Tags => exists|k: int|
            0 <= k < at.credits.len() && #[trigger] tags_key_of(at.credits[k], at.title, at.album)
                is Some && tags_key_of(at.credits[k], at.title, at.album) == tags_key_of(
                ct.credits[0],
                ct.title,
                ct.album,
            ),
        Tier::Title => exists|k: int|
            0 <= k < at.credits.len() && #[trigger] title_key_of(at.credits[k], at.title) is Some
                && title_key_of(at.credits[k], at.title) == title_key_of(ct.credits[0], ct.title),
    }
}

/// The distance between two known durations.
pub open spec fn gap(a: Option<i64>, b: Option<i64>) -> Option<int> {
    match (a, b) {
        (Some(x), Some(y)) => Some(
            if x >= y {
                x - y
            } else {
                y - x
            },
        ),
        _ => None,
    }
}

/// Whether a duration gap is close enough for tier `t`.
pub open spec fn passes(t: Tier, g: Option<int>) -> bool {
    match (t, g) {
        (Tier::File, Some(g)) => g <= FILE_TOLERANCE_MS,
        (Tier::Tags, Some(g)) => g <= TAG_TOLERANCE_MS,
        (Tier::Title, Some(g)) => g <= TAG_TOLERANCE_MS,
        (Tier::File, None) => true,
        (Tier::Tags, None) => true,
        (Tier::Title, None) => false,
    }
}

/// Whether tier `t` may match arrival `a` to candidate `c` at all.
pub open spec fn admissible(t: Tier, a: Descriptor, c: Descriptor, at: TagTexts, ct: TagTexts) -> bool {
    &&& key_matches(t, a, c, at, ct)
    &&& c.item_id != a.item_id
    &&& !shares_source(a, c)
    &&& !(t == Tier::Title && c.live)
    &&& passes(t, gap(a.duration_ms, c.duration_ms))
}

/// The order in which competing pairs are served: a shared file first, then
/// the closest duration, then the lowest item id, then the earliest arrival.
pub open spec fn rank(a: Descriptor, c: Descriptor, ai: int, ci: int) -> (bool, int, int, int, int) {
    (
        !shares_file(a, c),
        match gap(a.duration_ms, c.duration_ms) {
            Some(g) => g,
            None => i64::MAX as int,
        },
        c.item_id as int,
        ai,
        ci,
    )
}

pub open spec fn rank_lt(x: (bool, int, int, int, int), y: (bool, int, int, int, int)) -> bool {
    ||| (!x.0 && y.0)
    ||| (x.0 == y.0 && x.1 < y.1)
    ||| (x.0 == y.0 && x.1 == y.1 && x.2 < y.2)
    ||| (x.0 == y.0 && x.1 == y.1 && x.2 == y.2 && x.3 < y.3)
    ||| (x.0 == y.0 && x.1 == y.1 && x.2 == y.2 && x.3 == y.3 && x.4 < y.4)
}

// ---------------------------------------------------------------------------
// Claims: which candidate (by index) each arrival took, and in which tier
// ---------------------------------------------------------------------------

/// The candidate index of a claim.
pub open spec fn claim_cand(c: Option<(int, Tier)>) -> int {
    match c {
        Some((ci, _)) => ci,
        None => -1,
    }
}

/// The tier of a claim.
pub open spec fn claim_tier(c: Option<(int, Tier)>) -> Tier {
    match c {
        Some((_, t)) => t,
        None => Tier::File,
    }
}

pub open spec fn arrival_free(cl: Seq<Option<(int, Tier)>>, ai: int, t: Tier) -> bool {
    match cl[ai] {
        None => true,
        Some((_, u)) => tier_rank(u) >= tier_rank(t),
    }
}

pub open spec fn cand_free(cl: Seq<Option<(int, Tier)>>, ci: int, t: Tier) -> bool {
    forall|aj: int|
        0 <= aj < cl.len() && (#[trigger] cl[aj]) is Some && claim_cand(cl[aj]) == ci ==> tier_rank(
            claim_tier(cl[aj]),
        ) >= tier_rank(t)
}

/// A pair that tier `t` considers: admissible, with neither side claimed by
/// an earlier tier.
pub open spec fn open_pair(
    arrivals: Seq<Descriptor>,
    candidates: Seq<Descriptor>,
    tx: MatchTexts,
    cl: Seq<Option<(int, Tier)>>,
    t: Tier,
    ai: int,
    ci: int,
) -> bool {
    &&& 0 <= ai < arrivals.len()
    &&& 0 <= ci < candidates.len()
    &&& admissible(t, arrivals[ai], candidates[ci], tx.arrivals[ai], tx.candidates[ci])
    &&& arrival_free(cl, ai, t)
    &&& cand_free(cl, ci, t)
}

pub open spec fn pair_rank(
    arrivals: Seq<Descriptor>,
    candidates: Seq<Descriptor>,
    ai: int,
    ci: int,
) -> (bool, int, int, int, int) {
    rank(arrivals[ai], candidates[ci], ai, ci)
}

/// The pair (`ai`, `ci`) lost in tier `t` to a better-ranked claim of the same
/// tier on one of its two sides.
pub open spec fn blocked(
    arrivals: Seq<Descriptor>,
    candidates: Seq<Descriptor>,
    cl: Seq<Option<(int, Tier)>>,
    t: Tier,
    ai: int,
    ci: int,
) -> bool {
    ||| (0 <= ai < cl.len() && (cl[ai] matches Some((cj, u)) && u == t && rank_lt(
        pair_rank(arrivals, candidates, ai, cj),
        pair_rank(arrivals, candidates, ai, ci),
    )))
    ||| exists|aj: int|
        0 <= aj < cl.len() && #[trigger] cl[aj] == Some((ci, t)) && rank_lt(
            pair_rank(arrivals, candidates, aj, ci),
            pair_rank(arrivals, candidates, ai, ci),
        )
}

/// Every claim is an admissible pair and no candidate is claimed twice.
pub open spec fn claims_valid(
    arrivals: Seq<Descriptor>,
    candidates: Seq<Descriptor>,
    tx: MatchTexts,
    cl: Seq<Option<(int, Tier)>>,
) -> bool {
    &&& cl.len() == arrivals.len()
    &&& forall|ai: int|
        0 <= ai < cl.len() && (#[trigger] cl[ai]) is Some ==> 0 <= claim_cand(cl[ai]) < candidates.len()
            && admissible(
                claim_tier(cl[ai]),
                arrivals[ai],
                candidates[claim_cand(cl[ai])],
                tx.arrivals[ai],
                tx.candidates[claim_cand(cl[ai])],
            )
    &&& forall|ai: int, aj: int|
        0 <= ai < cl.len() && 0 <= aj < cl.len() && ai != aj && (#[trigger] cl[ai]) is Some && (
        #[trigger] cl[aj]) is Some ==> claim_cand(cl[ai]) != claim_cand(cl[aj])
}

/// The greedy matching of the tiers in order: within a tier, pairs are served
/// best rank first and a pair is taken when both sides are still free. Hence
/// every open pair that was not taken lost to a better one on one side.
pub open spec fn greedy_claims(
    arrivals: Seq<Descriptor>,
    candidates: Seq<Descriptor>,
    tx: MatchTexts,
    cl: Seq<Option<(int, Tier)>>,
) -> bool {
    &&& claims_valid(arrivals, candidates, tx, cl)
    &&& forall|t: Tier, ai: int, ci: int|
        #[trigger] open_pair(arrivals, candidates, tx, cl, t, ai, ci) && cl[ai] != Some((ci, t))
            ==> blocked(arrivals, candidates, cl, t, ai, ci)
}

/// The answer for one arrival: the item id of the claimed candidate and the tier.
pub open spec fn claim_answer(candidates: Seq<Descriptor>, c: Option<(int, Tier)>) -> Option<
    (i64, Tier),
> {
    match c {
        Some((ci, t)) => Some((candidates[ci].item_id, t)),
        None => None,
    }
}


pub open spec fn claims_view(v: Seq<Option<(usize, Tier)>>) -> Seq<Option<(int, Tier)>> {
    Seq::new(
        v.len(),
        |i: int|
            match v[i] {
                Some((ci, t)) => Some((ci as int, t)),
                None => None,
            },
    )
}

// ---------------------------------------------------------------------------
// Executable pieces
// ---------------------------------------------------------------------------

fn duration_gap(a: Option<i64>, b: Option<i64>) -> (r: Option<i128>)
    ensures
        match r {
            Some(g) => gap(a, b) == Some(g as int),
            None => gap(a, b) is None,
        },
{
    match (a, b) {
        (Some(x), Some(y)) => {
            let d = x as i128 - y as i128;
            Some(
                if d >= 0 {
                    d
                } else {
                    -d
                },
            )
        },
        _ => None,
    }
}

fn passes_exec(t: Tier, g: Option<i128>) -> (r: bool)
    ensures
        r == passes(
            t,
            match g {
                Some(x) => Some(x as int),
                None => None,
            },
        ),
{
    match (t, g) {
        (Tier::File, Some(g)) => g <= FILE_TOLERANCE_MS as i128,
        (Tier::Tags, Some(g)) => g <= TAG_TOLERANCE_MS as i128,
        (Tier::Title, Some(g)) => g <= TAG_TOLERANCE_MS as i128,
        (Tier::File, None) => true,
        (Tier::Tags, None) => true,
        (Tier::Title, None) => false,
    }
}

fn shares_file_exec(a: &Descriptor, b: &Descriptor) -> (r: bool)
    ensures
        r == shares_file(*a, *b),
{
    for i in 0..a.files.len()
        invariant
            forall|x: int, y: int|
                0 <= x < i && 0 <= y < b.files@.len() ==> a.files@[x] != b.files@[y],
    {
        for j in 0..b.files.len()
            invariant
                0 <= i < a.files@.len(),
                forall|x: int, y: int|
                    0 <= x < i && 0 <= y < b.files@.len() ==> a.files@[x] != b.files@[y],
                forall|y: int| 0 <= y < j ==> a.files@[i as int] != b.files@[y],
        {
            if a.files[i].0 == b.files[j].0 && a.files[i].1 == b.files[j].1 {
                assert(a.files@[i as int] == b.files@[j as int]);
                return true;
            }
        }
    }
    false
}

fn shares_source_exec(a: &Descriptor, b: &Descriptor) -> (r: bool)
    ensures
        r == shares_source(*a, *b),
{
    for i in 0..a.sources.len()
        invariant
            forall|x: int, y: int|
                0 <= x < i && 0 <= y < b.sources@.len() ==> a.sources@[x] != b.sources@[y],
    {
        for j in 0..b.sources.len()
            invariant
                0 <= i < a.sources@.len(),
                forall|x: int, y: int|
                    0 <= x < i && 0 <= y < b.sources@.len() ==> a.sources@[x] != b.sources@[y],
                forall|y: int| 0 <= y < j ==> a.sources@[i as int] != b.sources@[y],
        {
            if a.sources[i] == b.sources[j] {
                return true;
            }
        }
    }
    false
}

fn file_key_matches(a: &Descriptor, c: &Descriptor) -> (r: bool)
    ensures
        forall|at: TagTexts, ct: TagTexts| r == #[trigger] key_matches(Tier::File, *a, *c, at, ct),
{
    for i in 0..a.files.len()
        invariant
            forall|x: int, y: int|
                0 <= x < i && 0 <= y < c.files@.len() ==> !(a.files@[x] == c.files@[y]
                    && c.files@[y].0 > 0),
    {
        for j in 0..c.files.len()
            invariant
                0 <= i < a.files@.len(),
                forall|x: int, y: int|
                    0 <= x < i && 0 <= y < c.files@.len() ==> !(a.files@[x] == c.files@[y]
                        && c.files@[y].0 > 0),
                forall|y: int|
                    0 <= y < j ==> !(a.files@[i as int] == c.files@[y] && c.files@[y].0 > 0),
        {
            if a.files[i].0 == c.files[j].0 && a.files[i].1 == c.files[j].1 && c.files[j].0 > 0 {
                assert(a.files@[i as int] == c.files@[j as int]);
                return true;
            }
        }
    }
    false
}

/// The tag keys of every artist credit of an arrival.
fn credit_tag_keys(n: &NormalTags) -> (r: Vec<Option<(String, String, String)>>)
    ensures
        r@.len() == tag_texts(*n).credits.len(),
        forall|k: int|
            0 <= k < r@.len() ==> key3_view(#[trigger] r@[k]) == tags_key_of(
                tag_texts(*n).credits[k],
                tag_texts(*n).title,
                tag_texts(*n).album,
            ),
{
    let mut r: Vec<Option<(String, String, String)>> = Vec::new();
    for i in 0..n.credits.len()
        invariant
            r@.len() == i,
            forall|k: int|
                0 <= k < r@.len() ==> key3_view(#[trigger] r@[k]) == tags_key_of(
                    n.credits@[k]@,
                    n.title@,
                    n.album@,
                ),
    {
        r.push(tags_key(&n.credits[i], &n.title, &n.album));
    }
    r
}

/// The title keys of every artist credit of an arrival.
fn credit_title_keys(n: &NormalTags) -> (r: Vec<Option<(String, String)>>)
    ensures
        r@.len() == tag_texts(*n).credits.len(),
        forall|k: int|
            0 <= k < r@.len() ==> key2_view(#[trigger] r@[k]) == title_key_of(
                tag_texts(*n).credits[k],
                tag_texts(*n).title,
            ),
{
    let mut r: Vec<Option<(String, String)>> = Vec::new();
    for i in 0..n.credits.len()
        invariant
            r@.len() == i,
            forall|k: int|
                0 <= k < r@.len() ==> key2_view(#[trigger] r@[k]) == title_key_of(
                    n.credits@[k]@,
                    n.title@,
                ),
    {
        r.push(title_key(&n.credits[i], &n.title));
    }
    r
}

fn tags_key_matches(
    a: &Descriptor,
    c: &Descriptor,
    akeys: &Vec<Option<(String, String, String)>>,
    ckey: &Option<(String, String, String)>,
    Ghost(at): Ghost<TagTexts>,
    Ghost(ct): Ghost<TagTexts>,
) -> (r: bool)
    requires
        akeys@.len() == at.credits.len(),
        forall|k: int|
            0 <= k < akeys@.len() ==> key3_view(#[trigger] akeys@[k]) == tags_key_of(
                at.credits[k],
                at.title,
                at.album,
            ),
        key3_view(*ckey) == tags_key_of(ct.credits[0], ct.title, ct.album),
    ensures
        r == key_matches(Tier::Tags, *a, *c, at, ct),
{
    for k in 0..akeys.len()
        invariant
            akeys@.len() == at.credits.len(),
            forall|k: int|
                0 <= k < akeys@.len() ==> key3_view(#[trigger] akeys@[k]) == tags_key_of(
                    at.credits[k],
                    at.title,
                    at.album,
                ),
            key3_view(*ckey) == tags_key_of(ct.credits[0], ct.title, ct.album),
            forall|x: int|
                0 <= x < k ==> !(key3_view(akeys@[x]) is Some && key3_view(akeys@[x])
                    == key3_view(*ckey)),
    {
        if same_key3(&akeys[k], ckey) {
            assert(tags_key_of(at.credits[k as int], at.title, at.album) is Some);
            return true;
        }
    }
    assert forall|x: int| 0 <= x < at.credits.len() implies !(#[trigger] tags_key_of(
        at.credits[x],
        at.title,
        at.album,
    ) is Some && tags_key_of(at.credits[x], at.title, at.album) == tags_key_of(
        ct.credits[0],
        ct.title,
        ct.album,
    )) by {
        assert(key3_view(akeys@[x]) == tags_key_of(at.credits[x], at.title, at.album));
    }
    false
}

fn title_key_matches(
    a: &Descriptor,
    c: &Descriptor,
    akeys: &Vec<Option<(String, String)>>,
    ckey: &Option<(String, String)>,
    Ghost(at): Ghost<TagTexts>,
    Ghost(ct): Ghost<TagTexts>,
) -> (r: bool)
    requires
        akeys@.len() == at.credits.len(),
        forall|k: int|
            0 <= k < akeys@.len() ==> key2_view(#[trigger] akeys@[k]) == title_key_of(
                at.credits[k],
                at.title,
            ),
        key2_view(*ckey) == title_key_of(ct.credits[0], ct.title),
    ensures
        r == key_matches(Tier::Title, *a, *c, at, ct),
{
    for k in 0..akeys.len()
        invariant
            akeys@.len() == at.credits.len(),
            forall|k: int|
                0 <= k < akeys@.len() ==> key2_view(#[trigger] akeys@[k]) == title_key_of(
                    at.credits[k],
                    at.title,
                ),
            key2_view(*ckey) == title_key_of(ct.credits[0], ct.title),
            forall|x: int|
                0 <= x < k ==> !(key2_view(akeys@[x]) is Some && key2_view(akeys@[x])
                    == key2_view(*ckey)),
    {
        if same_key2(&akeys[k], ckey) {
            assert(title_key_of(at.credits[k as int], at.title) is Some);
            return true;
        }
    }
    assert forall|x: int| 0 <= x < at.credits.len() implies !(#[trigger] title_key_of(
        at.credits[x],
        at.title,
    ) is Some && title_key_of(at.credits[x], at.title) == title_key_of(ct.credits[0], ct.title)) by {
        assert(key2_view(akeys@[x]) == title_key_of(at.credits[x], at.title));
    }
    false
}

fn admissible_exec(
    t: Tier,
    a: &Descriptor,
    c: &Descriptor,
    akeys3: &Vec<Option<(String, String, String)>>,
    akeys2: &Vec<Option<(String, String)>>,
    ckey3: &Option<(String, String, String)>,
    ckey2: &Option<(String, String)>,
    Ghost(at): Ghost<TagTexts>,
    Ghost(ct): Ghost<TagTexts>,
) -> (r: bool)
    requires
        akeys3@.len() == at.credits.len(),
        forall|k: int|
            0 <= k < akeys3@.len() ==> key3_view(#[trigger] akeys3@[k]) == tags_key_of(
                at.credits[k],
                at.title,
                at.album,
            ),
        key3_view(*ckey3) == tags_key_of(ct.credits[0], ct.title, ct.album),
        akeys2@.len() == at.credits.len(),
        forall|k: int|
            0 <= k < akeys2@.len() ==> key2_view(#[trigger] akeys2@[k]) == title_key_of(
                at.credits[k],
                at.title,
            ),
        key2_view(*ckey2) == title_key_of(ct.credits[0], ct.title),
    ensures
        r == admissible(t, *a, *c, at, ct),
{
    let keyed = match t {
        Tier::File => file_key_matches(a, c),
        Tier::Tags => tags_key_matches(a, c, akeys3, ckey3, Ghost(at), Ghost(ct)),
        Tier::Title => title_key_matches(a, c, akeys2, ckey2, Ghost(at), Ghost(ct)),
    };
    if !keyed || c.item_id == a.item_id || shares_source_exec(a, c) || (t == Tier::Title
        && c.live) {
        return false;
    }
    passes_exec(t, duration_gap(a.duration_ms, c.duration_ms))
}

/// A pair of a tier with the parts of its rank.
struct Pair {
    ai: usize,
    ci: usize,
    far: bool,
    gap: i128,
    item: i64,
}

spec fn pair_rank_of(p: Pair) -> (bool, int, int, int, int) {
    (p.far, p.gap as int, p.item as int, p.ai as int, p.ci as int)
}

fn pair_before(p: &Pair, q: &Pair) -> (r: bool)
    ensures
        r == rank_lt(pair_rank_of(*p), pair_rank_of(*q)),
{
    (!p.far && q.far) || (p.far == q.far && p.gap < q.gap) || (p.far == q.far && p.gap == q.gap
        && p.item < q.item) || (p.far == q.far && p.gap == q.gap && p.item == q.item && p.ai
        < q.ai) || (p.far == q.far && p.gap == q.gap && p.item == q.item && p.ai == q.ai && p.ci
        < q.ci)
}

spec fn pair_ok(
    arrivals: Seq<Descriptor>,
    candidates: Seq<Descriptor>,
    tx: MatchTexts,
    v0: Seq<Option<(int, Tier)>>,
    t: Tier,
    p: Pair,
) -> bool {
    &&& open_pair(arrivals, candidates, tx, v0, t, p.ai as int, p.ci as int)
    &&& pair_rank_of(p) == pair_rank(arrivals, candidates, p.ai as int, p.ci as int)
}

/// All open pairs of tier `u` that were not taken lost to a better one.
pub open spec fn tier_done(
    arrivals: Seq<Descriptor>,
    candidates: Seq<Descriptor>,
    tx: MatchTexts,
    cl: Seq<Option<(int, Tier)>>,
    u: Tier,
) -> bool {
    forall|ai: int, ci: int|
        #[trigger] open_pair(arrivals, candidates, tx, cl, u, ai, ci) && cl[ai] != Some((ci, u))
            ==> blocked(arrivals, candidates, cl, u, ai, ci)
}

spec fn claims_below(cl: Seq<Option<(int, Tier)>>, bound: int) -> bool {
    forall|ai: int|
        0 <= ai < cl.len() && (#[trigger] cl[ai]) is Some ==> tier_rank(claim_tier(cl[ai]))
            < bound
}

spec fn taken_ok(cl: Seq<Option<(int, Tier)>>, taken: Seq<bool>) -> bool {
    forall|ci: int|
        0 <= ci < taken.len() ==> (#[trigger] taken[ci] <==> exists|aj: int|
            0 <= aj < cl.len() && (#[trigger] cl[aj]) is Some && claim_cand(cl[aj]) == ci)
}

spec fn nones(s: Seq<Option<(int, Tier)>>) -> nat
    decreases s.len(),
{
    if s.len() == 0 {
        0
    } else {
        nones(s.drop_last()) + if s.last() is None {
            1nat
        } else {
            0nat
        }
    }
}

proof fn lemma_nones_update(s: Seq<Option<(int, Tier)>>, i: int, v: Option<(int, Tier)>)
    requires
        0 <= i < s.len(),
        s[i] is None,
        v is Some,
    ensures
        nones(s.update(i, v)) + 1 == nones(s),
    decreases s.len(),
{
    let s2 = s.update(i, v);
    if i < s.len() - 1 {
        assert(s2.drop_last() == s.drop_last().update(i, v));
        lemma_nones_update(s.drop_last(), i, v);
    } else {
        assert(s2.drop_last() == s.drop_last());
    }
}

/// Adding one claim of tier `t` leaves the open pairs of tiers up to `t`
/// as they were, and keeps every pair that was blocked blocked.
proof fn lemma_claim_step(
    arrivals: Seq<Descriptor>,
    candidates: Seq<Descriptor>,
    tx: MatchTexts,
    cl: Seq<Option<(int, Tier)>>,
    ai: int,
    ci: int,
    t: Tier,
)
    requires
        cl.len() == arrivals.len(),
        0 <= ai < cl.len(),
        0 <= ci < candidates.len(),
        cl[ai] is None,
        forall|aj: int|
            0 <= aj < cl.len() && (#[trigger] cl[aj]) is Some ==> claim_cand(cl[aj]) != ci,
        admissible(t, arrivals[ai], candidates[ci], tx.arrivals[ai], tx.candidates[ci]),
        claims_valid(arrivals, candidates, tx, cl),
    ensures
        claims_valid(arrivals, candidates, tx, cl.update(ai, Some((ci, t)))),
        forall|u: Tier, x: int, y: int|
            tier_rank(u) <= tier_rank(t) ==> (open_pair(arrivals, candidates, tx,
                cl.update(ai, Some((ci, t))),
                u,
                x,
                y,
            ) == #[trigger] open_pair(arrivals, candidates, tx, cl, u, x, y)),
        forall|u: Tier, x: int, y: int|
            #[trigger] blocked(arrivals, candidates, cl, u, x, y) ==> blocked(
                arrivals,
                candidates,
                cl.update(ai, Some((ci, t))),
                u,
                x,
                y,
            ),
{
    let cl2 = cl.update(ai, Some((ci, t)));
    assert forall|u: Tier, x: int, y: int|
        tier_rank(u) <= tier_rank(t) implies (open_pair(arrivals, candidates, tx, cl2, u, x, y)
        == #[trigger] open_pair(arrivals, candidates, tx, cl, u, x, y)) by {
        if 0 <= x < arrivals.len() && 0 <= y < candidates.len() {
            assert(arrival_free(cl2, x, u) == arrival_free(cl, x, u));
            if cand_free(cl, y, u) {
                assert forall|aj: int|
                    0 <= aj < cl2.len() && (#[trigger] cl2[aj]) is Some && claim_cand(cl2[aj])
                        == y implies tier_rank(claim_tier(cl2[aj])) >= tier_rank(u) by {
                    if aj != ai {
                        assert(cl2[aj] == cl[aj]);
                    }
                }
            }
            if cand_free(cl2, y, u) {
                assert forall|aj: int|
                    0 <= aj < cl.len() && (#[trigger] cl[aj]) is Some && claim_cand(cl[aj])
                        == y implies tier_rank(claim_tier(cl[aj])) >= tier_rank(u) by {
                    assert(aj != ai);
                    assert(cl2[aj] == cl[aj]);
                }
            }
        }
    }
    assert forall|u: Tier, x: int, y: int|
        #[trigger] blocked(arrivals, candidates, cl, u, x, y) implies blocked(
        arrivals,
        candidates,
        cl2,
        u,
        x,
        y,
    ) by {
        if 0 <= x < cl.len() && (cl[x] matches Some((cj, w)) && w == u && rank_lt(
            pair_rank(arrivals, candidates, x, cj),
            pair_rank(arrivals, candidates, x, y),
        )) {
            assert(x != ai);
            assert(cl2[x] == cl[x]);
        } else {
            let aj = choose|aj: int|
                0 <= aj < cl.len() && #[trigger] cl[aj] == Some((y, u)) && rank_lt(
                    pair_rank(arrivals, candidates, aj, y),
                    pair_rank(arrivals, candidates, x, y),
                );
            assert(aj != ai);
            assert(cl2[aj] == cl[aj]);
        }
    }
    assert forall|x: int|
        0 <= x < cl2.len() && (#[trigger] cl2[x]) is Some implies 0 <= claim_cand(cl2[x])
        < candidates.len() && admissible(
            claim_tier(cl2[x]),
            arrivals[x],
            candidates[claim_cand(cl2[x])],
            tx.arrivals[x],
            tx.candidates[claim_cand(cl2[x])],
        ) by {
        if x != ai {
            assert(cl2[x] == cl[x]);
        }
    }
    assert forall|x: int, y: int|
        0 <= x < cl2.len() && 0 <= y < cl2.len() && x != y && (#[trigger] cl2[x]) is Some && (
        #[trigger] cl2[y]) is Some implies claim_cand(cl2[x]) != claim_cand(cl2[y]) by {
        if x != ai && y != ai {
            assert(cl2[x] == cl[x]);
            assert(cl2[y] == cl[y]);
        } else if x == ai {
            assert(cl2[y] == cl[y]);
        } else {
            assert(cl2[x] == cl[x]);
        }
    }
}

proof fn lemma_rank_total(
    arrivals: Seq<Descriptor>,
    candidates: Seq<Descriptor>,
    a1: int,
    c1: int,
    a2: int,
    c2: int,
)
    requires
        a1 != a2 || c1 != c2,
        !rank_lt(pair_rank(arrivals, candidates, a1, c1), pair_rank(arrivals, candidates, a2, c2)),
    ensures
        rank_lt(pair_rank(arrivals, candidates, a2, c2), pair_rank(arrivals, candidates, a1, c1)),
{
}


/// The texts of the arrivals and candidates, from their normalized tags.
pub open spec fn match_texts(atexts: Seq<NormalTags>, ctexts: Seq<NormalTags>) -> MatchTexts {
    MatchTexts { arrivals: texts_view(atexts), candidates: texts_view(ctexts) }
}

/// The candidates' keys, made from their texts.
spec fn keys_ok(
    ctexts: Seq<TagTexts>,
    ctags: Seq<Option<(String, String, String)>>,
    ctitles: Seq<Option<(String, String)>>,
) -> bool {
    &&& ctags.len() == ctexts.len()
    &&& ctitles.len() == ctexts.len()
    &&& forall|ci: int|
        0 <= ci < ctexts.len() ==> key3_view(#[trigger] ctags[ci]) == tags_key_of(
            ctexts[ci].credits[0],
            ctexts[ci].title,
            ctexts[ci].album,
        )
    &&& forall|ci: int|
        0 <= ci < ctexts.len() ==> key2_view(#[trigger] ctitles[ci]) == title_key_of(
            ctexts[ci].credits[0],
            ctexts[ci].title,
        )
}

/// What the tiers need of their inputs: texts for every descriptor.
spec fn texts_ok(
    arrivals: Seq<Descriptor>,
    candidates: Seq<Descriptor>,
    atexts: Seq<NormalTags>,
    tx: MatchTexts,
) -> bool {
    &&& atexts.len() == arrivals.len()
    &&& tx.arrivals == texts_view(atexts)
    &&& tx.candidates.len() == candidates.len()
}

spec fn live(cl: Seq<Option<(int, Tier)>>, taken: Seq<bool>, p: Pair) -> bool {
    cl[p.ai as int] is None && !taken[p.ci as int]
}

/// The open pairs of tier `t`, given the claims of the earlier tiers.
fn tier_pairs(
    t: Tier,
    arrivals: &[Descriptor],
    candidates: &[Descriptor],
    atexts: &[NormalTags],
    Ghost(tx): Ghost<MatchTexts>,
    ctags: &Vec<Option<(String, String, String)>>,
    ctitles: &Vec<Option<(String, String)>>,
    cl: &Vec<Option<(usize, Tier)>>,
    taken: &Vec<bool>,
) -> (pairs: Vec<Pair>)
    requires
        texts_ok(arrivals@, candidates@, atexts@, tx),
        keys_ok(tx.candidates, ctags@, ctitles@),
        cl@.len() == arrivals@.len(),
        taken@.len() == candidates@.len(),
        taken_ok(claims_view(cl@), taken@),
        claims_below(claims_view(cl@), tier_rank(t)),
    ensures
        forall|k: int|
            0 <= k < pairs@.len() ==> pair_ok(arrivals@, candidates@, tx,
                claims_view(cl@),
                t,
                #[trigger] pairs@[k],
            ),
        forall|x: int, y: int|
            #[trigger] open_pair(arrivals@, candidates@, tx, claims_view(cl@), t, x, y) ==> exists|
                k: int,
            |
                0 <= k < pairs@.len() && (#[trigger] pairs@[k]).ai == x && pairs@[k].ci == y,
{
    let ghost v0 = claims_view(cl@);
    let mut pairs: Vec<Pair> = Vec::new();
    for ai in 0..arrivals.len()
        invariant
            v0 == claims_view(cl@),
            texts_ok(arrivals@, candidates@, atexts@, tx),
            keys_ok(tx.candidates, ctags@, ctitles@),
            cl@.len() == arrivals@.len(),
            taken@.len() == candidates@.len(),
            taken_ok(v0, taken@),
            claims_below(v0, tier_rank(t)),
            forall|k: int|
                0 <= k < pairs@.len() ==> pair_ok(arrivals@, candidates@, tx, v0, t, #[trigger] pairs@[k])
                    && pairs@[k].ai < ai,
            forall|x: int, y: int|
                0 <= x < ai && #[trigger] open_pair(arrivals@, candidates@, tx, v0, t, x, y) ==> exists|
                    k: int,
                |
                    0 <= k < pairs@.len() && (#[trigger] pairs@[k]).ai == x && pairs@[k].ci == y,
    {
        if cl[ai].is_none() {
            let k3 = credit_tag_keys(&atexts[ai]);
            let k2 = credit_title_keys(&atexts[ai]);
            assert(tx.arrivals[ai as int] == tag_texts(atexts@[ai as int]));
            for ci in 0..candidates.len()
                invariant
                    0 <= ai < arrivals@.len(),
                    cl@[ai as int] is None,
                    v0 == claims_view(cl@),
                    texts_ok(arrivals@, candidates@, atexts@, tx),
                    keys_ok(tx.candidates, ctags@, ctitles@),
                    cl@.len() == arrivals@.len(),
                    taken@.len() == candidates@.len(),
                    taken_ok(v0, taken@),
                    claims_below(v0, tier_rank(t)),
                    k3@.len() == tx.arrivals[ai as int].credits.len(),
                    forall|k: int|
                        0 <= k < k3@.len() ==> key3_view(#[trigger] k3@[k]) == tags_key_of(
                            tx.arrivals[ai as int].credits[k],
                            tx.arrivals[ai as int].title,
                            tx.arrivals[ai as int].album,
                        ),
                    k2@.len() == tx.arrivals[ai as int].credits.len(),
                    forall|k: int|
                        0 <= k < k2@.len() ==> key2_view(#[trigger] k2@[k]) == title_key_of(
                            tx.arrivals[ai as int].credits[k],
                            tx.arrivals[ai as int].title,
                        ),
                    forall|k: int|
                        0 <= k < pairs@.len() ==> pair_ok(arrivals@, candidates@, tx,
                            v0,
                            t,
                            #[trigger] pairs@[k],
                        ) && pairs@[k].ai <= ai,
                    forall|x: int, y: int|
                        0 <= x < ai && #[trigger] open_pair(arrivals@, candidates@, tx, v0, t, x, y)
                            ==> exists|k: int|
                            0 <= k < pairs@.len() && (#[trigger] pairs@[k]).ai == x && pairs@[k].ci
                                == y,
                    forall|y: int|
                        0 <= y < ci && #[trigger] open_pair(arrivals@, candidates@, tx,
                            v0,
                            t,
                            ai as int,
                            y,
                        ) ==> exists|k: int|
                            0 <= k < pairs@.len() && (#[trigger] pairs@[k]).ai == ai && pairs@[k].ci
                                == y,
            {
                let free = !taken[ci];
                proof {
                    assert(arrival_free(v0, ai as int, t));
                    if taken@[ci as int] {
                        let aj = choose|aj: int|
                            0 <= aj < v0.len() && (#[trigger] v0[aj]) is Some && claim_cand(v0[aj])
                                == ci;
                        assert(!cand_free(v0, ci as int, t));
                    } else {
                        assert(cand_free(v0, ci as int, t));
                    }
                }
                if free && admissible_exec(
                    t,
                    &arrivals[ai],
                    &candidates[ci],
                    &k3,
                    &k2,
                    &ctags[ci],
                    &ctitles[ci],
                    Ghost(tx.arrivals[ai as int]),
                    Ghost(tx.candidates[ci as int]),
                ) {
                    let g = duration_gap(arrivals[ai].duration_ms, candidates[ci].duration_ms);
                    let far = !shares_file_exec(&arrivals[ai], &candidates[ci]);
                    let p = Pair {
                        ai,
                        ci,
                        far,
                        gap: match g {
                            Some(x) => x,
                            None => i64::MAX as i128,
                        },
                        item: candidates[ci].item_id,
                    };
                    let ghost before = pairs@;
                    pairs.push(p);
                    proof {
                        assert(pairs@[pairs@.len() - 1] == p);
                        assert forall|x: int, y: int|
                            0 <= x < ai && #[trigger] open_pair(arrivals@, candidates@, tx,
                                v0,
                                t,
                                x,
                                y,
                            ) implies exists|k: int|
                            0 <= k < pairs@.len() && (#[trigger] pairs@[k]).ai == x && pairs@[k].ci
                                == y by {
                            let k = choose|k: int|
                                0 <= k < before.len() && (#[trigger] before[k]).ai == x
                                    && before[k].ci == y;
                            assert(pairs@[k] == before[k]);
                        }
                        assert forall|y: int|
                            0 <= y < ci + 1 && #[trigger] open_pair(arrivals@, candidates@, tx,
                                v0,
                                t,
                                ai as int,
                                y,
                            ) implies exists|k: int|
                            0 <= k < pairs@.len() && (#[trigger] pairs@[k]).ai == ai
                                && pairs@[k].ci == y by {
                            if y == ci {
                                assert(pairs@[pairs@.len() - 1] == p);
                            } else {
                                let k = choose|k: int|
                                    0 <= k < before.len() && (#[trigger] before[k]).ai == ai
                                        && before[k].ci == y;
                                assert(pairs@[k] == before[k]);
                            }
                        }
                    }
                }
            }
        } else {
            assert forall|y: int| !#[trigger] open_pair(arrivals@, candidates@, tx, v0, t, ai as int, y) by {
                assert(v0[ai as int] is Some);
            }
        }
    }
    pairs
}


/// The live pair of best rank, if any pair is still live.
fn best_live(
    pairs: &Vec<Pair>,
    cl: &Vec<Option<(usize, Tier)>>,
    taken: &Vec<bool>,
) -> (best: Option<usize>)
    requires
        forall|k: int|
            0 <= k < pairs@.len() ==> (#[trigger] pairs@[k]).ai < cl@.len() && pairs@[k].ci
                < taken@.len(),
    ensures
        match best {
            None => forall|j: int|
                0 <= j < pairs@.len() ==> !live(claims_view(cl@), taken@, #[trigger] pairs@[j]),
            Some(b) => b < pairs@.len() && live(claims_view(cl@), taken@, pairs@[b as int])
                && forall|j: int|
                0 <= j < pairs@.len() && live(claims_view(cl@), taken@, #[trigger] pairs@[j])
                    ==> !rank_lt(pair_rank_of(pairs@[j]), pair_rank_of(pairs@[b as int])),
        },
{
    let ghost v = claims_view(cl@);
    let mut best: Option<usize> = None;
    for k in 0..pairs.len()
        invariant
            v == claims_view(cl@),
            forall|k: int|
                0 <= k < pairs@.len() ==> (#[trigger] pairs@[k]).ai < cl@.len() && pairs@[k].ci
                    < taken@.len(),
            match best {
                None => forall|j: int| 0 <= j < k ==> !live(v, taken@, #[trigger] pairs@[j]),
                Some(b) => b < k && live(v, taken@, pairs@[b as int]) && forall|j: int|
                    0 <= j < k && live(v, taken@, #[trigger] pairs@[j]) ==> !rank_lt(
                        pair_rank_of(pairs@[j]),
                        pair_rank_of(pairs@[b as int]),
                    ),
            },
    {
        let p = &pairs[k];
        if cl[p.ai].is_none() && !taken[p.ci] {
            assert(live(v, taken@, pairs@[k as int]));
            match best {
                None => {
                    best = Some(k);
                },
                Some(b) => {
                    if pair_before(p, &pairs[b]) {
                        best = Some(k);
                    }
                },
            }
        }
    }
    best
}

/// One tier of matching: serves the open pairs of tier `t` best rank first.
fn run_tier(
    t: Tier,
    arrivals: &[Descriptor],
    candidates: &[Descriptor],
    atexts: &[NormalTags],
    Ghost(tx): Ghost<MatchTexts>,
    ctags: &Vec<Option<(String, String, String)>>,
    ctitles: &Vec<Option<(String, String)>>,
    cl: &mut Vec<Option<(usize, Tier)>>,
    taken: &mut Vec<bool>,
)
    requires
        texts_ok(arrivals@, candidates@, atexts@, tx),
        keys_ok(tx.candidates, ctags@, ctitles@),
        old(cl)@.len() == arrivals@.len(),
        old(taken)@.len() == candidates@.len(),
        claims_valid(arrivals@, candidates@, tx, claims_view(old(cl)@)),
        taken_ok(claims_view(old(cl)@), old(taken)@),
        claims_below(claims_view(old(cl)@), tier_rank(t)),
        forall|u: Tier|
            tier_rank(u) < tier_rank(t) ==> #[trigger] tier_done(arrivals@, candidates@, tx,
                claims_view(old(cl)@),
                u,
            ),
    ensures
        final(cl)@.len() == arrivals@.len(),
        final(taken)@.len() == candidates@.len(),
        claims_valid(arrivals@, candidates@, tx, claims_view(final(cl)@)),
        taken_ok(claims_view(final(cl)@), final(taken)@),
        claims_below(claims_view(final(cl)@), tier_rank(t) + 1),
        forall|u: Tier|
            tier_rank(u) <= tier_rank(t) ==> #[trigger] tier_done(arrivals@, candidates@, tx,
                claims_view(final(cl)@),
                u,
            ),
{
    let pairs = tier_pairs(t, arrivals, candidates, atexts, Ghost(tx), ctags, ctitles, cl, taken);
    let ghost v0 = claims_view(cl@);
    let ghost a = arrivals@;
    let ghost c = candidates@;
    loop
        invariant
            cl@.len() == a.len(),
            taken@.len() == c.len(),
            claims_valid(a, c, tx, claims_view(cl@)),
            taken_ok(claims_view(cl@), taken@),
            claims_below(v0, tier_rank(t)),
            forall|x: int|
                0 <= x < a.len() && (#[trigger] v0[x]) is Some ==> claims_view(cl@)[x] == v0[x],
            forall|x: int|
                0 <= x < a.len() && v0[x] is None && (#[trigger] claims_view(cl@)[x]) is Some
                    ==> claim_tier(claims_view(cl@)[x]) == t,
            forall|u: Tier|
                tier_rank(u) < tier_rank(t) ==> #[trigger] tier_done(a, c, tx,
                    claims_view(cl@),
                    u,
                ),
            forall|u: Tier, x: int, y: int|
                tier_rank(u) <= tier_rank(t) ==> (open_pair(a, c, tx, claims_view(cl@), u, x, y)
                    == #[trigger] open_pair(a, c, tx, v0, u, x, y)),
            forall|k: int| 0 <= k < pairs@.len() ==> pair_ok(a, c, tx, v0, t, #[trigger] pairs@[k]),
            forall|x: int, y: int|
                #[trigger] open_pair(a, c, tx, v0, t, x, y) ==> exists|k: int|
                    0 <= k < pairs@.len() && (#[trigger] pairs@[k]).ai == x && pairs@[k].ci == y,
            forall|k: int|
                0 <= k < pairs@.len() && !live(claims_view(cl@), taken@, #[trigger] pairs@[k])
                    ==> claims_view(cl@)[pairs@[k].ai as int] == Some((pairs@[k].ci as int, t))
                    || blocked(a, c, claims_view(cl@), t, pairs@[k].ai as int, pairs@[k].ci as int),
        ensures
            forall|j: int|
                0 <= j < pairs@.len() ==> !live(claims_view(cl@), taken@, #[trigger] pairs@[j]),
        decreases nones(claims_view(cl@)),
    {
        let ghost v = claims_view(cl@);
        let ghost tk = taken@;
        let best = best_live(&pairs, cl, taken);
        match best {
            None => {
                break ;
            },
            Some(b) => {
                let ai = pairs[b].ai;
                let ci = pairs[b].ci;
                proof {
                    let pb = pairs@[b as int];
                    assert(pair_ok(a, c, tx, v0, t, pb));
                    assert forall|aj: int|
                        0 <= aj < v.len() && (#[trigger] v[aj]) is Some implies claim_cand(v[aj])
                        != ci by {
                        if claim_cand(v[aj]) == ci {
                            assert(taken@[ci as int]);
                        }
                    }
                    lemma_claim_step(a, c, tx, v, ai as int, ci as int, t);
                    lemma_nones_update(v, ai as int, Some((ci as int, t)));
                }
                cl.set(ai, Some((ci, t)));
                taken.set(ci, true);
                proof {
                    let v2 = claims_view(cl@);
                    assert(v2 =~= v.update(ai as int, Some((ci as int, t))));
                    let pb = pairs@[b as int];
                    assert forall|k: int|
                        0 <= k < pairs@.len() && !live(
                            v2,
                            taken@,
                            #[trigger] pairs@[k],
                        ) implies v2[pairs@[k].ai as int] == Some((pairs@[k].ci as int, t))
                        || blocked(a, c, v2, t, pairs@[k].ai as int, pairs@[k].ci as int) by {
                        let p = pairs@[k];
                        assert(pair_ok(a, c, tx, v0, t, p));
                        if !live(v, tk, p) {
                            if v[p.ai as int] == Some((p.ci as int, t)) {
                                assert(p.ai != ai);
                                assert(v2[p.ai as int] == v[p.ai as int]);
                            } else {
                                assert(blocked(a, c, v, t, p.ai as int, p.ci as int));
                            }
                        } else {
                            assert(!rank_lt(pair_rank_of(p), pair_rank_of(pb)));
                            if p.ai == ai && p.ci == ci {
                            } else {
                                lemma_rank_total(
                                    a,
                                    c,
                                    p.ai as int,
                                    p.ci as int,
                                    ai as int,
                                    ci as int,
                                );
                                if p.ai == ai {
                                    assert(v2[ai as int] == Some((ci as int, t)));
                                } else {
                                    assert(p.ci == ci);
                                    assert(v2[ai as int] == Some((ci as int, t)));
                                    assert(blocked(a, c, v2, t, p.ai as int, p.ci as int));
                                }
                            }
                        }
                    }
                    assert forall|cj: int|
                        0 <= cj < taken@.len() implies (#[trigger] taken@[cj] <==> exists|aj: int|
                            0 <= aj < v2.len() && (#[trigger] v2[aj]) is Some && claim_cand(v2[aj])
                                == cj) by {
                        if cj == ci {
                            assert(v2[ai as int] is Some);
                        } else {
                            assert(taken@[cj] == tk[cj]);
                            if tk[cj] {
                                let aj = choose|aj: int|
                                    0 <= aj < v.len() && (#[trigger] v[aj]) is Some && claim_cand(
                                        v[aj],
                                    ) == cj;
                                assert(v2[aj] == v[aj]);
                            }
                            if exists|aj: int|
                                0 <= aj < v2.len() && (#[trigger] v2[aj]) is Some && claim_cand(
                                    v2[aj],
                                ) == cj {
                                let aj = choose|aj: int|
                                    0 <= aj < v2.len() && (#[trigger] v2[aj]) is Some && claim_cand(
                                        v2[aj],
                                    ) == cj;
                                assert(aj != ai);
                                assert(v2[aj] == v[aj]);
                            }
                        }
                    }
                    assert forall|u: Tier|
                        tier_rank(u) < tier_rank(t) implies #[trigger] tier_done(a, c, tx, v2, u) by {
                        assert(tier_done(a, c, tx, v, u));
                        assert forall|x: int, y: int|
                            #[trigger] open_pair(a, c, tx, v2, u, x, y) && v2[x] != Some((y, u))
                                implies blocked(a, c, v2, u, x, y) by {
                            assert(open_pair(a, c, tx, v, u, x, y));
                            if x == ai {
                                assert(v[x] is None);
                            } else {
                                assert(v2[x] == v[x]);
                            }
                            assert(blocked(a, c, v, u, x, y));
                        }
                    }
                }
            },
        }
    }
    proof {
        let v = claims_view(cl@);
        assert forall|x: int, y: int|
            #[trigger] open_pair(a, c, tx, v, t, x, y) && v[x] != Some((y, t)) implies blocked(
            a,
            c,
            v,
            t,
            x,
            y,
        ) by {
            assert(open_pair(a, c, tx, v0, t, x, y));
            let k = choose|k: int|
                0 <= k < pairs@.len() && (#[trigger] pairs@[k]).ai == x && pairs@[k].ci == y;
            assert(!live(v, taken@, pairs@[k]));
        }
        assert(tier_done(a, c, tx, v, t));
        assert forall|x: int|
            0 <= x < v.len() && (#[trigger] v[x]) is Some implies tier_rank(claim_tier(v[x]))
            < tier_rank(t) + 1 by {
            if v0[x] is Some {
                assert(v[x] == v0[x]);
            }
        }
    }
}


/// The claims of the three tiers, served in order.
fn claim_tracks(
    arrivals: &[Descriptor],
    candidates: &[Descriptor],
    atexts: &[NormalTags],
    ctexts: &[NormalTags],
) -> (cl: Vec<Option<(usize, Tier)>>)
    requires
        atexts@.len() == arrivals@.len(),
        ctexts@.len() == candidates@.len(),
        forall|ci: int| 0 <= ci < ctexts@.len() ==> (#[trigger] ctexts@[ci]).credits@.len() > 0,
    ensures
        greedy_claims(arrivals@, candidates@, match_texts(atexts@, ctexts@), claims_view(cl@)),
{
    let ghost tx = match_texts(atexts@, ctexts@);
    let mut ctags: Vec<Option<(String, String, String)>> = Vec::new();
    let mut ctitles: Vec<Option<(String, String)>> = Vec::new();
    for ci in 0..candidates.len()
        invariant
            tx == match_texts(atexts@, ctexts@),
            ctexts@.len() == candidates@.len(),
            forall|ci: int| 0 <= ci < ctexts@.len() ==> (#[trigger] ctexts@[ci]).credits@.len() > 0,
            ctags@.len() == ci,
            ctitles@.len() == ci,
            forall|x: int|
                0 <= x < ci ==> key3_view(#[trigger] ctags@[x]) == tags_key_of(
                    tx.candidates[x].credits[0],
                    tx.candidates[x].title,
                    tx.candidates[x].album,
                ),
            forall|x: int|
                0 <= x < ci ==> key2_view(#[trigger] ctitles@[x]) == title_key_of(
                    tx.candidates[x].credits[0],
                    tx.candidates[x].title,
                ),
    {
        let c = &ctexts[ci];
        assert(c.credits@.len() > 0);
        ctags.push(tags_key(&c.credits[0], &c.title, &c.album));
        ctitles.push(title_key(&c.credits[0], &c.title));
    }
    let mut cl: Vec<Option<(usize, Tier)>> = Vec::new();
    for i in 0..arrivals.len()
        invariant
            cl@.len() == i,
            forall|x: int| 0 <= x < i ==> (#[trigger] cl@[x]) is None,
    {
        cl.push(None);
    }
    let mut taken: Vec<bool> = Vec::new();
    for i in 0..candidates.len()
        invariant
            taken@.len() == i,
            forall|x: int| 0 <= x < i ==> !(#[trigger] taken@[x]),
    {
        taken.push(false);
    }
    proof {
        let v = claims_view(cl@);
        assert forall|x: int| 0 <= x < v.len() implies (#[trigger] v[x]) is None by {
            assert(cl@[x] is None);
        }
        assert forall|u: Tier| tier_rank(u) < 0 implies #[trigger] tier_done(arrivals@, candidates@, tx,
            v,
            u,
        ) by {}
    }
    run_tier(Tier::File, arrivals, candidates, atexts, Ghost(tx), &ctags, &ctitles, &mut cl, &mut taken);
    run_tier(Tier::Tags, arrivals, candidates, atexts, Ghost(tx), &ctags, &ctitles, &mut cl, &mut taken);
    run_tier(Tier::Title, arrivals, candidates, atexts, Ghost(tx), &ctags, &ctitles, &mut cl, &mut taken);
    proof {
        let v = claims_view(cl@);
        assert forall|t: Tier, ai: int, ci: int|
            #[trigger] open_pair(arrivals@, candidates@, tx, v, t, ai, ci) && v[ai] != Some(
                (ci, t),
            ) implies blocked(arrivals@, candidates@, v, t, ai, ci) by {
            assert(tier_done(arrivals@, candidates@, tx, v, t));
        }
    }
    cl
}

/// Matches each arrival to at most one candidate, comparing the given
/// normalized texts. The file tier goes first, then the tags, then the
/// title; within a tier, the best ranked pair wins and a candidate is claimed
/// at most once. The answer names the candidate's item id and the tier that
/// matched.
pub fn match_normalized(
    arrivals: &[Descriptor],
    candidates: &[Descriptor],
    arrival_tags: &[NormalTags],
    candidate_tags: &[NormalTags],
) -> (r: Vec<Option<(i64, Tier)>>)
    requires
        arrival_tags@.len() == arrivals@.len(),
        candidate_tags@.len() == candidates@.len(),
        forall|ci: int|
            0 <= ci < candidate_tags@.len() ==> (#[trigger] candidate_tags@[ci]).credits@.len() > 0,
    ensures
        match_answers(arrivals@, candidates@, match_texts(arrival_tags@, candidate_tags@), r@),
{
    let cl = claim_tracks(arrivals, candidates, arrival_tags, candidate_tags);
    let ghost tx = match_texts(arrival_tags@, candidate_tags@);
    let ghost v = claims_view(cl@);
    let mut r: Vec<Option<(i64, Tier)>> = Vec::new();
    for i in 0..cl.len()
        invariant
            v == claims_view(cl@),
            claims_valid(arrivals@, candidates@, tx, v),
            r@.len() == i,
            forall|x: int| 0 <= x < i ==> #[trigger] r@[x] == claim_answer(candidates@, v[x]),
    {
        let answer = match cl[i] {
            Some((ci, t)) => {
                assert(v[i as int] is Some);
                Some((candidates[ci].item_id, t))
            },
            None => None,
        };
        r.push(answer);
    }
    r
}

/// Matches each arrival to at most one candidate, comparing their tags
/// normalized (see `normalize_tag` and `match_normalized`).
pub fn match_tracks(arrivals: &[Descriptor], candidates: &[Descriptor]) -> (r: Vec<
    Option<(i64, Tier)>,
>)
    ensures
        match_answers(arrivals@, candidates@, normalized_match_texts(arrivals@, candidates@), r@),
{
    let mut at: Vec<NormalTags> = Vec::new();
    for i in 0..arrivals.len()
        invariant
            at@.len() == i,
            forall|x: int| 0 <= x < i ==> tag_texts(#[trigger] at@[x]) == normalized_texts(arrivals@[x]),
    {
        at.push(normal_tags(&arrivals[i]));
    }
    let mut ct: Vec<NormalTags> = Vec::new();
    for i in 0..candidates.len()
        invariant
            ct@.len() == i,
            forall|x: int| 0 <= x < i ==> tag_texts(#[trigger] ct@[x]) == normalized_texts(candidates@[x]),
    {
        ct.push(normal_tags(&candidates[i]));
    }
    assert forall|ci: int| 0 <= ci < ct@.len() implies (#[trigger] ct@[ci]).credits@.len() > 0 by {
        assert(tag_texts(ct@[ci]).credits.len() == normalized_texts(candidates@[ci]).credits.len());
    }
    assert(match_texts(at@, ct@).arrivals =~= normalized_match_texts(arrivals@, candidates@).arrivals);
    assert(match_texts(at@, ct@).candidates =~= normalized_match_texts(arrivals@, candidates@).candidates);
    match_normalized(arrivals, candidates, &at, &ct)
}


// ---------------------------------------------------------------------------
// Laws
// ---------------------------------------------------------------------------

/// What matching answers for these arrivals and candidates, their texts
/// compared as `tx` gives them.
pub open spec fn match_answers(
    arrivals: Seq<Descriptor>,
    candidates: Seq<Descriptor>,
    tx: MatchTexts,
    r: Seq<Option<(i64, Tier)>>,
) -> bool {
    &&& r.len() == arrivals.len()
    &&& exists|cl: Seq<Option<(int, Tier)>>|
        #[trigger] greedy_claims(arrivals, candidates, tx, cl) && forall|i: int|
            0 <= i < r.len() ==> #[trigger] r[i] == claim_answer(candidates, cl[i])
}

spec fn far_num(b: bool) -> int {
    if b {
        1
    } else {
        0
    }
}

/// Two greedy claim sets agree on every pair: by induction over the order in
/// which the pairs are served (tier, then rank).
proof fn lemma_claims_agree(
    arrivals: Seq<Descriptor>,
    candidates: Seq<Descriptor>,
    tx: MatchTexts,
    cl1: Seq<Option<(int, Tier)>>,
    cl2: Seq<Option<(int, Tier)>>,
    ai: int,
    ci: int,
    t: Tier,
)
    requires
        greedy_claims(arrivals, candidates, tx, cl1),
        greedy_claims(arrivals, candidates, tx, cl2),
        0 <= ai < arrivals.len(),
        0 <= ci < candidates.len(),
    ensures
        cl1[ai] == Some((ci, t)) <==> cl2[ai] == Some((ci, t)),
    decreases
        tier_rank(t),
        far_num(pair_rank(arrivals, candidates, ai, ci).0),
        pair_rank(arrivals, candidates, ai, ci).1,
        pair_rank(arrivals, candidates, ai, ci).2 + 0x8000_0000_0000_0000,
        ai,
        ci,
{
    if cl1[ai] == Some((ci, t)) {
        lemma_served_first(arrivals, candidates, tx, cl1, cl2, ai, ci, t);
    } else if cl2[ai] == Some((ci, t)) {
        lemma_served_first(arrivals, candidates, tx, cl2, cl1, ai, ci, t);
    }
}

proof fn lemma_served_first(
    arrivals: Seq<Descriptor>,
    candidates: Seq<Descriptor>,
    tx: MatchTexts,
    cl1: Seq<Option<(int, Tier)>>,
    cl2: Seq<Option<(int, Tier)>>,
    ai: int,
    ci: int,
    t: Tier,
)
    requires
        greedy_claims(arrivals, candidates, tx, cl1),
        greedy_claims(arrivals, candidates, tx, cl2),
        0 <= ai < arrivals.len(),
        0 <= ci < candidates.len(),
        cl1[ai] == Some((ci, t)),
    ensures
        cl2[ai] == Some((ci, t)),
    decreases
        tier_rank(t),
        far_num(pair_rank(arrivals, candidates, ai, ci).0),
        pair_rank(arrivals, candidates, ai, ci).1,
        pair_rank(arrivals, candidates, ai, ci).2 + 0x8000_0000_0000_0000,
        ai,
        ci,
        1int,
{
    assert(cl1[ai] is Some);
    assert(admissible(t, arrivals[ai], candidates[ci], tx.arrivals[ai], tx.candidates[ci]));
    // The pair is open for tier `t` in the second claim set too.
    if cl2[ai] is Some {
        let cj = claim_cand(cl2[ai]);
        let u = claim_tier(cl2[ai]);
        assert(cl2[ai] == Some((cj, u)));
        if tier_rank(u) < tier_rank(t) {
            assert(cl2[ai] is Some);
            lemma_claims_agree(arrivals, candidates, tx, cl1, cl2, ai, cj, u);
            assert(false);
        }
    }
    assert(arrival_free(cl2, ai, t));
    assert forall|aj: int|
        0 <= aj < cl2.len() && (#[trigger] cl2[aj]) is Some && claim_cand(cl2[aj]) == ci implies tier_rank(
        claim_tier(cl2[aj]),
    ) >= tier_rank(t) by {
        let u = claim_tier(cl2[aj]);
        if tier_rank(u) < tier_rank(t) {
            assert(cl2[aj] == Some((ci, u)));
            lemma_claims_agree(arrivals, candidates, tx, cl1, cl2, aj, ci, u);
            assert(cl1[aj] == Some((ci, u)));
            assert(aj != ai);
            assert(cl1[ai] is Some && cl1[aj] is Some);
            assert(false);
        }
    }
    assert(cand_free(cl2, ci, t));
    assert(open_pair(arrivals, candidates, tx, cl2, t, ai, ci));
    if cl2[ai] != Some((ci, t)) {
        assert(blocked(arrivals, candidates, cl2, t, ai, ci));
        let cj = claim_cand(cl2[ai]);
        if cl2[ai] is Some && claim_tier(cl2[ai]) == t && rank_lt(
            pair_rank(arrivals, candidates, ai, cj),
            pair_rank(arrivals, candidates, ai, ci),
        ) {
            assert(cl2[ai] == Some((cj, t)));
            lemma_claims_agree(arrivals, candidates, tx, cl1, cl2, ai, cj, t);
            assert(false);
        } else {
            let aj = choose|aj: int|
                0 <= aj < cl2.len() && #[trigger] cl2[aj] == Some((ci, t)) && rank_lt(
                    pair_rank(arrivals, candidates, aj, ci),
                    pair_rank(arrivals, candidates, ai, ci),
                );
            lemma_claims_agree(arrivals, candidates, tx, cl1, cl2, aj, ci, t);
            assert(cl1[aj] == Some((ci, t)));
            assert(aj != ai);
            assert(cl1[ai] is Some && cl1[aj] is Some);
            assert(false);
        }
    }
}

/// The greedy claims are determined by the arrivals and the candidates: two
/// claim sets that both meet `greedy_claims` are equal.
pub proof fn law_claims_are_unique(
    arrivals: Seq<Descriptor>,
    candidates: Seq<Descriptor>,
    tx: MatchTexts,
    cl1: Seq<Option<(int, Tier)>>,
    cl2: Seq<Option<(int, Tier)>>,
)
    requires
        greedy_claims(arrivals, candidates, tx, cl1),
        greedy_claims(arrivals, candidates, tx, cl2),
    ensures
        cl1 == cl2,
{
    assert forall|ai: int| 0 <= ai < cl1.len() implies cl1[ai] == cl2[ai] by {
        if cl1[ai] is Some {
            let ci = claim_cand(cl1[ai]);
            let t = claim_tier(cl1[ai]);
            assert(cl1[ai] == Some((ci, t)));
            lemma_claims_agree(arrivals, candidates, tx, cl1, cl2, ai, ci, t);
        } else if cl2[ai] is Some {
            let ci = claim_cand(cl2[ai]);
            let t = claim_tier(cl2[ai]);
            assert(cl2[ai] == Some((ci, t)));
            lemma_claims_agree(arrivals, candidates, tx, cl1, cl2, ai, ci, t);
        }
    }
    assert(cl1 =~= cl2);
}

/// `match_tracks` is a function of its inputs: whatever the candidates hold,
/// any two answers that meet its contract are equal.
pub proof fn law_match_is_determined(
    arrivals: Seq<Descriptor>,
    candidates: Seq<Descriptor>,
    tx: MatchTexts,
    r1: Seq<Option<(i64, Tier)>>,
    r2: Seq<Option<(i64, Tier)>>,
)
    requires
        match_answers(arrivals, candidates, tx, r1),
        match_answers(arrivals, candidates, tx, r2),
    ensures
        r1 == r2,
{
    let cl1 = choose|cl: Seq<Option<(int, Tier)>>|
        #[trigger] greedy_claims(arrivals, candidates, tx, cl) && forall|i: int|
            0 <= i < r1.len() ==> #[trigger] r1[i] == claim_answer(candidates, cl[i]);
    let cl2 = choose|cl: Seq<Option<(int, Tier)>>|
        #[trigger] greedy_claims(arrivals, candidates, tx, cl) && forall|i: int|
            0 <= i < r2.len() ==> #[trigger] r2[i] == claim_answer(candidates, cl[i]);
    law_claims_are_unique(arrivals, candidates, tx, cl1, cl2);
    assert forall|i: int| 0 <= i < r1.len() implies r1[i] == r2[i] by {
        assert(r1[i] == claim_answer(candidates, cl1[i]));
        assert(r2[i] == claim_answer(candidates, cl2[i]));
    }
    assert(r1 =~= r2);
}

/// The item of an answer.
pub open spec fn answer_item(o: Option<(i64, Tier)>) -> i64 {
    match o {
        Some((id, _)) => id,
        None => 0,
    }
}

/// The tier of an answer.
pub open spec fn answer_tier(o: Option<(i64, Tier)>) -> Tier {
    match o {
        Some((_, t)) => t,
        None => Tier::File,
    }
}

/// Every answer of `match_tracks` is admissible: an arrival matched to an
/// item in a tier is matched to a candidate of that item which the tier
/// admits (the keys of the tier agree, the item is not the arrival's own, no
/// source holds both, a live item is never matched on its title alone, and
/// the durations are close enough for the tier). When the candidates are
/// distinct items, no item is given to two arrivals.
pub proof fn law_match_answers_are_admissible(
    arrivals: Seq<Descriptor>,
    candidates: Seq<Descriptor>,
    tx: MatchTexts,
    r: Seq<Option<(i64, Tier)>>,
)
    requires
        match_answers(arrivals, candidates, tx, r),
    ensures
        forall|i: int|
            0 <= i < r.len() && (#[trigger] r[i]) is Some ==> exists|ci: int|
                0 <= ci < candidates.len() && (#[trigger] candidates[ci]).item_id == answer_item(r[i])
                    && admissible(answer_tier(r[i]), arrivals[i], candidates[ci], tx.arrivals[i], tx.candidates[ci]),
        (forall|a: int, b: int|
            0 <= a < b < candidates.len() ==> (#[trigger] candidates[a]).item_id != (
            #[trigger] candidates[b]).item_id) ==> forall|i: int, j: int|
            0 <= i < r.len() && 0 <= j < r.len() && i != j && (#[trigger] r[i]) is Some && (
            #[trigger] r[j]) is Some ==> answer_item(r[i]) != answer_item(r[j]),
{
    let cl = choose|cl: Seq<Option<(int, Tier)>>|
        #[trigger] greedy_claims(arrivals, candidates, tx, cl) && forall|i: int|
            0 <= i < r.len() ==> #[trigger] r[i] == claim_answer(candidates, cl[i]);
    assert forall|i: int| 0 <= i < r.len() && (#[trigger] r[i]) is Some implies exists|ci: int|
        0 <= ci < candidates.len() && (#[trigger] candidates[ci]).item_id == answer_item(r[i])
            && admissible(answer_tier(r[i]), arrivals[i], candidates[ci], tx.arrivals[i], tx.candidates[ci]) by {
        assert(r[i] == claim_answer(candidates, cl[i]));
        assert(cl[i] is Some);
        let ci = claim_cand(cl[i]);
        assert(cl[i] == Some((ci, claim_tier(cl[i]))));
        assert(candidates[ci].item_id == answer_item(r[i]));
    }
    if forall|a: int, b: int|
        0 <= a < b < candidates.len() ==> (#[trigger] candidates[a]).item_id != (
        #[trigger] candidates[b]).item_id {
        assert forall|i: int, j: int|
            0 <= i < r.len() && 0 <= j < r.len() && i != j && (#[trigger] r[i]) is Some && (
            #[trigger] r[j]) is Some implies answer_item(r[i]) != answer_item(r[j]) by {
            assert(r[i] == claim_answer(candidates, cl[i]));
            assert(r[j] == claim_answer(candidates, cl[j]));
            assert(cl[i] is Some && cl[j] is Some);
            let a = claim_cand(cl[i]);
            let b = claim_cand(cl[j]);
            assert(cl[i] == Some((a, claim_tier(cl[i]))));
            assert(cl[j] == Some((b, claim_tier(cl[j]))));
            assert(a != b);
            if a < b {
                assert(candidates[a].item_id != candidates[b].item_id);
            } else {
                assert(candidates[b].item_id != candidates[a].item_id);
            }
        }
    }
}

/// What every match of `match_tracks` (and `match_normalized`) keeps to,
/// whatever the texts compare as: the arrival goes to a candidate of the
/// answered item that is not the arrival's own item; when both durations
/// are known they lie within 2 s of each other for a file match and within
/// 5 s for a match by tags or title; a match by title needs both durations
/// known and never takes a live item.
pub proof fn law_matched_durations_are_close(
    arrivals: Seq<Descriptor>,
    candidates: Seq<Descriptor>,
    tx: MatchTexts,
    r: Seq<Option<(i64, Tier)>>,
)
    requires
        match_answers(arrivals, candidates, tx, r),
    ensures
        forall|i: int|
            0 <= i < r.len() ==> (#[trigger] r[i] matches Some((id, t)) ==> exists|ci: int|
                0 <= ci < candidates.len() && (#[trigger] candidates[ci]).item_id == id
                    && candidates[ci].item_id != arrivals[i].item_id && (t == Tier::Title
                    ==> !candidates[ci].live && arrivals[i].duration_ms is Some
                    && candidates[ci].duration_ms is Some) && ((arrivals[i].duration_ms is Some && candidates[ci].duration_ms is Some) ==> if t
                    == Tier::File {
                    -2000 <= arrivals[i].duration_ms->0 - candidates[ci].duration_ms->0 <= 2000
                } else {
                    -5000 <= arrivals[i].duration_ms->0 - candidates[ci].duration_ms->0 <= 5000
                })),
{
    law_match_answers_are_admissible(arrivals, candidates, tx, r);
    assert forall|i: int| 0 <= i < r.len() implies (#[trigger] r[i] matches Some((id, t))
        ==> exists|ci: int|
        0 <= ci < candidates.len() && (#[trigger] candidates[ci]).item_id == id
            && candidates[ci].item_id != arrivals[i].item_id && (t == Tier::Title
            ==> !candidates[ci].live && arrivals[i].duration_ms is Some
            && candidates[ci].duration_ms is Some) && ((arrivals[i].duration_ms is Some && candidates[ci].duration_ms is Some) ==> if t
            == Tier::File {
            -2000 <= arrivals[i].duration_ms->0 - candidates[ci].duration_ms->0 <= 2000
        } else {
            -5000 <= arrivals[i].duration_ms->0 - candidates[ci].duration_ms->0 <= 5000
        })) by {
        if r[i] is Some {
            let ci = choose|ci: int|
                0 <= ci < candidates.len() && (#[trigger] candidates[ci]).item_id == answer_item(
                    r[i],
                ) && admissible(
                    answer_tier(r[i]),
                    arrivals[i],
                    candidates[ci],
                    tx.arrivals[i],
                    tx.candidates[ci],
                );
            let id = answer_item(r[i]);
            let t = answer_tier(r[i]);
            assert(r[i] == Some((id, t)));
            let a = arrivals[i];
            let c = candidates[ci];
            assert(passes(t, gap(a.duration_ms, c.duration_ms)));
            assert(c.item_id != a.item_id);
            assert(t == Tier::Title ==> !c.live && a.duration_ms is Some && c.duration_ms is Some);
            match (a.duration_ms, c.duration_ms) {
                (Some(x), Some(y)) => {
                    let g: int = if x >= y { x - y } else { y - x };
                    assert(gap(a.duration_ms, c.duration_ms) == Some(g));
                    if t == Tier::File {
                        assert(g <= FILE_TOLERANCE_MS);
                        assert(-2000 <= x - y <= 2000);
                    } else {
                        assert(passes(t, Some(g)));
                        assert(g <= TAG_TOLERANCE_MS);
                        assert(-5000 <= x - y <= 5000);
                    }
                },
                _ => {},
            }
        }
    }
}

/// What a match agrees on, by its tier: a file match shares a file
/// (size and piece offset) of known size; a match by tags finds the
/// candidate's main artist among the arrival's credits with the same title
/// and album; a match by title finds it with the same title. No source holds
/// both the arrival and the candidate.
pub proof fn law_matched_keys_agree(
    arrivals: Seq<Descriptor>,
    candidates: Seq<Descriptor>,
    tx: MatchTexts,
    r: Seq<Option<(i64, Tier)>>,
)
    requires
        match_answers(arrivals, candidates, tx, r),
    ensures
        forall|i: int|
            0 <= i < r.len() ==> (#[trigger] r[i] matches Some((id, t)) ==> exists|ci: int|
                0 <= ci < candidates.len() && (#[trigger] candidates[ci]).item_id == id
                    && !shares_source(arrivals[i], candidates[ci]) && match t {
                    Tier::File => exists|x: int, y: int|
                        0 <= x < arrivals[i].files@.len() && 0 <= y < candidates[ci].files@.len()
                            && arrivals[i].files@[x] == candidates[ci].files@[y]
                            && candidates[ci].files@[y].0 > 0,
                    Tier::Tags => exists|k: int|
                        0 <= k < tx.arrivals[i].credits.len() && tx.arrivals[i].credits[k].len()
                            > 0 && tx.arrivals[i].credits[k] == tx.candidates[ci].credits[0]
                            && tx.arrivals[i].title == tx.candidates[ci].title
                            && tx.arrivals[i].album == tx.candidates[ci].album,
                    Tier::Title => exists|k: int|
                        0 <= k < tx.arrivals[i].credits.len() && tx.arrivals[i].credits[k].len()
                            > 0 && tx.arrivals[i].credits[k] == tx.candidates[ci].credits[0]
                            && tx.arrivals[i].title == tx.candidates[ci].title,
                }),
{
    law_match_answers_are_admissible(arrivals, candidates, tx, r);
    assert forall|i: int| 0 <= i < r.len() implies (#[trigger] r[i] matches Some((id, t))
        ==> exists|ci: int|
        0 <= ci < candidates.len() && (#[trigger] candidates[ci]).item_id == id && !shares_source(
            arrivals[i],
            candidates[ci],
        ) && match t {
            Tier::File => exists|x: int, y: int|
                0 <= x < arrivals[i].files@.len() && 0 <= y < candidates[ci].files@.len()
                    && arrivals[i].files@[x] == candidates[ci].files@[y]
                    && candidates[ci].files@[y].0 > 0,
            Tier::Tags => exists|k: int|
                0 <= k < tx.arrivals[i].credits.len() && tx.arrivals[i].credits[k].len() > 0
                    && tx.arrivals[i].credits[k] == tx.candidates[ci].credits[0]
                    && tx.arrivals[i].title == tx.candidates[ci].title && tx.arrivals[i].album
                    == tx.candidates[ci].album,
            Tier::Title => exists|k: int|
                0 <= k < tx.arrivals[i].credits.len() && tx.arrivals[i].credits[k].len() > 0
                    && tx.arrivals[i].credits[k] == tx.candidates[ci].credits[0]
                    && tx.arrivals[i].title == tx.candidates[ci].title,
        }) by {
        if r[i] is Some {
            let ci = choose|ci: int|
                0 <= ci < candidates.len() && (#[trigger] candidates[ci]).item_id == answer_item(
                    r[i],
                ) && admissible(
                    answer_tier(r[i]),
                    arrivals[i],
                    candidates[ci],
                    tx.arrivals[i],
                    tx.candidates[ci],
                );
            let id = answer_item(r[i]);
            let t = answer_tier(r[i]);
            assert(r[i] == Some((id, t)));
            let at = tx.arrivals[i];
            let ct = tx.candidates[ci];
            assert(key_matches(t, arrivals[i], candidates[ci], at, ct));
            match t {
                Tier::File => {},
                Tier::Tags => {
                    let k = choose|k: int|
                        0 <= k < at.credits.len() && #[trigger] tags_key_of(
                            at.credits[k],
                            at.title,
                            at.album,
                        ) is Some && tags_key_of(at.credits[k], at.title, at.album) == tags_key_of(
                            ct.credits[0],
                            ct.title,
                            ct.album,
                        );
                    assert(at.credits[k].len() > 0);
                },
                Tier::Title => {
                    let k = choose|k: int|
                        0 <= k < at.credits.len() && #[trigger] title_key_of(at.credits[k], at.title)
                            is Some && title_key_of(at.credits[k], at.title) == title_key_of(
                            ct.credits[0],
                            ct.title,
                        );
                    assert(at.credits[k].len() > 0);
                },
            }
        }
    }
}

} // verus!
