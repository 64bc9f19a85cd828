//! Who an album is credited to, when its tracks do not say so with a tag.
use vstd::prelude::*;
use std::collections::HashMap;
use crate::text::{
    Strip, chars_of, has_prefix, is_ws, lead_len, lower, lowercase_chars, same_chars, starts_with,
    slice_chars, to_lowercase, trim_start_of, trim_start_set,
};

verus! {

/// The credits of one track of an album: the album-artist tag, if any, and the
/// track artists in credit order.
pub struct AlbumTrackArtists {
    pub explicit: Vec<i64>,
    pub artists: Vec<(i64, String)>,
}

#[derive(Debug, Clone, PartialEq, Eq)]
pub struct DerivedAlbumArtists {
    pub artist_ids: Vec<i64>,
    pub known: bool,
}

// ---------------------------------------------------------------------------
// Guest markers
// ---------------------------------------------------------------------------

/// What `char::is_alphanumeric` answers for `c`.
pub uninterp spec fn alnum(c: char) -> bool;

/// `char::is_alphanumeric`: Unicode `Alphabetic` or `Numeric`. The contract
/// claims only that the answer is a function of the character.
#[verifier::external_body]
fn is_alphanumeric(c: char) -> (r: bool)
    ensures
        r == alnum(c),
{
    c.is_alphanumeric()
}

pub open spec fn is_join_char(c: char) -> bool {
    c == '/' || c == '&' || c == ',' || c == ';' || c == '+' || c == '(' || c == '['
}

/// The words that join a guest to the main artist.
pub open spec fn is_join_word(w: Seq<char>) -> bool {
    ||| w == seq!['f', 'e', 'a', 't']
    ||| w == seq!['f', 't']
    ||| w == seq!['f', 'e', 'a', 't', 'u', 'r', 'i', 'n', 'g']
    ||| w == seq!['w', 'i', 't', 'h']
    ||| w == seq!['v', 's']
    ||| w == seq!['v', 'e', 'r', 's', 'u', 's']
    ||| w == seq!['a', 'n', 'd']
    ||| w == seq!['x']
}

fn join_word(w: &Vec<char>) -> (r: bool)
    ensures
        r == is_join_word(w@),
{
    let r = (w.len() == 4 && w[0] == 'f' && w[1] == 'e' && w[2] == 'a' && w[3] == 't')
        || (w.len() == 2 && w[0] == 'f' && w[1] == 't')
        || (w.len() == 9 && w[0] == 'f' && w[1] == 'e' && w[2] == 'a' && w[3] == 't' && w[4] == 'u' && w[5] == 'r' && w[6] == 'i' && w[7] == 'n' && w[8] == 'g')
        || (w.len() == 4 && w[0] == 'w' && w[1] == 'i' && w[2] == 't' && w[3] == 'h')
        || (w.len() == 2 && w[0] == 'v' && w[1] == 's')
        || (w.len() == 6 && w[0] == 'v' && w[1] == 'e' && w[2] == 'r' && w[3] == 's' && w[4] == 'u' && w[5] == 's')
        || (w.len() == 3 && w[0] == 'a' && w[1] == 'n' && w[2] == 'd')
        || (w.len() == 1 && w[0] == 'x');
    proof {
        if r {
        } else {
            assert(w@ != seq!['f', 'e', 'a', 't']) by {
                if w@.len() == 4 {
                    if w@[0] != 'f' { assert(seq!['f', 'e', 'a', 't'][0] == 'f'); }
                    if w@[1] != 'e' { assert(seq!['f', 'e', 'a', 't'][1] == 'e'); }
                    if w@[2] != 'a' { assert(seq!['f', 'e', 'a', 't'][2] == 'a'); }
                    if w@[3] != 't' { assert(seq!['f', 'e', 'a', 't'][3] == 't'); }
                }
            }
            assert(w@ != seq!['f', 't']) by {
                if w@.len() == 2 {
                    if w@[0] != 'f' { assert(seq!['f', 't'][0] == 'f'); }
                    if w@[1] != 't' { assert(seq!['f', 't'][1] == 't'); }
                }
            }
            assert(w@ != seq!['f', 'e', 'a', 't', 'u', 'r', 'i', 'n', 'g']) by {
                if w@.len() == 9 {
                    if w@[0] != 'f' { assert(seq!['f', 'e', 'a', 't', 'u', 'r', 'i', 'n', 'g'][0] == 'f'); }
                    if w@[1] != 'e' { assert(seq!['f', 'e', 'a', 't', 'u', 'r', 'i', 'n', 'g'][1] == 'e'); }
                    if w@[2] != 'a' { assert(seq!['f', 'e', 'a', 't', 'u', 'r', 'i', 'n', 'g'][2] == 'a'); }
                    if w@[3] != 't' { assert(seq!['f', 'e', 'a', 't', 'u', 'r', 'i', 'n', 'g'][3] == 't'); }
                    if w@[4] != 'u' { assert(seq!['f', 'e', 'a', 't', 'u', 'r', 'i', 'n', 'g'][4] == 'u'); }
                    if w@[5] != 'r' { assert(seq!['f', 'e', 'a', 't', 'u', 'r', 'i', 'n', 'g'][5] == 'r'); }
                    if w@[6] != 'i' { assert(seq!['f', 'e', 'a', 't', 'u', 'r', 'i', 'n', 'g'][6] == 'i'); }
                    if w@[7] != 'n' { assert(seq!['f', 'e', 'a', 't', 'u', 'r', 'i', 'n', 'g'][7] == 'n'); }
                    if w@[8] != 'g' { assert(seq!['f', 'e', 'a', 't', 'u', 'r', 'i', 'n', 'g'][8] == 'g'); }
                }
            }
            assert(w@ != seq!['w', 'i', 't', 'h']) by {
                if w@.len() == 4 {
                    if w@[0] != 'w' { assert(seq!['w', 'i', 't', 'h'][0] == 'w'); }
                    if w@[1] != 'i' { assert(seq!['w', 'i', 't', 'h'][1] == 'i'); }
                    if w@[2] != 't' { assert(seq!['w', 'i', 't', 'h'][2] == 't'); }
                    if w@[3] != 'h' { assert(seq!['w', 'i', 't', 'h'][3] == 'h'); }
                }
            }
            assert(w@ != seq!['v', 's']) by {
                if w@.len() == 2 {
                    if w@[0] != 'v' { assert(seq!['v', 's'][0] == 'v'); }
                    if w@[1] != 's' { assert(seq!['v', 's'][1] == 's'); }
                }
            }
            assert(w@ != seq!['v', 'e', 'r', 's', 'u', 's']) by {
                if w@.len() == 6 {
                    if w@[0] != 'v' { assert(seq!['v', 'e', 'r', 's', 'u', 's'][0] == 'v'); }
                    if w@[1] != 'e' { assert(seq!['v', 'e', 'r', 's', 'u', 's'][1] == 'e'); }
                    if w@[2] != 'r' { assert(seq!['v', 'e', 'r', 's', 'u', 's'][2] == 'r'); }
                    if w@[3] != 's' { assert(seq!['v', 'e', 'r', 's', 'u', 's'][3] == 's'); }
                    if w@[4] != 'u' { assert(seq!['v', 'e', 'r', 's', 'u', 's'][4] == 'u'); }
                    if w@[5] != 's' { assert(seq!['v', 'e', 'r', 's', 'u', 's'][5] == 's'); }
                }
            }
            assert(w@ != seq!['a', 'n', 'd']) by {
                if w@.len() == 3 {
                    if w@[0] != 'a' { assert(seq!['a', 'n', 'd'][0] == 'a'); }
                    if w@[1] != 'n' { assert(seq!['a', 'n', 'd'][1] == 'n'); }
                    if w@[2] != 'd' { assert(seq!['a', 'n', 'd'][2] == 'd'); }
                }
            }
            assert(w@ != seq!['x']) by {
                if w@.len() == 1 {
                    if w@[0] != 'x' { assert(seq!['x'][0] == 'x'); }
                }
            }
        }
    }
    if r {
        if (w.len() == 4 && w[0] == 'f' && w[1] == 'e' && w[2] == 'a' && w[3] == 't') { assert(w@ =~= seq!['f', 'e', 'a', 't']); }
        if (w.len() == 2 && w[0] == 'f' && w[1] == 't') { assert(w@ =~= seq!['f', 't']); }
        if (w.len() == 9 && w[0] == 'f' && w[1] == 'e' && w[2] == 'a' && w[3] == 't' && w[4] == 'u' && w[5] == 'r' && w[6] == 'i' && w[7] == 'n' && w[8] == 'g') { assert(w@ =~= seq!['f', 'e', 'a', 't', 'u', 'r', 'i', 'n', 'g']); }
        if (w.len() == 4 && w[0] == 'w' && w[1] == 'i' && w[2] == 't' && w[3] == 'h') { assert(w@ =~= seq!['w', 'i', 't', 'h']); }
        if (w.len() == 2 && w[0] == 'v' && w[1] == 's') { assert(w@ =~= seq!['v', 's']); }
        if (w.len() == 6 && w[0] == 'v' && w[1] == 'e' && w[2] == 'r' && w[3] == 's' && w[4] == 'u' && w[5] == 's') { assert(w@ =~= seq!['v', 'e', 'r', 's', 'u', 's']); }
        if (w.len() == 3 && w[0] == 'a' && w[1] == 'n' && w[2] == 'd') { assert(w@ =~= seq!['a', 'n', 'd']); }
        if (w.len() == 1 && w[0] == 'x') { assert(w@ =~= seq!['x']); }
    }
    r
}

/// How many alphanumeric characters begin `s`.
pub open spec fn alnum_prefix(s: Seq<char>) -> nat
    decreases s.len(),
{
    if s.len() > 0 && alnum(s[0]) {
        1 + alnum_prefix(s.drop_first())
    } else {
        0
    }
}

proof fn lemma_alnum_prefix(s: Seq<char>, i: int)
    requires
        0 <= i <= s.len(),
        forall|j: int| 0 <= j < i ==> alnum(#[trigger] s[j]),
        i == s.len() || !alnum(s[i]),
    ensures
        alnum_prefix(s) == i,
    decreases i,
{
    if i > 0 {
        let t = s.drop_first();
        assert forall|j: int| 0 <= j < i - 1 implies alnum(#[trigger] t[j]) by {
            assert(t[j] == s[j + 1]);
        }
        lemma_alnum_prefix(t, i - 1);
    }
}

/// Whether what follows a shared artist name starts a guest credit: a joining
/// character, a spaced hyphen, or a joining word.
pub open spec fn join_marker(rest: Seq<char>) -> bool {
    let trimmed = trim_start_of(rest, Strip::Whitespace);
    let spaced = trimmed.len() < rest.len();
    if trimmed.len() == 0 {
        false
    } else if is_join_char(trimmed[0]) {
        true
    } else if trimmed[0] == '-' {
        spaced
    } else {
        let word_end = alnum_prefix(trimmed);
        word_end < trimmed.len() && is_join_word(lower(trimmed.take(word_end as int)))
    }
}

fn is_join_marker(rest: &Vec<char>) -> (r: bool)
    ensures
        r == join_marker(rest@),
{
    let trimmed = trim_start_set(rest, Strip::Whitespace);
    let spaced = trimmed.len() < rest.len();
    if trimmed.len() == 0 {
        return false;
    }
    let first = trimmed[0];
    if first == '/' || first == '&' || first == ',' || first == ';' || first == '+' || first == '('
        || first == '[' {
        return true;
    }
    if first == '-' {
        return spaced;
    }
    let mut word_end: usize = 0;
    while word_end < trimmed.len() && is_alphanumeric(trimmed[word_end])
        invariant
            word_end <= trimmed@.len(),
            forall|j: int| 0 <= j < word_end ==> alnum(#[trigger] trimmed@[j]),
        decreases trimmed.len() - word_end,
    {
        word_end += 1;
    }
    proof {
        lemma_alnum_prefix(trimmed@, word_end as int);
    }
    if word_end >= trimmed.len() {
        return false;
    }
    let word = slice_chars(&trimmed, 0, word_end);
    assert(word@ == trimmed@.take(word_end as int));
    let lowered = lowercase_chars(&word);
    join_word(&lowered)
}

/// Whether the lowered credit `o` is the lowered `p` artist, alone or with
/// guests.
pub open spec fn covers_lowered_spec(p: Seq<char>, o: Seq<char>) -> bool {
    o == p || (has_prefix(o, p) && join_marker(o.skip(p.len() as int)))
}

/// `covers` on names already lowered.
fn covers_lowered(p: &Vec<char>, o: &Vec<char>) -> (r: bool)
    ensures
        r == covers_lowered_spec(p@, o@),
{
    if same_chars(o, p) {
        return true;
    }
    if !starts_with(o, p) {
        return false;
    }
    let rest = slice_chars(o, p.len(), o.len());
    assert(rest@ == o@.skip(p@.len() as int));
    is_join_marker(&rest)
}

/// The words that mark a guest credit are exactly feat, ft, featuring,
/// with, vs, versus, and, and x.
pub proof fn law_the_guest_words(w: Seq<char>)
    ensures
        is_join_word(w) <==> (w == seq!['f', 'e', 'a', 't'] || w == seq!['f', 't'] || w
            == seq!['f', 'e', 'a', 't', 'u', 'r', 'i', 'n', 'g'] || w == seq!['w', 'i', 't', 'h']
            || w == seq!['v', 's'] || w == seq!['v', 'e', 'r', 's', 'u', 's'] || w == seq![
            'a',
            'n',
            'd',
        ] || w == seq!['x']),
{
}

/// The characters that join a guest to an artist's name are exactly
/// `/ & , ; + ( [`.
pub proof fn law_the_joining_characters(c: char)
    ensures
        is_join_char(c) <==> (c == '/' || c == '&' || c == ',' || c == ';' || c == '+' || c
            == '(' || c == '['),
{
}

/// A credit that is an artist's name, a space, one of the guest words and
/// then something that is no letter or digit (such as "band ft. guest" for
/// "band") counts as that artist with a guest. The premises are what std
/// says of the word: its characters are alphanumeric and it is its own lower
/// case.
pub proof fn law_a_guest_word_marks_a_guest(p: Seq<char>, w: Seq<char>, g: Seq<char>)
    requires
        w == seq!['f', 'e', 'a', 't'] || w == seq!['f', 't'] || w == seq![
            'f',
            'e',
            'a',
            't',
            'u',
            'r',
            'i',
            'n',
            'g',
        ] || w == seq!['w', 'i', 't', 'h'] || w == seq!['v', 's'] || w == seq![
            'v',
            'e',
            'r',
            's',
            'u',
            's',
        ] || w == seq!['a', 'n', 'd'] || w == seq!['x'],
        forall|i: int| 0 <= i < w.len() ==> alnum(#[trigger] w[i]),
        lower(w) == w,
        g.len() > 0,
        !alnum(g[0]),
    ensures
        covers_lowered_spec(p, p + seq![' '] + w + g),
{
    let o = p + seq![' '] + w + g;
    let rest = seq![' '] + w + g;
    assert(o.take(p.len() as int) =~= p);
    assert(o.skip(p.len() as int) =~= rest);
    let tail = w + g;
    assert(rest.drop_first() =~= tail);
    assert(tail[0] == w[0]);
    assert(!is_ws(w[0])) by {
        if w == seq!['f', 'e', 'a', 't'] || w == seq!['f', 't'] || w == seq![
            'f', 'e', 'a', 't', 'u', 'r', 'i', 'n', 'g'] {
            assert(w[0] == 'f');
        } else if w == seq!['w', 'i', 't', 'h'] {
            assert(w[0] == 'w');
        } else if w == seq!['v', 's'] || w == seq!['v', 'e', 'r', 's', 'u', 's'] {
            assert(w[0] == 'v');
        } else if w == seq!['a', 'n', 'd'] {
            assert(w[0] == 'a');
        } else {
            assert(w[0] == 'x');
        }
    }
    assert(lead_len(tail, Strip::Whitespace) == 0);
    assert(lead_len(rest, Strip::Whitespace) == 1);
    assert(trim_start_of(rest, Strip::Whitespace) =~= tail);
    assert forall|j: int| 0 <= j < w.len() implies alnum(#[trigger] tail[j]) by {
        assert(tail[j] == w[j]);
    }
    assert(tail[w.len() as int] == g[0]);
    lemma_alnum_prefix(tail, w.len() as int);
    assert(tail.take(w.len() as int) =~= w);
    assert(!is_join_char(w[0]) && w[0] != '-');
}

/// A credit that is an artist's name directly followed by a joining
/// character counts as that artist with a guest.
pub proof fn law_a_joining_character_marks_a_guest(p: Seq<char>, c: char, g: Seq<char>)
    requires
        c == '/' || c == '&' || c == ',' || c == ';' || c == '+' || c == '(' || c == '[',
    ensures
        covers_lowered_spec(p, p + seq![c] + g),
{
    let o = p + seq![c] + g;
    let rest = seq![c] + g;
    assert(o.take(p.len() as int) =~= p);
    assert(o.skip(p.len() as int) =~= rest);
    assert(rest[0] == c);
    assert(!is_ws(c));
    assert(lead_len(rest, Strip::Whitespace) == 0);
    assert(trim_start_of(rest, Strip::Whitespace) =~= rest);
}

/// A hyphen marks a guest only with space before it: "a - b" is `a` with a
/// guest, while "a-b" is another name.
pub proof fn law_only_a_spaced_hyphen_marks_a_guest(p: Seq<char>, g: Seq<char>)
    ensures
        covers_lowered_spec(p, p + seq![' ', '-'] + g),
        !covers_lowered_spec(p, p + seq!['-'] + g),
{
    let o = p + seq![' ', '-'] + g;
    let rest = seq![' ', '-'] + g;
    assert(o.take(p.len() as int) =~= p);
    assert(o.skip(p.len() as int) =~= rest);
    let tail = seq!['-'] + g;
    assert(rest.drop_first() =~= tail);
    assert(tail[0] == '-');
    assert(!is_ws('-'));
    assert(lead_len(tail, Strip::Whitespace) == 0);
    assert(lead_len(rest, Strip::Whitespace) == 1);
    assert(trim_start_of(rest, Strip::Whitespace) =~= tail);
    let o2 = p + seq!['-'] + g;
    assert(o2.take(p.len() as int) =~= p);
    assert(o2.skip(p.len() as int) =~= tail);
    assert(trim_start_of(tail, Strip::Whitespace) =~= tail);
    assert(o2 != p) by {
        assert(o2.len() > p.len());
    }
}

// ---------------------------------------------------------------------------
// Deriving the album artists
// ---------------------------------------------------------------------------

pub open spec fn ids_of(artists: Seq<(i64, String)>) -> Seq<i64> {
    Seq::new(artists.len(), |i: int| artists[i].0)
}

/// The indices, among the first `k` tracks, of those that carry at least one
/// artist credit, in order.
pub open spec fn voters(tracks: Seq<AlbumTrackArtists>, k: int) -> Seq<int>
    decreases k,
{
    if k <= 0 {
        Seq::empty()
    } else {
        let v = voters(tracks, k - 1);
        if tracks[k - 1].artists@.len() > 0 {
            v.push(k - 1)
        } else {
            v
        }
    }
}

/// The index of the first track with an album-artist tag.
pub open spec fn is_first_tagged(tracks: Seq<AlbumTrackArtists>, i: int) -> bool {
    &&& 0 <= i < tracks.len()
    &&& tracks[i].explicit@.len() > 0
    &&& forall|j: int| 0 <= j < i ==> tracks[j].explicit@.len() == 0
}

/// The main (first) credit of each voting track.
pub open spec fn primaries(tracks: Seq<AlbumTrackArtists>, v: Seq<int>) -> Seq<(i64, String)> {
    Seq::new(v.len(), |i: int| tracks[v[i]].artists@[0])
}

/// The lowered names of the primaries, given the lowered main credit of each
/// track.
pub open spec fn primary_names(lowered: Seq<Seq<char>>, v: Seq<int>) -> Seq<Seq<char>> {
    Seq::new(v.len(), |i: int| lowered[v[i]])
}

/// The lowered main credit of each track (empty for a track without one).
pub open spec fn lowered_mains(tracks: Seq<AlbumTrackArtists>) -> Seq<Seq<char>> {
    Seq::new(
        tracks.len(),
        |t: int|
            if tracks[t].artists@.len() > 0 {
                lower(tracks[t].artists@[0].1@)
            } else {
                Seq::empty()
            },
    )
}

/// Whether the `i`-th primary is the first with its id and covers every
/// primary, by their lowered `names`.
pub open spec fn picked(ps: Seq<(i64, String)>, names: Seq<Seq<char>>, i: int) -> bool {
    &&& forall|j: int| 0 <= j < i ==> ps[j].0 != ps[i].0
    &&& forall|j: int| 0 <= j < ps.len() ==> covers_lowered_spec(names[i], names[j])
}

/// The ids of the primaries, among the first `k`, that cover every primary.
pub open spec fn shared_primaries(ps: Seq<(i64, String)>, names: Seq<Seq<char>>, k: int) -> Seq<i64>
    decreases k,
{
    if k <= 0 {
        Seq::empty()
    } else {
        let before = shared_primaries(ps, names, k - 1);
        if picked(ps, names, k - 1) {
            before.push(ps[k - 1].0)
        } else {
            before
        }
    }
}

/// The album artists: the first album-artist tag; else the credits every
/// voting track shares; else the one primary artist that every other primary
/// credit merely extends with guests (compared case-insensitively); else the
/// first track's credits, unknown.
pub open spec fn derived(tracks: Seq<AlbumTrackArtists>) -> (Seq<i64>, bool) {
    derived_by(tracks, lowered_mains(tracks))
}

/// `derived`, with the lowered main credit of each track given.
pub open spec fn derived_by(tracks: Seq<AlbumTrackArtists>, lowered: Seq<Seq<char>>) -> (Seq<i64>, bool) {
    if exists|i: int| is_first_tagged(tracks, i) {
        let i = choose|i: int| is_first_tagged(tracks, i);
        (tracks[i].explicit@, true)
    } else {
        let v = voters(tracks, tracks.len() as int);
        if v.len() == 0 {
            (Seq::empty(), false)
        } else {
            let first_ids = ids_of(tracks[v[0]].artists@);
            if forall|i: int|
                0 <= i < v.len() ==> ids_of(#[trigger] tracks[v[i]].artists@) == first_ids {
                (first_ids, true)
            } else {
                let shared = shared_primaries(
                    primaries(tracks, v),
                    primary_names(lowered, v),
                    v.len() as int,
                );
                if shared.len() == 1 {
                    (shared, true)
                } else {
                    (first_ids, false)
                }
            }
        }
    }
}

proof fn lemma_voters_credited(tracks: Seq<AlbumTrackArtists>, k: int)
    requires
        0 <= k <= tracks.len(),
    ensures
        forall|j: int|
            0 <= j < voters(tracks, k).len() ==> 0 <= #[trigger] voters(tracks, k)[j] < k
                && tracks[voters(tracks, k)[j]].artists@.len() > 0,
    decreases k,
{
    if k > 0 {
        lemma_voters_credited(tracks, k - 1);
        let v = voters(tracks, k - 1);
        assert forall|j: int| 0 <= j < voters(tracks, k).len() implies 0 <= #[trigger] voters(
            tracks,
            k,
        )[j] < k && tracks[voters(tracks, k)[j]].artists@.len() > 0 by {
            if j < v.len() {
                assert(voters(tracks, k)[j] == v[j]);
            }
        }
    }
}

fn ids(artists: &Vec<(i64, String)>) -> (r: Vec<i64>)
    ensures
        r@ == ids_of(artists@),
{
    let mut r: Vec<i64> = Vec::new();
    for i in 0..artists.len()
        invariant
            r@ == ids_of(artists@.take(i as int)),
    {
        r.push(artists[i].0);
        assert(r@ =~= ids_of(artists@.take(i + 1)));
    }
    assert(artists@.take(artists@.len() as int) == artists@);
    r
}

fn same_credits(artists: &Vec<(i64, String)>, want: &Vec<i64>) -> (r: bool)
    ensures
        r == (ids_of(artists@) == want@),
{
    if artists.len() != want.len() {
        assert(ids_of(artists@).len() != want@.len());
        return false;
    }
    for i in 0..artists.len()
        invariant
            artists@.len() == want@.len(),
            forall|j: int| 0 <= j < i ==> artists@[j].0 == want@[j],
    {
        if artists[i].0 != want[i] {
            assert(ids_of(artists@)[i as int] != want@[i as int]);
            return false;
        }
    }
    assert(ids_of(artists@) =~= want@);
    true
}

/// The album artists of an album's tracks (see `derived`).
pub fn derive_album_artists(tracks: &[AlbumTrackArtists]) -> (r: DerivedAlbumArtists)
    ensures
        r.artist_ids@ == derived(tracks@).0,
        r.known == derived(tracks@).1,
{
    let mut lowered: Vec<String> = Vec::new();
    for t in 0..tracks.len()
        invariant
            lowered@.len() == t,
            forall|j: int| 0 <= j < t ==> (#[trigger] lowered@[j])@ == lowered_mains(tracks@)[j],
    {
        if tracks[t].artists.len() > 0 {
            lowered.push(to_lowercase(tracks[t].artists[0].1.as_str()));
        } else {
            lowered.push(String::new());
        }
    }
    assert(lowered_view(lowered@) =~= lowered_mains(tracks@));
    derive_album_artists_lowered(tracks, &lowered)
}

pub open spec fn lowered_view(lowered: Seq<String>) -> Seq<Seq<char>> {
    Seq::new(lowered.len(), |t: int| lowered[t]@)
}

/// The album artists of an album's tracks, given the lowered main credit of
/// each track (see `derived_by`).
pub fn derive_album_artists_lowered(tracks: &[AlbumTrackArtists], lowered: &[String]) -> (r:
    DerivedAlbumArtists)
    requires
        lowered@.len() == tracks@.len(),
    ensures
        r.artist_ids@ == derived_by(tracks@, lowered_view(lowered@)).0,
        r.known == derived_by(tracks@, lowered_view(lowered@)).1,
{
    let ghost lv = lowered_view(lowered@);
    for i in 0..tracks.len()
        invariant
            forall|j: int| 0 <= j < i ==> tracks@[j].explicit@.len() == 0,
    {
        if tracks[i].explicit.len() > 0 {
            assert(is_first_tagged(tracks@, i as int));
            let ghost k = choose|k: int| is_first_tagged(tracks@, k);
            assert(k == i);
            return DerivedAlbumArtists { artist_ids: tracks[i].explicit.clone(), known: true };
        }
    }
    assert(!exists|i: int| is_first_tagged(tracks@, i));
    let mut voting: Vec<usize> = Vec::new();
    for i in 0..tracks.len()
        invariant
            voting@.len() == voters(tracks@, i as int).len(),
            forall|j: int|
                0 <= j < voting@.len() ==> #[trigger] voting@[j] as int == voters(tracks@, i as int)[j],
    {
        if tracks[i].artists.len() > 0 {
            voting.push(i);
        }
    }
    let ghost v = voters(tracks@, tracks@.len() as int);
    proof {
        lemma_voters_credited(tracks@, tracks@.len() as int);
    }
    if voting.len() == 0 {
        return DerivedAlbumArtists { artist_ids: Vec::new(), known: false };
    }
    let first_ids = ids(&tracks[voting[0]].artists);
    let mut all_same = true;
    for i in 0..voting.len()
        invariant
            voting@.len() == v.len(),
            forall|j: int| 0 <= j < voting@.len() ==> #[trigger] voting@[j] as int == v[j],
            forall|j: int|
                0 <= j < v.len() ==> 0 <= #[trigger] v[j] < tracks@.len()
                    && tracks@[v[j]].artists@.len() > 0,
            v.len() > 0,
            first_ids@ == ids_of(tracks@[v[0]].artists@),
            all_same == forall|j: int|
                0 <= j < i ==> ids_of(#[trigger] tracks@[v[j]].artists@) == first_ids@,
    {
        let same = same_credits(&tracks[voting[i]].artists, &first_ids);
        all_same = all_same && same;
    }
    if all_same {
        return DerivedAlbumArtists { artist_ids: first_ids, known: true };
    }
    // The primaries, with their lowered names.
    let ghost ps = primaries(tracks@, v);
    let ghost names = primary_names(lv, v);
    let mut prim_ids: Vec<i64> = Vec::new();
    let mut names_x: Vec<Vec<char>> = Vec::new();
    for i in 0..voting.len()
        invariant
            voting@.len() == v.len(),
            forall|j: int| 0 <= j < voting@.len() ==> #[trigger] voting@[j] as int == v[j],
            forall|j: int|
                0 <= j < v.len() ==> 0 <= #[trigger] v[j] < tracks@.len()
                    && tracks@[v[j]].artists@.len() > 0,
            ps == primaries(tracks@, v),
            lv == lowered_view(lowered@),
            lowered@.len() == tracks@.len(),
            names == primary_names(lv, v),
            prim_ids@.len() == i,
            names_x@.len() == i,
            forall|j: int| 0 <= j < i ==> #[trigger] prim_ids@[j] == ps[j].0,
            forall|j: int| 0 <= j < i ==> (#[trigger] names_x@[j])@ == names[j],
    {
        let track = &tracks[voting[i]];
        assert(track.artists@.len() > 0);
        let (id, _) = &track.artists[0];
        prim_ids.push(*id);
        names_x.push(chars_of(lowered[voting[i]].as_str()));
    }
    let mut seen: Vec<i64> = Vec::new();
    let mut candidates: Vec<i64> = Vec::new();
    for i in 0..prim_ids.len()
        invariant
            prim_ids@.len() == ps.len(),
            names_x@.len() == ps.len(),
            names.len() == ps.len(),
            forall|j: int| 0 <= j < ps.len() ==> #[trigger] prim_ids@[j] == ps[j].0,
            forall|j: int| 0 <= j < ps.len() ==> (#[trigger] names_x@[j])@ == names[j],
            forall|x: i64| seen@.contains(x) <==> exists|j: int| 0 <= j < i && ps[j].0 == x,
            candidates@ == shared_primaries(ps, names, i as int),
    {
        let id = prim_ids[i];
        let mut fresh = true;
        for k in 0..seen.len()
            invariant
                fresh == forall|j: int| 0 <= j < k ==> seen@[j] != id,
        {
            if seen[k] == id {
                fresh = false;
            }
        }
        proof {
            if fresh {
                assert(!seen@.contains(id));
                assert forall|j: int| 0 <= j < i implies ps[j].0 != ps[i as int].0 by {
                    if ps[j].0 == id {
                        assert(seen@.contains(id));
                    }
                }
            } else {
                let k = choose|k: int| 0 <= k < seen@.len() && seen@[k] == id;
                assert(seen@.contains(id));
            }
        }
        let ghost old_seen = seen@;
        if fresh {
            seen.push(id);
        }
        proof {
            assert forall|x: i64| seen@.contains(x) <==> exists|j: int|
                0 <= j < i + 1 && ps[j].0 == x by {
                if seen@.contains(x) {
                    if old_seen.contains(x) {
                    } else {
                        assert(x == id);
                        assert(ps[i as int].0 == x);
                    }
                }
                if exists|j: int| 0 <= j < i + 1 && ps[j].0 == x {
                    let j = choose|j: int| 0 <= j < i + 1 && ps[j].0 == x;
                    if j < i {
                        assert(old_seen.contains(x));
                        assert(seen@.contains(x)) by {
                            let k = choose|k: int| 0 <= k < old_seen.len() && old_seen[k] == x;
                            assert(seen@[k] == x);
                        }
                    } else {
                        if fresh {
                            assert(seen@[seen@.len() - 1] == x);
                        } else {
                            assert(old_seen.contains(x));
                            let k = choose|k: int| 0 <= k < old_seen.len() && old_seen[k] == x;
                            assert(seen@[k] == x);
                        }
                    }
                }
            }
        }
        if !fresh {
            assert(!picked(ps, names, i as int));
        } else {
        let mut covers_all = true;
        for j in 0..names_x.len()
            invariant
                names_x@.len() == ps.len(),
                names.len() == ps.len(),
                0 <= i < ps.len(),
                forall|j: int| 0 <= j < ps.len() ==> (#[trigger] names_x@[j])@ == names[j],
                covers_all == forall|x: int|
                    0 <= x < j ==> #[trigger] covers_lowered_spec(names[i as int], names[x]),
        {
            let c = covers_lowered(&names_x[i], &names_x[j]);
            covers_all = covers_all && c;
        }
        if covers_all {
            candidates.push(id);
        }
        }
    }
    if candidates.len() == 1 {
        let only = candidates[0];
        let ghost shared = shared_primaries(ps, names, ps.len() as int);
        let r = DerivedAlbumArtists { artist_ids: vec![only], known: true };
        assert(r.artist_ids@ =~= shared);
        return r;
    }
    DerivedAlbumArtists { artist_ids: first_ids, known: false }
}

/// Whether some track of the album carries `id` as an album-artist tag or as
/// an artist credit.
pub open spec fn credited_on(tracks: Seq<AlbumTrackArtists>, id: i64) -> bool {
    ||| exists|i: int, k: int|
        0 <= i < tracks.len() && 0 <= k < tracks[i].explicit@.len() && #[trigger] tracks[i].explicit@[k]
            == id
    ||| exists|i: int, k: int|
        0 <= i < tracks.len() && 0 <= k < tracks[i].artists@.len() && #[trigger] tracks[i].artists@[k].0
            == id
}

proof fn lemma_voters(tracks: Seq<AlbumTrackArtists>, k: int)
    requires
        0 <= k <= tracks.len(),
    ensures
        forall|a: int|
            0 <= a < voters(tracks, k).len() ==> 0 <= #[trigger] voters(tracks, k)[a] < k
                && tracks[voters(tracks, k)[a]].artists@.len() > 0,
    decreases k,
{
    if k > 0 {
        lemma_voters(tracks, k - 1);
        let v = voters(tracks, k - 1);
        assert forall|a: int| 0 <= a < voters(tracks, k).len() implies 0 <= #[trigger] voters(
            tracks,
            k,
        )[a] < k && tracks[voters(tracks, k)[a]].artists@.len() > 0 by {
            if a < v.len() {
                assert(voters(tracks, k)[a] == v[a]);
            }
        }
    }
}

proof fn lemma_shared_from(ps: Seq<(i64, String)>, names: Seq<Seq<char>>, k: int)
    requires
        0 <= k <= ps.len(),
    ensures
        forall|a: int|
            0 <= a < shared_primaries(ps, names, k).len() ==> exists|j: int|
                0 <= j < k && #[trigger] shared_primaries(ps, names, k)[a] == ps[j].0,
    decreases k,
{
    if k > 0 {
        lemma_shared_from(ps, names, k - 1);
        let before = shared_primaries(ps, names, k - 1);
        assert forall|a: int| 0 <= a < shared_primaries(ps, names, k).len() implies exists|j: int|
            0 <= j < k && #[trigger] shared_primaries(ps, names, k)[a] == ps[j].0 by {
            if a < before.len() {
                assert(shared_primaries(ps, names, k)[a] == before[a]);
                let j = choose|j: int| 0 <= j < k - 1 && #[trigger] before[a] == ps[j].0;
            } else {
                assert(shared_primaries(ps, names, k)[a] == ps[k - 1].0);
            }
        }
    }
}

/// The album artists are never invented, however the names compare: each is
/// an album-artist tag or an artist credit of one of the album's tracks; and
/// artists that are known are never none.
pub proof fn law_album_artists_are_credited(tracks: Seq<AlbumTrackArtists>, lowered: Seq<Seq<char>>)
    ensures
        forall|k: int|
            0 <= k < derived_by(tracks, lowered).0.len() ==> credited_on(
                tracks,
                #[trigger] derived_by(tracks, lowered).0[k],
            ),
        derived_by(tracks, lowered).1 ==> derived_by(tracks, lowered).0.len() > 0,
{
    let r = derived_by(tracks, lowered);
    if exists|i: int| is_first_tagged(tracks, i) {
        let i = choose|i: int| is_first_tagged(tracks, i);
        assert(r.0 == tracks[i].explicit@);
        assert forall|k: int| 0 <= k < r.0.len() implies credited_on(tracks, #[trigger] r.0[k]) by {
            assert(0 <= i < tracks.len() && 0 <= k < tracks[i].explicit@.len()
                && tracks[i].explicit@[k] == r.0[k]);
        }
    } else {
        let v = voters(tracks, tracks.len() as int);
        lemma_voters(tracks, tracks.len() as int);
        if v.len() > 0 {
            let t0 = v[0];
            let first_ids = ids_of(tracks[t0].artists@);
            let ps = primaries(tracks, v);
            let names = primary_names(lowered, v);
            let shared = shared_primaries(ps, names, v.len() as int);
            lemma_shared_from(ps, names, v.len() as int);
            assert forall|k: int| 0 <= k < r.0.len() implies credited_on(tracks, #[trigger] r.0[k]) by {
                if r.0 == first_ids {
                    assert(0 <= t0 < tracks.len() && 0 <= k < tracks[t0].artists@.len()
                        && tracks[t0].artists@[k].0 == r.0[k]);
                } else {
                    assert(r.0 == shared);
                    let j = choose|j: int| 0 <= j < v.len() && #[trigger] shared[k] == ps[j].0;
                    assert(ps[j] == tracks[v[j]].artists@[0]);
                    assert(0 <= v[j] < tracks.len() && 0 < tracks[v[j]].artists@.len()
                        && tracks[v[j]].artists@[0].0 == r.0[k]);
                }
            }
        }
    }
}

} // verus!

verus! {

// ---------------------------------------------------------------------------
// Grouping tracks into albums
// ---------------------------------------------------------------------------

/// The albums of `rows` (track id, album id) in the order they come, each
/// with the indices of its rows: rows of one album that follow on from one
/// another make one album.
pub open spec fn album_runs(rows: Seq<(i64, i64)>) -> Seq<(i64, Seq<int>)>
    decreases rows.len(),
{
    if rows.len() == 0 {
        seq![]
    } else {
        let r = album_runs(rows.drop_last());
        let i = rows.len() - 1;
        let album = rows[i].1;
        if r.len() > 0 && r.last().0 == album {
            r.update(r.len() - 1, (album, r.last().1.push(i)))
        } else {
            r.push((album, seq![i]))
        }
    }
}

/// Whether row `i` is the first to name its track.
pub open spec fn first_naming(rows: Seq<(i64, i64)>, i: int) -> bool {
    forall|j: int| 0 <= j < i ==> rows[j].0 != rows[i].0
}

/// The album-artist tag that row `i` gets: its track's, on the first row
/// that names the track, and nothing after.
pub open spec fn explicit_of(rows: Seq<(i64, i64)>, explicit: Map<i64, Vec<i64>>, i: int) -> Seq<i64> {
    if first_naming(rows, i) && explicit.contains_key(rows[i].0) {
        explicit[rows[i].0]@
    } else {
        seq![]
    }
}

/// The track artists that row `i` gets, in the same way.
pub open spec fn credited_of(
    rows: Seq<(i64, i64)>,
    credited: Map<i64, Vec<(i64, String)>>,
    i: int,
) -> Seq<(i64, String)> {
    if first_naming(rows, i) && credited.contains_key(rows[i].0) {
        credited[rows[i].0]@
    } else {
        seq![]
    }
}

/// The rows, album by album, as `album_runs` gives them, and the credits of
/// each track.
pub open spec fn grouped_as(
    r: Seq<(i64, Vec<AlbumTrackArtists>)>,
    rows: Seq<(i64, i64)>,
    explicit: Map<i64, Vec<i64>>,
    credited: Map<i64, Vec<(i64, String)>>,
) -> bool {
    let runs = album_runs(rows);
    &&& r.len() == runs.len()
    &&& forall|k: int|
        0 <= k < runs.len() ==> {
            &&& (#[trigger] r[k]).0 == runs[k].0
            &&& r[k].1@.len() == runs[k].1.len()
            &&& forall|m: int|
                0 <= m < runs[k].1.len() ==> {
                    &&& (#[trigger] r[k].1@[m]).explicit@ == explicit_of(rows, explicit, runs[k].1[m])
                    &&& r[k].1@[m].artists@ == credited_of(rows, credited, runs[k].1[m])
                }
        }
}

/// Groups the rows of the tracks that have an album, ordered by album, into
/// albums, each track with its album-artist tag and its credited artists.
/// A track's credits go to the first row that names it.
pub fn group_album_tracks(
    rows: &[(i64, i64)],
    explicit: HashMap<i64, Vec<i64>>,
    credited: HashMap<i64, Vec<(i64, String)>>,
) -> (r: Vec<(i64, Vec<AlbumTrackArtists>)>)
    ensures
        grouped_as(r@, rows@, explicit@, credited@),
{
    broadcast use vstd::std_specs::hash::group_hash_axioms;

    let ghost e0 = explicit@;
    let ghost c0 = credited@;
    let mut explicit = explicit;
    let mut credited = credited;
    let mut r: Vec<(i64, Vec<AlbumTrackArtists>)> = Vec::new();
    for i in 0..rows.len()
        invariant
            grouped_as(r@, rows@.take(i as int), e0, c0),
            forall|t: i64|
                #![trigger explicit@.contains_key(t)]
                explicit@.contains_key(t) <==> (e0.contains_key(t) && forall|j: int|
                    0 <= j < i ==> rows@[j].0 != t),
            forall|t: i64| #![trigger explicit@[t]] explicit@.contains_key(t) ==> explicit@[t] == e0[t],
            forall|t: i64|
                #![trigger credited@.contains_key(t)]
                credited@.contains_key(t) <==> (c0.contains_key(t) && forall|j: int|
                    0 <= j < i ==> rows@[j].0 != t),
            forall|t: i64| #![trigger credited@[t]] credited@.contains_key(t) ==> credited@[t] == c0[t],
    {
        let (track_id, album_id) = rows[i];
        let ghost before = r@;
        let ghost pre = rows@.take(i as int);
        let ghost now = rows@.take(i + 1);
        proof {
            assert(now.drop_last() == pre);
            assert(now[i as int] == (track_id, album_id));
            assert forall|j: int| 0 <= j < i implies now[j] == pre[j] && pre[j] == rows@[j] by {}
        }
        let ghost was_there = explicit@.contains_key(track_id);
        let ghost old_e = explicit@;
        let ghost old_c = credited@;
        let ex = match explicit.remove(&track_id) {
            Some(v) => v,
            None => Vec::new(),
        };
        let cr = match credited.remove(&track_id) {
            Some(v) => v,
            None => Vec::new(),
        };
        proof {
            assert(ex@ == explicit_of(now, e0, i as int)) by {
                if first_naming(now, i as int) && e0.contains_key(track_id) {
                    assert forall|j: int| 0 <= j < i implies rows@[j].0 != track_id by {
                        assert(now[j].0 != now[i as int].0);
                    }
                    assert(old_e.contains_key(track_id));
                } else if first_naming(now, i as int) {
                    assert(!old_e.contains_key(track_id));
                } else {
                    let j = choose|j: int| 0 <= j < i && now[j].0 == now[i as int].0;
                    assert(rows@[j].0 == track_id);
                    assert(!old_e.contains_key(track_id));
                }
            }
            assert(cr@ == credited_of(now, c0, i as int)) by {
                if first_naming(now, i as int) && c0.contains_key(track_id) {
                    assert forall|j: int| 0 <= j < i implies rows@[j].0 != track_id by {
                        assert(now[j].0 != now[i as int].0);
                    }
                    assert(old_c.contains_key(track_id));
                } else if first_naming(now, i as int) {
                    assert(!old_c.contains_key(track_id));
                } else {
                    let j = choose|j: int| 0 <= j < i && now[j].0 == now[i as int].0;
                    assert(rows@[j].0 == track_id);
                    assert(!old_c.contains_key(track_id));
                }
            }
            // explicit_of and credited_of for earlier rows do not change with the longer prefix
            assert forall|j: int| 0 <= j < i implies explicit_of(now, e0, j) == explicit_of(pre, e0, j)
                && credited_of(now, c0, j) == credited_of(pre, c0, j) by {
                assert(first_naming(now, j) == first_naming(pre, j));
            }
        }
        let entry = AlbumTrackArtists { explicit: ex, artists: cr };
        let n = r.len();
        if n > 0 && r[n - 1].0 == album_id {
            let (a, mut tracks) = r.pop().unwrap();
            let ghost old_tracks = tracks@;
            tracks.push(entry);
            r.push((a, tracks));
            proof {
                let runs0 = album_runs(pre);
                let runs1 = album_runs(now);
                assert(runs1 == runs0.update(runs0.len() - 1, (album_id, runs0.last().1.push(i as int))));
                assert forall|k: int| 0 <= k < runs1.len() implies {
                    &&& (#[trigger] r@[k]).0 == runs1[k].0
                    &&& r@[k].1@.len() == runs1[k].1.len()
                    &&& forall|m: int|
                        0 <= m < runs1[k].1.len() ==> {
                            &&& (#[trigger] r@[k].1@[m]).explicit@ == explicit_of(now, e0, runs1[k].1[m])
                            &&& r@[k].1@[m].artists@ == credited_of(now, c0, runs1[k].1[m])
                        }
                } by {
                    assert(before[k] == r@[k] || k == n - 1);
                    lemma_runs_index_bound(pre, k);
                    if k == n - 1 {
                        assert forall|m: int| 0 <= m < runs1[k].1.len() implies {
                            &&& (#[trigger] r@[k].1@[m]).explicit@ == explicit_of(now, e0, runs1[k].1[m])
                            &&& r@[k].1@[m].artists@ == credited_of(now, c0, runs1[k].1[m])
                        } by {
                            if m < old_tracks.len() {
                                assert(r@[k].1@[m] == old_tracks[m]);
                                assert(before[k].1@[m] == old_tracks[m]);
                            }
                        }
                    }
                }
            }
        } else {
            let mut tracks: Vec<AlbumTrackArtists> = Vec::new();
            tracks.push(entry);
            r.push((album_id, tracks));
            proof {
                let runs0 = album_runs(pre);
                let runs1 = album_runs(now);
                assert(runs1 == runs0.push((album_id, seq![i as int])));
                assert forall|k: int| 0 <= k < runs1.len() implies {
                    &&& (#[trigger] r@[k]).0 == runs1[k].0
                    &&& r@[k].1@.len() == runs1[k].1.len()
                    &&& forall|m: int|
                        0 <= m < runs1[k].1.len() ==> {
                            &&& (#[trigger] r@[k].1@[m]).explicit@ == explicit_of(now, e0, runs1[k].1[m])
                            &&& r@[k].1@[m].artists@ == credited_of(now, c0, runs1[k].1[m])
                        }
                } by {
                    if k < n {
                        assert(r@[k] == before[k]);
                        lemma_runs_index_bound(pre, k);
                    } else {
                        assert(seq![i as int][0] == i as int);
                    }
                }
            }
        }
        proof {
            assert forall|t: i64| #![trigger explicit@.contains_key(t)] explicit@.contains_key(t) <==> (e0.contains_key(t) && forall|j: int|
                    0 <= j < i + 1 ==> rows@[j].0 != t) by {
                if t != track_id {
                    assert(explicit@.contains_key(t) == old_e.contains_key(t));
                } else {
                    assert(rows@[i as int].0 == t);
                }
            }
            assert forall|t: i64| #![trigger credited@.contains_key(t)] credited@.contains_key(t) <==> (c0.contains_key(t) && forall|j: int|
                    0 <= j < i + 1 ==> rows@[j].0 != t) by {
                if t != track_id {
                    assert(credited@.contains_key(t) == old_c.contains_key(t));
                } else {
                    assert(rows@[i as int].0 == t);
                }
            }
        }
    }
    proof {
        assert(rows@.take(rows@.len() as int) == rows@);
    }
    r
}

proof fn lemma_runs_index_bound(rows: Seq<(i64, i64)>, k: int)
    requires
        0 <= k < album_runs(rows).len(),
    ensures
        forall|m: int| 0 <= m < album_runs(rows)[k].1.len() ==> 0 <= #[trigger] album_runs(rows)[k].1[m] < rows.len(),
    decreases rows.len(),
{
    let r = album_runs(rows.drop_last());
    if k < r.len() {
        lemma_runs_index_bound(rows.drop_last(), k);
    }
}

/// The album artists of each album: `derive_album_artists` over its tracks.
pub fn album_artist_rows(albums: &[(i64, Vec<AlbumTrackArtists>)]) -> (r: Vec<(i64, DerivedAlbumArtists)>)
    ensures
        r@.len() == albums@.len(),
        forall|k: int|
            0 <= k < albums@.len() ==> {
                &&& (#[trigger] r@[k]).0 == albums@[k].0
                &&& r@[k].1.artist_ids@ == derived(albums@[k].1@).0
                &&& r@[k].1.known == derived(albums@[k].1@).1
            },
{
    let mut r: Vec<(i64, DerivedAlbumArtists)> = Vec::new();
    for k in 0..albums.len()
        invariant
            r@.len() == k,
            forall|j: int|
                0 <= j < k ==> {
                    &&& (#[trigger] r@[j]).0 == albums@[j].0
                    &&& r@[j].1.artist_ids@ == derived(albums@[j].1@).0
                    &&& r@[j].1.known == derived(albums@[j].1@).1
                },
    {
        let derived_artists = derive_album_artists(albums[k].1.as_slice());
        r.push((albums[k].0, derived_artists));
    }
    r
}

} // verus!
