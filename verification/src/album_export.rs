//! Moving the server copies of an album into a music folder: the folder and
//! file names they get, and the cue sheet written beside a single-file image.
use std::collections::{HashMap, HashSet};
use vstd::prelude::*;
use crate::models::Track;
use crate::cache_fill::{progress_bounded, 
    FillJob, FillProgress, FillTarget, find_job, lemma_find_job, lemma_find_job_unique, progress_of,
    targets_unique,
};
use crate::paths::{join, join_spec, paths_equal, same_path, views};
use crate::remote::{is_remote_spec, parse_spec};
use crate::text::{
    Strip, chars_of, find_first, is_cc, is_ws, map_ascii_upper, push_all, push_pad2,
    push_dec_i64, push_str, slice_chars, string_of, trim, trim_end_set, trim_start_set,
    trim_end_of, trim_start_of, trimmed, ascii_uppercase, first_index, dec_pad2, dec_int,
    dec_nat, digit_char, lemma_dec_nat_digits, push_dec_u64, same_chars, lead_len, trail_len,
};

verus! {

/// The longest file or folder name, in characters, that a name is cut to.
pub const MAX_NAME_CHARS: usize = 100;

/// What the album is called and filed under.
#[derive(Clone, Debug, Default, PartialEq, Eq)]
pub struct AlbumMeta {
    pub id: i64,
    pub title: String,
    pub artist: String,
    pub year: Option<i32>,
    pub genre: Option<String>,
    pub cover_art_id: Option<i64>,
}

/// One track of a generated cue sheet.
#[derive(Clone, Debug, PartialEq, Eq)]
pub struct CueTrack {
    pub number: u32,
    pub title: String,
    pub performer: Option<String>,
    pub start_ms: u64,
}

/// A cue sheet for a single-file image.
#[derive(Clone, Debug, PartialEq, Eq)]
pub struct CueSpec {
    pub performer: String,
    pub title: String,
    pub date: Option<i32>,
    pub genre: Option<String>,
    pub tracks: Vec<CueTrack>,
}

/// One file to move: where it is read from, its size, where it goes and the
/// cue sheet written beside it, if it is an image.
#[derive(Clone, Debug, PartialEq, Eq)]
pub struct Entry {
    pub locator: String,
    pub size: u64,
    pub target: String,
    pub cue: Option<CueSpec>,
}

/// The album folder, relative to the music folder, and the files to move.
#[derive(Clone, Debug, Default, PartialEq, Eq)]
pub struct ExportPlan {
    pub dir: String,
    pub entries: Vec<Entry>,
}

pub open spec fn opt_str(s: Option<String>) -> Option<Seq<char>> {
    match s {
        Some(v) => Some(v@),
        None => None,
    }
}

pub struct AlbumMetaView {
    pub title: Seq<char>,
    pub artist: Seq<char>,
    pub year: Option<i32>,
    pub genre: Option<Seq<char>>,
}

pub struct CueTrackView {
    pub number: u32,
    pub title: Seq<char>,
    pub performer: Option<Seq<char>>,
    pub start_ms: u64,
}

pub struct CueSpecView {
    pub performer: Seq<char>,
    pub title: Seq<char>,
    pub date: Option<i32>,
    pub genre: Option<Seq<char>>,
    pub tracks: Seq<CueTrackView>,
}

pub struct EntryView {
    pub locator: Seq<char>,
    pub size: u64,
    pub target: Seq<char>,
    pub cue: Option<CueSpecView>,
}

pub struct ExportPlanView {
    pub dir: Seq<char>,
    pub entries: Seq<EntryView>,
}

impl View for AlbumMeta {
    type V = AlbumMetaView;

    open spec fn view(&self) -> AlbumMetaView {
        AlbumMetaView {
            title: self.title@,
            artist: self.artist@,
            year: self.year,
            genre: opt_str(self.genre),
        }
    }
}

impl View for CueTrack {
    type V = CueTrackView;

    open spec fn view(&self) -> CueTrackView {
        CueTrackView {
            number: self.number,
            title: self.title@,
            performer: opt_str(self.performer),
            start_ms: self.start_ms,
        }
    }
}

pub open spec fn cue_tracks_view(ts: Seq<CueTrack>) -> Seq<CueTrackView> {
    Seq::new(ts.len(), |i: int| ts[i]@)
}

impl View for CueSpec {
    type V = CueSpecView;

    open spec fn view(&self) -> CueSpecView {
        CueSpecView {
            performer: self.performer@,
            title: self.title@,
            date: self.date,
            genre: opt_str(self.genre),
            tracks: cue_tracks_view(self.tracks@),
        }
    }
}

pub open spec fn opt_cue(c: Option<CueSpec>) -> Option<CueSpecView> {
    match c {
        Some(v) => Some(v@),
        None => None,
    }
}

impl View for Entry {
    type V = EntryView;

    open spec fn view(&self) -> EntryView {
        EntryView {
            locator: self.locator@,
            size: self.size,
            target: self.target@,
            cue: opt_cue(self.cue),
        }
    }
}

pub open spec fn entries_view(es: Seq<Entry>) -> Seq<EntryView> {
    Seq::new(es.len(), |i: int| es[i]@)
}

impl View for ExportPlan {
    type V = ExportPlanView;

    open spec fn view(&self) -> ExportPlanView {
        ExportPlanView { dir: self.dir@, entries: entries_view(self.entries@) }
    }
}

// ---------------------------------------------------------------------------
// Sizes
// ---------------------------------------------------------------------------

/// The bytes of all entries together.
pub open spec fn entries_size(es: Seq<EntryView>) -> int
    decreases es.len(),
{
    if es.len() == 0 {
        0
    } else {
        entries_size(es.drop_last()) + es.last().size
    }
}

impl ExportPlan {
    /// The bytes to move.
    pub fn total(&self) -> (r: u64)
        requires
            entries_size(self@.entries) <= u64::MAX,
        ensures
            r == entries_size(self@.entries),
    {
        let mut sum: u64 = 0;
        for i in 0..self.entries.len()
            invariant
                sum == entries_size(entries_view(self.entries@).take(i as int)),
                entries_size(entries_view(self.entries@)) <= u64::MAX,
        {
            let ghost es = entries_view(self.entries@);
            assert(es.take(i + 1).drop_last() =~= es.take(i as int));
            proof {
                lemma_entries_size_prefix(es, i + 1);
            }
            sum = sum + self.entries[i].size;
        }
        assert(entries_view(self.entries@).take(self.entries@.len() as int) =~= entries_view(
            self.entries@,
        ));
        sum
    }
}

proof fn lemma_entries_size_prefix(es: Seq<EntryView>, k: int)
    requires
        0 <= k <= es.len(),
    ensures
        0 <= entries_size(es.take(k)) <= entries_size(es),
    decreases es.len(),
{
    if es.len() > 0 {
        if k == es.len() {
            assert(es.take(k) =~= es);
            lemma_entries_size_prefix(es.drop_last(), es.len() - 1);
            assert(es.drop_last().take(es.len() - 1) =~= es.drop_last());
        } else {
            lemma_entries_size_prefix(es.drop_last(), k);
            assert(es.drop_last().take(k) =~= es.take(k));
            lemma_entries_size_prefix(es.drop_last(), es.len() - 1);
            assert(es.drop_last().take(es.len() - 1) =~= es.drop_last());
        }
    }
}

/// Whether any of the tracks lives on a media server.
pub fn has_remote(tracks: &[Track]) -> (r: bool)
    ensures
        r == exists|i: int| 0 <= i < tracks@.len() && is_remote_spec(#[trigger] tracks@[i].path@),
{
    for i in 0..tracks.len()
        invariant
            forall|j: int| 0 <= j < i ==> !is_remote_spec(#[trigger] tracks@[j].path@),
    {
        if tracks[i].is_remote() {
            return true;
        }
    }
    false
}

// ---------------------------------------------------------------------------
// Names
// ---------------------------------------------------------------------------

/// Characters that no file name may hold on any of the systems the files
/// may be copied to.
pub open spec fn forbidden(c: char) -> bool {
    is_cc(c) || c == '/' || c == '\\' || c == ':' || c == '*' || c == '?' || c == '"' || c
        == '<' || c == '>' || c == '|'
}

pub open spec fn clean_char(c: char) -> char {
    if forbidden(c) {
        '_'
    } else {
        c
    }
}

/// The first hundred characters of `name`, each forbidden one replaced by `_`.
pub open spec fn cleaned(name: Seq<char>) -> Seq<char> {
    let n = if name.len() < MAX_NAME_CHARS {
        name.len()
    } else {
        MAX_NAME_CHARS as nat
    };
    Seq::new(n, |i: int| clean_char(name[i]))
}

/// A character that may not start or end a name: a dot or whitespace.
pub open spec fn end_char(c: char) -> bool {
    c == '.' || crate::text::is_ws(c)
}

/// `cleaned` without surrounding whitespace, leading dots, and trailing dots
/// and spaces, and without surrounding whitespace once more.
pub open spec fn trimmed_name(name: Seq<char>) -> Seq<char> {
    trimmed(trim_end_of(trim_start_of(trimmed(cleaned(name)), Strip::Dot), Strip::DotOrSpace))
}

/// `trimmed_name`, except where that still ends in a dot (as `.` and `..`
/// do): then also without dots and whitespace at either end, so that no
/// name ends in a dot.
pub open spec fn tidied(name: Seq<char>) -> Seq<char> {
    let t = trimmed_name(name);
    if t.len() > 0 && t.last() == '.' {
        trim_end_of(trim_start_of(t, Strip::DotOrWhitespace), Strip::DotOrWhitespace)
    } else {
        t
    }
}

/// The part of a name before its first `.`.
pub open spec fn stem_part(name: Seq<char>) -> Seq<char> {
    match first_index(name, '.') {
        Some(i) => name.take(i),
        None => name,
    }
}

pub open spec fn reserved_stem(s: Seq<char>) -> bool {
    ||| s == seq!['C', 'O', 'N']
    ||| s == seq!['P', 'R', 'N']
    ||| s == seq!['A', 'U', 'X']
    ||| s == seq!['N', 'U', 'L']
    ||| (s.len() == 4 && (s.take(3) == seq!['C', 'O', 'M'] || s.take(3) == seq!['L', 'P', 'T'])
        && '1' <= s[3] && s[3] <= '9')
}

/// Whether Windows reserves `name` for a device: its stem, without trailing
/// whitespace and in ASCII upper case, is `CON`, `PRN`, `AUX`, `NUL`, or
/// `COM` or `LPT` followed by a digit other than `0`.
pub open spec fn is_reserved(name: Seq<char>) -> bool {
    reserved_stem(map_ascii_upper(trim_end_of(stem_part(name), Strip::Whitespace)))
}

/// A name that every file system takes, made of `name`, or `fallback` when
/// nothing of `name` is left.
pub open spec fn component_spec(name: Seq<char>, fallback: Seq<char>) -> Seq<char> {
    let t = tidied(name);
    if t.len() == 0 {
        fallback
    } else if is_reserved(t) {
        match first_index(t, '.') {
            Some(i) => t.take(i) + seq!['_'] + t.skip(i),
            None => t.push('_'),
        }
    } else {
        t
    }
}

fn clean_name(name: &[char]) -> (r: Vec<char>)
    ensures
        r@ == cleaned(name@),
{
    let n = if name.len() < MAX_NAME_CHARS {
        name.len()
    } else {
        MAX_NAME_CHARS
    };
    let mut r: Vec<char> = Vec::new();
    for i in 0..n
        invariant
            n <= name@.len(),
            n == cleaned(name@).len(),
            r@ == cleaned(name@).take(i as int),
    {
        let c = name[i];
        let u = c as u32;
        let bad = u <= 0x1F || (0x7F <= u && u <= 0x9F) || c == '/' || c == '\\' || c == ':' || c
            == '*' || c == '?' || c == '"' || c == '<' || c == '>' || c == '|';
        r.push(if bad { '_' } else { c });
        assert(r@ =~= cleaned(name@).take(i + 1));
    }
    assert(cleaned(name@).take(n as int) =~= cleaned(name@));
    r
}

fn is_reserved_stem(s: &Vec<char>) -> (r: bool)
    ensures
        r == reserved_stem(s@),
{
    if s.len() == 3 {
        let r = (s[0] == 'C' && s[1] == 'O' && s[2] == 'N') || (s[0] == 'P' && s[1] == 'R' && s[2]
            == 'N') || (s[0] == 'A' && s[1] == 'U' && s[2] == 'X') || (s[0] == 'N' && s[1] == 'U'
            && s[2] == 'L');
        proof {
            if s@[0] == 'C' && s@[1] == 'O' && s@[2] == 'N' {
                assert(s@ =~= seq!['C', 'O', 'N']);
            }
            if s@[0] == 'P' && s@[1] == 'R' && s@[2] == 'N' {
                assert(s@ =~= seq!['P', 'R', 'N']);
            }
            if s@[0] == 'A' && s@[1] == 'U' && s@[2] == 'X' {
                assert(s@ =~= seq!['A', 'U', 'X']);
            }
            if s@[0] == 'N' && s@[1] == 'U' && s@[2] == 'L' {
                assert(s@ =~= seq!['N', 'U', 'L']);
            }
        }
        r
    } else if s.len() == 4 {
        let com = s[0] == 'C' && s[1] == 'O' && s[2] == 'M';
        let lpt = s[0] == 'L' && s[1] == 'P' && s[2] == 'T';
        let r = (com || lpt) && '1' <= s[3] && s[3] <= '9';
        proof {
            if com {
                assert(s@.take(3) =~= seq!['C', 'O', 'M']);
            }
            if lpt {
                assert(s@.take(3) =~= seq!['L', 'P', 'T']);
            }
            if s@.take(3) == seq!['C', 'O', 'M'] {
                assert(s@.take(3)[0] == 'C' && s@.take(3)[1] == 'O' && s@.take(3)[2] == 'M');
            }
            if s@.take(3) == seq!['L', 'P', 'T'] {
                assert(s@.take(3)[0] == 'L' && s@.take(3)[1] == 'P' && s@.take(3)[2] == 'T');
            }
        }
        r
    } else {
        false
    }
}

/// Whether Windows reserves `name` for a device.
pub fn is_reserved_on_windows(name: &[char]) -> (r: bool)
    ensures
        r == is_reserved(name@),
{
    let stem = match find_first(name, '.') {
        Some(i) => slice_chars(name, 0, i),
        None => slice_chars(name, 0, name.len()),
    };
    assert(stem@ == stem_part(name@)) by {
        if first_index(name@, '.') is None {
            assert(name@.subrange(0, name@.len() as int) =~= name@);
        }
    }
    let bare = trim_end_set(&stem, Strip::Whitespace);
    let upper = ascii_uppercase(&bare);
    is_reserved_stem(&upper)
}

/// A file or folder name made of `name` that every file system takes: cut
/// to a hundred characters, with forbidden characters replaced by `_`,
/// without surrounding whitespace, leading dots or trailing dots and spaces
/// (and, where a dot would still end it, without dots at either end), and
/// with `_` after the stem of a name that Windows reserves; `fallback`
/// when nothing is left.
pub fn component(name: &str, fallback: &str) -> (r: String)
    ensures
        r@ == component_spec(name@, fallback@),
{
    let chars = chars_of(name);
    let c = clean_name(&chars);
    let t1 = trim(&c);
    let t2 = trim_start_set(&t1, Strip::Dot);
    let t3 = trim_end_set(&t2, Strip::DotOrSpace);
    let t4 = trim(&t3);
    let t = if t4.len() > 0 && t4[t4.len() - 1] == '.' {
        let front = trim_start_set(&t4, Strip::DotOrWhitespace);
        trim_end_set(&front, Strip::DotOrWhitespace)
    } else {
        t4
    };
    if t.len() == 0 {
        let f = chars_of(fallback);
        return string_of(&f);
    }
    if is_reserved_on_windows(&t) {
        let mut out: Vec<char> = Vec::new();
        match find_first(&t, '.') {
            Some(i) => {
                let stem = slice_chars(&t, 0, i);
                let rest = slice_chars(&t, i, t.len());
                push_all(&mut out, &stem);
                out.push('_');
                push_all(&mut out, &rest);
                assert(out@ =~= t@.take(i as int) + seq!['_'] + t@.skip(i as int));
            },
            None => {
                push_all(&mut out, &t);
                out.push('_');
            },
        }
        string_of(&out)
    } else {
        string_of(&t)
    }
}

// ---------------------------------------------------------------------------
// Cue sheets
// ---------------------------------------------------------------------------

/// The frame (1/75 s) nearest to the milliseconds within a second, at most 74.
pub open spec fn cue_frames(ms: u64) -> int {
    let f = ((ms % 1000) * 75 + 500) / 1000;
    if f < 74 {
        f as int
    } else {
        74
    }
}

/// `mm:ss:ff`, the time of a cue index: minutes (at least two digits),
/// seconds and frames.
pub open spec fn cue_time_spec(ms: u64) -> Seq<char> {
    dec_pad2((ms / 60_000) as int) + seq![':'] + dec_pad2(((ms % 60_000) / 1000) as int) + seq![
        ':',
    ] + dec_pad2(cue_frames(ms))
}

fn push_cue_time(out: &mut Vec<char>, ms: u64)
    ensures
        final(out)@ == old(out)@ + cue_time_spec(ms),
{
    let minutes = ms / 60_000;
    let seconds = ms % 60_000 / 1000;
    let raw = (ms % 1000 * 75 + 500) / 1000;
    let frames = if raw < 74 {
        raw
    } else {
        74
    };
    push_pad2(out, minutes as i64);
    out.push(':');
    push_pad2(out, seconds as i64);
    out.push(':');
    push_pad2(out, frames as i64);
    assert(out@ =~= old(out)@ + cue_time_spec(ms));
}

/// The time of a cue index for a start in milliseconds.
pub fn cue_time(ms: u64) -> (r: String)
    ensures
        r@ == cue_time_spec(ms),
{
    let mut out: Vec<char> = Vec::new();
    push_cue_time(&mut out, ms);
    assert(out@ =~= cue_time_spec(ms));
    string_of(&out)
}

/// `text` with every `"` replaced by `'`, so that it fits between quotes.
pub open spec fn quoted(text: Seq<char>) -> Seq<char> {
    Seq::new(text.len(), |i: int| if text[i] == '"' { '\'' } else { text[i] })
}

fn push_quoted(out: &mut Vec<char>, text: &str)
    ensures
        final(out)@ == old(out)@ + quoted(text@),
{
    let cs = chars_of(text);
    let ghost start = out@;
    for i in 0..cs.len()
        invariant
            cs@ == text@,
            out@ == start + quoted(text@).take(i as int),
    {
        let c = cs[i];
        out.push(if c == '"' { '\'' } else { c });
        assert(out@ =~= start + quoted(text@).take(i + 1));
    }
    assert(quoted(text@).take(cs@.len() as int) =~= quoted(text@));
}

/// The lines of one track of a cue sheet.
pub open spec fn track_lines(t: CueTrackView) -> Seq<char> {
    let performer = match t.performer {
        Some(p) => "    PERFORMER \""@ + quoted(p) + "\"\n"@,
        None => Seq::empty(),
    };
    "  TRACK "@ + dec_pad2(t.number as int) + " AUDIO\n"@ + "    TITLE \""@ + quoted(t.title)
        + "\"\n"@ + performer + "    INDEX 01 "@ + cue_time_spec(t.start_ms) + "\n"@
}

pub open spec fn tracks_lines(ts: Seq<CueTrackView>) -> Seq<char>
    decreases ts.len(),
{
    if ts.len() == 0 {
        Seq::empty()
    } else {
        tracks_lines(ts.drop_last()) + track_lines(ts.last())
    }
}

/// The cue sheet of `spec` for the image called `file_name`: the genre (when
/// it is not empty), the date, the performer and the title (when not empty),
/// the file, then each track with its number, title, performer and start.
pub open spec fn genre_line(genre: Option<Seq<char>>) -> Seq<char> {
    match genre {
        Some(g) => if g.len() > 0 {
            "REM GENRE \""@ + quoted(g) + "\"\n"@
        } else {
            Seq::empty()
        },
        None => Seq::empty(),
    }
}

pub open spec fn date_line(date: Option<i32>) -> Seq<char> {
    match date {
        Some(d) => "REM DATE "@ + dec_int(d as int) + "\n"@,
        None => Seq::empty(),
    }
}

pub open spec fn performer_line(performer: Seq<char>) -> Seq<char> {
    if performer.len() > 0 {
        "PERFORMER \""@ + quoted(performer) + "\"\n"@
    } else {
        Seq::empty()
    }
}

pub open spec fn title_line(title: Seq<char>) -> Seq<char> {
    if title.len() > 0 {
        "TITLE \""@ + quoted(title) + "\"\n"@
    } else {
        Seq::empty()
    }
}

pub open spec fn file_line(file_name: Seq<char>) -> Seq<char> {
    "FILE \""@ + quoted(file_name) + "\" WAVE\n"@
}

/// The cue sheet of `spec` for the image called `file_name`: the genre (when
/// it is not empty), the date, the performer and the title (when not empty),
/// the file, then each track with its number, title, performer and start.
pub open spec fn cue_text_spec(spec: CueSpecView, file_name: Seq<char>) -> Seq<char> {
    genre_line(spec.genre) + date_line(spec.date) + performer_line(spec.performer) + title_line(
        spec.title,
    ) + file_line(file_name) + tracks_lines(spec.tracks)
}

fn push_genre_line(out: &mut Vec<char>, genre: &Option<String>)
    ensures
        final(out)@ == old(out)@ + genre_line(opt_str(*genre)),
{
    match genre {
        Some(g) => if g.as_str().unicode_len() > 0 {
            push_str(out, "REM GENRE \"");
            push_quoted(out, g.as_str());
            push_str(out, "\"\n");
            assert(out@ =~= old(out)@ + genre_line(opt_str(*genre)));
        } else {
            assert(out@ =~= old(out)@ + genre_line(opt_str(*genre)));
        },
        None => {
            assert(out@ =~= old(out)@ + genre_line(opt_str(*genre)));
        },
    }
}

fn push_date_line(out: &mut Vec<char>, date: Option<i32>)
    ensures
        final(out)@ == old(out)@ + date_line(date),
{
    match date {
        Some(d) => {
            push_str(out, "REM DATE ");
            push_dec_i64(out, d as i64);
            push_str(out, "\n");
            assert(out@ =~= old(out)@ + date_line(date));
        },
        None => {
            assert(out@ =~= old(out)@ + date_line(date));
        },
    }
}

fn push_performer_line(out: &mut Vec<char>, performer: &String)
    ensures
        final(out)@ == old(out)@ + performer_line(performer@),
{
    if performer.as_str().unicode_len() > 0 {
        push_str(out, "PERFORMER \"");
        push_quoted(out, performer.as_str());
        push_str(out, "\"\n");
        assert(out@ =~= old(out)@ + performer_line(performer@));
    } else {
        assert(out@ =~= old(out)@ + performer_line(performer@));
    }
}

fn push_title_line(out: &mut Vec<char>, title: &String)
    ensures
        final(out)@ == old(out)@ + title_line(title@),
{
    if title.as_str().unicode_len() > 0 {
        push_str(out, "TITLE \"");
        push_quoted(out, title.as_str());
        push_str(out, "\"\n");
        assert(out@ =~= old(out)@ + title_line(title@));
    } else {
        assert(out@ =~= old(out)@ + title_line(title@));
    }
}

fn push_file_line(out: &mut Vec<char>, file_name: &str)
    ensures
        final(out)@ == old(out)@ + file_line(file_name@),
{
    push_str(out, "FILE \"");
    push_quoted(out, file_name);
    push_str(out, "\" WAVE\n");
    assert(out@ =~= old(out)@ + file_line(file_name@));
}

fn push_track_lines(out: &mut Vec<char>, t: &CueTrack)
    ensures
        final(out)@ == old(out)@ + track_lines(t@),
{
    push_str(out, "  TRACK ");
    push_pad2(out, t.number as i64);
    push_str(out, " AUDIO\n");
    push_str(out, "    TITLE \"");
    push_quoted(out, t.title.as_str());
    push_str(out, "\"\n");
    let ghost mid = out@;
    match &t.performer {
        Some(p) => {
            push_str(out, "    PERFORMER \"");
            push_quoted(out, p.as_str());
            push_str(out, "\"\n");
        },
        None => {},
    }
    push_str(out, "    INDEX 01 ");
    push_cue_time(out, t.start_ms);
    push_str(out, "\n");
    assert(out@ =~= old(out)@ + track_lines(t@));
}

/// The text of the cue sheet of `spec` for the image called `file_name`.
pub fn cue_text(spec: &CueSpec, file_name: &str) -> (r: String)
    ensures
        r@ == cue_text_spec(spec@, file_name@),
{
    let mut out: Vec<char> = Vec::new();
    push_genre_line(&mut out, &spec.genre);
    push_date_line(&mut out, spec.date);
    push_performer_line(&mut out, &spec.performer);
    push_title_line(&mut out, &spec.title);
    push_file_line(&mut out, file_name);
    let ghost head = out@;
    assert(head =~= genre_line(spec@.genre) + date_line(spec@.date) + performer_line(
        spec@.performer,
    ) + title_line(spec@.title) + file_line(file_name@));
    for i in 0..spec.tracks.len()
        invariant
            out@ == head + tracks_lines(cue_tracks_view(spec.tracks@).take(i as int)),
    {
        push_track_lines(&mut out, &spec.tracks[i]);
        let ghost ts = cue_tracks_view(spec.tracks@);
        assert(ts.take(i + 1).drop_last() =~= ts.take(i as int));
        assert(out@ =~= head + tracks_lines(ts.take(i + 1)));
    }
    assert(cue_tracks_view(spec.tracks@).take(spec.tracks@.len() as int) =~= cue_tracks_view(
        spec.tracks@,
    ));
    assert(out@ =~= cue_text_spec(spec@, file_name@));
    string_of(&out)
}

proof fn lemma_frames_back(f: int)
    requires
        0 <= f < 75,
    ensures
        0 <= f * 1000 / 75 < 1000,
        ((f * 1000 / 75) * 75 + 500) / 1000 == f,
{
    let g = f * 1000 / 75;
    let r = f * 1000 % 75;
    assert(f * 1000 == 75 * g + r && 0 <= r < 75) by (nonlinear_arith)
        requires
            g == f * 1000 / 75,
            r == f * 1000 % 75,
    ;
    assert(0 <= g < 1000) by (nonlinear_arith)
        requires
            f * 1000 == 75 * g + r,
            0 <= r < 75,
            0 <= f < 75,
    ;
    assert((g * 75 + 500) / 1000 == f) by (nonlinear_arith)
        requires
            f * 1000 == 75 * g + r,
            0 <= r < 75,
    ;
}

/// A start given in minutes, seconds and frames and turned into milliseconds
/// by rounding the frames down gives back the same minutes, seconds and
/// frames as its cue time.
pub proof fn law_cue_time_round_trip(minutes: nat, seconds: nat, frames: nat)
    requires
        seconds < 60,
        frames < 75,
        minutes * 60_000 + seconds * 1000 + frames * 1000 / 75 <= u64::MAX,
    ensures
        cue_time_spec((minutes * 60_000 + seconds * 1000 + frames * 1000 / 75) as u64) == dec_pad2(
            minutes as int,
        ) + seq![':'] + dec_pad2(seconds as int) + seq![':'] + dec_pad2(frames as int),
{
    lemma_frames_back(frames as int);
    let g = frames * 1000 / 75;
    let ms = minutes * 60_000 + seconds * 1000 + g;
    assert(ms / 60_000 == minutes && ms % 60_000 == seconds * 1000 + g) by (nonlinear_arith)
        requires
            ms == minutes * 60_000 + seconds * 1000 + g,
            seconds < 60,
            0 <= g < 1000,
    ;
    assert((seconds * 1000 + g) / 1000 == seconds && ms % 1000 == g) by (nonlinear_arith)
        requires
            ms == minutes * 60_000 + seconds * 1000 + g,
            0 <= g < 1000,
    ;
    assert(cue_frames(ms as u64) == frames);
}

// ---------------------------------------------------------------------------
// Claiming free names
// ---------------------------------------------------------------------------

/// The name tried the `n`-th time: `stem.ext`, then `stem (2).ext`,
/// `stem (3).ext` and so on.
pub open spec fn try_name(stem: Seq<char>, ext: Seq<char>, n: nat) -> Seq<char> {
    if n <= 1 {
        stem + seq!['.'] + ext
    } else {
        stem + seq![' ', '('] + dec_nat(n) + seq![')', '.'] + ext
    }
}

pub open spec fn try_path(folder: Seq<char>, stem: Seq<char>, ext: Seq<char>, n: nat) -> Seq<
    char,
> {
    join_spec(folder, try_name(stem, ext, n))
}

/// `n` is the first try whose path is not taken.
pub open spec fn is_first_free(
    taken: Seq<Seq<char>>,
    folder: Seq<char>,
    stem: Seq<char>,
    ext: Seq<char>,
    n: nat,
) -> bool {
    &&& n >= 1
    &&& !taken.contains(try_path(folder, stem, ext, n))
    &&& forall|k: nat| 1 <= k < n ==> taken.contains(#[trigger] try_path(folder, stem, ext, k))
}

/// The stem a file is named by: `stem` made a name, `Track` when nothing of it
/// is left.
pub open spec fn file_stem_of(stem: Seq<char>) -> Seq<char> {
    component_spec(stem, "Track"@)
}

/// The path, in `folder`, that a file named `stem.ext` gets when the paths
/// `taken` are taken: the first try that is free.
pub open spec fn claimed_path(
    taken: Seq<Seq<char>>,
    folder: Seq<char>,
    stem: Seq<char>,
    ext: Seq<char>,
) -> Seq<char> {
    let s = file_stem_of(stem);
    try_path(folder, s, ext, choose|n: nat| is_first_free(taken, folder, s, ext, n))
}

proof fn lemma_first_free_unique(
    taken: Seq<Seq<char>>,
    folder: Seq<char>,
    stem: Seq<char>,
    ext: Seq<char>,
    n: nat,
    m: nat,
)
    requires
        is_first_free(taken, folder, stem, ext, n),
        is_first_free(taken, folder, stem, ext, m),
    ensures
        n == m,
{
    if n < m {
        assert(taken.contains(try_path(folder, stem, ext, n)));
    }
    if m < n {
        assert(taken.contains(try_path(folder, stem, ext, m)));
    }
}

proof fn lemma_try_name_injective(stem: Seq<char>, ext: Seq<char>, n: nat, m: nat)
    requires
        n >= 1,
        m >= 1,
        try_name(stem, ext, n) == try_name(stem, ext, m),
    ensures
        n == m,
{
    lemma_dec_nat_digits(n);
    lemma_dec_nat_digits(m);
    let a = try_name(stem, ext, n);
    let b = try_name(stem, ext, m);
    if n >= 2 {
        assert(a.len() == stem.len() + 4 + dec_nat(n).len() + ext.len());
    } else {
        assert(a.len() == stem.len() + 1 + ext.len());
    }
    if m >= 2 {
        assert(b.len() == stem.len() + 4 + dec_nat(m).len() + ext.len());
    } else {
        assert(b.len() == stem.len() + 1 + ext.len());
    }
    if n >= 2 && m >= 2 {
        let dn = dec_nat(n);
        let dm = dec_nat(m);
        assert(dn.len() == dm.len());
        let lo: int = stem.len() as int + 2;
        assert(a.subrange(lo, lo + dn.len()) =~= dn);
        assert(try_name(stem, ext, m).subrange(lo, lo + dm.len()) =~= dm);
    }
}

proof fn lemma_join_injective(folder: Seq<char>, a: Seq<char>, b: Seq<char>)
    requires
        a.len() > 0,
        b.len() > 0,
        (a[0] == '/') == (b[0] == '/'),
        join_spec(folder, a) == join_spec(folder, b),
    ensures
        a == b,
{
    if a[0] != '/' && folder.len() > 0 {
        let pre = if folder.last() == '/' {
            folder
        } else {
            folder + seq!['/']
        };
        assert(join_spec(folder, a) == pre + a);
        assert(join_spec(folder, b) == pre + b);
        assert((pre + a).skip(pre.len() as int) =~= a);
        assert((pre + b).skip(pre.len() as int) =~= b);
    }
}

proof fn lemma_try_path_injective(
    folder: Seq<char>,
    stem: Seq<char>,
    ext: Seq<char>,
    n: nat,
    m: nat,
)
    requires
        n >= 1,
        m >= 1,
        try_path(folder, stem, ext, n) == try_path(folder, stem, ext, m),
    ensures
        n == m,
{
    let a = try_name(stem, ext, n);
    let b = try_name(stem, ext, m);
    assert(a.len() > 0 && b.len() > 0);
    if stem.len() > 0 {
        assert(a[0] == stem[0] && b[0] == stem[0]);
    } else {
        assert(a[0] == '.' || a[0] == ' ');
        assert(b[0] == '.' || b[0] == ' ');
    }
    lemma_join_injective(folder, a, b);
    lemma_try_name_injective(stem, ext, n, m);
}

fn contains_path(taken: &Vec<Vec<char>>, path: &Vec<char>) -> (r: bool)
    ensures
        r == views(taken@).contains(path@),
{
    for i in 0..taken.len()
        invariant
            forall|j: int| 0 <= j < i ==> views(taken@)[j] != path@,
    {
        if same_chars(&taken[i], path) {
            assert(views(taken@)[i as int] == path@);
            return true;
        }
    }
    assert forall|j: int| 0 <= j < views(taken@).len() implies views(taken@)[j] != path@ by {}
    false
}

/// The name of the `n`-th try for a file: `stem (n).ext`, or `stem.ext` for
/// the first.
pub fn numbered_name(stem: &str, ext: &str, n: u64) -> (r: String)
    requires
        n >= 1,
    ensures
        r@ == try_name(stem@, ext@, n as nat),
{
    let mut name: Vec<char> = Vec::new();
    push_str(&mut name, stem);
    if n == 1 {
        name.push('.');
    } else {
        name.push(' ');
        name.push('(');
        push_dec_u64(&mut name, n);
        name.push(')');
        name.push('.');
    }
    push_str(&mut name, ext);
    assert(name@ =~= try_name(stem@, ext@, n as nat));
    string_of(&name)
}

fn try_path_exec(folder: &[char], stem: &Vec<char>, ext: &Vec<char>, n: usize) -> (r: Vec<char>)
    requires
        n >= 1,
    ensures
        r@ == try_path(folder@, stem@, ext@, n as nat),
{
    let mut name: Vec<char> = Vec::new();
    push_all(&mut name, stem);
    if n == 1 {
        name.push('.');
    } else {
        name.push(' ');
        name.push('(');
        push_dec_u64(&mut name, n as u64);
        name.push(')');
        name.push('.');
    }
    push_all(&mut name, ext);
    assert(name@ =~= try_name(stem@, ext@, n as nat));
    join(folder, &name)
}

/// Takes, in `folder`, the first free path for a file named after `stem`
/// with the extension `ext`, and records it as taken.
fn claim(taken: &mut Vec<Vec<char>>, folder: &[char], stem: &str, ext: &str) -> (r: Vec<char>)
    requires
        old(taken)@.len() < usize::MAX,
    ensures
        r@ == claimed_path(views(old(taken)@), folder@, stem@, ext@),
        !views(old(taken)@).contains(r@),
        views(final(taken)@) == views(old(taken)@).push(r@),
{
    let cs = component(stem, "Track");
    let s = chars_of(cs.as_str());
    let e = chars_of(ext);
    let ghost tk = views(taken@);
    let ghost mut tried: Set<Seq<char>> = Set::empty();
    let mut n: usize = 1;
    proof {
        broadcast use vstd::seq_lib::seq_to_set_is_finite;
    }
    loop
        invariant
            views(taken@) == tk,
            tk == views(old(taken)@),
            tk.len() < usize::MAX,
            s@ == file_stem_of(stem@),
            e@ == ext@,
            1 <= n <= tk.len() + 1,
            forall|k: nat| 1 <= k < n ==> tk.contains(#[trigger] try_path(folder@, s@, e@, k)),
            tried.finite(),
            tried.len() == n - 1,
            forall|p: Seq<char>| #[trigger] tried.contains(p) ==> tk.contains(p),
            forall|p: Seq<char>|
                #[trigger] tried.contains(p) ==> exists|k: nat|
                    1 <= k < n && p == #[trigger] try_path(folder@, s@, e@, k),
        decreases tk.len() + 1 - n,
    {
        let path = try_path_exec(folder, &s, &e, n);
        if !contains_path(taken, &path) {
            let ghost r = path@;
            proof {
                assert(is_first_free(tk, folder@, s@, e@, n as nat));
                let m = choose|m: nat| is_first_free(tk, folder@, s@, e@, m);
                lemma_first_free_unique(tk, folder@, s@, e@, n as nat, m);
            }
            let ghost before = taken@;
            taken.push(path.clone());
            assert(views(taken@) =~= views(before).push(r));
            return path;
        }
        proof {
            if tried.contains(path@) {
                let k = choose|k: nat| 1 <= k < n && path@ == #[trigger] try_path(
                    folder@,
                    s@,
                    e@,
                    k,
                );
                lemma_try_path_injective(folder@, s@, e@, k, n as nat);
            }
            tried = tried.insert(path@);
            assert(tried.subset_of(tk.to_set()));
            vstd::set_lib::lemma_len_subset(tried, tk.to_set());
            tk.lemma_cardinality_of_set();
            assert forall|p: Seq<char>| #[trigger] tried.contains(p) implies exists|k: nat|
                1 <= k < n + 1 && p == #[trigger] try_path(folder@, s@, e@, k) by {
                if p == path@ {
                    assert(p == try_path(folder@, s@, e@, n as nat));
                }
            }
        }
        n = n + 1;
    }
}

// ---------------------------------------------------------------------------
// Ordering and numbering the tracks of a cue sheet
// ---------------------------------------------------------------------------

/// How many tracks at the end of `sorted` start after `start`.
pub open spec fn starting_after(sorted: Seq<CueTrackView>, start: u64) -> nat
    decreases sorted.len(),
{
    if sorted.len() > 0 && sorted.last().start_ms > start {
        1 + starting_after(sorted.drop_last(), start)
    } else {
        0
    }
}

/// `sorted` with `t` put after every track that starts no later than it.
pub open spec fn insert_by_start(sorted: Seq<CueTrackView>, t: CueTrackView) -> Seq<
    CueTrackView,
> {
    sorted.insert(sorted.len() - starting_after(sorted, t.start_ms), t)
}

/// The tracks ordered by their start, tracks with equal starts in the order
/// they came (a stable sort).
pub open spec fn sort_by_start(ts: Seq<CueTrackView>) -> Seq<CueTrackView>
    decreases ts.len(),
{
    if ts.len() == 0 {
        Seq::empty()
    } else {
        insert_by_start(sort_by_start(ts.drop_last()), ts.last())
    }
}

/// Whether the numbers of the tracks cannot stand: one is 0 or two are equal.
pub open spec fn needs_numbers(ts: Seq<CueTrackView>) -> bool {
    ||| exists|i: int| 0 <= i < ts.len() && #[trigger] ts[i].number == 0
    ||| exists|i: int, j: int|
        0 <= i < j < ts.len() && #[trigger] ts[i].number == #[trigger] ts[j].number
}

/// The tracks numbered 1, 2, 3, ... in their order.
pub open spec fn renumbered(ts: Seq<CueTrackView>) -> Seq<CueTrackView> {
    Seq::new(
        ts.len(),
        |i: int|
            CueTrackView {
                number: (i + 1) as u32,
                title: ts[i].title,
                performer: ts[i].performer,
                start_ms: ts[i].start_ms,
            },
    )
}

/// The tracks of a cue sheet as it is written: ordered by start, and
/// numbered anew when their own numbers cannot stand.
pub open spec fn finish_cue_tracks(ts: Seq<CueTrackView>) -> Seq<CueTrackView> {
    let s = sort_by_start(ts);
    if needs_numbers(s) {
        renumbered(s)
    } else {
        s
    }
}

proof fn lemma_starting_after(s: Seq<CueTrackView>, start: u64, k: int)
    requires
        0 <= k <= s.len(),
        forall|j: int| s.len() - k <= j < s.len() ==> (#[trigger] s[j]).start_ms > start,
        k == s.len() || s[s.len() - k - 1].start_ms <= start,
    ensures
        starting_after(s, start) == k,
    decreases k,
{
    if k > 0 {
        let t = s.drop_last();
        assert forall|j: int| t.len() - (k - 1) <= j < t.len() implies (
        #[trigger] t[j]).start_ms > start by {
            assert(t[j] == s[j]);
        }
        if k - 1 < t.len() {
            assert(t[t.len() - (k - 1) - 1] == s[s.len() - k - 1]);
        }
        lemma_starting_after(t, start, k - 1);
    }
}

fn copy_text(s: &String) -> (r: String)
    ensures
        r@ == s@,
{
    s.clone()
}

fn copy_cue_track(t: &CueTrack) -> (r: CueTrack)
    ensures
        r@ == t@,
{
    CueTrack {
        number: t.number,
        title: copy_text(&t.title),
        performer: match &t.performer {
            Some(p) => Some(copy_text(p)),
            None => None,
        },
        start_ms: t.start_ms,
    }
}

fn insert_by_start_exec(out: &mut Vec<CueTrack>, t: CueTrack)
    ensures
        cue_tracks_view(final(out)@) == insert_by_start(cue_tracks_view(old(out)@), t@),
{
    let ghost v = cue_tracks_view(out@);
    let mut k = out.len();
    while k > 0 && out[k - 1].start_ms > t.start_ms
        invariant
            k <= out@.len(),
            v == cue_tracks_view(out@),
            forall|j: int| k <= j < out@.len() ==> (#[trigger] out@[j]).start_ms > t.start_ms,
        decreases k,
    {
        k = k - 1;
    }
    proof {
        assert forall|j: int| v.len() - (v.len() - k) <= j < v.len() implies (
        #[trigger] v[j]).start_ms > t.start_ms by {
            assert(v[j] == out@[j]@);
        }
        if k > 0 {
            assert(v[k - 1] == out@[k - 1]@);
        }
        lemma_starting_after(v, t.start_ms, v.len() - k);
    }
    let ghost tv = t@;
    out.insert(k, t);
    assert(cue_tracks_view(out@) =~= v.insert(k as int, tv));
}

/// The tracks ordered by their start, stably.
fn sort_cue_tracks(ts: &Vec<CueTrack>) -> (r: Vec<CueTrack>)
    ensures
        cue_tracks_view(r@) == sort_by_start(cue_tracks_view(ts@)),
{
    let mut out: Vec<CueTrack> = Vec::new();
    for i in 0..ts.len()
        invariant
            cue_tracks_view(out@) == sort_by_start(cue_tracks_view(ts@).take(i as int)),
    {
        let t = copy_cue_track(&ts[i]);
        insert_by_start_exec(&mut out, t);
        let ghost v = cue_tracks_view(ts@);
        assert(v.take(i + 1).drop_last() =~= v.take(i as int));
        assert(v.take(i + 1).last() == ts@[i as int]@);
    }
    assert(cue_tracks_view(ts@).take(ts@.len() as int) =~= cue_tracks_view(ts@));
    out
}

fn needs_numbers_exec(ts: &Vec<CueTrack>) -> (r: bool)
    ensures
        r == needs_numbers(cue_tracks_view(ts@)),
{
    let ghost v = cue_tracks_view(ts@);
    for i in 0..ts.len()
        invariant
            v == cue_tracks_view(ts@),
            forall|a: int| 0 <= a < i ==> (#[trigger] v[a]).number != 0,
            forall|a: int, b: int| 0 <= a < b < ts@.len() && a < i ==> #[trigger] v[a].number
                != #[trigger] v[b].number,
    {
        if ts[i].number == 0 {
            assert(v[i as int].number == 0);
            return true;
        }
        for j in i + 1..ts.len()
            invariant
                v == cue_tracks_view(ts@),
                i < ts@.len(),
                forall|b: int| i < b < j ==> v[i as int].number != #[trigger] v[b].number,
        {
            if ts[i].number == ts[j].number {
                assert(v[i as int].number == v[j as int].number);
                return true;
            }
        }
    }
    false
}

fn renumber(ts: &mut Vec<CueTrack>)
    requires
        old(ts)@.len() < u32::MAX,
    ensures
        cue_tracks_view(final(ts)@) == renumbered(cue_tracks_view(old(ts)@)),
{
    let ghost v = cue_tracks_view(ts@);
    let n = ts.len();
    let mut i: usize = 0;
    while i < n
        invariant
            n == v.len(),
            ts@.len() == v.len(),
            v.len() < u32::MAX,
            i <= n,
            forall|j: int| 0 <= j < i ==> (#[trigger] ts@[j])@ == renumbered(v)[j],
            forall|j: int| i <= j < v.len() ==> (#[trigger] ts@[j])@ == v[j],
        decreases n - i,
    {
        let old_t = copy_cue_track(&ts[i]);
        let number: u32 = (i + 1) as u32;
        ts.set(
            i,
            CueTrack {
                number,
                title: old_t.title,
                performer: old_t.performer,
                start_ms: old_t.start_ms,
            },
        );
        i = i + 1;
    }
    assert(cue_tracks_view(ts@) =~= renumbered(v));
}

/// The tracks as the cue sheet lists them.
fn finish_tracks(ts: &Vec<CueTrack>) -> (r: Vec<CueTrack>)
    requires
        ts@.len() < u32::MAX,
    ensures
        cue_tracks_view(r@) == finish_cue_tracks(cue_tracks_view(ts@)),
{
    let mut sorted = sort_cue_tracks(ts);
    proof {
        lemma_sort_len(cue_tracks_view(ts@));
    }
    if needs_numbers_exec(&sorted) {
        renumber(&mut sorted);
    }
    sorted
}

proof fn lemma_sort_len(ts: Seq<CueTrackView>)
    ensures
        sort_by_start(ts).len() == ts.len(),
    decreases ts.len(),
{
    if ts.len() > 0 {
        lemma_sort_len(ts.drop_last());
        let s = sort_by_start(ts.drop_last());
        lemma_starting_after_le(s, ts.last().start_ms);
    }
}

proof fn lemma_starting_after_le(s: Seq<CueTrackView>, start: u64)
    ensures
        starting_after(s, start) <= s.len(),
    decreases s.len(),
{
    if s.len() > 0 {
        lemma_starting_after_le(s.drop_last(), start);
    }
}

// ---------------------------------------------------------------------------
// The plan
// ---------------------------------------------------------------------------

/// What the plan of an album is made from, besides its tracks.
pub struct PlanCtx {
    /// The album folder.
    pub dir: Seq<char>,
    /// The album artist, made a name.
    pub artist: Seq<char>,
    /// The album title, made a name.
    pub title: Seq<char>,
    /// Whether the tracks lie on more than one disc.
    pub multi_disc: bool,
    pub meta: AlbumMetaView,
    pub artists: Map<i64, Vec<String>>,
    pub sizes: Seq<(String, u64)>,
}

/// The entries planned so far and the paths they took.
pub struct PlanState {
    pub entries: Seq<EntryView>,
    pub taken: Seq<Seq<char>>,
}

pub open spec fn locators(es: Seq<EntryView>) -> Seq<Seq<char>> {
    Seq::new(es.len(), |i: int| es[i].locator)
}

/// The index of the first of `locs` that is the same path as `loc`.
pub open spec fn find_loc(locs: Seq<Seq<char>>, loc: Seq<char>) -> Option<int>
    decreases locs.len(),
{
    if locs.len() == 0 {
        None
    } else {
        match find_loc(locs.drop_last(), loc) {
            Some(i) => Some(i),
            None => if same_path(locs.last(), loc) {
                Some(locs.len() - 1)
            } else {
                None
            },
        }
    }
}

/// The size listed first for the path `loc`, or 0.
pub open spec fn size_lookup(sizes: Seq<(String, u64)>, loc: Seq<char>) -> u64
    decreases sizes.len(),
{
    if sizes.len() == 0 {
        0
    } else if same_path(sizes[0].0@, loc) {
        sizes[0].1
    } else {
        size_lookup(sizes.drop_first(), loc)
    }
}

/// The first artist credited on the track `id`, if any.
pub open spec fn performer_of(artists: Map<i64, Vec<String>>, id: i64) -> Option<Seq<char>> {
    if artists.contains_key(id) && artists[id]@.len() > 0 {
        Some(artists[id]@[0]@)
    } else {
        None
    }
}

pub open spec fn numbered(t: Track) -> bool {
    t.track_number is Some && t.track_number->0 > 0
}

/// The stem a server file is named by: `disc-NN - title` when the album has
/// several discs, `NN - title`, or the title when the track has no number.
pub open spec fn track_stem(t: Track, multi_disc: bool) -> Seq<char> {
    if numbered(t) {
        if multi_disc {
            dec_int(t.disc_number as int) + seq!['-'] + dec_pad2(t.track_number->0 as int) + seq![
                ' ',
                '-',
                ' ',
            ] + t.title@
        } else {
            dec_pad2(t.track_number->0 as int) + seq![' ', '-', ' '] + t.title@
        }
    } else {
        t.title@
    }
}

pub open spec fn decimal_digits() -> Seq<char> {
    seq!['0', '1', '2', '3', '4', '5', '6', '7', '8', '9']
}

/// How a server file is named: a track numbered 1 to 99 gets its number in
/// two digits, " - " and its title; on an album of several discs that name
/// is led by the disc (1 to 9) and a hyphen; a track without a number (or
/// numbered 0) is named by its title alone.
pub proof fn law_file_names_carry_the_track_number(t: Track)
    ensures
        (t.track_number == Some(0i32) || t.track_number is None) ==> track_stem(t, false)
            == t.title@ && track_stem(t, true) == t.title@,
        t.track_number is Some && 1 <= t.track_number->0 <= 99 ==> track_stem(t, false) == seq![
            decimal_digits()[t.track_number->0 / 10],
            decimal_digits()[(t.track_number->0 as int) % 10],
            ' ',
            '-',
            ' ',
        ] + t.title@,
        t.track_number is Some && 1 <= t.track_number->0 <= 99 && 1 <= t.disc_number <= 9
            ==> track_stem(
            t,
            true,
        ) == seq![decimal_digits()[t.disc_number as int], '-'] + track_stem(t, false),
{
    assert(digit_char(0) == decimal_digits()[0]);
    assert(digit_char(1) == decimal_digits()[1]);
    assert(digit_char(2) == decimal_digits()[2]);
    assert(digit_char(3) == decimal_digits()[3]);
    assert(digit_char(4) == decimal_digits()[4]);
    assert(digit_char(5) == decimal_digits()[5]);
    assert(digit_char(6) == decimal_digits()[6]);
    assert(digit_char(7) == decimal_digits()[7]);
    assert(digit_char(8) == decimal_digits()[8]);
    assert(digit_char(9) == decimal_digits()[9]);
    if t.track_number is Some {
        let n = t.track_number->0;
        if 1 <= n <= 99 {
            let p = dec_pad2(n as int);
            if n < 10 {
                assert(p =~= seq![decimal_digits()[n / 10], decimal_digits()[(n as int) % 10]]);
            } else {
                assert(dec_nat((n / 10) as nat) == seq![digit_char((n / 10) as int)]);
                assert(p =~= seq![decimal_digits()[n / 10], decimal_digits()[(n as int) % 10]]);
            }
            assert(track_stem(t, false) =~= seq![
                decimal_digits()[n / 10],
                decimal_digits()[(n as int) % 10],
                ' ',
                '-',
                ' ',
            ] + t.title@);
            if 1 <= t.disc_number <= 9 {
                assert(dec_int(t.disc_number as int) =~= seq![decimal_digits()[t.disc_number as int]]);
                assert(track_stem(t, true) =~= seq![decimal_digits()[t.disc_number as int], '-']
                    + track_stem(t, false));
            }
        }
    }
}

/// The cue sheet line of a piece of an image.
pub open spec fn cue_track_of(t: Track, artists: Map<i64, Vec<String>>) -> CueTrackView {
    CueTrackView {
        number: if numbered(t) {
            t.track_number->0 as u32
        } else {
            0
        },
        title: t.title@,
        performer: performer_of(artists, t.id),
        start_ms: if t.start_offset_ms > 0 {
            t.start_offset_ms as u64
        } else {
            0
        },
    }
}

/// The folder of an image: a `CDn` folder per disc when there are several.
pub open spec fn image_folder(ctx: PlanCtx, t: Track) -> Seq<char> {
    if ctx.multi_disc {
        join_spec(ctx.dir, seq!['C', 'D'] + dec_int(t.disc_number as int))
    } else {
        ctx.dir
    }
}

/// The stem of an image: `artist - title`.
pub open spec fn image_stem(ctx: PlanCtx) -> Seq<char> {
    ctx.artist + seq![' ', '-', ' '] + ctx.title
}

pub open spec fn with_entry(st: PlanState, e: EntryView) -> PlanState {
    PlanState { entries: st.entries.push(e), taken: st.taken.push(e.target) }
}

/// The plan after one more track: a server file is planned once under its
/// numbered name; a piece of an image plans the image once, with an empty cue
/// sheet, and adds its line to that sheet; a track that is not on a server is
/// skipped.
pub open spec fn plan_step(ctx: PlanCtx, st: PlanState, t: Track) -> PlanState {
    match parse_spec(t.path@) {
        None => st,
        Some(r) => {
            let loc = t.path@;
            let known = find_loc(locators(st.entries), loc);
            let size = size_lookup(ctx.sizes, loc);
            if !t.is_cue {
                if known is Some {
                    st
                } else {
                    let target = claimed_path(st.taken, ctx.dir, track_stem(t, ctx.multi_disc), r.2);
                    with_entry(st, EntryView { locator: loc, size, target, cue: None })
                }
            } else {
                let st2 = if known is Some {
                    st
                } else {
                    let target = claimed_path(st.taken, image_folder(ctx, t), image_stem(ctx), r.2);
                    let sheet = CueSpecView {
                        performer: ctx.meta.artist,
                        title: ctx.meta.title,
                        date: ctx.meta.year,
                        genre: ctx.meta.genre,
                        tracks: Seq::empty(),
                    };
                    with_entry(st, EntryView { locator: loc, size, target, cue: Some(sheet) })
                };
                let ix = match known {
                    Some(i) => i,
                    None => st.entries.len() as int,
                };
                let e = st2.entries[ix];
                match e.cue {
                    Some(c) => PlanState {
                        entries: st2.entries.update(
                            ix,
                            EntryView {
                                locator: e.locator,
                                size: e.size,
                                target: e.target,
                                cue: Some(
                                    CueSpecView {
                                        performer: c.performer,
                                        title: c.title,
                                        date: c.date,
                                        genre: c.genre,
                                        tracks: c.tracks.push(cue_track_of(t, ctx.artists)),
                                    },
                                ),
                            },
                        ),
                        taken: st2.taken,
                    },
                    None => st2,
                }
            }
        },
    }
}

pub open spec fn plan_fold(ctx: PlanCtx, tracks: Seq<Track>) -> PlanState
    decreases tracks.len(),
{
    if tracks.len() == 0 {
        PlanState { entries: Seq::empty(), taken: Seq::empty() }
    } else {
        plan_step(ctx, plan_fold(ctx, tracks.drop_last()), tracks.last())
    }
}

/// An entry as it is moved: its cue sheet lists its tracks finished.
pub open spec fn finish_entry(e: EntryView) -> EntryView {
    match e.cue {
        Some(c) => EntryView {
            locator: e.locator,
            size: e.size,
            target: e.target,
            cue: Some(
                CueSpecView {
                    performer: c.performer,
                    title: c.title,
                    date: c.date,
                    genre: c.genre,
                    tracks: finish_cue_tracks(c.tracks),
                },
            ),
        },
        None => e,
    }
}

pub open spec fn multi_disc_spec(tracks: Seq<Track>) -> bool {
    exists|i: int, j: int|
        0 <= i < tracks.len() && 0 <= j < tracks.len() && #[trigger] tracks[i].disc_number
            != #[trigger] tracks[j].disc_number
}

/// The album folder name: `year - title`, or the title.
pub open spec fn album_name(meta: AlbumMetaView) -> Seq<char> {
    let title = component_spec(meta.title, "Unknown Album"@);
    match meta.year {
        Some(y) => dec_int(y as int) + seq![' ', '-', ' '] + title,
        None => title,
    }
}

pub open spec fn plan_ctx(
    meta: AlbumMetaView,
    tracks: Seq<Track>,
    artists: Map<i64, Vec<String>>,
    sizes: Seq<(String, u64)>,
) -> PlanCtx {
    let artist = component_spec(meta.artist, "Unknown Artist"@);
    PlanCtx {
        dir: join_spec(artist, component_spec(album_name(meta), "Unknown Album"@)),
        artist,
        title: component_spec(meta.title, "Unknown Album"@),
        multi_disc: multi_disc_spec(tracks),
        meta,
        artists,
        sizes,
    }
}

/// The plan for moving the server files of an album into a music folder:
/// the folder `artist/year - title`, and one entry per server file, in the
/// order of the tracks.
pub open spec fn build_plan_spec(
    meta: AlbumMetaView,
    tracks: Seq<Track>,
    artists: Map<i64, Vec<String>>,
    sizes: Seq<(String, u64)>,
) -> ExportPlanView {
    let ctx = plan_ctx(meta, tracks, artists, sizes);
    let es = plan_fold(ctx, tracks).entries;
    ExportPlanView { dir: ctx.dir, entries: Seq::new(es.len(), |i: int| finish_entry(es[i])) }
}

proof fn lemma_fold_bounds(ctx: PlanCtx, ts: Seq<Track>)
    ensures
        plan_fold(ctx, ts).entries.len() == plan_fold(ctx, ts).taken.len(),
        plan_fold(ctx, ts).entries.len() <= ts.len(),
        forall|k: int|
            0 <= k < plan_fold(ctx, ts).entries.len() && (#[trigger] plan_fold(
                ctx,
                ts,
            ).entries[k]).cue is Some ==> plan_fold(ctx, ts).entries[k].cue->0.tracks.len()
                <= ts.len(),
    decreases ts.len(),
{
    if ts.len() > 0 {
        let prev = ts.drop_last();
        lemma_fold_bounds(ctx, prev);
        let st = plan_fold(ctx, prev);
        let t = ts.last();
        let next = plan_fold(ctx, ts);
        assert(next == plan_step(ctx, st, t));
        match parse_spec(t.path@) {
            None => {},
            Some(r) => {
                let loc = t.path@;
                let known = find_loc(locators(st.entries), loc);
                if known is Some {
                    lemma_find_loc_bounds(locators(st.entries), loc);
                }
                if t.is_cue {
                    let size = size_lookup(ctx.sizes, loc);
                    let st2 = if known is Some {
                        st
                    } else {
                        let target = claimed_path(
                            st.taken,
                            image_folder(ctx, t),
                            image_stem(ctx),
                            r.2,
                        );
                        let sheet = CueSpecView {
                            performer: ctx.meta.artist,
                            title: ctx.meta.title,
                            date: ctx.meta.year,
                            genre: ctx.meta.genre,
                            tracks: Seq::empty(),
                        };
                        with_entry(st, EntryView { locator: loc, size, target, cue: Some(sheet) })
                    };
                    let ix = match known {
                        Some(i) => i,
                        None => st.entries.len() as int,
                    };
                    assert(0 <= ix < st2.entries.len());
                    assert forall|k: int|
                        0 <= k < st2.entries.len() && (#[trigger] st2.entries[k]).cue is Some implies st2.entries[k].cue->0.tracks.len()
                            <= prev.len() by {
                        if k < st.entries.len() {
                            assert(st2.entries[k] == st.entries[k]);
                        }
                    }
                }
            },
        }
    }
}

proof fn lemma_find_loc_bounds(v: Seq<Seq<char>>, loc: Seq<char>)
    ensures
        match find_loc(v, loc) {
            Some(i) => 0 <= i < v.len() && same_path(v[i], loc),
            None => true,
        },
    decreases v.len(),
{
    if v.len() > 0 {
        lemma_find_loc_bounds(v.drop_last(), loc);
    }
}

fn disc_count_above_one(tracks: &[Track]) -> (r: bool)
    ensures
        r == multi_disc_spec(tracks@),
{
    if tracks.len() == 0 {
        return false;
    }
    let first = tracks[0].disc_number;
    for i in 1..tracks.len()
        invariant
            tracks@.len() > 0,
            first == tracks@[0].disc_number,
            forall|j: int| 0 <= j < i ==> (#[trigger] tracks@[j]).disc_number == first,
    {
        if tracks[i].disc_number != first {
            assert(tracks@[0].disc_number != tracks@[i as int].disc_number);
            return true;
        }
    }
    assert(!multi_disc_spec(tracks@)) by {
        assert forall|a: int, b: int|
            0 <= a < tracks@.len() && 0 <= b < tracks@.len() implies #[trigger] tracks@[a].disc_number
            == #[trigger] tracks@[b].disc_number by {
            assert(tracks@[a].disc_number == first);
            assert(tracks@[b].disc_number == first);
        }
    }
    false
}

fn find_entry(locs: &Vec<Vec<char>>, loc: &Vec<char>) -> (r: Option<usize>)
    ensures
        match r {
            Some(i) => find_loc(views(locs@), loc@) == Some(i as int),
            None => find_loc(views(locs@), loc@) is None,
        },
{
    let ghost v = views(locs@);
    for i in 0..locs.len()
        invariant
            v == views(locs@),
            find_loc(v.take(i as int), loc@) is None,
    {
        assert(v.take(i + 1).drop_last() =~= v.take(i as int));
        if paths_equal(locs[i].as_slice(), loc.as_slice()) {
            assert(find_loc(v.take(i + 1), loc@) == Some(i as int));
            proof {
                lemma_find_loc_prefix(v, loc@, i + 1);
            }
            return Some(i);
        }
        assert(find_loc(v.take(i + 1), loc@) is None);
    }
    assert(v.take(locs@.len() as int) =~= v);
    None
}

proof fn lemma_find_loc_prefix(v: Seq<Seq<char>>, loc: Seq<char>, k: int)
    requires
        0 <= k <= v.len(),
        find_loc(v.take(k), loc) is Some,
    ensures
        find_loc(v, loc) == find_loc(v.take(k), loc),
    decreases v.len() - k,
{
    if k < v.len() {
        assert(v.take(k + 1).drop_last() =~= v.take(k));
        lemma_find_loc_prefix(v, loc, k + 1);
    } else {
        assert(v.take(k) =~= v);
    }
}

fn lookup_size(sizes: &[(String, u64)], loc: &Vec<char>) -> (r: u64)
    ensures
        r == size_lookup(sizes@, loc@),
{
    assert(sizes@.skip(0) =~= sizes@);
    for i in 0..sizes.len()
        invariant
            size_lookup(sizes@.skip(i as int), loc@) == size_lookup(sizes@, loc@),
    {
        let key = chars_of(sizes[i].0.as_str());
        assert(sizes@.skip(i as int)[0] == sizes@[i as int]);
        if paths_equal(key.as_slice(), loc.as_slice()) {
            return sizes[i].1;
        }
        assert(sizes@.skip(i as int).drop_first() =~= sizes@.skip(i + 1));
    }
    assert(sizes@.skip(sizes@.len() as int) =~= Seq::<(String, u64)>::empty());
    0
}

fn performer_for(artists: &HashMap<i64, Vec<String>>, id: i64) -> (r: Option<String>)
    ensures
        opt_str(r) == performer_of(artists@, id),
{
    broadcast use vstd::std_specs::hash::group_hash_axioms;

    match artists.get(&id) {
        Some(names) => if names.len() > 0 {
            Some(copy_text(&names[0]))
        } else {
            None
        },
        None => None,
    }
}

fn track_stem_exec(t: &Track, multi_disc: bool) -> (r: String)
    ensures
        r@ == track_stem(*t, multi_disc),
{
    let mut out: Vec<char> = Vec::new();
    match t.track_number {
        Some(n) => if n > 0 {
            if multi_disc {
                push_dec_i64(&mut out, t.disc_number as i64);
                out.push('-');
            }
            push_pad2(&mut out, n as i64);
            out.push(' ');
            out.push('-');
            out.push(' ');
        },
        None => {},
    }
    push_str(&mut out, t.title.as_str());
    assert(out@ =~= track_stem(*t, multi_disc));
    string_of(&out)
}

fn cue_track_exec(t: &Track, artists: &HashMap<i64, Vec<String>>) -> (r: CueTrack)
    ensures
        r@ == cue_track_of(*t, artists@),
{
    let number: u32 = match t.track_number {
        Some(n) => if n > 0 {
            n as u32
        } else {
            0
        },
        None => 0,
    };
    let start_ms: u64 = if t.start_offset_ms > 0 {
        t.start_offset_ms as u64
    } else {
        0
    };
    CueTrack {
        number,
        title: copy_text(&t.title),
        performer: performer_for(artists, t.id),
        start_ms,
    }
}

/// Adds `line` to the cue sheet of the entry `ix`, if it has one.
fn add_cue_line(entries: &mut Vec<Entry>, ix: usize, line: CueTrack)
    requires
        ix < old(entries)@.len(),
    ensures
        entries_view(final(entries)@) == match old(entries)@[ix as int]@.cue {
            Some(c) => entries_view(old(entries)@).update(
                ix as int,
                EntryView {
                    locator: old(entries)@[ix as int]@.locator,
                    size: old(entries)@[ix as int]@.size,
                    target: old(entries)@[ix as int]@.target,
                    cue: Some(
                        CueSpecView {
                            performer: c.performer,
                            title: c.title,
                            date: c.date,
                            genre: c.genre,
                            tracks: c.tracks.push(line@),
                        },
                    ),
                },
            ),
            None => entries_view(old(entries)@),
        },
{
    if entries[ix].cue.is_none() {
        return;
    }
    let ghost before = entries@;
    let e = entries.remove(ix);
    let Entry { locator, size, target, cue } = e;
    let new_cue = match cue {
        Some(c) => {
            let CueSpec { performer, title, date, genre, tracks } = c;
            let ghost old_tracks = tracks@;
            let mut tracks = tracks;
            let ghost lv = line@;
            tracks.push(line);
            assert(cue_tracks_view(tracks@) =~= cue_tracks_view(old_tracks).push(lv));
            Some(CueSpec { performer, title, date, genre, tracks })
        },
        None => None,
    };
    entries.insert(ix, Entry { locator, size, target, cue: new_cue });
    assert(entries@ =~= before.update(ix as int, entries@[ix as int]));
    assert(entries_view(entries@) =~= entries_view(before).update(ix as int, entries@[ix as int]@));
}

/// Plans one more track.
fn plan_track(
    entries: &mut Vec<Entry>,
    locs: &mut Vec<Vec<char>>,
    taken: &mut Vec<Vec<char>>,
    t: &Track,
    dir: &Vec<char>,
    image_stem_text: &String,
    multi_disc: bool,
    meta: &AlbumMeta,
    artists: &HashMap<i64, Vec<String>>,
    sizes: &[(String, u64)],
    Ghost(ctx): Ghost<PlanCtx>,
)
    requires
        dir@ == ctx.dir,
        image_stem_text@ == image_stem(ctx),
        multi_disc == ctx.multi_disc,
        meta@ == ctx.meta,
        artists@ == ctx.artists,
        sizes@ == ctx.sizes,
        views(old(locs)@) == locators(entries_view(old(entries)@)),
        old(taken)@.len() == old(entries)@.len(),
        old(taken)@.len() < usize::MAX,
    ensures
        entries_view(final(entries)@) == plan_step(
            ctx,
            PlanState { entries: entries_view(old(entries)@), taken: views(old(taken)@) },
            *t,
        ).entries,
        views(final(taken)@) == plan_step(
            ctx,
            PlanState { entries: entries_view(old(entries)@), taken: views(old(taken)@) },
            *t,
        ).taken,
        views(final(locs)@) == locators(entries_view(final(entries)@)),
        final(taken)@.len() == final(entries)@.len(),
{
    let ghost st = PlanState { entries: entries_view(entries@), taken: views(taken@) };
    let reference = match t.remote() {
        Some(r) => r,
        None => {
            return;
        },
    };
    let loc = chars_of(t.path.as_str());
    let known = find_entry(locs, &loc);
    proof {
        lemma_find_loc_bounds(views(locs@), loc@);
        assert(views(locs@).len() == locs@.len());
    }
    let size = lookup_size(sizes, &loc);
    if !t.is_cue {
        if known.is_some() {
            return;
        }
        let stem = track_stem_exec(t, multi_disc);
        let target = claim(taken, dir, stem.as_str(), reference.suffix.as_str());
        assert(views(taken@).len() == taken@.len());
        let ghost before = entries@;
        let ghost tv = target@;
        entries.push(
            Entry { locator: copy_text(&t.path), size, target: string_of(&target), cue: None },
        );
        assert(entries_view(entries@) =~= entries_view(before).push(
            EntryView { locator: t.path@, size, target: tv, cue: None },
        ));
        let ghost lb = locs@;
        locs.push(loc);
        assert(views(locs@) =~= views(lb).push(t.path@));
        assert(locators(entries_view(entries@)) =~= locators(entries_view(before)).push(t.path@));
        return;
    }
    let ix = match known {
        Some(ix) => ix,
        None => {
            let folder = if multi_disc {
                let mut cd: Vec<char> = Vec::new();
                cd.push('C');
                cd.push('D');
                push_dec_i64(&mut cd, t.disc_number as i64);
                assert(cd@ =~= seq!['C', 'D'] + dec_int(t.disc_number as int));
                join(dir, &cd)
            } else {
                let mut same: Vec<char> = Vec::new();
                push_all(&mut same, dir);
                assert(same@ =~= dir@);
                same
            };
            let target = claim(taken, &folder, image_stem_text.as_str(), reference.suffix.as_str());
            assert(views(taken@).len() == taken@.len());
            let sheet = CueSpec {
                performer: copy_text(&meta.artist),
                title: copy_text(&meta.title),
                date: meta.year,
                genre: match &meta.genre {
                    Some(g) => Some(copy_text(g)),
                    None => None,
                },
                tracks: Vec::new(),
            };
            assert(cue_tracks_view(sheet.tracks@) =~= Seq::<CueTrackView>::empty());
            let ghost before = entries@;
            let ghost ev = EntryView {
                locator: t.path@,
                size,
                target: target@,
                cue: Some(sheet@),
            };
            entries.push(
                Entry {
                    locator: copy_text(&t.path),
                    size,
                    target: string_of(&target),
                    cue: Some(sheet),
                },
            );
            assert(entries_view(entries@) =~= entries_view(before).push(ev));
            let ghost lb = locs@;
            locs.push(loc);
            assert(views(locs@) =~= views(lb).push(t.path@));
            assert(locators(entries_view(entries@)) =~= locators(entries_view(before)).push(
                t.path@,
            ));
            entries.len() - 1
        },
    };
    let line = cue_track_exec(t, artists);
    let ghost mid = entries_view(entries@);
    add_cue_line(entries, ix, line);
    assert(locators(entries_view(entries@)) =~= locators(mid));
}

/// The plan for moving the server files of an album into a music folder.
pub fn build_plan(
    meta: &AlbumMeta,
    tracks: &[Track],
    artists: &HashMap<i64, Vec<String>>,
    sizes: &[(String, u64)],
) -> (r: ExportPlan)
    requires
        tracks@.len() < u32::MAX,
    ensures
        r@ == build_plan_spec(meta@, tracks@, artists@, sizes@),
{
    let ghost ctx = plan_ctx(meta@, tracks@, artists@, sizes@);
    let artist = component(meta.artist.as_str(), "Unknown Artist");
    let title = component(meta.title.as_str(), "Unknown Album");
    let mut album: Vec<char> = Vec::new();
    match meta.year {
        Some(y) => {
            push_dec_i64(&mut album, y as i64);
            album.push(' ');
            album.push('-');
            album.push(' ');
        },
        None => {},
    }
    push_str(&mut album, title.as_str());
    assert(album@ =~= album_name(meta@));
    let album_text = string_of(&album);
    let album_c = component(album_text.as_str(), "Unknown Album");
    let artist_v = chars_of(artist.as_str());
    let dir = join(&artist_v, &chars_of(album_c.as_str()));
    let mut image: Vec<char> = Vec::new();
    push_str(&mut image, artist.as_str());
    image.push(' ');
    image.push('-');
    image.push(' ');
    push_str(&mut image, title.as_str());
    let image_stem_text = string_of(&image);
    assert(image_stem_text@ =~= image_stem(ctx));
    let multi_disc = disc_count_above_one(tracks);
    let mut entries: Vec<Entry> = Vec::new();
    let mut locs: Vec<Vec<char>> = Vec::new();
    let mut taken: Vec<Vec<char>> = Vec::new();
    assert(entries_view(entries@) =~= Seq::<EntryView>::empty());
    assert(views(taken@) =~= Seq::<Seq<char>>::empty());
    assert(views(locs@) =~= Seq::<Seq<char>>::empty());
    for i in 0..tracks.len()
        invariant
            ctx == plan_ctx(meta@, tracks@, artists@, sizes@),
            dir@ == ctx.dir,
            image_stem_text@ == image_stem(ctx),
            multi_disc == ctx.multi_disc,
            tracks@.len() < u32::MAX,
            entries_view(entries@) == plan_fold(ctx, tracks@.take(i as int)).entries,
            views(taken@) == plan_fold(ctx, tracks@.take(i as int)).taken,
            views(locs@) == locators(entries_view(entries@)),
            taken@.len() == entries@.len(),
            entries@.len() <= i,
    {
        proof {
            lemma_fold_bounds(ctx, tracks@.take(i as int));
            assert(tracks@.take(i + 1).drop_last() =~= tracks@.take(i as int));
            lemma_fold_bounds(ctx, tracks@.take(i + 1));
        }
        plan_track(
            &mut entries,
            &mut locs,
            &mut taken,
            &tracks[i],
            &dir,
            &image_stem_text,
            multi_disc,
            meta,
            artists,
            sizes,
            Ghost(ctx),
        );
    }
    assert(tracks@.take(tracks@.len() as int) =~= tracks@);
    proof {
        lemma_fold_bounds(ctx, tracks@);
    }
    let ghost es = entries_view(entries@);
    let mut done: Vec<Entry> = Vec::new();
    let ghost total = entries@.len();
    while entries.len() > 0
        invariant
            es.len() == total,
            entries@.len() + done@.len() == total,
            entries_view(entries@) == es.skip(done@.len() as int),
            entries_view(done@) == Seq::new(done@.len(), |k: int| finish_entry(es[k])),
            forall|k: int|
                0 <= k < es.len() && (#[trigger] es[k]).cue is Some ==> es[k].cue->0.tracks.len()
                    < u32::MAX,
        decreases entries@.len(),
    {
        let ghost k = done@.len() as int;
        let ghost before = entries@;
        assert(entries_view(before)[0] == before[0]@);
        assert(es.skip(k)[0] == es[k]);
        let e = entries.remove(0);
        assert(e@ == es[k]);
        let finished = finish_entry_exec(e);
        let ghost db = done@;
        done.push(finished);
        assert(entries@ =~= before.subrange(1, before.len() as int));
        assert forall|j: int| 0 <= j < entries@.len() implies #[trigger] entries_view(entries@)[j]
            == es.skip(k + 1)[j] by {
            assert(entries@[j] == before[j + 1]);
            assert(entries_view(before)[j + 1] == es.skip(k)[j + 1]);
        }
        assert(entries_view(entries@) =~= es.skip(k + 1));
        assert(entries_view(done@) =~= entries_view(db).push(finished@));
        assert(entries_view(done@) =~= Seq::new(done@.len(), |j: int| finish_entry(es[j])));
    }
    let plan = ExportPlan { dir: string_of(&dir), entries: done };
    assert(plan@.entries =~= build_plan_spec(meta@, tracks@, artists@, sizes@).entries);
    plan
}

fn finish_entry_exec(e: Entry) -> (r: Entry)
    requires
        e@.cue is Some ==> e@.cue->0.tracks.len() < u32::MAX,
    ensures
        r@ == finish_entry(e@),
{
    let Entry { locator, size, target, cue } = e;
    let cue = match cue {
        Some(c) => {
            let tracks = finish_tracks(&c.tracks);
            Some(
                CueSpec {
                    performer: c.performer,
                    title: c.title,
                    date: c.date,
                    genre: c.genre,
                    tracks,
                },
            )
        },
        None => None,
    };
    Entry { locator, size, target, cue }
}

// ---------------------------------------------------------------------------
// What every plan keeps
// ---------------------------------------------------------------------------

/// The paths of the first `n - 1` tries.
pub open spec fn tried_paths(folder: Seq<char>, stem: Seq<char>, ext: Seq<char>, n: nat) -> Set<
    Seq<char>,
>
    decreases n,
{
    if n <= 1 {
        Set::empty()
    } else {
        tried_paths(folder, stem, ext, (n - 1) as nat).insert(
            try_path(folder, stem, ext, (n - 1) as nat),
        )
    }
}

proof fn lemma_tried_paths(folder: Seq<char>, stem: Seq<char>, ext: Seq<char>, n: nat)
    requires
        n >= 1,
    ensures
        tried_paths(folder, stem, ext, n).finite(),
        tried_paths(folder, stem, ext, n).len() == n - 1,
        forall|p: Seq<char>| #[trigger]
            tried_paths(folder, stem, ext, n).contains(p) ==> exists|k: nat|
                1 <= k < n && p == #[trigger] try_path(folder, stem, ext, k),
        forall|k: nat|
            1 <= k < n ==> tried_paths(folder, stem, ext, n).contains(
                #[trigger] try_path(folder, stem, ext, k),
            ),
    decreases n,
{
    if n > 1 {
        let m = (n - 1) as nat;
        lemma_tried_paths(folder, stem, ext, m);
        let p = try_path(folder, stem, ext, m);
        if tried_paths(folder, stem, ext, m).contains(p) {
            let k = choose|k: nat| 1 <= k < m && p == #[trigger] try_path(folder, stem, ext, k);
            lemma_try_path_injective(folder, stem, ext, k, m);
        }
        assert forall|q: Seq<char>| #[trigger]
            tried_paths(folder, stem, ext, n).contains(q) implies exists|k: nat|
                1 <= k < n && q == #[trigger] try_path(folder, stem, ext, k) by {
            if q == p {
                assert(q == try_path(folder, stem, ext, m));
            }
        }
    }
}

proof fn lemma_first_free_from(
    taken: Seq<Seq<char>>,
    folder: Seq<char>,
    stem: Seq<char>,
    ext: Seq<char>,
    n: nat,
)
    requires
        n >= 1,
        forall|k: nat| 1 <= k < n ==> taken.contains(#[trigger] try_path(folder, stem, ext, k)),
    ensures
        exists|m: nat| is_first_free(taken, folder, stem, ext, m),
    decreases taken.len() + 1 - n,
{
    broadcast use vstd::seq_lib::seq_to_set_is_finite;

    lemma_tried_paths(folder, stem, ext, n);
    let t = tried_paths(folder, stem, ext, n);
    assert(t.subset_of(taken.to_set())) by {
        assert forall|p: Seq<char>| #[trigger] t.contains(p) implies taken.to_set().contains(p) by {
            let k = choose|k: nat| 1 <= k < n && p == #[trigger] try_path(folder, stem, ext, k);
        }
    }
    vstd::set_lib::lemma_len_subset(t, taken.to_set());
    taken.lemma_cardinality_of_set();
    if taken.contains(try_path(folder, stem, ext, n)) {
        lemma_tried_paths(folder, stem, ext, n + 1);
        let t2 = tried_paths(folder, stem, ext, n + 1);
        assert(t2.subset_of(taken.to_set())) by {
            assert forall|p: Seq<char>| #[trigger] t2.contains(p) implies taken.to_set().contains(
                p,
            ) by {
                let k = choose|k: nat|
                    1 <= k < n + 1 && p == #[trigger] try_path(folder, stem, ext, k);
            }
        }
        vstd::set_lib::lemma_len_subset(t2, taken.to_set());
        lemma_first_free_from(taken, folder, stem, ext, n + 1);
    } else {
        assert(is_first_free(taken, folder, stem, ext, n));
    }
}

/// The path claimed for a file is not taken yet.
proof fn lemma_claimed_is_free(
    taken: Seq<Seq<char>>,
    folder: Seq<char>,
    stem: Seq<char>,
    ext: Seq<char>,
)
    ensures
        !taken.contains(claimed_path(taken, folder, stem, ext)),
{
    let s = file_stem_of(stem);
    lemma_first_free_from(taken, folder, s, ext, 1);
}

pub open spec fn targets(es: Seq<EntryView>) -> Seq<Seq<char>> {
    Seq::new(es.len(), |i: int| es[i].target)
}

proof fn lemma_fold_facts(ctx: PlanCtx, ts: Seq<Track>)
    ensures
        plan_fold(ctx, ts).taken == targets(plan_fold(ctx, ts).entries),
        forall|i: int, j: int|
            0 <= i < j < plan_fold(ctx, ts).entries.len() ==> (#[trigger] plan_fold(
                ctx,
                ts,
            ).entries[i]).target != (#[trigger] plan_fold(ctx, ts).entries[j]).target,
        forall|i: int, j: int|
            0 <= i < j < plan_fold(ctx, ts).entries.len() ==> !same_path(
                (#[trigger] plan_fold(ctx, ts).entries[i]).locator,
                (#[trigger] plan_fold(ctx, ts).entries[j]).locator,
            ),
        forall|i: int|
            0 <= i < plan_fold(ctx, ts).entries.len() ==> exists|k: int|
                0 <= k < ts.len() && (#[trigger] ts[k]).path@ == (#[trigger] plan_fold(
                    ctx,
                    ts,
                ).entries[i]).locator && parse_spec(ts[k].path@) is Some,
        forall|k: int|
            0 <= k < ts.len() && parse_spec((#[trigger] ts[k]).path@) is Some ==> find_loc(
                locators(plan_fold(ctx, ts).entries),
                ts[k].path@,
            ) is Some,
    decreases ts.len(),
{
    if ts.len() > 0 {
        let prev = ts.drop_last();
        lemma_fold_facts(ctx, prev);
        let st = plan_fold(ctx, prev);
        let t = ts.last();
        let next = plan_fold(ctx, ts);
        assert(next == plan_step(ctx, st, t));
        assert forall|k: int| 0 <= k < prev.len() implies #[trigger] prev[k] == ts[k] by {}
        match parse_spec(t.path@) {
            None => {
                assert forall|i: int| 0 <= i < next.entries.len() implies exists|k: int|
                    0 <= k < ts.len() && (#[trigger] ts[k]).path@ == (
                    #[trigger] next.entries[i]).locator && parse_spec(ts[k].path@) is Some by {
                    let k = choose|k: int|
                        0 <= k < prev.len() && (#[trigger] prev[k]).path@ == st.entries[i].locator
                            && parse_spec(prev[k].path@) is Some;
                    assert(ts[k] == prev[k]);
                }
                assert forall|k: int|
                    0 <= k < ts.len() && parse_spec((#[trigger] ts[k]).path@) is Some implies find_loc(
                    locators(next.entries),
                    ts[k].path@,
                ) is Some by {
                    assert(k < prev.len());
                    assert(prev[k] == ts[k]);
                }
            },
            Some(r) => {
                let loc = t.path@;
                let known = find_loc(locators(st.entries), loc);
                lemma_find_loc_bounds(locators(st.entries), loc);
                let size = size_lookup(ctx.sizes, loc);
                let folder = if t.is_cue {
                    image_folder(ctx, t)
                } else {
                    ctx.dir
                };
                let stem = if t.is_cue {
                    image_stem(ctx)
                } else {
                    track_stem(t, ctx.multi_disc)
                };
                let target = claimed_path(st.taken, folder, stem, r.2);
                lemma_claimed_is_free(st.taken, folder, stem, r.2);
                if known is None {
                    lemma_find_loc_none(locators(st.entries), loc);
                }
                // the entries after the step, before a cue line is added
                let grown = known is None;
                let mid: Seq<EntryView> = if grown {
                    next.entries.take(st.entries.len() as int).push(next.entries.last())
                } else {
                    next.entries
                };
                assert(next.entries.len() == st.entries.len() + if grown {
                    1int
                } else {
                    0int
                }) by {
                    lemma_fold_bounds(ctx, ts);
                    lemma_fold_bounds(ctx, prev);
                }
                assert forall|i: int| 0 <= i < st.entries.len() implies (
                #[trigger] next.entries[i]).target == st.entries[i].target
                    && next.entries[i].locator == st.entries[i].locator by {}
                if grown {
                    assert(next.entries.last().locator == loc);
                    assert(next.entries.last().target == target);
                }
                assert(next.taken =~= targets(next.entries));
                assert forall|i: int, j: int|
                    0 <= i < j < next.entries.len() implies (#[trigger] next.entries[i]).target
                    != (#[trigger] next.entries[j]).target by {
                    if j == st.entries.len() {
                        assert(st.taken[i] == st.entries[i].target);
                    }
                }
                assert forall|i: int, j: int|
                    0 <= i < j < next.entries.len() implies !same_path(
                    (#[trigger] next.entries[i]).locator,
                    (#[trigger] next.entries[j]).locator,
                ) by {
                    if j == st.entries.len() {
                        assert(locators(st.entries)[i] == st.entries[i].locator);
                    }
                }
                assert forall|i: int| 0 <= i < next.entries.len() implies exists|k: int|
                    0 <= k < ts.len() && (#[trigger] ts[k]).path@ == (
                    #[trigger] next.entries[i]).locator && parse_spec(ts[k].path@) is Some by {
                    if i < st.entries.len() {
                        let k = choose|k: int|
                            0 <= k < prev.len() && (#[trigger] prev[k]).path@
                                == st.entries[i].locator && parse_spec(prev[k].path@) is Some;
                        assert(ts[k] == prev[k]);
                    } else {
                        assert(ts[ts.len() - 1] == t);
                    }
                }
                assert forall|k: int|
                    0 <= k < ts.len() && parse_spec((#[trigger] ts[k]).path@) is Some implies find_loc(
                    locators(next.entries),
                    ts[k].path@,
                ) is Some by {
                    if k < prev.len() {
                        assert(prev[k] == ts[k]);
                        lemma_find_loc_grow(locators(st.entries), locators(next.entries), ts[k].path@);
                    } else {
                        assert(ts[k] == t);
                        if grown {
                            lemma_find_loc_bounds(locators(next.entries), loc);
                            lemma_find_loc_last(locators(next.entries), loc);
                        } else {
                            lemma_find_loc_grow(locators(st.entries), locators(next.entries), loc);
                        }
                    }
                }
            },
        }
    }
}

proof fn lemma_find_loc_none(v: Seq<Seq<char>>, loc: Seq<char>)
    requires
        find_loc(v, loc) is None,
    ensures
        forall|i: int| 0 <= i < v.len() ==> !same_path(#[trigger] v[i], loc),
    decreases v.len(),
{
    if v.len() > 0 {
        lemma_find_loc_none(v.drop_last(), loc);
        assert forall|i: int| 0 <= i < v.len() implies !same_path(#[trigger] v[i], loc) by {
            if i < v.len() - 1 {
                assert(v.drop_last()[i] == v[i]);
            }
        }
    }
}

proof fn lemma_find_loc_some(v: Seq<Seq<char>>, loc: Seq<char>, i: int)
    requires
        0 <= i < v.len(),
        same_path(v[i], loc),
    ensures
        find_loc(v, loc) is Some,
    decreases v.len(),
{
    if i < v.len() - 1 {
        lemma_find_loc_some(v.drop_last(), loc, i);
    }
}

proof fn lemma_find_loc_last(v: Seq<Seq<char>>, loc: Seq<char>)
    requires
        v.len() > 0,
        v.last() == loc,
    ensures
        find_loc(v, loc) is Some,
{
    lemma_find_loc_some(v, loc, v.len() - 1);
}

proof fn lemma_find_loc_grow(a: Seq<Seq<char>>, b: Seq<Seq<char>>, loc: Seq<char>)
    requires
        a.len() <= b.len(),
        forall|i: int| 0 <= i < a.len() ==> a[i] == b[i],
        find_loc(a, loc) is Some,
    ensures
        find_loc(b, loc) is Some,
{
    lemma_find_loc_bounds(a, loc);
    let i = find_loc(a, loc)->0;
    lemma_find_loc_some(b, loc, i);
}

/// Whether `target` names a file directly in `folder`.
pub open spec fn in_folder(target: Seq<char>, folder: Seq<char>) -> bool {
    exists|name: Seq<char>|
        name.len() > 0 && name[0] != '/' && target == #[trigger] join_spec(folder, name)
}

proof fn lemma_file_stem_not_rooted(stem: Seq<char>)
    ensures
        file_stem_of(stem).len() > 0,
        file_stem_of(stem)[0] != '/',
{
    reveal_strlit("Track");
    lemma_tidied(stem);
    let t = tidied(stem);
    let r = file_stem_of(stem);
    if t.len() > 0 {
        assert(!forbidden(t[0]));
        if is_reserved(t) {
            match first_index(t, '.') {
                Some(i) => {
                    let k = choose|k: int| crate::text::is_first(t, '.', k);
                    assert(k == i);
                    if i > 0 {
                        assert(r[0] == t[0]);
                    } else {
                        assert(r[0] == '_');
                    }
                },
                None => {
                    assert(r[0] == t[0]);
                },
            }
        }
    } else {
        assert(r == "Track"@);
    }
}

proof fn lemma_claimed_in_folder(
    taken: Seq<Seq<char>>,
    folder: Seq<char>,
    stem: Seq<char>,
    ext: Seq<char>,
)
    ensures
        in_folder(claimed_path(taken, folder, stem, ext), folder),
{
    let s = file_stem_of(stem);
    lemma_file_stem_not_rooted(stem);
    let n = choose|n: nat| is_first_free(taken, folder, s, ext, n);
    let name = try_name(s, ext, n);
    assert(name[0] == s[0]);
    assert(claimed_path(taken, folder, stem, ext) == join_spec(folder, name));
}

/// Where the entries of a plan go: an image into its `image_folder` by a
/// cue piece it comes from, any other file into the album folder.
proof fn lemma_fold_folders(ctx: PlanCtx, ts: Seq<Track>)
    ensures
        forall|i: int|
            0 <= i < plan_fold(ctx, ts).entries.len() ==> match (#[trigger] plan_fold(
                ctx,
                ts,
            ).entries[i]).cue {
                Some(_) => exists|k: int|
                    0 <= k < ts.len() && (#[trigger] ts[k]).is_cue && ts[k].path@ == plan_fold(
                        ctx,
                        ts,
                    ).entries[i].locator && in_folder(
                        plan_fold(ctx, ts).entries[i].target,
                        image_folder(ctx, ts[k]),
                    ),
                None => in_folder(plan_fold(ctx, ts).entries[i].target, ctx.dir),
            },
    decreases ts.len(),
{
    if ts.len() > 0 {
        let prev = ts.drop_last();
        lemma_fold_folders(ctx, prev);
        lemma_fold_bounds(ctx, prev);
        let st = plan_fold(ctx, prev);
        let t = ts.last();
        let next = plan_fold(ctx, ts);
        assert(next == plan_step(ctx, st, t));
        assert forall|k: int| 0 <= k < prev.len() implies #[trigger] prev[k] == ts[k] by {}
        match parse_spec(t.path@) {
            None => {
                assert forall|i: int| 0 <= i < next.entries.len() implies match (
                #[trigger] next.entries[i]).cue {
                    Some(_) => exists|k: int|
                        0 <= k < ts.len() && (#[trigger] ts[k]).is_cue && ts[k].path@
                            == next.entries[i].locator && in_folder(
                            next.entries[i].target,
                            image_folder(ctx, ts[k]),
                        ),
                    None => in_folder(next.entries[i].target, ctx.dir),
                } by {
                    if next.entries[i].cue is Some {
                        let k = choose|k: int|
                            0 <= k < prev.len() && (#[trigger] prev[k]).is_cue && prev[k].path@
                                == st.entries[i].locator && in_folder(
                                st.entries[i].target,
                                image_folder(ctx, prev[k]),
                            );
                        assert(ts[k] == prev[k]);
                    }
                }
            },
            Some(r) => {
                let loc = t.path@;
                let known = find_loc(locators(st.entries), loc);
                if known is Some {
                    lemma_find_loc_bounds(locators(st.entries), loc);
                }
                let last = ts.len() - 1;
                assert(ts[last] == t);
                if !t.is_cue {
                    if known is None {
                        lemma_claimed_in_folder(st.taken, ctx.dir, track_stem(t, ctx.multi_disc), r.2);
                    }
                    assert forall|i: int| 0 <= i < next.entries.len() implies match (
                    #[trigger] next.entries[i]).cue {
                        Some(_) => exists|k: int|
                            0 <= k < ts.len() && (#[trigger] ts[k]).is_cue && ts[k].path@
                                == next.entries[i].locator && in_folder(
                                next.entries[i].target,
                                image_folder(ctx, ts[k]),
                            ),
                        None => in_folder(next.entries[i].target, ctx.dir),
                    } by {
                        if i < st.entries.len() {
                            assert(next.entries[i] == st.entries[i]);
                            if st.entries[i].cue is Some {
                                let k = choose|k: int|
                                    0 <= k < prev.len() && (#[trigger] prev[k]).is_cue
                                        && prev[k].path@ == st.entries[i].locator && in_folder(
                                        st.entries[i].target,
                                        image_folder(ctx, prev[k]),
                                    );
                                assert(ts[k] == prev[k]);
                            }
                        }
                    }
                } else {
                    let size = size_lookup(ctx.sizes, loc);
                    if known is None {
                        lemma_claimed_in_folder(st.taken, image_folder(ctx, t), image_stem(ctx), r.2);
                    }
                    let st2 = if known is Some {
                        st
                    } else {
                        let target = claimed_path(
                            st.taken,
                            image_folder(ctx, t),
                            image_stem(ctx),
                            r.2,
                        );
                        let sheet = CueSpecView {
                            performer: ctx.meta.artist,
                            title: ctx.meta.title,
                            date: ctx.meta.year,
                            genre: ctx.meta.genre,
                            tracks: Seq::empty(),
                        };
                        with_entry(st, EntryView { locator: loc, size, target, cue: Some(sheet) })
                    };
                    let ix = match known {
                        Some(i) => i,
                        None => st.entries.len() as int,
                    };
                    assert(0 <= ix < st2.entries.len());
                    assert(next.entries.len() == st2.entries.len());
                    assert forall|i: int| 0 <= i < next.entries.len() implies match (
                    #[trigger] next.entries[i]).cue {
                        Some(_) => exists|k: int|
                            0 <= k < ts.len() && (#[trigger] ts[k]).is_cue && ts[k].path@
                                == next.entries[i].locator && in_folder(
                                next.entries[i].target,
                                image_folder(ctx, ts[k]),
                            ),
                        None => in_folder(next.entries[i].target, ctx.dir),
                    } by {
                        assert(next.entries[i].target == st2.entries[i].target);
                        assert(next.entries[i].locator == st2.entries[i].locator);
                        assert(next.entries[i].cue is Some == st2.entries[i].cue is Some);
                        if i < st.entries.len() {
                            assert(st2.entries[i] == st.entries[i]);
                            if st.entries[i].cue is Some {
                                let k = choose|k: int|
                                    0 <= k < prev.len() && (#[trigger] prev[k]).is_cue
                                        && prev[k].path@ == st.entries[i].locator && in_folder(
                                        st.entries[i].target,
                                        image_folder(ctx, prev[k]),
                                    );
                                assert(ts[k] == prev[k]);
                            }
                        } else {
                            assert(ts[last].is_cue);
                        }
                    }
                }
            },
        }
    }
}

/// Where a plan moves its files: each file that is not an image goes
/// directly into the album folder; when the album's tracks lie on more than
/// one disc, each image goes directly into the folder `CD<disc>` of the album
/// folder, the disc being that of a cue piece of the image, and otherwise
/// directly into the album folder.
pub proof fn law_plan_folders(
    meta: AlbumMeta,
    tracks: Seq<Track>,
    artists: Map<i64, Vec<String>>,
    sizes: Seq<(String, u64)>,
)
    ensures
        forall|i: int|
            0 <= i < build_plan_spec(meta@, tracks, artists, sizes).entries.len() ==> match (
            #[trigger] build_plan_spec(meta@, tracks, artists, sizes).entries[i]).cue {
                None => in_folder(
                    build_plan_spec(meta@, tracks, artists, sizes).entries[i].target,
                    build_plan_spec(meta@, tracks, artists, sizes).dir,
                ),
                Some(_) => exists|k: int|
                    0 <= k < tracks.len() && (#[trigger] tracks[k]).is_cue && tracks[k].path@
                        == build_plan_spec(meta@, tracks, artists, sizes).entries[i].locator
                        && in_folder(
                        build_plan_spec(meta@, tracks, artists, sizes).entries[i].target,
                        if exists|a: int, b: int|
                            0 <= a < tracks.len() && 0 <= b < tracks.len()
                                && tracks[a].disc_number != tracks[b].disc_number {
                            join_spec(
                                build_plan_spec(meta@, tracks, artists, sizes).dir,
                                seq!['C', 'D'] + dec_int(tracks[k].disc_number as int),
                            )
                        } else {
                            build_plan_spec(meta@, tracks, artists, sizes).dir
                        },
                    ),
            },
{
    let ctx = plan_ctx(meta@, tracks, artists, sizes);
    lemma_fold_folders(ctx, tracks);
    let es = plan_fold(ctx, tracks).entries;
    let p = build_plan_spec(meta@, tracks, artists, sizes);
    assert(ctx.multi_disc == exists|a: int, b: int|
        0 <= a < tracks.len() && 0 <= b < tracks.len() && tracks[a].disc_number
            != tracks[b].disc_number) by {
        if ctx.multi_disc {
            let (a, b) = choose|a: int, b: int|
                0 <= a < tracks.len() && 0 <= b < tracks.len() && #[trigger] tracks[a].disc_number
                    != #[trigger] tracks[b].disc_number;
        }
    }
    assert forall|i: int| 0 <= i < p.entries.len() implies match (#[trigger] p.entries[i]).cue {
        None => in_folder(p.entries[i].target, p.dir),
        Some(_) => exists|k: int|
            0 <= k < tracks.len() && (#[trigger] tracks[k]).is_cue && tracks[k].path@
                == p.entries[i].locator && in_folder(
                p.entries[i].target,
                if exists|a: int, b: int|
                    0 <= a < tracks.len() && 0 <= b < tracks.len() && tracks[a].disc_number
                        != tracks[b].disc_number {
                    join_spec(p.dir, seq!['C', 'D'] + dec_int(tracks[k].disc_number as int))
                } else {
                    p.dir
                },
            ),
    } by {
        assert(p.entries[i] == finish_entry(es[i]));
        assert(p.entries[i].target == es[i].target);
        assert(p.entries[i].locator == es[i].locator);
        assert(p.entries[i].cue is Some == es[i].cue is Some);
        if es[i].cue is Some {
            let k = choose|k: int|
                0 <= k < tracks.len() && (#[trigger] tracks[k]).is_cue && tracks[k].path@
                    == es[i].locator && in_folder(es[i].target, image_folder(ctx, tracks[k]));
            assert(tracks[k].is_cue);
        }
    }
}

/// No two files of a plan are moved to the same path.
pub proof fn law_plan_targets_differ(
    meta: AlbumMeta,
    tracks: Seq<Track>,
    artists: Map<i64, Vec<String>>,
    sizes: Seq<(String, u64)>,
)
    ensures
        forall|i: int, j: int|
            0 <= i < j < build_plan_spec(meta@, tracks, artists, sizes).entries.len() ==> (
            #[trigger] build_plan_spec(meta@, tracks, artists, sizes).entries[i]).target != (
            #[trigger] build_plan_spec(meta@, tracks, artists, sizes).entries[j]).target,
{
    let ctx = plan_ctx(meta@, tracks, artists, sizes);
    lemma_fold_facts(ctx, tracks);
    let es = plan_fold(ctx, tracks).entries;
    let p = build_plan_spec(meta@, tracks, artists, sizes);
    assert forall|i: int, j: int| 0 <= i < j < p.entries.len() implies (
    #[trigger] p.entries[i]).target != (#[trigger] p.entries[j]).target by {
        assert(p.entries[i].target == es[i].target);
        assert(p.entries[j].target == es[j].target);
    }
}

/// A plan moves the server files of the album and nothing else, each once:
/// every entry reads the path of a track that is on a server, no two entries
/// read the same path (compared as paths), and the path of every track on a
/// server is read by an entry.
pub proof fn law_plan_moves_each_server_file_once(
    meta: AlbumMeta,
    tracks: Seq<Track>,
    artists: Map<i64, Vec<String>>,
    sizes: Seq<(String, u64)>,
)
    ensures
        forall|i: int|
            0 <= i < build_plan_spec(meta@, tracks, artists, sizes).entries.len() ==> exists|k: int|
                0 <= k < tracks.len() && (#[trigger] tracks[k]).path@ == (
                #[trigger] build_plan_spec(meta@, tracks, artists, sizes).entries[i]).locator
                    && parse_spec(tracks[k].path@) is Some,
        forall|i: int, j: int|
            0 <= i < j < build_plan_spec(meta@, tracks, artists, sizes).entries.len() ==> !same_path(
                (#[trigger] build_plan_spec(meta@, tracks, artists, sizes).entries[i]).locator,
                (#[trigger] build_plan_spec(meta@, tracks, artists, sizes).entries[j]).locator,
            ),
        forall|k: int|
            0 <= k < tracks.len() && parse_spec((#[trigger] tracks[k]).path@) is Some ==> exists|
                i: int,
            |
                0 <= i < build_plan_spec(meta@, tracks, artists, sizes).entries.len() && same_path(
                    (#[trigger] build_plan_spec(meta@, tracks, artists, sizes).entries[i]).locator,
                    tracks[k].path@,
                ),
{
    let ctx = plan_ctx(meta@, tracks, artists, sizes);
    lemma_fold_facts(ctx, tracks);
    let es = plan_fold(ctx, tracks).entries;
    let p = build_plan_spec(meta@, tracks, artists, sizes);
    assert forall|i: int| 0 <= i < p.entries.len() implies exists|k: int|
        0 <= k < tracks.len() && (#[trigger] tracks[k]).path@ == (#[trigger] p.entries[i]).locator
            && parse_spec(tracks[k].path@) is Some by {
        assert(p.entries[i].locator == es[i].locator);
        let k = choose|k: int|
            0 <= k < tracks.len() && (#[trigger] tracks[k]).path@ == es[i].locator && parse_spec(
                tracks[k].path@,
            ) is Some;
    }
    assert forall|i: int, j: int| 0 <= i < j < p.entries.len() implies !same_path(
        (#[trigger] p.entries[i]).locator,
        (#[trigger] p.entries[j]).locator,
    ) by {
        assert(p.entries[i].locator == es[i].locator);
        assert(p.entries[j].locator == es[j].locator);
    }
    assert forall|k: int|
        0 <= k < tracks.len() && parse_spec((#[trigger] tracks[k]).path@) is Some implies exists|
            i: int,
        |
            0 <= i < p.entries.len() && same_path((#[trigger] p.entries[i]).locator, tracks[k].path@) by {
        lemma_find_loc_bounds(locators(es), tracks[k].path@);
        let i = find_loc(locators(es), tracks[k].path@)->0;
        assert(p.entries[i].locator == es[i].locator);
    }
}

proof fn lemma_has_first(s: Seq<char>, c: char, j: int)
    requires
        0 <= j < s.len(),
        s[j] == c,
    ensures
        first_index(s, c) is Some,
    decreases j,
{
    if exists|k: int| 0 <= k < j && s[k] == c {
        let k = choose|k: int| 0 <= k < j && s[k] == c;
        lemma_has_first(s, c, k);
    } else {
        assert(crate::text::is_first(s, c, j));
    }
}

pub open spec fn no_forbidden(s: Seq<char>) -> bool {
    forall|i: int| 0 <= i < s.len() ==> !forbidden(#[trigger] s[i])
}

proof fn lemma_lead_le(s: Seq<char>, set: Strip)
    ensures
        lead_len(s, set) <= s.len(),
    decreases s.len(),
{
    if s.len() > 0 {
        lemma_lead_le(s.drop_first(), set);
    }
}

proof fn lemma_trail_le(s: Seq<char>, set: Strip)
    ensures
        trail_len(s, set) <= s.len(),
    decreases s.len(),
{
    if s.len() > 0 {
        lemma_trail_le(s.drop_last(), set);
    }
}

proof fn lemma_trims_keep(s: Seq<char>, set: Strip)
    ensures
        trim_start_of(s, set).len() <= s.len(),
        trim_end_of(s, set).len() <= s.len(),
        no_forbidden(s) ==> no_forbidden(trim_start_of(s, set)),
        no_forbidden(s) ==> no_forbidden(trim_end_of(s, set)),
{
    lemma_lead_le(s, set);
    lemma_trail_le(s, set);
    let a = trim_start_of(s, set);
    let b = trim_end_of(s, set);
    if no_forbidden(s) {
        assert forall|i: int| 0 <= i < a.len() implies !forbidden(#[trigger] a[i]) by {
            assert(a[i] == s[i + lead_len(s, set)]);
        }
        assert forall|i: int| 0 <= i < b.len() implies !forbidden(#[trigger] b[i]) by {
            assert(b[i] == s[i]);
        }
    }
}

proof fn lemma_trimmed_ends(x: Seq<char>)
    ensures
        trimmed(x).len() <= x.len(),
        trimmed(x).len() > 0 ==> !crate::text::is_ws(trimmed(x)[0]) && !crate::text::is_ws(
            trimmed(x).last(),
        ),
        no_forbidden(x) ==> no_forbidden(trimmed(x)),
{
    let a = trim_start_of(x, Strip::Whitespace);
    lemma_trims_keep(x, Strip::Whitespace);
    lemma_trims_keep(a, Strip::Whitespace);
    crate::text::lemma_trim_start_first(x, Strip::Whitespace);
    crate::text::lemma_trim_end_last(a, Strip::Whitespace);
}

proof fn lemma_tidied(name: Seq<char>)
    ensures
        tidied(name).len() <= MAX_NAME_CHARS,
        no_forbidden(tidied(name)),
        tidied(name).len() > 0 ==> !crate::text::is_ws(tidied(name)[0]) && !end_char(
            tidied(name).last(),
        ),
{
    let c = cleaned(name);
    assert(no_forbidden(c));
    lemma_trimmed_ends(c);
    let a = trimmed(c);
    let b = trim_start_of(a, Strip::Dot);
    lemma_trims_keep(a, Strip::Dot);
    let d = trim_end_of(b, Strip::DotOrSpace);
    lemma_trims_keep(b, Strip::DotOrSpace);
    lemma_trimmed_ends(d);
    let t = trimmed(d);
    if t.len() > 0 && t.last() == '.' {
        let f = trim_start_of(t, Strip::DotOrWhitespace);
        lemma_trims_keep(t, Strip::DotOrWhitespace);
        lemma_trims_keep(f, Strip::DotOrWhitespace);
        crate::text::lemma_trim_start_first(t, Strip::DotOrWhitespace);
        crate::text::lemma_trim_end_last(f, Strip::DotOrWhitespace);
    }
}

proof fn lemma_underscore_not_reserved(stem: Seq<char>)
    requires
        stem.len() > 0,
        stem.last() == '_',
    ensures
        !reserved_stem(map_ascii_upper(trim_end_of(stem, Strip::Whitespace))),
{
    assert(trail_len(stem, Strip::Whitespace) == 0);
    assert(trim_end_of(stem, Strip::Whitespace) =~= stem);
    let u = map_ascii_upper(stem);
    assert(u.last() == '_');
    if u.len() == 3 {
        assert(u[2] == '_');
        assert(u != seq!['C', 'O', 'N'] && u != seq!['P', 'R', 'N'] && u != seq!['A', 'U', 'X']
            && u != seq!['N', 'U', 'L']) by {
            assert(seq!['C', 'O', 'N'][2] == 'N');
            assert(seq!['P', 'R', 'N'][2] == 'N');
            assert(seq!['A', 'U', 'X'][2] == 'X');
            assert(seq!['N', 'U', 'L'][2] == 'L');
        }
    }
}

/// The names of files and folders are safe and never empty: given a fallback
/// that is not empty, holds no forbidden character, is no reserved device
/// name, does not start with whitespace and ends with neither a dot nor
/// whitespace, the name made of any text is not empty, holds no forbidden
/// character, is no reserved device name, does not start with whitespace,
/// ends with neither a dot nor whitespace (so it is never `.` or `..`), and
/// is at most one character longer than the limit (or than the fallback).
pub proof fn law_component_is_safe(name: Seq<char>, fallback: Seq<char>)
    requires
        fallback.len() > 0,
        no_forbidden(fallback),
        !is_reserved(fallback),
        !crate::text::is_ws(fallback[0]),
        !end_char(fallback.last()),
    ensures
        component_spec(name, fallback).len() > 0,
        no_forbidden(component_spec(name, fallback)),
        !is_reserved(component_spec(name, fallback)),
        !crate::text::is_ws(component_spec(name, fallback)[0]),
        !end_char(component_spec(name, fallback).last()),
        component_spec(name, fallback) != seq!['.'],
        component_spec(name, fallback) != seq!['.', '.'],
        component_spec(name, fallback).len() <= MAX_NAME_CHARS + 1 || component_spec(
            name,
            fallback,
        ) == fallback,
{
    lemma_tidied(name);
    let t = tidied(name);
    let r = component_spec(name, fallback);
    if t.len() > 0 && is_reserved(t) {
        match first_index(t, '.') {
            Some(i) => {
                let k = choose|k: int| crate::text::is_first(t, '.', k);
                assert(k == i);
                assert(r =~= t.take(i) + seq!['_'] + t.skip(i));
                assert forall|j: int| 0 <= j < r.len() implies !forbidden(#[trigger] r[j]) by {
                    if j < i {
                        assert(r[j] == t[j]);
                    } else if j > i {
                        assert(r[j] == t[j - 1]);
                    }
                }
                assert(crate::text::is_first(r, '.', i + 1));
                crate::text::lemma_first_is(r, '.', i + 1);
                assert(stem_part(r) =~= t.take(i).push('_'));
                lemma_underscore_not_reserved(t.take(i).push('_'));
            },
            None => {
                assert(r == t.push('_'));
                assert forall|j: int| 0 <= j < r.len() implies !forbidden(#[trigger] r[j]) by {
                    if j < t.len() {
                        assert(r[j] == t[j]);
                    }
                }
                assert forall|j: int| 0 <= j < r.len() implies r[j] != '.' by {
                    if j < t.len() {
                        assert(r[j] == t[j]);
                        if t[j] == '.' {
                            lemma_has_first(t, '.', j);
                        }
                    }
                }
                assert(first_index(r, '.') is None);
                lemma_underscore_not_reserved(r);
            },
        }
    }
}

pub open spec fn by_start(ts: Seq<CueTrackView>) -> bool {
    forall|i: int, j: int| 0 <= i < j < ts.len() ==> (#[trigger] ts[i]).start_ms <= (
    #[trigger] ts[j]).start_ms
}

proof fn lemma_starting_after_facts(s: Seq<CueTrackView>, start: u64)
    ensures
        starting_after(s, start) <= s.len(),
        forall|j: int|
            s.len() - starting_after(s, start) <= j < s.len() ==> (#[trigger] s[j]).start_ms
                > start,
        starting_after(s, start) < s.len() ==> s[s.len() - starting_after(s, start) - 1].start_ms
            <= start,
    decreases s.len(),
{
    if s.len() > 0 {
        let t = s.drop_last();
        lemma_starting_after_facts(t, start);
        assert forall|j: int| 0 <= j < t.len() implies t[j] == s[j] by {}
    }
}

proof fn lemma_insert_keeps_order(s: Seq<CueTrackView>, x: CueTrackView)
    requires
        by_start(s),
    ensures
        by_start(insert_by_start(s, x)),
        insert_by_start(s, x).len() == s.len() + 1,
{
    lemma_starting_after_facts(s, x.start_ms);
    let p = s.len() - starting_after(s, x.start_ms);
    let r = insert_by_start(s, x);
    assert(r =~= s.insert(p, x));
    assert forall|i: int, j: int| 0 <= i < j < r.len() implies (#[trigger] r[i]).start_ms <= (
    #[trigger] r[j]).start_ms by {
        if i < p && j < p {
            assert(r[i] == s[i] && r[j] == s[j]);
        } else if i < p && j == p {
            assert(r[i] == s[i]);
            if i < p - 1 {
                assert(s[i].start_ms <= s[p - 1].start_ms);
            }
        } else if i < p && j > p {
            assert(r[i] == s[i] && r[j] == s[j - 1]);
        } else if i == p {
            assert(r[j] == s[j - 1]);
        } else {
            assert(r[i] == s[i - 1] && r[j] == s[j - 1]);
        }
    }
}

proof fn lemma_sort_in_order(ts: Seq<CueTrackView>)
    ensures
        by_start(sort_by_start(ts)),
        sort_by_start(ts).len() == ts.len(),
    decreases ts.len(),
{
    if ts.len() > 0 {
        lemma_sort_in_order(ts.drop_last());
        lemma_insert_keeps_order(sort_by_start(ts.drop_last()), ts.last());
    }
}

/// The tracks of a written cue sheet follow their start times, and their
/// numbers are neither 0 nor repeated.
pub proof fn law_cue_sheet_tracks_in_order(ts: Seq<CueTrackView>)
    requires
        ts.len() < u32::MAX,
    ensures
        finish_cue_tracks(ts).len() == ts.len(),
        by_start(finish_cue_tracks(ts)),
        forall|i: int| 0 <= i < ts.len() ==> (#[trigger] finish_cue_tracks(ts)[i]).number != 0,
        forall|i: int, j: int|
            0 <= i < j < ts.len() ==> (#[trigger] finish_cue_tracks(ts)[i]).number != (
            #[trigger] finish_cue_tracks(ts)[j]).number,
{
    lemma_sort_in_order(ts);
    let s = sort_by_start(ts);
    let f = finish_cue_tracks(ts);
    if needs_numbers(s) {
        assert(f == renumbered(s));
        assert forall|i: int, j: int| 0 <= i < j < f.len() implies (#[trigger] f[i]).start_ms <= (
        #[trigger] f[j]).start_ms by {
            assert(f[i].start_ms == s[i].start_ms && f[j].start_ms == s[j].start_ms);
        }
        assert forall|i: int| 0 <= i < ts.len() implies (#[trigger] f[i]).number != 0 by {
            assert(f[i].number == (i + 1) as u32);
        }
        assert forall|i: int, j: int| 0 <= i < j < ts.len() implies (#[trigger] f[i]).number != (
        #[trigger] f[j]).number by {
            assert(f[i].number == (i + 1) as u32);
            assert(f[j].number == (j + 1) as u32);
        }
    }
}

// ---------------------------------------------------------------------------
// Moves under way
// ---------------------------------------------------------------------------

/// The moves under way, at most one per album, and the albums whose last
/// move went through without failure or cancellation.
pub struct AlbumExport {
    jobs: Vec<FillJob>,
    done: HashSet<i64>,
}

pub struct AlbumExportView {
    pub jobs: Seq<FillJob>,
    pub done: Set<i64>,
}

impl View for AlbumExport {
    type V = AlbumExportView;

    closed spec fn view(&self) -> AlbumExportView {
        AlbumExportView { jobs: self.jobs@, done: self.done@ }
    }
}

pub open spec fn album_target(album_id: i64) -> FillTarget {
    FillTarget::Album(album_id)
}

impl AlbumExport {
    #[verifier::type_invariant]
    closed spec fn inv(self) -> bool {
        targets_unique(self.jobs@) && progress_bounded(self.jobs@)
    }

    /// No moves, nothing done.
    pub fn new() -> (r: AlbumExport)
        ensures
            r@.jobs == Seq::<FillJob>::empty(),
            r@.done == Set::<i64>::empty(),
    {
        AlbumExport { jobs: Vec::new(), done: HashSet::new() }
    }

    fn find(&self, album_id: i64) -> (r: Option<usize>)
        ensures
            match r {
                Some(i) => find_job(self@.jobs, album_target(album_id)) == Some(i as int) && i
                    < self@.jobs.len() && self@.jobs[i as int].target == album_target(album_id),
                None => find_job(self@.jobs, album_target(album_id)) is None,
            },
    {
        proof {
            use_type_invariant(self);
        }
        let target = FillTarget::Album(album_id);
        for i in 0..self.jobs.len()
            invariant
                targets_unique(self.jobs@),
                target == album_target(album_id),
                forall|j: int| 0 <= j < i ==> (#[trigger] self.jobs@[j]).target != target,
        {
            if self.jobs[i].target == target {
                proof {
                    lemma_find_job_unique(self.jobs@, target, i as int);
                }
                return Some(i);
            }
        }
        proof {
            lemma_find_job(self.jobs@, target);
            if find_job(self.jobs@, target) is Some {
                let k = find_job(self.jobs@, target)->0;
                assert(self.jobs@[k].target == target);
            }
        }
        None
    }

    /// The progress of the move of `album_id`, if one runs.
    pub fn progress(&self, album_id: i64) -> (r: Option<FillProgress>)
        ensures
            r == progress_of(self@.jobs, album_target(album_id)),
            r matches Some(p) ==> p.done_bytes <= p.total_bytes,
    {
        proof {
            use_type_invariant(self);
        }
        match self.find(album_id) {
            Some(i) => Some(self.jobs[i].progress),
            None => None,
        }
    }

    /// Whether the last move of `album_id` went through.
    pub fn is_done(&self, album_id: i64) -> (r: bool)
        ensures
            r == self@.done.contains(album_id),
    {
        broadcast use vstd::std_specs::hash::group_hash_axioms;

        self.done.contains(&album_id)
    }

    /// Whether the move of `album_id` was asked to stop; false when none runs.
    pub fn is_cancelled(&self, album_id: i64) -> (r: bool)
        ensures
            r == match find_job(self@.jobs, album_target(album_id)) {
                Some(i) => self@.jobs[i].cancelled,
                None => false,
            },
    {
        match self.find(album_id) {
            Some(i) => self.jobs[i].cancelled,
            None => false,
        }
    }

    /// Starts moving `plan` for `album_id`, unless it has no entries or a
    /// move of the album runs; tells whether it started.
    pub fn start(&mut self, album_id: i64, plan: &ExportPlan) -> (r: bool)
        requires
            entries_size(plan@.entries) <= u64::MAX,
        ensures
            r == (plan@.entries.len() > 0 && find_job(old(self)@.jobs, album_target(album_id))
                is None),
            final(self)@.done == old(self)@.done,
            r ==> final(self)@.jobs == old(self)@.jobs.push(
                FillJob {
                    target: album_target(album_id),
                    progress: FillProgress {
                        done_bytes: 0,
                        total_bytes: entries_size(plan@.entries) as u64,
                    },
                    cancelled: false,
                },
            ),
            !r ==> final(self)@.jobs == old(self)@.jobs,
    {
        proof {
            use_type_invariant(&*self);
        }
        if plan.entries.len() == 0 || self.find(album_id).is_some() {
            return false;
        }
        let total = plan.total();
        let target = FillTarget::Album(album_id);
        proof {
            lemma_find_job(self.jobs@, target);
        }
        let ghost before = self.jobs@;
        let mut jobs: Vec<FillJob> = Vec::new();
        std::mem::swap(&mut jobs, &mut self.jobs);
        jobs.push(
            FillJob {
                target,
                progress: FillProgress { done_bytes: 0, total_bytes: total },
                cancelled: false,
            },
        );
        assert forall|a: int, b: int| 0 <= a < b < jobs@.len() implies (
        #[trigger] jobs@[a]).target != (#[trigger] jobs@[b]).target by {
            if b == before.len() {
                assert(before[a].target != target);
            } else {
                assert(jobs@[a] == before[a] && jobs@[b] == before[b]);
            }
        }
        self.jobs = jobs;
        true
    }

    /// Asks the move of `album_id`, if one runs, to stop.
    pub fn cancel(&mut self, album_id: i64)
        ensures
            final(self)@.done == old(self)@.done,
            final(self)@.jobs == match find_job(old(self)@.jobs, album_target(album_id)) {
                Some(i) => old(self)@.jobs.update(
                    i,
                    FillJob {
                        target: old(self)@.jobs[i].target,
                        progress: old(self)@.jobs[i].progress,
                        cancelled: true,
                    },
                ),
                None => old(self)@.jobs,
            },
    {
        proof {
            use_type_invariant(&*self);
        }
        match self.find(album_id) {
            Some(i) => {
                let job = self.jobs[i];
                let mut jobs: Vec<FillJob> = Vec::new();
                std::mem::swap(&mut jobs, &mut self.jobs);
                jobs.set(i, FillJob { target: job.target, progress: job.progress, cancelled: true });
                assert forall|a: int, b: int| 0 <= a < b < jobs@.len() implies (
                #[trigger] jobs@[a]).target != (#[trigger] jobs@[b]).target by {
                    assert(old(self)@.jobs[a].target != old(self)@.jobs[b].target);
                }
                self.jobs = jobs;
            },
            None => {},
        }
    }

    /// Counts `size` more bytes as moved for `album_id`, if a move runs: the
    /// size of one of its own entries, so that what is moved stays within
    /// what the move has in all.
    pub fn record_done(&mut self, album_id: i64, size: u64)
        requires
            match find_job(old(self)@.jobs, album_target(album_id)) {
                Some(i) => old(self)@.jobs[i].progress.done_bytes + size
                    <= old(self)@.jobs[i].progress.total_bytes,
                None => true,
            },
        ensures
            final(self)@.done == old(self)@.done,
            final(self)@.jobs == match find_job(old(self)@.jobs, album_target(album_id)) {
                Some(i) => old(self)@.jobs.update(
                    i,
                    FillJob {
                        target: old(self)@.jobs[i].target,
                        progress: FillProgress {
                            done_bytes: (old(self)@.jobs[i].progress.done_bytes + size) as u64,
                            total_bytes: old(self)@.jobs[i].progress.total_bytes,
                        },
                        cancelled: old(self)@.jobs[i].cancelled,
                    },
                ),
                None => old(self)@.jobs,
            },
    {
        proof {
            use_type_invariant(&*self);
        }
        match self.find(album_id) {
            Some(i) => {
                let job = self.jobs[i];
                let mut jobs: Vec<FillJob> = Vec::new();
                std::mem::swap(&mut jobs, &mut self.jobs);
                jobs.set(
                    i,
                    FillJob {
                        target: job.target,
                        progress: FillProgress {
                            done_bytes: job.progress.done_bytes + size,
                            total_bytes: job.progress.total_bytes,
                        },
                        cancelled: job.cancelled,
                    },
                );
                assert forall|a: int, b: int| 0 <= a < b < jobs@.len() implies (
                #[trigger] jobs@[a]).target != (#[trigger] jobs@[b]).target by {
                    assert(old(self)@.jobs[a].target != old(self)@.jobs[b].target);
                }
                self.jobs = jobs;
            },
            None => {},
        }
    }

    /// Ends the move of `album_id`: it no longer runs, and the album counts as
    /// done when no file failed and the move was not asked to stop.
    pub fn finish(&mut self, album_id: i64, failed: bool)
        ensures
            final(self)@.jobs == match find_job(old(self)@.jobs, album_target(album_id)) {
                Some(i) => old(self)@.jobs.remove(i),
                None => old(self)@.jobs,
            },
            final(self)@.done == if !failed && !(match find_job(
                old(self)@.jobs,
                album_target(album_id),
            ) {
                Some(i) => old(self)@.jobs[i].cancelled,
                None => false,
            }) {
                old(self)@.done.insert(album_id)
            } else {
                old(self)@.done
            },
    {
        broadcast use vstd::std_specs::hash::group_hash_axioms;

        proof {
            use_type_invariant(&*self);
        }
        let cancelled = self.is_cancelled(album_id);
        match self.find(album_id) {
            Some(i) => {
                proof {
                    lemma_find_job(self.jobs@, album_target(album_id));
                }
                let ghost before = self.jobs@;
                let mut jobs: Vec<FillJob> = Vec::new();
                std::mem::swap(&mut jobs, &mut self.jobs);
                jobs.remove(i);
                assert forall|a: int, b: int| 0 <= a < b < jobs@.len() implies (
                #[trigger] jobs@[a]).target != (#[trigger] jobs@[b]).target by {
                    let a0 = if a < i {
                        a
                    } else {
                        a + 1
                    };
                    let b0 = if b < i {
                        b
                    } else {
                        b + 1
                    };
                    assert(jobs@[a] == before[a0]);
                    assert(jobs@[b] == before[b0]);
                }
                self.jobs = jobs;
            },
            None => {},
        }
        if !failed && !cancelled {
            let mut done: HashSet<i64> = HashSet::new();
            std::mem::swap(&mut done, &mut self.done);
            done.insert(album_id);
            self.done = done;
        }
    }

    /// The catalog changed, so nothing counts as done any more; tells whether
    /// anything did.
    pub fn catalog_changed(&mut self) -> (r: bool)
        ensures
            r == !old(self)@.done.is_empty(),
            final(self)@.jobs == old(self)@.jobs,
            final(self)@.done == Set::<i64>::empty(),
    {
        proof {
            use_type_invariant(&*self);
        }
        let had = !self.done.is_empty();
        self.done = HashSet::new();
        had
    }
}

} // verus!

verus! {

// ---------------------------------------------------------------------------
// The steps of a move
// ---------------------------------------------------------------------------

/// Where a move stands while it runs: the next entry of its plan, how many
/// entries went to their place, and the first failure.
#[derive(Debug, Clone, PartialEq, Eq)]
pub struct ExportRun {
    pub next: usize,
    pub placed: usize,
    pub failure: Option<String>,
}

/// What a move does once it stops: write the cover and rescan the music
/// folders when anything was placed, count the album as done when nothing
/// failed and it was not stopped, and tell the user unless it was stopped.
#[derive(Clone, Copy, Debug, PartialEq, Eq, Structural)]
pub struct ExportEnd {
    pub write_cover: bool,
    pub rescan: bool,
    pub counts_done: bool,
    pub notify: bool,
}

/// The next thing a move does.
#[derive(Clone, Copy, Debug, PartialEq, Eq, Structural)]
pub enum ExportAction {
    /// Move the entry at this index of the plan.
    Place(usize),
    /// Stop, and do what is said.
    Finish(ExportEnd),
}

/// The next step of a move of `entries` entries: the next entry while there
/// is one and the move was not asked to stop; otherwise the end.
pub open spec fn export_next_spec(
    next: int,
    placed: int,
    failed: bool,
    entries: int,
    cancelled: bool,
) -> ExportAction {
    if !cancelled && next < entries {
        ExportAction::Place(next as usize)
    } else {
        ExportAction::Finish(
            ExportEnd {
                write_cover: placed > 0,
                rescan: placed > 0,
                counts_done: !failed && !cancelled,
                notify: !cancelled,
            },
        )
    }
}

/// A move that has not begun.
pub fn export_begin() -> (r: ExportRun)
    ensures
        r.next == 0,
        r.placed == 0,
        r.failure is None,
{
    ExportRun { next: 0, placed: 0, failure: None }
}

/// The next step of the move `run` over a plan of `entries` entries, given
/// whether it was asked to stop.
pub fn export_next(run: &ExportRun, entries: usize, cancelled: bool) -> (a: ExportAction)
    ensures
        a == export_next_spec(run.next as int, run.placed as int, run.failure is Some, entries as int, cancelled),
{
    if !cancelled && run.next < entries {
        ExportAction::Place(run.next)
    } else {
        ExportAction::Finish(
            ExportEnd {
                write_cover: run.placed > 0,
                rescan: run.placed > 0,
                counts_done: run.failure.is_none() && !cancelled,
                notify: !cancelled,
            },
        )
    }
}

/// The move after the entry at `run.next` was moved (`Ok`) or failed: it
/// goes on with the next entry, counts a placed file, and keeps the first
/// failure.
pub fn export_after(run: ExportRun, outcome: Result<(), String>) -> (r: ExportRun)
    requires
        run.next < usize::MAX,
        run.placed <= run.next,
    ensures
        r.next == run.next + 1,
        r.placed == run.placed + if outcome is Ok { 1int } else { 0int },
        r.placed <= r.next,
        r.failure == match run.failure {
            Some(f) => Some(f),
            None => match outcome {
                Ok(_) => None,
                Err(e) => Some(e),
            },
        },
{
    let ExportRun { next, placed, failure } = run;
    let placed = match outcome {
        Ok(_) => placed + 1,
        Err(_) => placed,
    };
    let failure = match failure {
        Some(f) => Some(f),
        None => match outcome {
            Ok(_) => None,
            Err(e) => Some(e),
        },
    };
    ExportRun { next: next + 1, placed, failure }
}

/// A move that was asked to stop moves no further entry.
pub proof fn law_a_stopped_move_places_nothing_more(next: int, placed: int, failed: bool, entries: int)
    ensures
        export_next_spec(next, placed, failed, entries, true) is Finish,
        !export_next_spec(next, placed, failed, entries, true)->Finish_0.counts_done,
{
}

/// A move that placed nothing writes no cover and asks for no rescan; a
/// move with a failure does not count as done.
pub proof fn law_nothing_placed_nothing_rescanned(next: int, placed: int, failed: bool, entries: int, cancelled: bool)
    ensures
        export_next_spec(next, placed, failed, entries, cancelled) matches ExportAction::Finish(e)
            ==> (e.write_cover == (placed > 0) && e.rescan == (placed > 0) && (failed ==> !e.counts_done)),
{
}

} // verus!
