//! Locators of tracks that a media server holds: `pawse-source://<id>/<key>.<suffix>`.
use vstd::prelude::*;
use crate::text::{
    all_digits, chars_of, dec_int, find_first, find_last, first_index, has_prefix, is_ascii_alnum,
    is_first, is_last, last_index, lemma_dec_int_chars, lemma_first_is, lemma_last_is,
    lemma_parse_dec_int, map_ascii_lower, parse_i64, parse_i64_spec, push_dec_i64, push_str,
    same_chars, slice_chars, starts_with, string_of, trim, trimmed, ascii_alnum, ascii_lowercase,
    is_digit,
};

verus! {

pub const SCHEME: &'static str = "pawse-source://";

pub open spec fn scheme() -> Seq<char> {
    "pawse-source://"@
}

/// The scheme that locators were written with before it was renamed.
pub open spec fn legacy_scheme() -> Seq<char> {
    "subsonic://"@
}

#[derive(Debug, Clone, PartialEq, Eq)]
pub struct RemoteRef {
    pub source_id: i64,
    pub key: String,
    pub suffix: String,
}

/// Where a stored track path points.
#[derive(Debug, Clone, PartialEq, Eq)]
pub enum Location<'a> {
    File(&'a str),
    Remote(RemoteRef),
    Invalid,
}

pub open spec fn locator_spec(source_id: i64, key: Seq<char>, suffix: Seq<char>) -> Seq<char> {
    scheme() + dec_int(source_id as int) + seq!['/'] + key + seq!['.'] + suffix
}

pub fn locator(source_id: i64, key: &str, suffix: &str) -> (r: String)
    ensures
        r@ == locator_spec(source_id, key@, suffix@),
{
    let mut out: Vec<char> = Vec::new();
    push_str(&mut out, "pawse-source://");
    push_dec_i64(&mut out, source_id);
    out.push('/');
    push_str(&mut out, key);
    out.push('.');
    push_str(&mut out, suffix);
    assert(out@ =~= locator_spec(source_id, key@, suffix@));
    string_of(&out)
}

pub open spec fn strip_scheme_spec(path: Seq<char>) -> Option<Seq<char>> {
    if has_prefix(path, scheme()) {
        Some(path.skip(scheme().len() as int))
    } else if has_prefix(path, legacy_scheme()) {
        Some(path.skip(legacy_scheme().len() as int))
    } else {
        None
    }
}

fn strip_scheme(path: &Vec<char>) -> (r: Option<Vec<char>>)
    ensures
        match r {
            Some(rest) => strip_scheme_spec(path@) == Some(rest@),
            None => strip_scheme_spec(path@) is None,
        },
{
    let current = chars_of("pawse-source://");
    if starts_with(path, &current) {
        return Some(slice_chars(path, current.len(), path.len()));
    }
    let legacy = chars_of("subsonic://");
    if starts_with(path, &legacy) {
        return Some(slice_chars(path, legacy.len(), path.len()));
    }
    None
}

pub open spec fn is_remote_spec(path: Seq<char>) -> bool {
    strip_scheme_spec(path) is Some
}

pub fn is_remote(path: &str) -> (r: bool)
    ensures
        r == is_remote_spec(path@),
{
    let chars = chars_of(path);
    strip_scheme(&chars).is_some()
}

/// The (source id, key, suffix) a locator names: the source id runs up to the
/// first `/`, the suffix follows the last `.`, and neither key nor suffix is empty.
pub open spec fn parse_spec(path: Seq<char>) -> Option<(i64, Seq<char>, Seq<char>)> {
    match strip_scheme_spec(path) {
        None => None,
        Some(rest) => match first_index(rest, '/') {
            None => None,
            Some(i) => {
                let source = rest.take(i);
                let file = rest.skip(i + 1);
                match last_index(file, '.') {
                    None => None,
                    Some(j) => {
                        let key = file.take(j);
                        let suffix = file.skip(j + 1);
                        if key.len() == 0 || suffix.len() == 0 {
                            None
                        } else {
                            match parse_i64_spec(source) {
                                None => None,
                                Some(id) => Some((id, key, suffix)),
                            }
                        }
                    },
                }
            },
        },
    }
}

pub open spec fn ref_view(r: RemoteRef) -> (i64, Seq<char>, Seq<char>) {
    (r.source_id, r.key@, r.suffix@)
}

pub open spec fn opt_ref_view(r: Option<RemoteRef>) -> Option<(i64, Seq<char>, Seq<char>)> {
    match r {
        Some(x) => Some(ref_view(x)),
        None => None,
    }
}

fn parse_chars(path: &Vec<char>) -> (r: Option<RemoteRef>)
    ensures
        opt_ref_view(r) == parse_spec(path@),
{
    let rest = match strip_scheme(path) {
        Some(rest) => rest,
        None => return None,
    };
    let i = match find_first(&rest, '/') {
        Some(i) => i,
        None => return None,
    };
    assert(is_first(rest@, '/', i as int));
    assert(i < rest.len());
    let source = slice_chars(&rest, 0, i);
    let file = slice_chars(&rest, i + 1, rest.len());
    assert(source@ == rest@.take(i as int));
    assert(file@ == rest@.skip(i + 1));
    let j = match find_last(&file, '.') {
        Some(j) => j,
        None => return None,
    };
    assert(is_last(file@, '.', j as int));
    let key = slice_chars(&file, 0, j);
    let suffix = slice_chars(&file, j + 1, file.len());
    assert(key@ == file@.take(j as int));
    assert(suffix@ == file@.skip(j + 1));
    if key.len() == 0 || suffix.len() == 0 {
        return None;
    }
    match parse_i64(&source) {
        Some(id) => Some(RemoteRef { source_id: id, key: string_of(&key), suffix: string_of(&suffix) }),
        None => None,
    }
}

pub fn parse(path: &str) -> (r: Option<RemoteRef>)
    ensures
        opt_ref_view(r) == parse_spec(path@),
{
    let chars = chars_of(path);
    parse_chars(&chars)
}

/// A legacy locator rewritten under the current scheme; none for anything else.
pub open spec fn canonical_spec(path: Seq<char>) -> Option<Seq<char>> {
    if has_prefix(path, scheme()) {
        None
    } else {
        match parse_spec(path) {
            Some((id, key, suffix)) => Some(locator_spec(id, key, suffix)),
            None => None,
        }
    }
}

pub fn canonical(path: &str) -> (r: Option<String>)
    ensures
        match r {
            Some(s) => canonical_spec(path@) == Some(s@),
            None => canonical_spec(path@) is None,
        },
{
    let chars = chars_of(path);
    let current = chars_of("pawse-source://");
    if starts_with(&chars, &current) {
        return None;
    }
    match parse_chars(&chars) {
        Some(reference) => Some(
            locator(reference.source_id, reference.key.as_str(), reference.suffix.as_str()),
        ),
        None => None,
    }
}

/// Where `path` points: a local file, a server track, or a broken locator.
pub fn location(path: &str) -> (r: Location<'_>)
    ensures
        !is_remote_spec(path@) ==> r == Location::File(path),
        is_remote_spec(path@) && parse_spec(path@) is None ==> r == Location::<'_>::Invalid,
        is_remote_spec(path@) && parse_spec(path@) is Some ==> (r matches Location::Remote(x)
            && Some(ref_view(x)) == parse_spec(path@)),
{
    if !is_remote(path) {
        return Location::File(path);
    }
    match parse(path) {
        Some(reference) => Location::Remote(reference),
        None => Location::Invalid,
    }
}

/// The local file `path` names, unless it is a server locator.
pub fn local_file(path: &str) -> (r: Option<&str>)
    ensures
        r == (if is_remote_spec(path@) {
            None
        } else {
            Some(path)
        }),
{
    match location(path) {
        Location::File(file) => Some(file),
        Location::Remote(_) => None,
        Location::Invalid => None,
    }
}

// ---------------------------------------------------------------------------
// File suffixes
// ---------------------------------------------------------------------------

pub open spec fn usable_suffix(s: Seq<char>) -> bool {
    &&& 0 < s.len() <= 8
    &&& forall|i: int| 0 <= i < s.len() ==> is_ascii_alnum(#[trigger] s[i])
}

/// The file suffix a content type implies; `mp3` for anything unknown.
pub open spec fn suffix_of_type(ct: Seq<char>) -> Seq<char> {
    if ct == "audio/flac"@ || ct == "audio/x-flac"@ {
        "flac"@
    } else if ct == "audio/ogg"@ || ct == "application/ogg"@ {
        "ogg"@
    } else if ct == "audio/opus"@ {
        "opus"@
    } else if ct == "audio/mp4"@ || ct == "audio/x-m4a"@ || ct == "audio/aac"@ {
        "m4a"@
    } else if ct == "audio/wav"@ || ct == "audio/x-wav"@ {
        "wav"@
    } else {
        "mp3"@
    }
}

/// The suffix a server reports, trimmed and lowered when it is short and plain;
/// otherwise the one its content type implies.
pub open spec fn suffix_for_spec(suffix: Option<Seq<char>>, content_type: Option<Seq<char>>) -> Seq<
    char,
> {
    match suffix {
        Some(s) if usable_suffix(trimmed(s)) => map_ascii_lower(trimmed(s)),
        _ => suffix_of_type(
            match content_type {
                Some(ct) => ct,
                None => Seq::empty(),
            },
        ),
    }
}

pub open spec fn opt_str_view(s: Option<&str>) -> Option<Seq<char>> {
    match s {
        Some(x) => Some(x@),
        None => None,
    }
}

fn is_literal(s: &Vec<char>, lit: &str) -> (r: bool)
    ensures
        r == (s@ == lit@),
{
    let l = chars_of(lit);
    same_chars(s, &l)
}

fn type_suffix(ct: &Vec<char>) -> (r: &'static str)
    ensures
        r@ == suffix_of_type(ct@),
{
    if is_literal(ct, "audio/flac") || is_literal(ct, "audio/x-flac") {
        "flac"
    } else if is_literal(ct, "audio/ogg") || is_literal(ct, "application/ogg") {
        "ogg"
    } else if is_literal(ct, "audio/opus") {
        "opus"
    } else if is_literal(ct, "audio/mp4") || is_literal(ct, "audio/x-m4a") || is_literal(
        ct,
        "audio/aac",
    ) {
        "m4a"
    } else if is_literal(ct, "audio/wav") || is_literal(ct, "audio/x-wav") {
        "wav"
    } else {
        "mp3"
    }
}

pub fn suffix_for(suffix: Option<&str>, content_type: Option<&str>) -> (r: String)
    ensures
        r@ == suffix_for_spec(opt_str_view(suffix), opt_str_view(content_type)),
{
    if let Some(s) = suffix {
        let chars = chars_of(s);
        let t = trim(&chars);
        let mut plain = t.len() > 0 && t.len() <= 8;
        for i in 0..t.len()
            invariant
                plain == (0 < t@.len() <= 8 && forall|j: int|
                    0 <= j < i ==> is_ascii_alnum(#[trigger] t@[j])),
        {
            plain = plain && ascii_alnum(t[i]);
        }
        if plain {
            let lowered = ascii_lowercase(&t);
            return string_of(&lowered);
        }
    }
    let ct = match content_type {
        Some(ct) => chars_of(ct),
        None => Vec::new(),
    };
    type_suffix(&ct).to_owned()
}

// ---------------------------------------------------------------------------
// Laws
// ---------------------------------------------------------------------------

/// A locator names exactly what it was made of, whenever the suffix holds no
/// `.` and neither key nor suffix is empty; dots in the key survive.
pub proof fn law_locator_round_trip(source_id: i64, key: Seq<char>, suffix: Seq<char>)
    requires
        key.len() > 0,
        suffix.len() > 0,
        forall|i: int| 0 <= i < suffix.len() ==> suffix[i] != '.',
    ensures
        is_remote_spec(locator_spec(source_id, key, suffix)),
        parse_spec(locator_spec(source_id, key, suffix)) == Some((source_id, key, suffix)),
        canonical_spec(locator_spec(source_id, key, suffix)) is None,
{
    let d = dec_int(source_id as int);
    let p = locator_spec(source_id, key, suffix);
    assert(p.take(scheme().len() as int) =~= scheme());
    let rest = p.skip(scheme().len() as int);
    assert(rest =~= d + seq!['/'] + key + seq!['.'] + suffix);
    lemma_dec_int_chars(source_id as int);
    assert(is_first(rest, '/', d.len() as int)) by {
        assert forall|j: int| 0 <= j < d.len() implies rest[j] != '/' by {
            assert(rest[j] == d[j]);
            assert(is_digit(d[j]) || d[j] == '-');
        }
    }
    lemma_first_is(rest, '/', d.len() as int);
    assert(rest.take(d.len() as int) =~= d);
    let file = rest.skip(d.len() + 1int);
    assert(file =~= key + seq!['.'] + suffix);
    assert(is_last(file, '.', key.len() as int)) by {
        assert forall|j: int| key.len() < j < file.len() implies file[j] != '.' by {
            assert(file[j] == suffix[j - key.len() - 1]);
        }
    }
    lemma_last_is(file, '.', key.len() as int);
    assert(file.take(key.len() as int) =~= key);
    assert(file.skip(key.len() + 1int) =~= suffix);
    lemma_parse_dec_int(source_id);
}

/// Rewriting a legacy locator keeps what it names and moves it to the current scheme.
pub proof fn law_canonical_keeps_the_reference(path: Seq<char>)
    requires
        canonical_spec(path) is Some,
    ensures
        has_prefix(canonical_spec(path)->0, scheme()),
        parse_spec(canonical_spec(path)->0) == parse_spec(path),
{
    let (id, key, suffix) = parse_spec(path)->0;
    let rest = strip_scheme_spec(path)->0;
    let i = first_index(rest, '/')->0;
    let file = rest.skip(i + 1);
    let j = last_index(file, '.')->0;
    let k = choose|k: int| is_last(file, '.', k);
    assert(k == j);
    assert forall|x: int| 0 <= x < suffix.len() implies suffix[x] != '.' by {
        assert(suffix[x] == file[j + 1 + x]);
    }
    law_locator_round_trip(id, key, suffix);
    let q = locator_spec(id, key, suffix);
    assert(q.take(scheme().len() as int) =~= scheme());
}

} // verus!
