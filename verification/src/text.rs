use vstd::prelude::*;

verus! {

// ---------------------------------------------------------------------------
// Character classes
// ---------------------------------------------------------------------------

/// Unicode `White_Space`, the class that `char::is_whitespace` tests.
pub open spec fn is_ws(c: char) -> bool {
    let u = c as u32;
    ||| 0x09 <= u <= 0x0D
    ||| u == 0x20
    ||| u == 0x85
    ||| u == 0xA0
    ||| u == 0x1680
    ||| 0x2000 <= u <= 0x200A
    ||| u == 0x2028
    ||| u == 0x2029
    ||| u == 0x202F
    ||| u == 0x205F
    ||| u == 0x3000
}

pub fn is_whitespace(c: char) -> (b: bool)
    ensures
        b == is_ws(c),
{
    let u = c as u32;
    (0x09 <= u && u <= 0x0D) || u == 0x20 || u == 0x85 || u == 0xA0 || u == 0x1680 || (0x2000
        <= u && u <= 0x200A) || u == 0x2028 || u == 0x2029 || u == 0x202F || u == 0x205F || u
        == 0x3000
}

/// General category `Cc`, the class that `char::is_control` tests.
pub open spec fn is_cc(c: char) -> bool {
    let u = c as u32;
    u <= 0x1F || (0x7F <= u && u <= 0x9F)
}

pub fn is_control(c: char) -> (b: bool)
    ensures
        b == is_cc(c),
{
    let u = c as u32;
    u <= 0x1F || (0x7F <= u && u <= 0x9F)
}

pub open spec fn is_digit(c: char) -> bool {
    '0' <= c && c <= '9'
}

pub open spec fn is_ascii_alnum(c: char) -> bool {
    is_digit(c) || ('a' <= c && c <= 'z') || ('A' <= c && c <= 'Z')
}

pub fn ascii_alnum(c: char) -> (b: bool)
    ensures
        b == is_ascii_alnum(c),
{
    ('0' <= c && c <= '9') || ('a' <= c && c <= 'z') || ('A' <= c && c <= 'Z')
}

/// `char::to_ascii_lowercase`.
pub open spec fn ascii_lower(c: char) -> char {
    if 'A' <= c && c <= 'Z' {
        ((c as u32) + 32) as char
    } else {
        c
    }
}

/// `char::to_ascii_uppercase`.
pub open spec fn ascii_upper(c: char) -> char {
    if 'a' <= c && c <= 'z' {
        ((c as u32) - 32) as char
    } else {
        c
    }
}

pub fn to_ascii_lower(c: char) -> (r: char)
    ensures
        r == ascii_lower(c),
{
    if 'A' <= c && c <= 'Z' {
        let u: u8 = c as u8;
        (u + 32) as char
    } else {
        c
    }
}

pub fn to_ascii_upper(c: char) -> (r: char)
    ensures
        r == ascii_upper(c),
{
    if 'a' <= c && c <= 'z' {
        let u: u8 = c as u8;
        (u - 32) as char
    } else {
        c
    }
}

pub open spec fn map_ascii_lower(s: Seq<char>) -> Seq<char> {
    Seq::new(s.len(), |i: int| ascii_lower(s[i]))
}

pub open spec fn map_ascii_upper(s: Seq<char>) -> Seq<char> {
    Seq::new(s.len(), |i: int| ascii_upper(s[i]))
}

pub fn ascii_lowercase(s: &Vec<char>) -> (r: Vec<char>)
    ensures
        r@ == map_ascii_lower(s@),
{
    let mut r: Vec<char> = Vec::new();
    for i in 0..s.len()
        invariant
            r@ == map_ascii_lower(s@.take(i as int)),
    {
        r.push(to_ascii_lower(s[i]));
        assert(r@ == map_ascii_lower(s@.take(i + 1)));
    }
    assert(s@.take(s@.len() as int) == s@);
    r
}

pub fn ascii_uppercase(s: &Vec<char>) -> (r: Vec<char>)
    ensures
        r@ == map_ascii_upper(s@),
{
    let mut r: Vec<char> = Vec::new();
    for i in 0..s.len()
        invariant
            r@ == map_ascii_upper(s@.take(i as int)),
    {
        r.push(to_ascii_upper(s[i]));
        assert(r@ == map_ascii_upper(s@.take(i + 1)));
    }
    assert(s@.take(s@.len() as int) == s@);
    r
}

// ---------------------------------------------------------------------------
// Conversions between strings and character vectors
// ---------------------------------------------------------------------------

/// The characters of `s`, in order.
pub fn chars_of(s: &str) -> (r: Vec<char>)
    ensures
        r@ == s@,
{
    let mut r: Vec<char> = Vec::new();
    for c in it: s.chars()
        invariant
            it.seq() == s@,
            r@ == it.seq().take(it.index()),
    {
        r.push(c);
        assert(r@ == it.seq().take(it.index() + 1));
    }
    r
}

/// `String::push`: appends one character.
#[verifier::external_body]
fn string_push(s: &mut String, c: char)
    ensures
        final(s)@ == old(s)@.push(c),
{
    s.push(c);
}

/// A string holding exactly the characters `v`.
pub fn string_of(v: &[char]) -> (r: String)
    ensures
        r@ == v@,
{
    let mut r = String::new();
    for i in 0..v.len()
        invariant
            r@ == v@.take(i as int),
    {
        string_push(&mut r, v[i]);
        assert(r@ == v@.take(i + 1));
    }
    assert(v@.take(v@.len() as int) == v@);
    r
}

/// Appends the characters of `s` to `out`.
pub fn push_str(out: &mut Vec<char>, s: &str)
    ensures
        final(out)@ == old(out)@ + s@,
{
    let cs = chars_of(s);
    push_all(out, &cs);
}

/// Appends the characters `s` to `out`.
pub fn push_all(out: &mut Vec<char>, s: &[char])
    ensures
        final(out)@ == old(out)@ + s@,
{
    let ghost start = out@;
    for i in 0..s.len()
        invariant
            out@ == start + s@.take(i as int),
    {
        out.push(s[i]);
        assert(out@ == start + s@.take(i + 1));
    }
    assert(s@.take(s@.len() as int) == s@);
}

/// Whether two character sequences are equal.
pub fn same_chars(a: &[char], b: &[char]) -> (r: bool)
    ensures
        r == (a@ == b@),
{
    if a.len() != b.len() {
        return false;
    }
    for i in 0..a.len()
        invariant
            a@.len() == b@.len(),
            forall|j: int| 0 <= j < i ==> a@[j] == b@[j],
    {
        if a[i] != b[i] {
            return false;
        }
    }
    assert(a@ =~= b@);
    true
}

/// Whether two strings hold the same characters.
pub fn same_text(a: &str, b: &str) -> (r: bool)
    ensures
        r == (a@ == b@),
{
    let ca = chars_of(a);
    let cb = chars_of(b);
    same_chars(&ca, &cb)
}

/// Whether `s` begins with `prefix`.
pub open spec fn has_prefix(s: Seq<char>, prefix: Seq<char>) -> bool {
    prefix.len() <= s.len() && s.take(prefix.len() as int) == prefix
}

pub fn starts_with(s: &[char], prefix: &[char]) -> (r: bool)
    ensures
        r == has_prefix(s@, prefix@),
{
    if prefix.len() > s.len() {
        return false;
    }
    for i in 0..prefix.len()
        invariant
            prefix@.len() <= s@.len(),
            forall|j: int| 0 <= j < i ==> s@[j] == prefix@[j],
    {
        if s[i] != prefix[i] {
            assert(s@.take(prefix@.len() as int)[i as int] != prefix@[i as int]);
            return false;
        }
    }
    assert(s@.take(prefix@.len() as int) =~= prefix@);
    true
}

/// The characters `s[from..to]`.
pub fn slice_chars(s: &[char], from: usize, to: usize) -> (r: Vec<char>)
    requires
        from <= to <= s@.len(),
    ensures
        r@ == s@.subrange(from as int, to as int),
{
    let mut r: Vec<char> = Vec::new();
    for i in from..to
        invariant
            from <= to <= s@.len(),
            r@ == s@.subrange(from as int, i as int),
    {
        r.push(s[i]);
        assert(r@ == s@.subrange(from as int, i + 1));
    }
    r
}

// ---------------------------------------------------------------------------
// Unicode lower case
// ---------------------------------------------------------------------------

/// What `str::to_lowercase` gives for a string with the characters `s`.
pub uninterp spec fn lower(s: Seq<char>) -> Seq<char>;

/// `str::to_lowercase`: the Unicode lower-case mapping of the whole string
/// (including the context-dependent final sigma). The contract claims only
/// that the result is a function of the characters of the argument.
#[verifier::external_body]
pub(crate) fn to_lowercase(s: &str) -> (r: String)
    ensures
        r@ == lower(s@),
{
    s.to_lowercase()
}

/// The lower-case form of the characters `s`.
pub fn lowercase_chars(s: &[char]) -> (r: Vec<char>)
    ensures
        r@ == lower(s@),
{
    let as_string = string_of(s);
    let lowered = to_lowercase(as_string.as_str());
    chars_of(lowered.as_str())
}


// ---------------------------------------------------------------------------
// Whitespace
// ---------------------------------------------------------------------------

/// The fold behind `collapsed`: what has been written so far, and whether a
/// separating space is owed before the next word.
pub open spec fn squash(s: Seq<char>) -> (Seq<char>, bool)
    decreases s.len(),
{
    if s.len() == 0 {
        (Seq::empty(), false)
    } else {
        let (out, pending) = squash(s.drop_last());
        let c = s.last();
        if is_ws(c) {
            (out, out.len() > 0)
        } else if pending {
            (out.push(' ').push(c), false)
        } else {
            (out.push(c), false)
        }
    }
}

/// The words of `s` (maximal runs of non-whitespace) joined by single spaces:
/// `s.split_whitespace().collect::<Vec<_>>().join(" ")`.
pub open spec fn collapsed(s: Seq<char>) -> Seq<char> {
    squash(s).0
}

/// Words joined by single spaces: whitespace is only a plain space, never
/// at either end, and never beside other whitespace.
pub open spec fn single_spaced(t: Seq<char>) -> bool {
    forall|i: int|
        0 <= i < t.len() && is_ws(#[trigger] t[i]) ==> t[i] == ' ' && 0 < i < t.len() - 1
            && !is_ws(t[i - 1]) && !is_ws(t[i + 1])
}

proof fn lemma_squash_shape(s: Seq<char>)
    ensures
        single_spaced(squash(s).0),
        squash(s).0.len() > 0 ==> !is_ws(squash(s).0.last()),
        squash(s).1 ==> squash(s).0.len() > 0,
    decreases s.len(),
{
    if s.len() > 0 {
        lemma_squash_shape(s.drop_last());
        let (out, pending) = squash(s.drop_last());
        let c = s.last();
        let n = out.len() as int;
        assert(is_ws(' '));
        if !is_ws(c) {
            let t = squash(s).0;
            if pending {
                assert(t == out.push(' ').push(c));
                assert forall|i: int| 0 <= i < t.len() && is_ws(#[trigger] t[i]) implies t[i] == ' '
                    && 0 < i < t.len() - 1 && !is_ws(t[i - 1]) && !is_ws(t[i + 1]) by {
                    if i < n {
                        assert(t[i] == out[i]);
                        if i + 1 < n {
                            assert(t[i + 1] == out[i + 1]);
                        }
                        assert(t[i - 1] == out[i - 1]);
                    }
                }
            } else {
                assert(t == out.push(c));
                assert forall|i: int| 0 <= i < t.len() && is_ws(#[trigger] t[i]) implies t[i] == ' '
                    && 0 < i < t.len() - 1 && !is_ws(t[i - 1]) && !is_ws(t[i + 1]) by {
                    if i < n {
                        assert(t[i] == out[i]);
                        if i + 1 < n {
                            assert(t[i + 1] == out[i + 1]);
                        }
                        assert(t[i - 1] == out[i - 1]);
                    }
                }
            }
        }
    }
}

/// Collapsing whitespace leaves words joined by single spaces.
pub proof fn law_collapsed_words_are_single_spaced(s: Seq<char>)
    ensures
        single_spaced(collapsed(s)),
{
    lemma_squash_shape(s);
}

proof fn lemma_squash_single_spaced(t: Seq<char>, k: int)
    requires
        single_spaced(t),
        0 <= k <= t.len(),
    ensures
        squash(t.take(k)) == if k > 0 && t[k - 1] == ' ' {
            (t.take(k - 1), true)
        } else {
            (t.take(k), false)
        },
    decreases k,
{
    if k > 0 {
        lemma_squash_single_spaced(t, k - 1);
        let pre = t.take(k);
        assert(pre.drop_last() == t.take(k - 1));
        assert(pre.last() == t[k - 1]);
        let c = t[k - 1];
        if is_ws(c) {
            assert(c == ' ' && 0 < k - 1 && !is_ws(t[k - 2]));
            assert(t[k - 2] != ' ') by {
                assert(is_ws(' '));
            }
        } else {
            assert(c != ' ') by {
                assert(is_ws(' '));
            }
            if k >= 2 && t[k - 2] == ' ' {
                assert(t.take(k - 2).push(' ').push(c) == t.take(k));
            } else {
                assert(t.take(k - 1).push(c) == t.take(k));
            }
        }
    }
}

/// Collapsing whitespace a second time changes nothing.
pub proof fn law_collapsing_twice_changes_nothing(s: Seq<char>)
    ensures
        collapsed(collapsed(s)) == collapsed(s),
{
    let t = collapsed(s);
    lemma_squash_shape(s);
    lemma_squash_single_spaced(t, t.len() as int);
    assert(t.take(t.len() as int) == t);
    if t.len() > 0 {
        assert(t[t.len() - 1] != ' ') by {
            assert(is_ws(' '));
        }
    }
}

pub fn collapse_whitespace(s: &[char]) -> (r: Vec<char>)
    ensures
        r@ == collapsed(s@),
{
    let mut out: Vec<char> = Vec::new();
    let mut pending = false;
    for i in 0..s.len()
        invariant
            (out@, pending) == squash(s@.take(i as int)),
    {
        let c = s[i];
        assert(s@.take(i + 1).drop_last() == s@.take(i as int));
        if is_whitespace(c) {
            pending = out.len() > 0;
        } else {
            if pending {
                out.push(' ');
            }
            out.push(c);
            pending = false;
        }
    }
    assert(s@.take(s@.len() as int) == s@);
    out
}

/// The sets of characters that the trimming functions strip.
#[derive(Clone, Copy, PartialEq, Eq)]
pub enum Strip {
    /// Unicode whitespace (`str::trim`).
    Whitespace,
    /// `'.'` only.
    Dot,
    /// `'.'` or `' '`.
    DotOrSpace,
    /// `'.'` or Unicode whitespace.
    DotOrWhitespace,
}

pub open spec fn strips(set: Strip, c: char) -> bool {
    match set {
        Strip::Whitespace => is_ws(c),
        Strip::Dot => c == '.',
        Strip::DotOrSpace => c == '.' || c == ' ',
        Strip::DotOrWhitespace => c == '.' || is_ws(c),
    }
}

fn strips_exec(set: Strip, c: char) -> (b: bool)
    ensures
        b == strips(set, c),
{
    match set {
        Strip::Whitespace => is_whitespace(c),
        Strip::Dot => c == '.',
        Strip::DotOrSpace => c == '.' || c == ' ',
        Strip::DotOrWhitespace => c == '.' || is_whitespace(c),
    }
}

/// How many characters of `set` begin `s`.
pub open spec fn lead_len(s: Seq<char>, set: Strip) -> nat
    decreases s.len(),
{
    if s.len() > 0 && strips(set, s[0]) {
        1 + lead_len(s.drop_first(), set)
    } else {
        0
    }
}

/// How many characters of `set` end `s`.
pub open spec fn trail_len(s: Seq<char>, set: Strip) -> nat
    decreases s.len(),
{
    if s.len() > 0 && strips(set, s.last()) {
        1 + trail_len(s.drop_last(), set)
    } else {
        0
    }
}

pub open spec fn trim_start_of(s: Seq<char>, set: Strip) -> Seq<char> {
    s.skip(lead_len(s, set) as int)
}

pub open spec fn trim_end_of(s: Seq<char>, set: Strip) -> Seq<char> {
    s.take(s.len() - trail_len(s, set))
}

/// `str::trim`.
pub open spec fn trimmed(s: Seq<char>) -> Seq<char> {
    trim_end_of(trim_start_of(s, Strip::Whitespace), Strip::Whitespace)
}

/// What is left after trimming a set from the front does not start with it.
pub proof fn lemma_trim_start_first(s: Seq<char>, set: Strip)
    ensures
        trim_start_of(s, set).len() > 0 ==> !strips(set, trim_start_of(s, set)[0]),
        lead_len(s, set) <= s.len(),
    decreases s.len(),
{
    if s.len() > 0 && strips(set, s[0]) {
        let t = s.drop_first();
        lemma_trim_start_first(t, set);
        assert(trim_start_of(s, set) =~= trim_start_of(t, set));
    }
}

/// What is left after trimming a set from the end does not end with it, and
/// keeps the first character.
pub proof fn lemma_trim_end_last(s: Seq<char>, set: Strip)
    ensures
        trail_len(s, set) <= s.len(),
        trim_end_of(s, set).len() > 0 ==> !strips(set, trim_end_of(s, set).last()),
        trim_end_of(s, set).len() > 0 ==> trim_end_of(s, set)[0] == s[0],
    decreases s.len(),
{
    if s.len() > 0 && strips(set, s.last()) {
        let t = s.drop_last();
        lemma_trim_end_last(t, set);
        assert(trim_end_of(s, set) =~= trim_end_of(t, set));
    }
}

proof fn lemma_lead_len(s: Seq<char>, set: Strip, i: int)
    requires
        0 <= i <= s.len(),
        forall|j: int| 0 <= j < i ==> strips(set, #[trigger] s[j]),
        i == s.len() || !strips(set, s[i]),
    ensures
        lead_len(s, set) == i,
        lead_len(s, set) <= s.len(),
    decreases i,
{
    if i > 0 {
        assert(strips(set, s[0]));
        let t = s.drop_first();
        assert forall|j: int| 0 <= j < i - 1 implies strips(set, #[trigger] t[j]) by {
            assert(t[j] == s[j + 1]);
        }
        lemma_lead_len(t, set, i - 1);
    }
}

proof fn lemma_trail_len(s: Seq<char>, set: Strip, k: int)
    requires
        0 <= k <= s.len(),
        forall|j: int| s.len() - k <= j < s.len() ==> strips(set, #[trigger] s[j]),
        k == s.len() || !strips(set, s[s.len() - k - 1]),
    ensures
        trail_len(s, set) == k,
    decreases k,
{
    if k > 0 {
        assert(strips(set, s[s.len() - 1]));
        let t = s.drop_last();
        assert forall|j: int| t.len() - (k - 1) <= j < t.len() implies strips(
            set,
            #[trigger] t[j],
        ) by {
            assert(t[j] == s[j]);
        }
        if k - 1 < t.len() {
            assert(t[t.len() - (k - 1) - 1] == s[s.len() - k - 1]);
        }
        lemma_trail_len(t, set, k - 1);
    }
}

/// The index of the first character of `s` not in `set` (or its length).
fn lead_count(s: &[char], set: Strip) -> (n: usize)
    ensures
        n == lead_len(s@, set),
        n <= s@.len(),
{
    let mut i: usize = 0;
    while i < s.len() && strips_exec(set, s[i])
        invariant
            i <= s@.len(),
            forall|j: int| 0 <= j < i ==> strips(set, #[trigger] s@[j]),
        decreases s.len() - i,
    {
        i += 1;
    }
    proof {
        lemma_lead_len(s@, set, i as int);
    }
    i
}

/// How many characters at the end of `s` are in `set`.
fn trail_count(s: &[char], set: Strip) -> (n: usize)
    ensures
        n == trail_len(s@, set),
        n <= s@.len(),
{
    let mut k: usize = 0;
    while k < s.len() && strips_exec(set, s[s.len() - k - 1])
        invariant
            k <= s@.len(),
            forall|j: int| s@.len() - k <= j < s@.len() ==> strips(set, #[trigger] s@[j]),
        decreases s.len() - k,
    {
        k += 1;
    }
    proof {
        lemma_trail_len(s@, set, k as int);
    }
    k
}

/// `s` without the characters of `set` at its start.
pub fn trim_start_set(s: &[char], set: Strip) -> (r: Vec<char>)
    ensures
        r@ == trim_start_of(s@, set),
{
    let n = lead_count(s, set);
    slice_chars(s, n, s.len())
}

/// `s` without the characters of `set` at its end.
pub fn trim_end_set(s: &[char], set: Strip) -> (r: Vec<char>)
    ensures
        r@ == trim_end_of(s@, set),
{
    let n = trail_count(s, set);
    slice_chars(s, 0, s.len() - n)
}

/// `str::trim`: `s` without whitespace at either end.
pub fn trim(s: &[char]) -> (r: Vec<char>)
    ensures
        r@ == trimmed(s@),
{
    let front = trim_start_set(s, Strip::Whitespace);
    trim_end_set(&front, Strip::Whitespace)
}

// ---------------------------------------------------------------------------
// Searching
// ---------------------------------------------------------------------------

pub open spec fn is_first(s: Seq<char>, c: char, i: int) -> bool {
    &&& 0 <= i < s.len()
    &&& s[i] == c
    &&& forall|j: int| 0 <= j < i ==> s[j] != c
}

pub open spec fn is_last(s: Seq<char>, c: char, i: int) -> bool {
    &&& 0 <= i < s.len()
    &&& s[i] == c
    &&& forall|j: int| i < j < s.len() ==> s[j] != c
}

/// The index of the first `c` in `s`, if any.
pub open spec fn first_index(s: Seq<char>, c: char) -> Option<int> {
    if exists|i: int| is_first(s, c, i) {
        Some(choose|i: int| is_first(s, c, i))
    } else {
        None
    }
}

/// The index of the last `c` in `s`, if any.
pub open spec fn last_index(s: Seq<char>, c: char) -> Option<int> {
    if exists|i: int| is_last(s, c, i) {
        Some(choose|i: int| is_last(s, c, i))
    } else {
        None
    }
}

pub fn find_first(s: &[char], c: char) -> (r: Option<usize>)
    ensures
        match r {
            Some(i) => first_index(s@, c) == Some(i as int) && is_first(s@, c, i as int),
            None => first_index(s@, c) is None && forall|j: int| 0 <= j < s@.len() ==> s@[j] != c,
        },
{
    for i in 0..s.len()
        invariant
            forall|j: int| 0 <= j < i ==> s@[j] != c,
    {
        if s[i] == c {
            assert(is_first(s@, c, i as int));
            let ghost k = choose|k: int| is_first(s@, c, k);
            assert(k == i);
            return Some(i);
        }
    }
    None
}

pub fn find_last(s: &[char], c: char) -> (r: Option<usize>)
    ensures
        match r {
            Some(i) => last_index(s@, c) == Some(i as int) && is_last(s@, c, i as int),
            None => last_index(s@, c) is None,
        },
{
    let mut k: usize = s.len();
    while k > 0
        invariant
            k <= s@.len(),
            forall|j: int| k <= j < s@.len() ==> s@[j] != c,
        decreases k,
    {
        let i = k - 1;
        if s[i] == c {
            assert(is_last(s@, c, i as int));
            let ghost m = choose|m: int| is_last(s@, c, m);
            assert(m == i);
            return Some(i);
        }
        k = i;
    }
    None
}

// ---------------------------------------------------------------------------
// Decimal numbers
// ---------------------------------------------------------------------------

pub open spec fn digit_char(d: int) -> char {
    if d == 0 {
        '0'
    } else if d == 1 {
        '1'
    } else if d == 2 {
        '2'
    } else if d == 3 {
        '3'
    } else if d == 4 {
        '4'
    } else if d == 5 {
        '5'
    } else if d == 6 {
        '6'
    } else if d == 7 {
        '7'
    } else if d == 8 {
        '8'
    } else {
        '9'
    }
}

fn digit(d: u64) -> (c: char)
    requires
        d < 10,
    ensures
        c == digit_char(d as int),
{
    if d == 0 {
        '0'
    } else if d == 1 {
        '1'
    } else if d == 2 {
        '2'
    } else if d == 3 {
        '3'
    } else if d == 4 {
        '4'
    } else if d == 5 {
        '5'
    } else if d == 6 {
        '6'
    } else if d == 7 {
        '7'
    } else if d == 8 {
        '8'
    } else {
        '9'
    }
}

/// The decimal digits of `n` (`n.to_string()` for an unsigned integer).
pub open spec fn dec_nat(n: nat) -> Seq<char>
    decreases n,
{
    if n < 10 {
        seq![digit_char(n as int)]
    } else {
        dec_nat(n / 10).push(digit_char((n % 10) as int))
    }
}

/// `i.to_string()` for a signed integer.
pub open spec fn dec_int(i: int) -> Seq<char> {
    if i < 0 {
        seq!['-'] + dec_nat((-i) as nat)
    } else {
        dec_nat(i as nat)
    }
}

/// `format!("{:02}", i)`: at least two characters, zero-padded after the sign.
pub open spec fn dec_pad2(i: int) -> Seq<char> {
    if 0 <= i < 10 {
        seq!['0'] + dec_nat(i as nat)
    } else {
        dec_int(i)
    }
}

pub fn push_dec_u64(out: &mut Vec<char>, n: u64)
    ensures
        final(out)@ == old(out)@ + dec_nat(n as nat),
    decreases n,
{
    if n < 10 {
        out.push(digit(n));
        assert(out@ =~= old(out)@ + dec_nat(n as nat));
    } else {
        push_dec_u64(out, n / 10);
        out.push(digit(n % 10));
        assert(out@ =~= old(out)@ + dec_nat(n as nat));
    }
}

pub fn push_dec_i64(out: &mut Vec<char>, i: i64)
    ensures
        final(out)@ == old(out)@ + dec_int(i as int),
{
    if i < 0 {
        out.push('-');
        let magnitude: u64 = (0i128 - i as i128) as u64;
        push_dec_u64(out, magnitude);
        assert(out@ =~= old(out)@ + dec_int(i as int));
    } else {
        push_dec_u64(out, i as u64);
    }
}

pub fn push_pad2(out: &mut Vec<char>, i: i64)
    ensures
        final(out)@ == old(out)@ + dec_pad2(i as int),
{
    if 0 <= i && i < 10 {
        out.push('0');
        push_dec_u64(out, i as u64);
        assert(out@ =~= old(out)@ + dec_pad2(i as int));
    } else {
        push_dec_i64(out, i);
    }
}

pub open spec fn all_digits(s: Seq<char>) -> bool {
    forall|i: int| 0 <= i < s.len() ==> is_digit(#[trigger] s[i])
}

/// The value of a run of decimal digits.
pub open spec fn digits_value(s: Seq<char>) -> int
    decreases s.len(),
{
    if s.len() == 0 {
        0
    } else {
        digits_value(s.drop_last()) * 10 + (s.last() as int - '0' as int)
    }
}

/// `str::parse::<i64>`: an optional sign followed by at least one decimal
/// digit and nothing else, within the range of `i64`.
pub open spec fn parse_i64_spec(s: Seq<char>) -> Option<i64> {
    let negative = s.len() > 0 && s[0] == '-';
    let signed = s.len() > 0 && (s[0] == '-' || s[0] == '+');
    let body = if signed {
        s.skip(1)
    } else {
        s
    };
    let value = if negative {
        -digits_value(body)
    } else {
        digits_value(body)
    };
    if body.len() == 0 || !all_digits(body) || value < i64::MIN || value > i64::MAX {
        None
    } else {
        Some(value as i64)
    }
}

proof fn lemma_digits_value_grows(s: Seq<char>, k: int)
    requires
        all_digits(s),
        0 <= k <= s.len(),
    ensures
        0 <= digits_value(s.take(k)) <= digits_value(s),
    decreases s.len(),
{
    if s.len() > 0 {
        let t = s.drop_last();
        assert(all_digits(t)) by {
            assert forall|i: int| 0 <= i < t.len() implies is_digit(#[trigger] t[i]) by {
                assert(t[i] == s[i]);
            }
        }
        assert(is_digit(s.last()));
        if k == s.len() {
            assert(s.take(k) == s);
            lemma_digits_value_grows(t, t.len() as int);
            assert(t.take(t.len() as int) == t);
        } else {
            lemma_digits_value_grows(t, k);
            assert(t.take(k) == s.take(k));
            lemma_digits_value_grows(t, t.len() as int);
            assert(t.take(t.len() as int) == t);
        }
    }
}

pub fn parse_i64(s: &[char]) -> (r: Option<i64>)
    ensures
        r == parse_i64_spec(s@),
{
    let negative = s.len() > 0 && s[0] == '-';
    let signed = s.len() > 0 && (s[0] == '-' || s[0] == '+');
    let start: usize = if signed {
        1
    } else {
        0
    };
    let ghost body = if signed {
        s@.skip(1)
    } else {
        s@
    };
    if start == s.len() {
        return None;
    }
    let mut magnitude: i128 = 0;
    let mut i: usize = start;
    while i < s.len()
        invariant
            start <= i <= s@.len(),
            signed == (s@.len() > 0 && (s@[0] == '-' || s@[0] == '+')),
            negative == (s@.len() > 0 && s@[0] == '-'),
            start == (if signed {
                1usize
            } else {
                0usize
            }),
            body == (if signed {
                s@.skip(1)
            } else {
                s@
            }),
            body == s@.skip(start as int),
            body.len() > 0,
            all_digits(body.take(i - start)),
            magnitude == digits_value(body.take(i - start)),
            0 <= magnitude <= 0x8000_0000_0000_0000,
        decreases s.len() - i,
    {
        let c = s[i];
        assert(body[i - start] == c);
        if !('0' <= c && c <= '9') {
            assert(!all_digits(body));
            return None;
        }
        let d = (c as u32 - '0' as u32) as i128;
        let next = magnitude * 10 + d;
        assert(body.take(i - start + 1).drop_last() == body.take(i - start));
        assert(all_digits(body.take(i - start + 1))) by {
            let t = body.take(i - start + 1);
            assert forall|j: int| 0 <= j < t.len() implies is_digit(#[trigger] t[j]) by {
                if j < i - start {
                    assert(t[j] == body.take(i - start)[j]);
                }
            }
        }
        if next > 0x8000_0000_0000_0000 {
            proof {
                if all_digits(body) {
                    lemma_digits_value_grows(body, i - start + 1);
                }
            }
            return None;
        }
        magnitude = next;
        i += 1;
    }
    assert(body.take(i - start) == body);
    let value: i128 = if negative {
        -magnitude
    } else {
        magnitude
    };
    if value > 0x7FFF_FFFF_FFFF_FFFF {
        return None;
    }
    Some(value as i64)
}

proof fn lemma_digit_char(d: int)
    requires
        0 <= d < 10,
    ensures
        is_digit(digit_char(d)),
        digit_char(d) as int - '0' as int == d,
{
}

pub proof fn lemma_dec_nat_digits(n: nat)
    ensures
        dec_nat(n).len() > 0,
        all_digits(dec_nat(n)),
        digits_value(dec_nat(n)) == n,
    decreases n,
{
    lemma_digit_char((n % 10) as int);
    if n < 10 {
        lemma_digit_char(n as int);
        assert(dec_nat(n).drop_last() =~= Seq::<char>::empty());
        assert(digits_value(Seq::<char>::empty()) == 0);
        assert(digits_value(dec_nat(n)) == digits_value(dec_nat(n).drop_last()) * 10 + (
        dec_nat(n).last() as int - '0' as int));
    }
    if n >= 10 {
        lemma_dec_nat_digits(n / 10);
        let s = dec_nat(n);
        assert(s.drop_last() == dec_nat(n / 10));
        assert(s.last() == digit_char((n % 10) as int));
        assert(digits_value(s) == digits_value(dec_nat(n / 10)) * 10 + (n % 10) as int);
        assert(n == (n / 10) * 10 + n % 10);
        assert forall|i: int| 0 <= i < s.len() implies is_digit(#[trigger] s[i]) by {
            if i < s.len() - 1 {
                assert(s[i] == dec_nat(n / 10)[i]);
            }
        }
    }
}

/// Parsing what `to_string` wrote for an `i64` gives the number back.
pub proof fn lemma_parse_dec_int(v: i64)
    ensures
        parse_i64_spec(dec_int(v as int)) == Some(v),
{
    if v < 0 {
        let m = (-(v as int)) as nat;
        lemma_dec_nat_digits(m);
        let s = dec_int(v as int);
        assert(s.skip(1) == dec_nat(m));
    } else {
        lemma_dec_nat_digits(v as nat);
        let s = dec_nat(v as nat);
        assert(s[0] != '-' && s[0] != '+') by {
            assert(is_digit(s[0]));
        }
    }
}


pub proof fn lemma_first_is(s: Seq<char>, c: char, i: int)
    requires
        is_first(s, c, i),
    ensures
        first_index(s, c) == Some(i),
{
    let k = choose|k: int| is_first(s, c, k);
    assert(k == i);
}

pub proof fn lemma_last_is(s: Seq<char>, c: char, i: int)
    requires
        is_last(s, c, i),
    ensures
        last_index(s, c) == Some(i),
{
    let k = choose|k: int| is_last(s, c, k);
    assert(k == i);
}

/// The characters of a decimal number are digits or a minus sign.
pub proof fn lemma_dec_int_chars(v: int)
    ensures
        forall|i: int|
            0 <= i < dec_int(v).len() ==> is_digit(#[trigger] dec_int(v)[i]) || dec_int(v)[i]
                == '-',
{
    if v < 0 {
        lemma_dec_nat_digits((-v) as nat);
        let d = dec_nat((-v) as nat);
        assert forall|i: int| 0 <= i < dec_int(v).len() implies is_digit(
            #[trigger] dec_int(v)[i],
        ) || dec_int(v)[i] == '-' by {
            if i > 0 {
                assert(dec_int(v)[i] == d[i - 1]);
            }
        }
    } else {
        lemma_dec_nat_digits(v as nat);
    }
}

} // verus!
