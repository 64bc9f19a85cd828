//! Ordering by keys made of a string and a number, and picking from a list
//! each key once (by its first occurrence) in increasing key order: what a
//! stable sort followed by removing adjacent duplicates gives.
use vstd::prelude::*;

verus! {

// ---------------------------------------------------------------------------
// The order of strings
// ---------------------------------------------------------------------------

/// The order of strings: character by character by code point, a proper
/// prefix first (the order of their UTF-8 bytes).
pub open spec fn lex_lt(a: Seq<char>, b: Seq<char>) -> bool
    decreases a.len(),
{
    if a.len() == 0 {
        b.len() > 0
    } else if b.len() == 0 {
        false
    } else if a[0] != b[0] {
        a[0] < b[0]
    } else {
        lex_lt(a.drop_first(), b.drop_first())
    }
}

pub proof fn lemma_lex_irreflexive(a: Seq<char>)
    ensures
        !lex_lt(a, a),
    decreases a.len(),
{
    if a.len() > 0 {
        lemma_lex_irreflexive(a.drop_first());
    }
}

pub proof fn lemma_lex_total(a: Seq<char>, b: Seq<char>)
    ensures
        a == b || lex_lt(a, b) || lex_lt(b, a),
        !(lex_lt(a, b) && lex_lt(b, a)),
    decreases a.len(),
{
    if a.len() > 0 && b.len() > 0 {
        if a[0] == b[0] {
            lemma_lex_total(a.drop_first(), b.drop_first());
            if a.drop_first() == b.drop_first() {
                assert(a =~= seq![a[0]] + a.drop_first());
                assert(b =~= seq![b[0]] + b.drop_first());
            }
        }
    } else if a.len() == 0 && b.len() == 0 {
        assert(a =~= b);
    }
}

pub proof fn lemma_lex_transitive(a: Seq<char>, b: Seq<char>, c: Seq<char>)
    requires
        lex_lt(a, b),
        lex_lt(b, c),
    ensures
        lex_lt(a, c),
    decreases a.len(),
{
    if a.len() > 0 && b.len() > 0 && c.len() > 0 {
        if a[0] == b[0] && b[0] == c[0] {
            lemma_lex_transitive(a.drop_first(), b.drop_first(), c.drop_first());
        }
    }
}

/// Whether `a` comes before `b` in the order of strings.
pub fn key_less(a: &[char], b: &[char]) -> (r: bool)
    ensures
        r == lex_lt(a@, b@),
{
    let mut i: usize = 0;
    assert(a@.skip(0) =~= a@);
    assert(b@.skip(0) =~= b@);
    while i < a.len() && i < b.len() && a[i] == b[i]
        invariant
            i <= a@.len(),
            i <= b@.len(),
            lex_lt(a@.skip(i as int), b@.skip(i as int)) == lex_lt(a@, b@),
        decreases a.len() - i,
    {
        assert(a@.skip(i as int).drop_first() =~= a@.skip(i + 1));
        assert(b@.skip(i as int).drop_first() =~= b@.skip(i + 1));
        i = i + 1;
    }
    if i == a.len() {
        i < b.len()
    } else if i == b.len() {
        false
    } else {
        assert(a@.skip(i as int)[0] == a@[i as int]);
        assert(b@.skip(i as int)[0] == b@[i as int]);
        a[i] < b[i]
    }
}

// ---------------------------------------------------------------------------
// Keys of a string and a number
// ---------------------------------------------------------------------------

/// The order of (string, number) keys: by string, then by number.
pub open spec fn key_lt(a: (Seq<char>, i64), b: (Seq<char>, i64)) -> bool {
    lex_lt(a.0, b.0) || (a.0 == b.0 && a.1 < b.1)
}

pub proof fn lemma_key_irreflexive(a: (Seq<char>, i64))
    ensures
        !key_lt(a, a),
{
    lemma_lex_irreflexive(a.0);
}

pub proof fn lemma_key_total(a: (Seq<char>, i64), b: (Seq<char>, i64))
    ensures
        a == b || key_lt(a, b) || key_lt(b, a),
        !(key_lt(a, b) && key_lt(b, a)),
{
    lemma_lex_total(a.0, b.0);
    lemma_lex_irreflexive(a.0);
}

pub proof fn lemma_key_transitive(a: (Seq<char>, i64), b: (Seq<char>, i64), c: (Seq<char>, i64))
    requires
        key_lt(a, b),
        key_lt(b, c),
    ensures
        key_lt(a, c),
{
    if lex_lt(a.0, b.0) && lex_lt(b.0, c.0) {
        lemma_lex_transitive(a.0, b.0, c.0);
    }
}

/// Whether key `a` comes before key `b`.
pub fn pair_less(a: &Vec<char>, a_n: i64, b: &Vec<char>, b_n: i64) -> (r: bool)
    ensures
        r == key_lt((a@, a_n), (b@, b_n)),
{
    if key_less(a, b) {
        return true;
    }
    crate::text::same_chars(a, b) && a_n < b_n
}

// ---------------------------------------------------------------------------
// Picking each key once, in order
// ---------------------------------------------------------------------------

/// Every pick is a wanted index before `upto`.
#[verifier::opaque]
pub open spec fn picks_wanted(wanted: Seq<bool>, sel: Seq<usize>, upto: int) -> bool {
    forall|a: int|
        0 <= a < sel.len() ==> (#[trigger] sel[a]) < upto && sel[a] < wanted.len() && wanted[sel[a]
            as int]
}

/// The keys of the picks strictly increase.
#[verifier::opaque]
pub open spec fn picks_sorted(keys: Seq<(Seq<char>, i64)>, sel: Seq<usize>) -> bool {
    forall|a: int, b: int|
        0 <= a < b < sel.len() ==> key_lt(keys[#[trigger] sel[a] as int], keys[#[trigger] sel[b] as int])
}

/// Every wanted index before `upto` has its key among the picks.
#[verifier::opaque]
pub open spec fn picks_cover(
    keys: Seq<(Seq<char>, i64)>,
    wanted: Seq<bool>,
    sel: Seq<usize>,
    upto: int,
) -> bool {
    forall|j: int|
        0 <= j < upto && wanted[j] ==> exists|a: int|
            0 <= a < sel.len() && keys[#[trigger] sel[a] as int] == keys[j]
}

/// Each pick is the first wanted index with its key.
#[verifier::opaque]
pub open spec fn picks_first(keys: Seq<(Seq<char>, i64)>, wanted: Seq<bool>, sel: Seq<usize>) -> bool {
    forall|a: int, j: int|
        #![trigger sel[a], keys[j]]
        0 <= a < sel.len() && 0 <= j < sel[a] && wanted[j] ==> keys[j] != keys[sel[a] as int]
}

/// `sel` picks, among the wanted indices before `upto`, each key once by its
/// first index, in increasing key order.
pub open spec fn is_selection(
    keys: Seq<(Seq<char>, i64)>,
    wanted: Seq<bool>,
    sel: Seq<usize>,
    upto: int,
) -> bool {
    &&& picks_wanted(wanted, sel, upto)
    &&& picks_sorted(keys, sel)
    &&& picks_cover(keys, wanted, sel, upto)
    &&& picks_first(keys, wanted, sel)
}

pub proof fn lemma_selection_empty(keys: Seq<(Seq<char>, i64)>, wanted: Seq<bool>)
    ensures
        is_selection(keys, wanted, Seq::empty(), 0),
{
    reveal(picks_wanted);
    reveal(picks_sorted);
    reveal(picks_cover);
    reveal(picks_first);
}

proof fn lemma_wanted_grows(wanted: Seq<bool>, sel: Seq<usize>, i: int)
    requires
        picks_wanted(wanted, sel, i),
    ensures
        picks_wanted(wanted, sel, i + 1),
{
    reveal(picks_wanted);
}

/// An index that is not wanted changes nothing.
pub proof fn lemma_selection_skip(
    keys: Seq<(Seq<char>, i64)>,
    wanted: Seq<bool>,
    sel: Seq<usize>,
    i: int,
)
    requires
        0 <= i,
        i < wanted.len(),
        !wanted[i],
        is_selection(keys, wanted, sel, i),
    ensures
        is_selection(keys, wanted, sel, i + 1),
{
    lemma_wanted_grows(wanted, sel, i);
    reveal(picks_cover);
}

proof fn lemma_cover_dup(
    keys: Seq<(Seq<char>, i64)>,
    wanted: Seq<bool>,
    sel: Seq<usize>,
    p: int,
    i: int,
)
    requires
        0 <= p < sel.len(),
        keys[sel[p] as int] == keys[i],
        picks_cover(keys, wanted, sel, i),
    ensures
        picks_cover(keys, wanted, sel, i + 1),
{
    reveal(picks_cover);
    assert forall|j: int| 0 <= j < i + 1 && wanted[j] implies exists|a: int|
        0 <= a < sel.len() && keys[#[trigger] sel[a] as int] == keys[j] by {
        if j == i {
            assert(keys[sel[p] as int] == keys[j]);
        }
    }
}

proof fn lemma_insert_wanted(wanted: Seq<bool>, sel: Seq<usize>, p: int, i: usize)
    requires
        0 <= p <= sel.len(),
        i < wanted.len(),
        wanted[i as int],
        picks_wanted(wanted, sel, i as int),
    ensures
        picks_wanted(wanted, sel.insert(p, i), i + 1),
{
    reveal(picks_wanted);
    let s = sel.insert(p, i);
    assert forall|a: int| 0 <= a < s.len() implies (#[trigger] s[a]) < i + 1 && s[a] < wanted.len()
        && wanted[s[a] as int] by {
        if a < p {
            assert(s[a] == sel[a]);
        } else if a > p {
            assert(s[a] == sel[a - 1]);
        }
    }
}

proof fn lemma_insert_sorted(
    keys: Seq<(Seq<char>, i64)>,
    sel: Seq<usize>,
    key: (Seq<char>, i64),
    p: int,
    i: usize,
)
    requires
        0 <= p <= sel.len(),
        i < keys.len(),
        key == keys[i as int],
        picks_sorted(keys, sel),
        forall|a: int| 0 <= a < p ==> key_lt(keys[#[trigger] sel[a] as int], key),
        forall|a: int| p <= a < sel.len() ==> key_lt(key, keys[#[trigger] sel[a] as int]),
    ensures
        picks_sorted(keys, sel.insert(p, i)),
{
    reveal(picks_sorted);
    let s = sel.insert(p, i);
    assert forall|a: int, b: int| 0 <= a < b < s.len() implies key_lt(
        keys[#[trigger] s[a] as int],
        keys[#[trigger] s[b] as int],
    ) by {
        if b < p {
            assert(s[a] == sel[a] && s[b] == sel[b]);
        } else if b == p {
            assert(s[a] == sel[a]);
        } else if a < p {
            assert(s[a] == sel[a] && s[b] == sel[b - 1]);
            assert(key_lt(keys[sel[a] as int], key));
            assert(key_lt(key, keys[sel[b - 1] as int]));
            lemma_key_transitive(keys[sel[a] as int], key, keys[sel[b - 1] as int]);
        } else if a == p {
            assert(s[b] == sel[b - 1]);
        } else {
            assert(s[a] == sel[a - 1] && s[b] == sel[b - 1]);
        }
    }
}

proof fn lemma_insert_cover(
    keys: Seq<(Seq<char>, i64)>,
    wanted: Seq<bool>,
    sel: Seq<usize>,
    p: int,
    i: usize,
)
    requires
        0 <= p <= sel.len(),
        picks_cover(keys, wanted, sel, i as int),
    ensures
        picks_cover(keys, wanted, sel.insert(p, i), i + 1),
{
    reveal(picks_cover);
    let s = sel.insert(p, i);
    assert forall|j: int| 0 <= j < i + 1 && wanted[j] implies exists|a: int|
        0 <= a < s.len() && keys[#[trigger] s[a] as int] == keys[j] by {
        if j == i {
            assert(s[p] == i);
        } else {
            let a0 = choose|a0: int| 0 <= a0 < sel.len() && keys[#[trigger] sel[a0] as int] == keys[j];
            if a0 < p {
                assert(s[a0] == sel[a0]);
            } else {
                assert(s[a0 + 1] == sel[a0]);
            }
        }
    }
}

proof fn lemma_insert_first(
    keys: Seq<(Seq<char>, i64)>,
    wanted: Seq<bool>,
    sel: Seq<usize>,
    key: (Seq<char>, i64),
    p: int,
    i: usize,
)
    requires
        0 <= p <= sel.len(),
        i < keys.len(),
        key == keys[i as int],
        picks_first(keys, wanted, sel),
        picks_cover(keys, wanted, sel, i as int),
        forall|a: int| 0 <= a < p ==> key_lt(keys[#[trigger] sel[a] as int], key),
        forall|a: int| p <= a < sel.len() ==> key_lt(key, keys[#[trigger] sel[a] as int]),
    ensures
        picks_first(keys, wanted, sel.insert(p, i)),
{
    reveal(picks_first);
    reveal(picks_cover);
    let s = sel.insert(p, i);
    assert forall|a: int, j: int|
        #![trigger s[a], keys[j]]
        0 <= a < s.len() && 0 <= j < s[a] && wanted[j] implies keys[j] != keys[s[a] as int] by {
        if a == p {
            if keys[j] == key {
                let a0 = choose|a0: int| 0 <= a0 < sel.len() && keys[#[trigger] sel[a0] as int] == keys[j];
                lemma_key_irreflexive(key);
                if a0 < p {
                    assert(key_lt(keys[sel[a0] as int], key));
                } else {
                    assert(key_lt(key, keys[sel[a0] as int]));
                }
            }
        } else if a < p {
            assert(s[a] == sel[a]);
        } else {
            assert(s[a] == sel[a - 1]);
        }
    }
}

proof fn lemma_after(
    keys: Seq<(Seq<char>, i64)>,
    sel: Seq<usize>,
    key: (Seq<char>, i64),
    p: int,
)
    requires
        0 <= p <= sel.len(),
        picks_sorted(keys, sel),
        p < sel.len() ==> !key_lt(keys[sel[p] as int], key) && keys[sel[p] as int] != key,
    ensures
        forall|a: int| p <= a < sel.len() ==> key_lt(key, keys[#[trigger] sel[a] as int]),
{
    reveal(picks_sorted);
    assert forall|a: int| p <= a < sel.len() implies key_lt(key, keys[#[trigger] sel[a] as int]) by {
        lemma_key_total(keys[sel[p] as int], key);
        if a > p {
            assert(key_lt(keys[sel[p] as int], keys[sel[a] as int]));
            lemma_key_transitive(key, keys[sel[p] as int], keys[sel[a] as int]);
        }
    }
}

/// Adds the wanted index `i`, whose key is (`text`, `n`), to the picks unless
/// its key is there already; `sel_keys` holds the key of each pick.
pub fn pick(
    sel: &mut Vec<usize>,
    sel_keys: &mut Vec<(Vec<char>, i64)>,
    text: Vec<char>,
    n: i64,
    i: usize,
    Ghost(keys): Ghost<Seq<(Seq<char>, i64)>>,
    Ghost(wanted): Ghost<Seq<bool>>,
)
    requires
        i < keys.len(),
        i < wanted.len(),
        wanted[i as int],
        keys[i as int] == (text@, n),
        old(sel_keys)@.len() == old(sel)@.len(),
        forall|a: int|
            0 <= a < old(sel_keys)@.len() ==> ((#[trigger] old(sel_keys)@[a]).0@,
                old(sel_keys)@[a].1) == keys[old(sel)@[a] as int],
        is_selection(keys, wanted, old(sel)@, i as int),
    ensures
        is_selection(keys, wanted, final(sel)@, i + 1),
        final(sel_keys)@.len() == final(sel)@.len(),
        forall|a: int|
            0 <= a < final(sel_keys)@.len() ==> ((#[trigger] final(sel_keys)@[a]).0@,
                final(sel_keys)@[a].1) == keys[final(sel)@[a] as int],
        final(sel)@.len() <= old(sel)@.len() + 1,
{
    let ghost key = (text@, n);
    let ghost old_sel = sel@;
    let mut p: usize = 0;
    while p < sel.len() && pair_less(&sel_keys[p].0, sel_keys[p].1, &text, n)
        invariant
            p <= sel@.len(),
            sel@ == old_sel,
            sel_keys@.len() == sel@.len(),
            key == (text@, n),
            forall|a: int|
                0 <= a < sel_keys@.len() ==> ((#[trigger] sel_keys@[a]).0@, sel_keys@[a].1)
                    == keys[sel@[a] as int],
            forall|a: int| 0 <= a < p ==> key_lt(keys[#[trigger] sel@[a] as int], key),
        decreases sel.len() - p,
    {
        p = p + 1;
    }
    if p < sel.len() && sel_keys[p].1 == n && crate::text::same_chars(&sel_keys[p].0, &text) {
        proof {
            lemma_wanted_grows(wanted, sel@, i as int);
            lemma_cover_dup(keys, wanted, sel@, p as int, i as int);
        }
        return;
    }
    proof {
        if p < sel@.len() {
            assert(keys[sel@[p as int] as int] == (sel_keys@[p as int].0@, sel_keys@[p as int].1));
        }
        lemma_after(keys, old_sel, key, p as int);
        lemma_insert_wanted(wanted, old_sel, p as int, i);
        lemma_insert_sorted(keys, old_sel, key, p as int, i);
        lemma_insert_cover(keys, wanted, old_sel, p as int, i);
        lemma_insert_first(keys, wanted, old_sel, key, p as int, i);
    }
    let ghost old_keys = sel_keys@;
    sel.insert(p, i);
    sel_keys.insert(p, (text, n));
    assert forall|a: int| 0 <= a < sel_keys@.len() implies ((#[trigger] sel_keys@[a]).0@,
        sel_keys@[a].1) == keys[sel@[a] as int] by {
        if a < p {
            assert(sel_keys@[a] == old_keys[a] && sel@[a] == old_sel[a]);
        } else if a > p {
            assert(sel_keys@[a] == old_keys[a - 1] && sel@[a] == old_sel[a - 1]);
        }
    }
}

} // verus!
