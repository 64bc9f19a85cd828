//! The genres of the catalog and the tracks linked to them.
//!
//! A genre is known by its lower-case key, so names that differ only in case
//! are one genre, under the name it was first stored with. A genre that no
//! track links to any more is dropped.
use vstd::prelude::*;
use crate::catalog::{genre_links, genre_links_spec};

verus! {

/// A stored genre.
#[derive(Debug, Clone, PartialEq, Eq)]
pub struct Genre {
    pub id: i64,
    pub name: String,
    pub key: String,
}

/// A track's link to a genre, at the place the genre had in the track's list.
#[derive(Debug, Clone, Copy, PartialEq, Eq, Structural)]
pub struct GenreLink {
    pub track_id: i64,
    pub genre_id: i64,
    pub position: i64,
}

/// The genres and the links of the tracks to them.
pub struct GenreTable {
    genres: Vec<Genre>,
    links: Vec<GenreLink>,
}

/// A genre as contracts see it: id, name, key.
pub open spec fn genre_view(g: Genre) -> (i64, Seq<char>, Seq<char>) {
    (g.id, g.name@, g.key@)
}

pub open spec fn genre_views(gs: Seq<Genre>) -> Seq<(i64, Seq<char>, Seq<char>)> {
    gs.map_values(|g: Genre| genre_view(g))
}

pub open spec fn ids_ascending(gs: Seq<(i64, Seq<char>, Seq<char>)>) -> bool {
    forall|i: int, j: int| 0 <= i < j < gs.len() ==> gs[i].0 < gs[j].0
}

pub open spec fn keys_distinct(gs: Seq<(i64, Seq<char>, Seq<char>)>) -> bool {
    forall|i: int, j: int| 0 <= i < j < gs.len() ==> gs[i].2 != gs[j].2
}

pub open spec fn links_distinct(ls: Seq<GenreLink>) -> bool {
    forall|i: int, j: int|
        0 <= i < j < ls.len() ==> !(ls[i].track_id == ls[j].track_id && ls[i].genre_id
            == ls[j].genre_id)
}

/// Where the genre with this key is, if there is one.
pub open spec fn key_index(gs: Seq<(i64, Seq<char>, Seq<char>)>, key: Seq<char>) -> Option<int> {
    if exists|i: int| 0 <= i < gs.len() && gs[i].2 == key {
        Some(choose|i: int| 0 <= i < gs.len() && gs[i].2 == key)
    } else {
        None
    }
}

pub open spec fn is_linked(ls: Seq<GenreLink>, track_id: i64, genre_id: i64) -> bool {
    exists|i: int| 0 <= i < ls.len() && ls[i].track_id == track_id && ls[i].genre_id == genre_id
}

/// The id a new genre gets: one past the newest.
pub open spec fn next_genre_id(gs: Seq<(i64, Seq<char>, Seq<char>)>) -> int {
    if gs.len() == 0 {
        1
    } else {
        gs.last().0 + 1
    }
}

/// One genre of a track's list taken in: the genre is stored under its key
/// unless a genre with that key exists, and the track is linked to it unless
/// it is already.
pub open spec fn take_in(
    state: (Seq<(i64, Seq<char>, Seq<char>)>, Seq<GenreLink>),
    track_id: i64,
    entry: (Seq<char>, Seq<char>, int),
) -> (Seq<(i64, Seq<char>, Seq<char>)>, Seq<GenreLink>) {
    let (gs, ls) = state;
    let (name, key, position) = entry;
    let gs2 = match key_index(gs, key) {
        Some(_) => gs,
        None => gs.push((next_genre_id(gs) as i64, name, key)),
    };
    let gid = gs2[key_index(gs2, key)->0].0;
    let ls2 = if is_linked(ls, track_id, gid) {
        ls
    } else {
        ls.push(GenreLink { track_id, genre_id: gid, position: position as i64 })
    };
    (gs2, ls2)
}

/// The entries of a track's list taken in one after the other.
pub open spec fn take_in_all(
    state: (Seq<(i64, Seq<char>, Seq<char>)>, Seq<GenreLink>),
    track_id: i64,
    entries: Seq<(Seq<char>, Seq<char>, int)>,
) -> (Seq<(i64, Seq<char>, Seq<char>)>, Seq<GenreLink>)
    decreases entries.len(),
{
    if entries.len() == 0 {
        state
    } else {
        take_in(take_in_all(state, track_id, entries.drop_last()), track_id, entries.last())
    }
}

/// The links of every track but `track_id`, in order.
pub open spec fn links_of_others(ls: Seq<GenreLink>, track_id: i64) -> Seq<GenreLink>
    decreases ls.len(),
{
    if ls.len() == 0 {
        seq![]
    } else {
        let rest = links_of_others(ls.drop_last(), track_id);
        if ls.last().track_id != track_id {
            rest.push(ls.last())
        } else {
            rest
        }
    }
}

/// The genres some link refers to, in order.
pub open spec fn linked_genres(gs: Seq<(i64, Seq<char>, Seq<char>)>, ls: Seq<GenreLink>) -> Seq<
    (i64, Seq<char>, Seq<char>),
>
    decreases gs.len(),
{
    if gs.len() == 0 {
        seq![]
    } else {
        let rest = linked_genres(gs.drop_last(), ls);
        if exists|i: int| 0 <= i < ls.len() && ls[i].genre_id == gs.last().0 {
            rest.push(gs.last())
        } else {
            rest
        }
    }
}

/// The table after the genres of `track_id` are set to `names`: the track's
/// old links go, its genres (see `genre_links_spec`) are taken in, and the
/// genres nothing links to any more are dropped.
pub open spec fn genres_set(
    gs: Seq<(i64, Seq<char>, Seq<char>)>,
    ls: Seq<GenreLink>,
    track_id: i64,
    names: Seq<Seq<char>>,
) -> (Seq<(i64, Seq<char>, Seq<char>)>, Seq<GenreLink>) {
    let taken = take_in_all((gs, links_of_others(ls, track_id)), track_id, genre_links_spec(names));
    (linked_genres(taken.0, taken.1), taken.1)
}


proof fn lemma_links_of_others(ls: Seq<GenreLink>, track_id: i64)
    ensures
        forall|i: int| 0 <= i < links_of_others(ls, track_id).len() ==> exists|j: int|
            0 <= j < ls.len() && #[trigger] links_of_others(ls, track_id)[i] == ls[j]
                && ls[j].track_id != track_id,
        links_distinct(ls) ==> links_distinct(links_of_others(ls, track_id)),
    decreases ls.len(),
{
    if ls.len() > 0 {
        let rest = links_of_others(ls.drop_last(), track_id);
        lemma_links_of_others(ls.drop_last(), track_id);
        let r = links_of_others(ls, track_id);
        assert forall|i: int| 0 <= i < r.len() implies exists|j: int|
            0 <= j < ls.len() && #[trigger] r[i] == ls[j] && ls[j].track_id != track_id by {
            if i < rest.len() {
                let j = choose|j: int|
                    0 <= j < ls.drop_last().len() && rest[i] == ls.drop_last()[j]
                        && ls.drop_last()[j].track_id != track_id;
                assert(r[i] == ls[j]);
            } else {
                assert(r[i] == ls[ls.len() - 1]);
            }
        }
        if links_distinct(ls) {
            assert(links_distinct(ls.drop_last()));
            assert forall|a: int, b: int| 0 <= a < b < r.len() implies !(r[a].track_id == r[b].track_id && r[a].genre_id == r[b].genre_id) by {
                if b == rest.len() && r.len() > rest.len() {
                    let j = choose|j: int|
                        0 <= j < ls.drop_last().len() && rest[a] == ls.drop_last()[j]
                            && ls.drop_last()[j].track_id != track_id;
                    assert(r[a] == ls[j]);
                    assert(r[b] == ls[ls.len() - 1]);
                }
            }
        }
    }
}

proof fn lemma_linked_genres(gs: Seq<(i64, Seq<char>, Seq<char>)>, ls: Seq<GenreLink>)
    ensures
        forall|i: int| 0 <= i < linked_genres(gs, ls).len() ==> gs.contains(#[trigger] linked_genres(gs, ls)[i]),
        ids_ascending(gs) ==> ids_ascending(linked_genres(gs, ls)),
        keys_distinct(gs) ==> keys_distinct(linked_genres(gs, ls)),
    decreases gs.len(),
{
    if gs.len() > 0 {
        let front = gs.drop_last();
        let rest = linked_genres(front, ls);
        lemma_linked_genres(front, ls);
        let r = linked_genres(gs, ls);
        assert forall|i: int| 0 <= i < r.len() implies gs.contains(#[trigger] r[i]) by {
            if i < rest.len() {
                assert(front.contains(rest[i]));
                let j = choose|j: int| 0 <= j < front.len() && front[j] == rest[i];
                assert(r[i] == gs[j]);
            } else {
                assert(r[i] == gs[gs.len() - 1]);
            }
        }
        if ids_ascending(gs) {
            assert(ids_ascending(front));
            assert forall|a: int, b: int| 0 <= a < b < r.len() implies r[a].0 < r[b].0 by {
                if b == rest.len() && r.len() > rest.len() {
                    assert(front.contains(rest[a]));
                    let j = choose|j: int| 0 <= j < front.len() && front[j] == rest[a];
                    assert(r[a] == gs[j]);
                }
            }
        }
        if keys_distinct(gs) {
            assert(keys_distinct(front));
            assert forall|a: int, b: int| 0 <= a < b < r.len() implies r[a].2 != r[b].2 by {
                if b == rest.len() && r.len() > rest.len() {
                    assert(front.contains(rest[a]));
                    let j = choose|j: int| 0 <= j < front.len() && front[j] == rest[a];
                    assert(r[a] == gs[j]);
                }
            }
        }
    }
}

proof fn lemma_genre_links_len(names: Seq<Seq<char>>)
    ensures
        genre_links_spec(names).len() <= names.len(),
    decreases names.len(),
{
    if names.len() > 0 {
        lemma_genre_links_len(names.drop_last());
    }
}

fn find_key(genres: &Vec<Genre>, key: &String) -> (r: Option<usize>)
    requires
        keys_distinct(genre_views(genres@)),
    ensures
        match r {
            Some(i) => i < genres@.len() && key_index(genre_views(genres@), key@) == Some(i as int),
            None => key_index(genre_views(genres@), key@) is None,
        },
{
    let ghost gv = genre_views(genres@);
    for k in 0..genres.len()
        invariant
            gv == genre_views(genres@),
            keys_distinct(gv),
            forall|j: int| 0 <= j < k ==> gv[j].2 != key@,
    {
        if genres[k].key == *key {
            proof {
                assert(gv[k as int].2 == key@);
                let c = choose|i: int| 0 <= i < gv.len() && gv[i].2 == key@;
                if c != k as int {
                    if c < k {
                    } else {
                        assert(gv[k as int].2 != gv[c].2);
                    }
                }
            }
            return Some(k);
        }
    }
    None
}

fn find_link(links: &Vec<GenreLink>, track_id: i64, genre_id: i64) -> (r: bool)
    ensures
        r == is_linked(links@, track_id, genre_id),
{
    for k in 0..links.len()
        invariant
            forall|j: int| 0 <= j < k ==> !(links@[j].track_id == track_id && links@[j].genre_id == genre_id),
    {
        if links[k].track_id == track_id && links[k].genre_id == genre_id {
            return true;
        }
    }
    false
}

fn genres_in_order(gs: &Vec<Genre>) -> (r: bool)
    ensures
        r == (ids_ascending(genre_views(gs@)) && keys_distinct(genre_views(gs@))),
{
    let ghost gv = genre_views(gs@);
    let n = gs.len();
    for k in 0..n
        invariant
            n == gs@.len(),
            gv == genre_views(gs@),
            ids_ascending(gv.take(k as int)),
            keys_distinct(gv.take(k as int)),
    {
        if k > 0 && gs[k - 1].id >= gs[k].id {
            proof {
                assert(!ids_ascending(gv)) by {
                    assert(gv[k - 1].0 >= gv[k as int].0);
                }
            }
            return false;
        }
        for j in 0..k
            invariant
                n == gs@.len(),
                gv == genre_views(gs@),
                j <= k < n,
                forall|i: int| 0 <= i < j ==> gv[i].2 != gv[k as int].2,
        {
            if gs[j].key == gs[k].key {
                proof {
                    assert(!keys_distinct(gv)) by {
                        assert(gv[j as int].2 == gv[k as int].2);
                    }
                }
                return false;
            }
        }
        proof {
            let t = gv.take(k + 1);
            assert forall|a: int, b: int| 0 <= a < b < t.len() implies t[a].0 < t[b].0 && t[a].2 != t[b].2 by {
                if b < k {
                    assert(gv.take(k as int)[a] == t[a]);
                    assert(gv.take(k as int)[b] == t[b]);
                } else if a < k - 1 {
                    assert(gv.take(k as int)[a] == t[a]);
                    assert(gv.take(k as int)[k - 1] == t[k - 1]);
                }
            }
        }
    }
    proof {
        assert(gv.take(n as int) == gv);
    }
    true
}

fn links_unique(ls: &Vec<GenreLink>) -> (r: bool)
    ensures
        r == links_distinct(ls@),
{
    let n = ls.len();
    for k in 0..n
        invariant
            n == ls@.len(),
            links_distinct(ls@.take(k as int)),
    {
        for j in 0..k
            invariant
                n == ls@.len(),
                j <= k < n,
                forall|i: int| 0 <= i < j ==> !(ls@[i].track_id == ls@[k as int].track_id && ls@[i].genre_id == ls@[k as int].genre_id),
        {
            if ls[j].track_id == ls[k].track_id && ls[j].genre_id == ls[k].genre_id {
                proof {
                    assert(!links_distinct(ls@)) by {
                        assert(ls@[j as int].track_id == ls@[k as int].track_id);
                    }
                }
                return false;
            }
        }
        proof {
            let t = ls@.take(k + 1);
            assert forall|a: int, b: int| 0 <= a < b < t.len() implies !(t[a].track_id == t[b].track_id && t[a].genre_id == t[b].genre_id) by {
                if b < k {
                    assert(ls@.take(k as int)[a] == t[a]);
                    assert(ls@.take(k as int)[b] == t[b]);
                }
            }
        }
    }
    proof {
        assert(ls@.take(n as int) == ls@);
    }
    true
}

impl GenreTable {
    /// The genres, as id, name and key, in id order.
    pub closed spec fn genres_view(&self) -> Seq<(i64, Seq<char>, Seq<char>)> {
        genre_views(self.genres@)
    }

    /// The links of the tracks to the genres.
    pub closed spec fn links_view(&self) -> Seq<GenreLink> {
        self.links@
    }

    pub open spec fn wf(&self) -> bool {
        &&& ids_ascending(self.genres_view())
        &&& keys_distinct(self.genres_view())
        &&& links_distinct(self.links_view())
    }

    /// A table with no genres.
    pub fn new() -> (r: Self)
        ensures
            r.wf(),
            r.genres_view().len() == 0,
            r.links_view().len() == 0,
    {
        GenreTable { genres: Vec::new(), links: Vec::new() }
    }

    /// A table over stored rows, or `None` where the genres are out of id
    /// order, two share a key, or a track is linked to one genre twice.
    pub fn from_rows(genres: Vec<Genre>, links: Vec<GenreLink>) -> (r: Option<Self>)
        ensures
            r is Some <==> (ids_ascending(genre_views(genres@)) && keys_distinct(genre_views(genres@))
                && links_distinct(links@)),
            r matches Some(t) ==> t.wf() && t.genres_view() == genre_views(genres@) && t.links_view() == links@,
    {
        if genres_in_order(&genres) && links_unique(&links) {
            Some(GenreTable { genres, links })
        } else {
            None
        }
    }

    /// The genres, in id order.
    pub fn genres(&self) -> (r: &Vec<Genre>)
        ensures
            genre_views(r@) == self.genres_view(),
    {
        &self.genres
    }

    /// The links of the tracks to the genres.
    pub fn links(&self) -> (r: &Vec<GenreLink>)
        ensures
            r@ == self.links_view(),
    {
        &self.links
    }

    /// Sets the genres of `track_id` to `names` (see `genres_set`): the
    /// links of every other track, and every genre they use, stay.
    pub fn set_track_genres(&mut self, track_id: i64, names: &[String])
        requires
            old(self).wf(),
            names@.len() <= i64::MAX,
            next_genre_id(old(self).genres_view()) + names@.len() <= i64::MAX,
        ensures
            final(self).wf(),
            (final(self).genres_view(), final(self).links_view()) == genres_set(
                old(self).genres_view(),
                old(self).links_view(),
                track_id,
                names@.map_values(|g: String| g@),
            ),
    {
        let ghost g0 = genre_views(self.genres@);
        let ghost l0 = self.links@;
        let ghost views = names@.map_values(|g: String| g@);
        // the track's old links go
        let mut links: Vec<GenreLink> = Vec::new();
        for i in 0..self.links.len()
            invariant
                l0 == self.links@,
                links@ == links_of_others(l0.take(i as int), track_id),
        {
            proof {
                assert(l0.take(i + 1).drop_last() == l0.take(i as int));
                assert(l0.take(i + 1).last() == l0[i as int]);
            }
            if self.links[i].track_id != track_id {
                links.push(self.links[i]);
            }
        }
        proof {
            assert(l0.take(l0.len() as int) == l0);
            lemma_links_of_others(l0, track_id);
            lemma_genre_links_len(views);
        }
        // the new ones come in
        let entries = genre_links(names);
        let ghost ev = genre_links_spec(views);
        let mut genres: Vec<Genre> = Vec::new();
        std::mem::swap(&mut genres, &mut self.genres);
        proof {
            assert(crate::catalog::link_views(entries@) == ev);
            assert(ev.take(0) == Seq::<(Seq<char>, Seq<char>, int)>::empty());
        }
        for k in 0..entries.len()
            invariant
                crate::catalog::link_views(entries@) == ev,
                ev.len() <= names@.len(),
                next_genre_id(g0) + names@.len() <= i64::MAX,
                ids_ascending(genre_views(genres@)),
                keys_distinct(genre_views(genres@)),
                links_distinct(links@),
                next_genre_id(genre_views(genres@)) <= next_genre_id(g0) + k,
                (genre_views(genres@), links@) == take_in_all((g0, links_of_others(l0, track_id)), track_id, ev.take(k as int)),
        {
            let ghost gv = genre_views(genres@);
            let ghost lv = links@;
            let ghost e = ev[k as int];
            proof {
                assert(ev.take(k + 1).drop_last() == ev.take(k as int));
                assert(ev.take(k + 1).last() == e);
                assert(e == (entries@[k as int].0@, entries@[k as int].1@, entries@[k as int].2 as int));
            }
            let idx = match find_key(&genres, &entries[k].1) {
                Some(i) => i,
                None => {
                    let n = genres.len();
                    let id: i64 = if n == 0 { 1 } else { genres[n - 1].id + 1 };
                    genres.push(Genre { id, name: entries[k].0.clone(), key: entries[k].1.clone() });
                    proof {
                        let gv2 = genre_views(genres@);
                        assert(gv2 == gv.push((id, e.0, e.1)));
                        assert(gv2[n as int].2 == e.1);
                        let c = choose|i: int| 0 <= i < gv2.len() && gv2[i].2 == e.1;
                        if c != n as int {
                            assert(gv2[c] == gv[c]);
                        }
                        assert(key_index(gv2, e.1) == Some(n as int));
                        assert forall|a: int, b: int| 0 <= a < b < gv2.len() implies gv2[a].0 < gv2[b].0 && gv2[a].2 != gv2[b].2 by {
                            if b == n {
                                assert(gv2[a] == gv[a]);
                                if a < n - 1 {
                                    assert(gv[a].0 < gv[n - 1].0);
                                }
                            }
                        }
                    }
                    n
                },
            };
            let gid = genres[idx].id;
            if !find_link(&links, track_id, gid) {
                links.push(GenreLink { track_id, genre_id: gid, position: entries[k].2 });
                proof {
                    assert forall|a: int, b: int| 0 <= a < b < links@.len() implies !(links@[a].track_id == links@[b].track_id && links@[a].genre_id == links@[b].genre_id) by {
                        if b == lv.len() {
                            assert(links@[a] == lv[a]);
                        }
                    }
                }
            }
            proof {
                assert((genre_views(genres@), links@) == take_in((gv, lv), track_id, e));
            }
        }
        proof {
            assert(ev.take(ev.len() as int) == ev);
        }
        // the genres nothing links to go
        let ghost gt = genre_views(genres@);
        let mut kept: Vec<Genre> = Vec::new();
        let mut i: usize = 0;
        while i < genres.len()
            invariant
                gt == genre_views(genres@),
                i <= genres@.len(),
                genre_views(kept@) == linked_genres(gt.take(i as int), links@),
            decreases genres@.len() - i,
        {
            proof {
                assert(gt.take(i + 1).drop_last() == gt.take(i as int));
                assert(gt.take(i + 1).last() == gt[i as int]);
            }
            let gid = genres[i].id;
            let mut used = false;
            for j in 0..links.len()
                invariant
                    used == exists|m: int| 0 <= m < j && links@[m].genre_id == gid,
            {
                if links[j].genre_id == gid {
                    used = true;
                }
            }
            if used {
                let ghost before = kept@;
                let copy = Genre { id: genres[i].id, name: genres[i].name.clone(), key: genres[i].key.clone() };
                kept.push(copy);
                proof {
                    assert(genre_views(kept@) == genre_views(before).push(gt[i as int]));
                }
            }
            i = i + 1;
        }
        proof {
            assert(gt.take(gt.len() as int) == gt);
            lemma_linked_genres(gt, links@);
        }
        self.genres = kept;
        self.links = links;
    }
}

} // verus!

verus! {

proof fn lemma_take_in_all_grows(
    gs: Seq<(i64, Seq<char>, Seq<char>)>,
    ls: Seq<GenreLink>,
    track_id: i64,
    es: Seq<(Seq<char>, Seq<char>, int)>,
)
    ensures
        ({
            let r = take_in_all((gs, ls), track_id, es);
            &&& r.0.len() >= gs.len()
            &&& forall|i: int| 0 <= i < gs.len() ==> #[trigger] r.0[i] == gs[i]
            &&& r.1.len() >= ls.len()
            &&& forall|i: int| 0 <= i < ls.len() ==> #[trigger] r.1[i] == ls[i]
            &&& forall|i: int| ls.len() <= i < r.1.len() ==> (#[trigger] r.1[i]).track_id == track_id
            &&& forall|k: int|
                0 <= k < es.len() ==> exists|g: int|
                    0 <= g < r.0.len() && r.0[g].2 == (#[trigger] es[k]).1 && is_linked(r.1, track_id, r.0[g].0)
        }),
    decreases es.len(),
{
    if es.len() > 0 {
        let front = es.drop_last();
        lemma_take_in_all_grows(gs, ls, track_id, front);
        let mid = take_in_all((gs, ls), track_id, front);
        let r = take_in_all((gs, ls), track_id, es);
        let e = es.last();
        assert(r == take_in(mid, track_id, e));
        let gs2 = r.0;
        let ki = key_index(gs2, e.1);
        assert(ki is Some) by {
            match key_index(mid.0, e.1) {
                Some(i) => {
                    assert(gs2 == mid.0);
                },
                None => {
                    assert(gs2[mid.0.len() as int].2 == e.1);
                },
            }
        }
        let gi = ki->0;
        assert(0 <= gi < gs2.len() && gs2[gi].2 == e.1);
        assert(is_linked(r.1, track_id, gs2[gi].0)) by {
            if !is_linked(mid.1, track_id, gs2[gi].0) {
                assert(r.1[mid.1.len() as int].genre_id == gs2[gi].0);
            } else {
                let w = choose|w: int| 0 <= w < mid.1.len() && mid.1[w].track_id == track_id && mid.1[w].genre_id == gs2[gi].0;
                assert(r.1[w] == mid.1[w]);
            }
        }
        assert forall|k: int| 0 <= k < es.len() implies exists|g: int|
            0 <= g < r.0.len() && r.0[g].2 == (#[trigger] es[k]).1 && is_linked(r.1, track_id, r.0[g].0) by {
            if k < front.len() {
                assert(es[k] == front[k]);
                let g = choose|g: int| 0 <= g < mid.0.len() && mid.0[g].2 == front[k].1 && is_linked(mid.1, track_id, mid.0[g].0);
                assert(r.0[g] == mid.0[g]);
                let w = choose|w: int| 0 <= w < mid.1.len() && mid.1[w].track_id == track_id && mid.1[w].genre_id == mid.0[g].0;
                assert(r.1[w] == mid.1[w]);
            } else {
                assert(es[k] == e);
            }
        }
    }
}

proof fn lemma_others_kept(ls: Seq<GenreLink>, track_id: i64, i: int)
    requires
        0 <= i < ls.len(),
        ls[i].track_id != track_id,
    ensures
        links_of_others(ls, track_id).contains(ls[i]),
    decreases ls.len(),
{
    if i < ls.len() - 1 {
        lemma_others_kept(ls.drop_last(), track_id, i);
        assert(ls.drop_last()[i] == ls[i]);
        let rest = links_of_others(ls.drop_last(), track_id);
        let w = choose|w: int| 0 <= w < rest.len() && rest[w] == ls[i];
        assert(links_of_others(ls, track_id)[w] == ls[i]);
    } else {
        let r = links_of_others(ls, track_id);
        assert(r[r.len() - 1] == ls[i]);
    }
}

proof fn lemma_linked_kept(gs: Seq<(i64, Seq<char>, Seq<char>)>, ls: Seq<GenreLink>, i: int, w: int)
    requires
        0 <= i < gs.len(),
        0 <= w < ls.len(),
        ls[w].genre_id == gs[i].0,
    ensures
        linked_genres(gs, ls).contains(gs[i]),
    decreases gs.len(),
{
    if i < gs.len() - 1 {
        lemma_linked_kept(gs.drop_last(), ls, i, w);
        assert(gs.drop_last()[i] == gs[i]);
        let rest = linked_genres(gs.drop_last(), ls);
        let v = choose|v: int| 0 <= v < rest.len() && rest[v] == gs[i];
        assert(linked_genres(gs, ls)[v] == gs[i]);
    } else {
        let r = linked_genres(gs, ls);
        assert(r[r.len() - 1] == gs[i]);
    }
}

proof fn lemma_linked_have_links(gs: Seq<(i64, Seq<char>, Seq<char>)>, ls: Seq<GenreLink>, i: int)
    requires
        0 <= i < linked_genres(gs, ls).len(),
    ensures
        exists|w: int| 0 <= w < ls.len() && ls[w].genre_id == linked_genres(gs, ls)[i].0,
    decreases gs.len(),
{
    let rest = linked_genres(gs.drop_last(), ls);
    if i < rest.len() {
        lemma_linked_have_links(gs.drop_last(), ls, i);
    }
}

/// Setting a track's genres leaves the other tracks alone: each of their
/// links stays, and so does every genre one of their links refers to.
pub proof fn law_other_tracks_keep_their_genres(
    gs: Seq<(i64, Seq<char>, Seq<char>)>,
    ls: Seq<GenreLink>,
    track_id: i64,
    names: Seq<Seq<char>>,
    i: int,
)
    requires
        0 <= i < ls.len(),
        ls[i].track_id != track_id,
    ensures
        genres_set(gs, ls, track_id, names).1.contains(ls[i]),
        forall|g: int|
            0 <= g < gs.len() && gs[g].0 == ls[i].genre_id ==> genres_set(gs, ls, track_id, names).0.contains(
                #[trigger] gs[g],
            ),
{
    let others = links_of_others(ls, track_id);
    lemma_others_kept(ls, track_id, i);
    let es = genre_links_spec(names);
    lemma_take_in_all_grows(gs, others, track_id, es);
    let taken = take_in_all((gs, others), track_id, es);
    let w = choose|w: int| 0 <= w < others.len() && others[w] == ls[i];
    assert(taken.1[w] == ls[i]);
    assert forall|g: int|
        0 <= g < gs.len() && gs[g].0 == ls[i].genre_id implies genres_set(gs, ls, track_id, names).0.contains(
            #[trigger] gs[g],
        ) by {
        assert(taken.0[g] == gs[g]);
        lemma_linked_kept(taken.0, taken.1, g, w);
    }
}

/// After its genres are set, the track is linked to a genre of each key in
/// its list, and that genre is kept.
pub proof fn law_a_track_gets_its_genres(
    gs: Seq<(i64, Seq<char>, Seq<char>)>,
    ls: Seq<GenreLink>,
    track_id: i64,
    names: Seq<Seq<char>>,
    k: int,
)
    requires
        0 <= k < genre_links_spec(names).len(),
    ensures
        exists|g: int|
            0 <= g < genres_set(gs, ls, track_id, names).0.len()
                && genres_set(gs, ls, track_id, names).0[g].2 == genre_links_spec(names)[k].1
                && is_linked(genres_set(gs, ls, track_id, names).1, track_id, genres_set(gs, ls, track_id, names).0[g].0),
{
    let others = links_of_others(ls, track_id);
    let es = genre_links_spec(names);
    lemma_take_in_all_grows(gs, others, track_id, es);
    let taken = take_in_all((gs, others), track_id, es);
    let g = choose|g: int| 0 <= g < taken.0.len() && taken.0[g].2 == es[k].1 && is_linked(taken.1, track_id, taken.0[g].0);
    let w = choose|w: int| 0 <= w < taken.1.len() && taken.1[w].track_id == track_id && taken.1[w].genre_id == taken.0[g].0;
    lemma_linked_kept(taken.0, taken.1, g, w);
    let fin = linked_genres(taken.0, taken.1);
    let v = choose|v: int| 0 <= v < fin.len() && fin[v] == taken.0[g];
    assert(genres_set(gs, ls, track_id, names) == (fin, taken.1));
    assert(fin[v].2 == es[k].1);
    assert(is_linked(taken.1, track_id, fin[v].0));
    assert(0 <= v < genres_set(gs, ls, track_id, names).0.len()
        && genres_set(gs, ls, track_id, names).0[v].2 == genre_links_spec(names)[k].1
        && is_linked(genres_set(gs, ls, track_id, names).1, track_id, genres_set(gs, ls, track_id, names).0[v].0));
}

/// No genre is kept that nothing links to.
pub proof fn law_no_genre_is_left_unlinked(
    gs: Seq<(i64, Seq<char>, Seq<char>)>,
    ls: Seq<GenreLink>,
    track_id: i64,
    names: Seq<Seq<char>>,
    g: int,
)
    requires
        0 <= g < genres_set(gs, ls, track_id, names).0.len(),
    ensures
        exists|w: int|
            0 <= w < genres_set(gs, ls, track_id, names).1.len()
                && genres_set(gs, ls, track_id, names).1[w].genre_id == genres_set(gs, ls, track_id, names).0[g].0,
{
    let taken = take_in_all((gs, links_of_others(ls, track_id)), track_id, genre_links_spec(names));
    let fin = linked_genres(taken.0, taken.1);
    assert(genres_set(gs, ls, track_id, names) == (fin, taken.1));
    lemma_linked_have_links(taken.0, taken.1, g);
    let w = choose|w: int| 0 <= w < taken.1.len() && taken.1[w].genre_id == fin[g].0;
    assert(0 <= w < genres_set(gs, ls, track_id, names).1.len()
        && genres_set(gs, ls, track_id, names).1[w].genre_id == genres_set(gs, ls, track_id, names).0[g].0);
}

} // verus!
