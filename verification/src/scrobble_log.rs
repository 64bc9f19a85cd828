//! The listening history and the queue of deliveries still owed to each
//! scrobbling target.
//!
//! Listens and loves are history: they are kept whatever becomes of their
//! deliveries. A delivery is one (item, target) pair; it starts pending and
//! leaves the queue when it is sent or dropped. The queue is kept ordered by
//! item id, so the oldest items come first.
use vstd::prelude::*;
use crate::models::{DeliveryOutcome, NewLove, NewPlay, PendingLove, PendingPlay};
use crate::models::delivery_state::{DROPPED, PENDING, SENT};
use crate::text::same_text;

verus! {

/// A listen kept in the history, under its id.
#[derive(Debug, Clone, PartialEq, Eq)]
pub struct PlayRecord {
    pub id: i64,
    pub play: NewPlay,
}

/// A love or unlove kept in the history, under its id.
#[derive(Debug, Clone, PartialEq, Eq)]
pub struct LoveRecord {
    pub id: i64,
    pub love: NewLove,
}

/// What one target is owed for one listen or love.
#[derive(Debug, Clone, PartialEq, Eq)]
pub struct Delivery {
    pub item: i64,
    pub target: String,
    pub state: i64,
    pub attempts: i64,
    pub last_error: Option<String>,
    pub updated_at: i64,
}

/// The history and its delivery queues.
pub struct ScrobbleLog {
    plays: Vec<PlayRecord>,
    loves: Vec<LoveRecord>,
    play_deliveries: Vec<Delivery>,
    love_deliveries: Vec<Delivery>,
}

/// Two listens are the same listen when they started at the same second and
/// name the same artist and title.
pub open spec fn same_listen(a: NewPlay, b: NewPlay) -> bool {
    a.started_at == b.started_at && a.artist@ == b.artist@ && a.title@ == b.title@
}

pub open spec fn secs_or_zero(s: Option<u64>) -> u64 {
    match s {
        Some(n) => n,
        None => 0,
    }
}

/// A listen recorded again: it keeps what it had and never shrinks. The
/// played time becomes the larger of the two, and a listen that qualified
/// once stays qualified.
pub open spec fn merged_play(stored: NewPlay, again: NewPlay) -> NewPlay {
    NewPlay {
        played_secs: Some(
            if secs_or_zero(stored.played_secs) >= secs_or_zero(again.played_secs) {
                secs_or_zero(stored.played_secs)
            } else {
                secs_or_zero(again.played_secs)
            },
        ),
        qualified: stored.qualified || again.qualified,
        ..stored
    }
}

pub open spec fn play_ids_ascending(ps: Seq<PlayRecord>) -> bool {
    forall|i: int, j: int| 0 <= i < j < ps.len() ==> ps[i].id < ps[j].id
}

pub open spec fn love_ids_ascending(ls: Seq<LoveRecord>) -> bool {
    forall|i: int, j: int| 0 <= i < j < ls.len() ==> ls[i].id < ls[j].id
}

pub open spec fn listens_distinct(ps: Seq<PlayRecord>) -> bool {
    forall|i: int, j: int|
        0 <= i < ps.len() && 0 <= j < ps.len() && i != j ==> !same_listen(
            #[trigger] ps[i].play,
            #[trigger] ps[j].play,
        )
}

/// A queue is ordered by item, and owes each target at most once per item.
pub open spec fn queue_ordered(ds: Seq<Delivery>) -> bool {
    &&& forall|i: int, j: int| 0 <= i < j < ds.len() ==> ds[i].item <= ds[j].item
    &&& forall|i: int, j: int|
        0 <= i < j < ds.len() && ds[i].item == ds[j].item ==> ds[i].target@ != ds[j].target@
}

/// Whether the queue holds a row for this item and target.
pub open spec fn owes(ds: Seq<Delivery>, item: i64, target: Seq<char>) -> bool {
    exists|i: int| 0 <= i < ds.len() && ds[i].item == item && ds[i].target@ == target
}

/// A row as it is first queued.
pub open spec fn is_fresh(d: Delivery, item: i64, now: i64) -> bool {
    d.item == item && d.state == PENDING && d.attempts == 0 && d.last_error is None
        && d.updated_at == now
}

/// `after` is `before` with a fresh row for `item` and each of `targets`
/// that `before` did not owe yet; no row of `before` changes.
pub open spec fn enqueued(
    before: Seq<Delivery>,
    after: Seq<Delivery>,
    item: i64,
    targets: Seq<Seq<char>>,
    now: i64,
) -> bool {
    &&& forall|d: Delivery| before.contains(d) ==> after.contains(d)
    &&& forall|k: int|
        0 <= k < after.len() ==> before.contains(#[trigger] after[k]) || (is_fresh(
            after[k],
            item,
            now,
        ) && targets.contains(after[k].target@) && !owes(before, item, after[k].target@))
    &&& forall|t: Seq<char>| targets.contains(t) ==> owes(after, item, t)
}

pub open spec fn text_views(ts: Seq<&str>) -> Seq<Seq<char>> {
    ts.map_values(|t: &str| t@)
}

/// The id the next new record gets: one past the newest.
pub open spec fn next_play_id(ps: Seq<PlayRecord>) -> int {
    if ps.len() == 0 {
        1
    } else {
        ps.last().id + 1
    }
}

pub open spec fn next_love_id(ls: Seq<LoveRecord>) -> int {
    if ls.len() == 0 {
        1
    } else {
        ls.last().id + 1
    }
}

/// Where the history already holds this listen, if it does.
pub open spec fn recorded_at(ps: Seq<PlayRecord>, p: NewPlay) -> Option<int> {
    if exists|i: int| 0 <= i < ps.len() && same_listen(ps[i].play, p) {
        Some(choose|i: int| 0 <= i < ps.len() && same_listen(ps[i].play, p))
    } else {
        None
    }
}

/// The history after recording `p`.
pub open spec fn recorded(ps: Seq<PlayRecord>, p: NewPlay) -> Seq<PlayRecord> {
    match recorded_at(ps, p) {
        Some(i) => ps.update(i, PlayRecord { id: ps[i].id, play: merged_play(ps[i].play, p) }),
        None => ps.push(PlayRecord { id: next_play_id(ps) as i64, play: p }),
    }
}

/// The id `p` is recorded under.
pub open spec fn recorded_id(ps: Seq<PlayRecord>, p: NewPlay) -> i64 {
    match recorded_at(ps, p) {
        Some(i) => ps[i].id,
        None => next_play_id(ps) as i64,
    }
}

/// Where the history keeps the record with this id, if it does.
pub open spec fn play_index(ps: Seq<PlayRecord>, id: i64) -> Option<int> {
    if exists|i: int| 0 <= i < ps.len() && ps[i].id == id {
        Some(choose|i: int| 0 <= i < ps.len() && ps[i].id == id)
    } else {
        None
    }
}

pub open spec fn love_index(ls: Seq<LoveRecord>, id: i64) -> Option<int> {
    if exists|i: int| 0 <= i < ls.len() && ls[i].id == id {
        Some(choose|i: int| 0 <= i < ls.len() && ls[i].id == id)
    } else {
        None
    }
}

/// A listen as a target is handed it.
pub open spec fn pending_play_of(r: PlayRecord) -> PendingPlay {
    PendingPlay {
        id: r.id,
        artist: r.play.artist,
        title: r.play.title,
        album: r.play.album,
        album_artist: r.play.album_artist,
        track_number: r.play.track_number,
        duration_secs: r.play.duration_secs,
        started_at: r.play.started_at,
    }
}

pub open spec fn pending_love_of(r: LoveRecord) -> PendingLove {
    PendingLove {
        id: r.id,
        artist: r.love.artist,
        title: r.love.title,
        loved: r.love.loved,
        at: r.love.at,
    }
}

/// The listens still owed to `target`, in queue order (oldest first). A row
/// whose listen is not in the history is passed over.
pub open spec fn owed_plays(queue: Seq<Delivery>, ps: Seq<PlayRecord>, target: Seq<char>) -> Seq<
    PendingPlay,
>
    decreases queue.len(),
{
    if queue.len() == 0 {
        seq![]
    } else {
        let rest = owed_plays(queue.drop_last(), ps, target);
        let d = queue.last();
        if d.state == PENDING && d.target@ == target && play_index(ps, d.item) is Some {
            rest.push(pending_play_of(ps[play_index(ps, d.item)->0]))
        } else {
            rest
        }
    }
}

/// The loves still owed to `target`, in queue order (oldest first).
pub open spec fn owed_loves(queue: Seq<Delivery>, ls: Seq<LoveRecord>, target: Seq<char>) -> Seq<
    PendingLove,
>
    decreases queue.len(),
{
    if queue.len() == 0 {
        seq![]
    } else {
        let rest = owed_loves(queue.drop_last(), ls, target);
        let d = queue.last();
        if d.state == PENDING && d.target@ == target && love_index(ls, d.item) is Some {
            rest.push(pending_love_of(ls[love_index(ls, d.item)->0]))
        } else {
            rest
        }
    }
}

/// The first `max` of a sequence.
pub open spec fn at_most<A>(s: Seq<A>, max: int) -> Seq<A> {
    if s.len() <= max {
        s
    } else {
        s.take(max)
    }
}

proof fn lemma_owed_plays_prefix(queue: Seq<Delivery>, ps: Seq<PlayRecord>, target: Seq<char>, k: int)
    requires
        0 <= k <= queue.len(),
    ensures
        owed_plays(queue.take(k), ps, target).len() <= owed_plays(queue, ps, target).len(),
        owed_plays(queue.take(k), ps, target) == owed_plays(queue, ps, target).take(
            owed_plays(queue.take(k), ps, target).len() as int,
        ),
    decreases queue.len() - k,
{
    if k == queue.len() {
        assert(queue.take(k) == queue);
    } else {
        lemma_owed_plays_prefix(queue, ps, target, k + 1);
        assert(queue.take(k + 1).drop_last() == queue.take(k));
    }
}

proof fn lemma_owed_loves_prefix(queue: Seq<Delivery>, ls: Seq<LoveRecord>, target: Seq<char>, k: int)
    requires
        0 <= k <= queue.len(),
    ensures
        owed_loves(queue.take(k), ls, target).len() <= owed_loves(queue, ls, target).len(),
        owed_loves(queue.take(k), ls, target) == owed_loves(queue, ls, target).take(
            owed_loves(queue.take(k), ls, target).len() as int,
        ),
    decreases queue.len() - k,
{
    if k == queue.len() {
        assert(queue.take(k) == queue);
    } else {
        lemma_owed_loves_prefix(queue, ls, target, k + 1);
        assert(queue.take(k + 1).drop_last() == queue.take(k));
    }
}

fn find_play(ps: &Vec<PlayRecord>, id: i64) -> (r: Option<usize>)
    requires
        play_ids_ascending(ps@),
    ensures
        r matches Some(i) ==> play_index(ps@, id) == Some(i as int),
        r is None ==> play_index(ps@, id) is None,
{
    for k in 0..ps.len()
        invariant
            play_ids_ascending(ps@),
            forall|j: int| 0 <= j < k ==> ps@[j].id != id,
    {
        if ps[k].id == id {
            proof {
                let c = choose|i: int| 0 <= i < ps@.len() && ps@[i].id == id;
                if c != k as int {
                    if c < k {
                    } else {
                        assert(ps@[k as int].id < ps@[c].id);
                    }
                }
            }
            return Some(k);
        }
    }
    None
}

fn find_love(ls: &Vec<LoveRecord>, id: i64) -> (r: Option<usize>)
    requires
        love_ids_ascending(ls@),
    ensures
        r matches Some(i) ==> love_index(ls@, id) == Some(i as int),
        r is None ==> love_index(ls@, id) is None,
{
    for k in 0..ls.len()
        invariant
            love_ids_ascending(ls@),
            forall|j: int| 0 <= j < k ==> ls@[j].id != id,
    {
        if ls[k].id == id {
            proof {
                let c = choose|i: int| 0 <= i < ls@.len() && ls@[i].id == id;
                if c != k as int {
                    if c < k {
                    } else {
                        assert(ls@[k as int].id < ls@[c].id);
                    }
                }
            }
            return Some(k);
        }
    }
    None
}

/// One settle of one item for `target`: a pending row for it records the
/// attempt and the outcome. A sent row is marked sent, a dropped one is
/// marked dropped, and a deferred one stays pending with its error. Any
/// other row is left as it is.
pub open spec fn settle_one(d: Delivery, id: i64, target: Seq<char>, outcome: DeliveryOutcome, now: i64) -> Delivery {
    if d.state == PENDING && d.target@ == target && d.item == id {
        match outcome {
            DeliveryOutcome::Sent => Delivery {
                state: SENT,
                attempts: (d.attempts + 1) as i64,
                last_error: None,
                updated_at: now,
                ..d
            },
            DeliveryOutcome::Dropped(m) => Delivery {
                state: DROPPED,
                attempts: (d.attempts + 1) as i64,
                last_error: Some(m),
                updated_at: now,
                ..d
            },
            DeliveryOutcome::Deferred(m) => Delivery {
                attempts: (d.attempts + 1) as i64,
                last_error: Some(m),
                updated_at: now,
                ..d
            },
        }
    } else {
        d
    }
}

/// A row after settling each of `ids` in turn.
pub open spec fn settled(d: Delivery, ids: Seq<i64>, target: Seq<char>, outcome: DeliveryOutcome, now: i64) -> Delivery
    decreases ids.len(),
{
    if ids.len() == 0 {
        d
    } else {
        settle_one(settled(d, ids.drop_last(), target, outcome, now), ids.last(), target, outcome, now)
    }
}

proof fn lemma_settled_keeps(d: Delivery, ids: Seq<i64>, target: Seq<char>, outcome: DeliveryOutcome, now: i64)
    requires
        d.attempts + ids.len() <= i64::MAX,
    ensures
        settled(d, ids, target, outcome, now).item == d.item,
        settled(d, ids, target, outcome, now).target == d.target,
        d.attempts <= settled(d, ids, target, outcome, now).attempts <= d.attempts + ids.len(),
    decreases ids.len(),
{
    if ids.len() > 0 {
        lemma_settled_keeps(d, ids.drop_last(), target, outcome, now);
    }
}

/// Whether a row is pending, for one of `only` where a list of targets is given.
pub open spec fn selected(d: Delivery, only: Option<Seq<Seq<char>>>) -> bool {
    d.state == PENDING && match only {
        Some(ts) => ts.contains(d.target@),
        None => true,
    }
}

/// The items with a pending row (for one of `only` where given). An item
/// owed to several targets is one item.
pub open spec fn pending_items(ds: Seq<Delivery>, only: Option<Seq<Seq<char>>>) -> Set<i64> {
    Set::new(|id: i64| exists|i: int| 0 <= i < ds.len() && ds[i].item == id && selected(ds[i], only))
}

pub open spec fn strictly_ascending(s: Seq<i64>) -> bool {
    forall|i: int, j: int| 0 <= i < j < s.len() ==> s[i] < s[j]
}

/// Whether `id` is pending and among the `limit` oldest pending items: fewer
/// than `limit` pending items are older.
pub open spec fn among_oldest(ds: Seq<Delivery>, id: i64, limit: int) -> bool {
    pending_items(ds, None).contains(id) && pending_items(ds, None).filter(|p: i64| p < id).len()
        < limit
}

/// `after` is `before` dropped for overflowing the queue at `now`.
pub open spec fn overflowed(before: Delivery, after: Delivery, now: i64) -> bool {
    &&& after.item == before.item
    &&& after.target == before.target
    &&& after.state == DROPPED
    &&& after.attempts == before.attempts
    &&& after.last_error is Some
    &&& after.last_error->0@ == "queue overflow"@
    &&& after.updated_at == now
}

/// `after` is the queue `before` with its `limit` oldest pending items dropped.
pub open spec fn dropped_oldest(before: Seq<Delivery>, after: Seq<Delivery>, limit: int, now: i64) -> bool {
    &&& after.len() == before.len()
    &&& forall|k: int|
        0 <= k < before.len() ==> if before[k].state == PENDING && among_oldest(before, before[k].item, limit) {
            overflowed(before[k], #[trigger] after[k], now)
        } else {
            after[k] == before[k]
        }
}

/// How far `total` is over `cap`.
pub open spec fn excess(total: int, cap: int) -> int {
    if total <= cap {
        0
    } else {
        total - cap
    }
}

proof fn lemma_nothing_dropped(ds: Seq<Delivery>, now: i64)
    ensures
        dropped_oldest(ds, ds, 0, now),
{
}

proof fn lemma_rank(ids: Seq<i64>, m: int)
    requires
        strictly_ascending(ids),
        0 <= m < ids.len(),
    ensures
        ids.to_set().filter(|p: i64| p < ids[m]) == ids.take(m).to_set(),
        ids.take(m).to_set().len() == m,
{
    let left = ids.to_set().filter(|p: i64| p < ids[m]);
    let right = ids.take(m).to_set();
    assert forall|p: i64| left.contains(p) implies right.contains(p) by {
        let j = choose|j: int| 0 <= j < ids.len() && ids[j] == p;
        if j >= m {
            if j > m {
                assert(ids[m] < ids[j]);
            }
        }
        assert(ids.take(m)[j] == p);
    }
    assert forall|p: i64| right.contains(p) implies left.contains(p) by {
        let j = choose|j: int| 0 <= j < m && ids.take(m)[j] == p;
        assert(ids[j] == p);
        assert(ids.contains(p));
    }
    assert(left =~= right);
    assert(ids.take(m).no_duplicates()) by {
        assert forall|i: int, j: int| 0 <= i < ids.take(m).len() && 0 <= j < ids.take(m).len() && i != j implies ids.take(m)[i] != ids.take(m)[j] by {
            if i < j {
                assert(ids[i] < ids[j]);
            } else {
                assert(ids[j] < ids[i]);
            }
        }
    }
    ids.take(m).unique_seq_to_set();
}

proof fn lemma_ascending_len(ids: Seq<i64>)
    requires
        strictly_ascending(ids),
    ensures
        ids.to_set().len() == ids.len(),
        ids.to_set().finite(),
{
    assert(ids.no_duplicates()) by {
        assert forall|i: int, j: int| 0 <= i < ids.len() && 0 <= j < ids.len() && i != j implies ids[i] != ids[j] by {
            if i < j {
                assert(ids[i] < ids[j]);
            } else {
                assert(ids[j] < ids[i]);
            }
        }
    }
    ids.unique_seq_to_set();
    vstd::seq_lib::seq_to_set_is_finite(ids);
}

fn copy_text(s: &Option<String>) -> (r: Option<String>)
    ensures
        r == *s,
{
    match s {
        Some(t) => Some(t.clone()),
        None => None,
    }
}

fn copy_play(p: &NewPlay) -> (r: NewPlay)
    ensures
        r == *p,
{
    NewPlay {
        track_id: p.track_id,
        artist: p.artist.clone(),
        title: p.title.clone(),
        album: copy_text(&p.album),
        album_artist: copy_text(&p.album_artist),
        track_number: p.track_number,
        duration_secs: p.duration_secs,
        played_secs: p.played_secs,
        started_at: p.started_at,
        qualified: p.qualified,
    }
}

fn copy_love(l: &NewLove) -> (r: NewLove)
    ensures
        r == *l,
{
    NewLove {
        track_id: l.track_id,
        artist: l.artist.clone(),
        title: l.title.clone(),
        loved: l.loved,
        at: l.at,
    }
}

fn secs_of(s: Option<u64>) -> (r: u64)
    ensures
        r == secs_or_zero(s),
{
    match s {
        Some(n) => n,
        None => 0,
    }
}

/// Whether the queue owes `target` for `item`.
fn find_owed(queue: &Vec<Delivery>, item: i64, target: &str) -> (r: bool)
    ensures
        r == owes(queue@, item, target@),
{
    for k in 0..queue.len()
        invariant
            forall|j: int|
                0 <= j < k ==> !(queue@[j].item == item && queue@[j].target@ == target@),
    {
        if queue[k].item == item && same_text(queue[k].target.as_str(), target) {
            return true;
        }
    }
    false
}

/// Queues a fresh row for `item` and `target` unless one is owed already,
/// keeping the queue ordered.
fn enqueue(queue: &mut Vec<Delivery>, item: i64, target: &str, now: i64)
    requires
        queue_ordered(old(queue)@),
    ensures
        queue_ordered(final(queue)@),
        enqueued(old(queue)@, final(queue)@, item, seq![target@], now),
        forall|d: Delivery| final(queue)@.contains(d) ==> old(queue)@.contains(d) || d.item == item,
{
    if find_owed(queue, item, target) {
        proof {
            let t = target@;
            assert(seq![target@].contains(t) ==> t == target@);
        }
        return;
    }
    let mut pos: usize = 0;
    while pos < queue.len() && queue[pos].item <= item
        invariant
            pos <= queue.len(),
            forall|j: int| 0 <= j < pos ==> queue@[j].item <= item,
        decreases queue.len() - pos,
    {
        pos = pos + 1;
    }
    let fresh = Delivery {
        item,
        target: target.to_owned(),
        state: PENDING,
        attempts: 0,
        last_error: None,
        updated_at: now,
    };
    let ghost before = queue@;
    queue.insert(pos, fresh);
    proof {
        let after = queue@;
        assert(after == before.insert(pos as int, fresh));
        assert forall|i: int, j: int| 0 <= i < j < after.len() implies after[i].item
            <= after[j].item by {
            if pos < before.len() {
                assert(before[pos as int].item > item);
            }
        }
        assert forall|i: int, j: int|
            0 <= i < j < after.len() && after[i].item == after[j].item implies after[i].target@
            != after[j].target@ by {
            if i == pos as int {
                assert(after[j] == before[j - 1]);
            } else if j == pos as int {
                assert(after[i] == before[i]);
            }
        }
        assert forall|d: Delivery| before.contains(d) implies after.contains(d) by {
            let k = choose|k: int| 0 <= k < before.len() && before[k] == d;
            if k < pos {
                assert(after[k] == d);
            } else {
                assert(after[k + 1] == d);
            }
        }
        assert forall|k: int| 0 <= k < after.len() implies before.contains(#[trigger] after[k]) || (
        is_fresh(after[k], item, now) && seq![target@].contains(after[k].target@) && !owes(
            before,
            item,
            after[k].target@,
        )) by {
            if k < pos {
                assert(after[k] == before[k]);
            } else if k > pos {
                assert(after[k] == before[k - 1]);
            } else {
                assert(seq![target@][0] == target@);
            }
        }
        assert forall|t: Seq<char>| seq![target@].contains(t) implies owes(after, item, t) by {
            assert(after[pos as int] == fresh);
        }
        assert forall|d: Delivery| after.contains(d) implies before.contains(d) || d.item
            == item by {
            let k = choose|k: int| 0 <= k < after.len() && after[k] == d;
            if k < pos {
                assert(after[k] == before[k]);
            } else if k > pos {
                assert(after[k] == before[k - 1]);
            }
        }
    }
}

/// Queues `item` for every one of `targets` that it is not owed to yet.
fn enqueue_all(queue: &mut Vec<Delivery>, item: i64, targets: &[&str], now: i64)
    requires
        queue_ordered(old(queue)@),
    ensures
        queue_ordered(final(queue)@),
        enqueued(old(queue)@, final(queue)@, item, text_views(targets@), now),
{
    let ghost start = queue@;
    let ghost tv = text_views(targets@);
    for n in 0..targets.len()
        invariant
            queue_ordered(queue@),
            tv == text_views(targets@),
            enqueued(start, queue@, item, tv.take(n as int), now),
    {
        let ghost mid = queue@;
        enqueue(queue, item, targets[n], now);
        proof {
            let after = queue@;
            let t_new = targets@[n as int]@;
            assert(tv[n as int] == t_new);
            assert(tv.take(n + 1) == tv.take(n as int).push(t_new));
            assert forall|d: Delivery| start.contains(d) implies after.contains(d) by {
                assert(mid.contains(d));
            }
            assert forall|k: int| 0 <= k < after.len() implies start.contains(#[trigger] after[k])
                || (is_fresh(after[k], item, now) && tv.take(n + 1).contains(after[k].target@)
                && !owes(start, item, after[k].target@)) by {
                if mid.contains(after[k]) {
                    let m = choose|m: int| 0 <= m < mid.len() && mid[m] == after[k];
                    assert(mid[m] == after[k]);
                    if !start.contains(after[k]) {
                        assert(tv.take(n as int).contains(after[k].target@));
                        let w = choose|w: int|
                            0 <= w < tv.take(n as int).len() && #[trigger] tv.take(n as int)[w]
                                == after[k].target@;
                        assert(tv.take(n + 1)[w] == after[k].target@);
                    }
                } else {
                    assert(seq![t_new][0] == t_new);
                    assert(tv.take(n + 1)[n as int] == t_new);
                    // a row owed in `start` would still be owed in `mid`
                    if owes(start, item, after[k].target@) {
                        let w = choose|w: int|
                            0 <= w < start.len() && start[w].item == item && start[w].target@
                                == after[k].target@;
                        assert(start.contains(start[w]));
                        assert(mid.contains(start[w]));
                        let v = choose|v: int| 0 <= v < mid.len() && mid[v] == start[w];
                        assert(owes(mid, item, t_new));
                    }
                }
            }
            assert forall|t: Seq<char>| tv.take(n + 1).contains(t) implies owes(after, item, t) by {
                let w = choose|w: int| 0 <= w < tv.take(n + 1).len() && #[trigger] tv.take(n + 1)[w] == t;
                if w < n {
                    assert(tv.take(n as int)[w] == t);
                    assert(tv.take(n as int).contains(t));
                    assert(owes(mid, item, t));
                    let v = choose|v: int| 0 <= v < mid.len() && mid[v].item == item && mid[v].target@ == t;
                    assert(mid.contains(mid[v]));
                    assert(after.contains(mid[v]));
                } else {
                    assert(t == t_new);
                    assert(seq![t_new][0] == t_new);
                    assert(seq![t_new].contains(t_new));
                }
            }
        }
    }
    proof {
        assert(tv.take(targets@.len() as int) == tv);
    }
}

fn settle_row(d: &Delivery, id: i64, target: &str, outcome: &DeliveryOutcome, now: i64) -> (r: Delivery)
    requires
        d.attempts < i64::MAX,
    ensures
        r == settle_one(*d, id, target@, *outcome, now),
{
    if d.state == PENDING && d.item == id && same_text(d.target.as_str(), target) {
        match outcome {
            DeliveryOutcome::Sent => Delivery {
                item: d.item,
                target: d.target.clone(),
                state: SENT,
                attempts: d.attempts + 1,
                last_error: None,
                updated_at: now,
            },
            DeliveryOutcome::Dropped(m) => Delivery {
                item: d.item,
                target: d.target.clone(),
                state: DROPPED,
                attempts: d.attempts + 1,
                last_error: Some(m.clone()),
                updated_at: now,
            },
            DeliveryOutcome::Deferred(m) => Delivery {
                item: d.item,
                target: d.target.clone(),
                state: d.state,
                attempts: d.attempts + 1,
                last_error: Some(m.clone()),
                updated_at: now,
            },
        }
    } else {
        Delivery {
            item: d.item,
            target: d.target.clone(),
            state: d.state,
            attempts: d.attempts,
            last_error: copy_text(&d.last_error),
            updated_at: d.updated_at,
        }
    }
}

/// Settles each of `ids` for `target` in turn, over the whole queue.
fn settle_queue(queue: &mut Vec<Delivery>, ids: &[i64], target: &str, outcome: &DeliveryOutcome, now: i64)
    requires
        queue_ordered(old(queue)@),
        forall|k: int| 0 <= k < old(queue)@.len() ==> old(queue)@[k].attempts + ids@.len() <= i64::MAX,
    ensures
        queue_ordered(final(queue)@),
        final(queue)@.len() == old(queue)@.len(),
        forall|k: int| 0 <= k < old(queue)@.len() ==> #[trigger] final(queue)@[k] == settled(
            old(queue)@[k],
            ids@,
            target@,
            *outcome,
            now,
        ),
{
    let ghost start = queue@;
    for n in 0..ids.len()
        invariant
            start.len() == queue@.len(),
            queue_ordered(start),
            forall|k: int| 0 <= k < start.len() ==> start[k].attempts + ids@.len() <= i64::MAX,
            forall|k: int| 0 <= k < start.len() ==> #[trigger] queue@[k] == settled(
                start[k],
                ids@.take(n as int),
                target@,
                *outcome,
                now,
            ),
    {
        let ghost mid = queue@;
        let id = ids[n];
        proof {
            assert(ids@.take(n + 1).drop_last() == ids@.take(n as int));
            assert(ids@.take(n + 1).last() == id);
        }
        let rows = queue.len();
        let mut k: usize = 0;
        while k < rows
            invariant
                rows == start.len(),
                start.len() == queue@.len(),
                mid.len() == queue@.len(),
                k <= rows,
                n < ids@.len(),
                id == ids@[n as int],
                forall|j: int| 0 <= j < start.len() ==> start[j].attempts + ids@.len() <= i64::MAX,
                forall|j: int| 0 <= j < start.len() ==> #[trigger] mid[j] == settled(
                    start[j],
                    ids@.take(n as int),
                    target@,
                    *outcome,
                    now,
                ),
                forall|j: int| 0 <= j < k ==> #[trigger] queue@[j] == settle_one(mid[j], id, target@, *outcome, now),
                forall|j: int| k <= j < queue@.len() ==> #[trigger] queue@[j] == mid[j],
            decreases rows - k,
        {
            proof {
                let st = start[k as int];
                assert(st.attempts + ids@.len() <= i64::MAX);
                assert(ids@.take(n as int).len() == n);
                lemma_settled_keeps(st, ids@.take(n as int), target@, *outcome, now);
                assert(queue@[k as int] == mid[k as int]);
            }
            let row = settle_row(&queue[k], id, target, outcome, now);
            queue.set(k, row);
            k = k + 1;
        }
        proof {
            assert forall|k: int| 0 <= k < start.len() implies #[trigger] queue@[k] == settled(
                start[k],
                ids@.take(n + 1),
                target@,
                *outcome,
                now,
            ) by {
                assert(queue@[k] == settle_one(mid[k], id, target@, *outcome, now));
            }
        }
    }
    proof {
        assert(ids@.take(ids@.len() as int) == ids@);
        let q = queue@;
        assert forall|i: int, j: int| 0 <= i < j < q.len() implies q[i].item <= q[j].item && (q[i].item == q[j].item ==> q[i].target@ != q[j].target@) by {
            lemma_settled_keeps(start[i], ids@, target@, *outcome, now);
            lemma_settled_keeps(start[j], ids@, target@, *outcome, now);
        }
    }
}

fn listed(targets: &[&str], t: &str) -> (r: bool)
    ensures
        r == text_views(targets@).contains(t@),
{
    for k in 0..targets.len()
        invariant
            forall|j: int| 0 <= j < k ==> targets@[j]@ != t@,
    {
        if same_text(targets[k], t) {
            proof {
                assert(text_views(targets@)[k as int] == t@);
            }
            return true;
        }
    }
    proof {
        if text_views(targets@).contains(t@) {
            let j = choose|j: int| 0 <= j < text_views(targets@).len() && text_views(targets@)[j] == t@;
            assert(targets@[j]@ == t@);
        }
    }
    false
}

/// The items with a pending row (for one of `only` where given), ascending.
fn pending_ids(queue: &Vec<Delivery>, only: Option<&[&str]>) -> (r: Vec<i64>)
    requires
        queue_ordered(queue@),
    ensures
        strictly_ascending(r@),
        r@.len() <= queue@.len(),
        r@.to_set() == pending_items(
            queue@,
            match only {
                Some(ts) => Some(text_views(ts@)),
                None => None,
            },
        ),
{
    let ghost sel = match only {
        Some(ts) => Some(text_views(ts@)),
        None => None,
    };
    let mut r: Vec<i64> = Vec::new();
    let ghost q = queue@;
    for k in 0..queue.len()
        invariant
            q == queue@,
            queue_ordered(q),
            sel == match only {
                Some(ts) => Some(text_views(ts@)),
                None => None,
            },
            strictly_ascending(r@),
            r@.len() <= k,
            r@.to_set() == pending_items(q.take(k as int), sel),
            r@.len() > 0 ==> forall|j: int| 0 <= j < k && selected(q[j], sel) ==> q[j].item <= r@.last(),
    {
        let d = &queue[k];
        let chosen = d.state == PENDING && match only {
            Some(ts) => listed(ts, d.target.as_str()),
            None => true,
        };
        let ghost before = r@;
        proof {
            assert(chosen == selected(q[k as int], sel));
        }
        if chosen && (r.len() == 0 || r[r.len() - 1] != d.item) {
            proof {
                if before.len() > 0 {
                    assert(before.to_set().contains(before.last()));
                    let j = choose|j: int| 0 <= j < k && q.take(k as int)[j].item == before.last() && selected(q.take(k as int)[j], sel);
                    assert(q[j].item <= q[k as int].item);
                }
            }
            r.push(d.item);
        }
        proof {
            let t0 = q.take(k as int);
            let t1 = q.take(k + 1);
            let now_set = pending_items(t1, sel);
            let was = pending_items(t0, sel);
            assert forall|id: i64| r@.to_set().contains(id) == now_set.contains(id) by {
                if r@.to_set().contains(id) {
                    let w = choose|w: int| 0 <= w < r@.len() && r@[w] == id;
                    if w < before.len() {
                        assert(before[w] == id);
                        assert(before.to_set().contains(id));
                        let j = choose|j: int| 0 <= j < k && t0[j].item == id && selected(t0[j], sel);
                        assert(t1[j] == t0[j]);
                    } else {
                        assert(t1[k as int] == q[k as int]);
                    }
                }
                if now_set.contains(id) {
                    let j = choose|j: int| 0 <= j < k + 1 && t1[j].item == id && selected(t1[j], sel);
                    if j < k {
                        assert(t0[j] == t1[j]);
                        assert(was.contains(id));
                        assert(before.to_set().contains(id));
                        let w = choose|w: int| 0 <= w < before.len() && before[w] == id;
                        assert(r@[w] == id);
                    } else {
                        assert(t1[j] == q[k as int]);
                        if r@.len() > before.len() {
                            assert(r@[before.len() as int] == id);
                        } else {
                            assert(r@.last() == id);
                            assert(r@[r@.len() - 1] == id);
                        }
                    }
                }
            }
            assert(r@.to_set() =~= now_set);
            if r@.len() > 0 {
                assert forall|j: int| 0 <= j < k + 1 && selected(q[j], sel) implies q[j].item <= r@.last() by {
                    if j < k {
                        if before.len() > 0 {
                            assert(q[j].item <= before.last());
                        } else {
                            assert(q.take(k as int)[j] == q[j]);
                            assert(was.contains(q[j].item));
                            assert(before.to_set().contains(q[j].item));
                        }
                    }
                }
            }
        }
    }
    proof {
        assert(q.take(q.len() as int) == q);
    }
    r
}

fn overflow_row(d: &Delivery, now: i64) -> (r: Delivery)
    ensures
        overflowed(*d, r, now),
{
    Delivery {
        item: d.item,
        target: d.target.clone(),
        state: DROPPED,
        attempts: d.attempts,
        last_error: Some("queue overflow".to_owned()),
        updated_at: now,
    }
}

/// Drops the `limit` oldest pending items of the queue, every row of each
/// at once, and says how many items it dropped.
fn drop_oldest_items(queue: &mut Vec<Delivery>, limit: usize, now: i64) -> (dropped: usize)
    requires
        queue_ordered(old(queue)@),
    ensures
        queue_ordered(final(queue)@),
        dropped_oldest(old(queue)@, final(queue)@, limit as int, now),
        dropped == if limit <= pending_items(old(queue)@, None).len() { limit as int } else { pending_items(old(queue)@, None).len() as int },
        pending_items(final(queue)@, None).len() == pending_items(old(queue)@, None).len() - dropped,
        pending_items(old(queue)@, None).finite(),
        pending_items(final(queue)@, None).finite(),
{
    let ids = pending_ids(queue, None);
    let ghost before = queue@;
    let ghost pend = pending_items(before, None);
    proof {
        lemma_ascending_len(ids@);
    }
    let count = if limit <= ids.len() { limit } else { ids.len() };
    if count == 0 {
        proof {
            assert forall|k: int| 0 <= k < before.len() && before[k].state == PENDING implies !among_oldest(before, before[k].item, limit as int) by {
                if limit > 0 {
                    assert(pend.contains(before[k].item));
                    assert(ids@.contains(before[k].item));
                }
            }
        }
        return 0;
    }
    let bound = ids[count - 1];
    let rows = queue.len();
    let mut k: usize = 0;
    while k < rows
        invariant
            rows == before.len(),
            queue@.len() == rows,
            k <= rows,
            forall|j: int| 0 <= j < k ==> if before[j].state == PENDING && before[j].item <= bound {
                overflowed(before[j], #[trigger] queue@[j], now)
            } else {
                queue@[j] == before[j]
            },
            forall|j: int| k <= j < rows ==> #[trigger] queue@[j] == before[j],
        decreases rows - k,
    {
        if queue[k].state == PENDING && queue[k].item <= bound {
            let row = overflow_row(&queue[k], now);
            queue.set(k, row);
        }
        k = k + 1;
    }
    proof {
        let after = queue@;
        // an item is among the oldest exactly when it is no later than `bound`
        assert forall|j: int| 0 <= j < before.len() && before[j].state == PENDING implies (among_oldest(before, before[j].item, limit as int) <==> before[j].item <= bound) by {
            let id = before[j].item;
            assert(pend.contains(id));
            assert(ids@.to_set().contains(id));
            let m = choose|m: int| 0 <= m < ids@.len() && ids@[m] == id;
            lemma_rank(ids@, m);
            assert(pend.filter(|p: i64| p < id) == ids@.to_set().filter(|p: i64| p < ids@[m]));
            if m < count {
                if m < count - 1 {
                    assert(ids@[m] < ids@[count - 1]);
                }
            } else {
                assert(ids@[count - 1] < ids@[m]);
            }
        }
        assert(queue_ordered(after)) by {
            assert forall|i: int, j: int| 0 <= i < j < after.len() implies after[i].item <= after[j].item && (after[i].item == after[j].item ==> after[i].target@ != after[j].target@) by {
                assert(before[i].item <= before[j].item);
            }
        }
        // what stays pending: the items later than `bound`
        let rest = ids@.skip(count as int);
        assert forall|id: i64| pending_items(after, None).contains(id) == rest.to_set().contains(id) by {
            if pending_items(after, None).contains(id) {
                let j = choose|j: int| 0 <= j < after.len() && after[j].item == id && selected(after[j], None);
                assert(after[j] == before[j]);
                assert(pend.contains(id));
                assert(ids@.to_set().contains(id));
                let m = choose|m: int| 0 <= m < ids@.len() && ids@[m] == id;
                if m < count {
                    if m < count - 1 {
                        assert(ids@[m] < ids@[count - 1]);
                    }
                }
                assert(rest[m - count] == id);
            }
            if rest.to_set().contains(id) {
                let w = choose|w: int| 0 <= w < rest.len() && rest[w] == id;
                assert(ids@[w + count] == id);
                assert(ids@.to_set().contains(id));
                assert(pend.contains(id));
                let j = choose|j: int| 0 <= j < before.len() && before[j].item == id && selected(before[j], None);
                assert(ids@[count - 1] < ids@[w + count]);
                assert(after[j] == before[j]);
            }
        }
        assert(pending_items(after, None) =~= rest.to_set());
        assert(strictly_ascending(rest)) by {
            assert forall|i: int, j: int| 0 <= i < j < rest.len() implies rest[i] < rest[j] by {
                assert(ids@[i + count] < ids@[j + count]);
            }
        }
        lemma_ascending_len(rest);
    }
    count
}

fn same_listen_exec(a: &NewPlay, b: &NewPlay) -> (r: bool)
    ensures
        r == same_listen(*a, *b),
{
    a.started_at == b.started_at && same_text(a.artist.as_str(), b.artist.as_str()) && same_text(
        a.title.as_str(),
        b.title.as_str(),
    )
}

/// Whether the listens are in id order and no listen is held twice.
fn plays_in_order(ps: &Vec<PlayRecord>) -> (r: bool)
    ensures
        r == (play_ids_ascending(ps@) && listens_distinct(ps@)),
{
    let n = ps.len();
    for k in 0..n
        invariant
            n == ps@.len(),
            play_ids_ascending(ps@.take(k as int)),
            listens_distinct(ps@.take(k as int)),
    {
        if k > 0 && ps[k - 1].id >= ps[k].id {
            proof {
                assert(!play_ids_ascending(ps@) ) by {
                    assert(ps@[k - 1].id >= ps@[k as int].id);
                }
            }
            return false;
        }
        for j in 0..k
            invariant
                n == ps@.len(),
                j <= k < n,
                forall|i: int| 0 <= i < j ==> !same_listen(ps@[i].play, ps@[k as int].play),
        {
            if same_listen_exec(&ps[j].play, &ps[k].play) {
                proof {
                    assert(!listens_distinct(ps@)) by {
                        assert(same_listen(ps@[j as int].play, ps@[k as int].play));
                    }
                }
                return false;
            }
        }
        proof {
            let t = ps@.take(k + 1);
            assert forall|a: int, b: int| 0 <= a < b < t.len() implies t[a].id < t[b].id by {
                if b < k {
                    assert(ps@.take(k as int)[a] == t[a]);
                    assert(ps@.take(k as int)[b] == t[b]);
                } else if a < k - 1 {
                    assert(ps@.take(k as int)[a] == t[a]);
                    assert(ps@.take(k as int)[k - 1] == t[k - 1]);
                }
            }
            assert forall|a: int, b: int| 0 <= a < t.len() && 0 <= b < t.len() && a != b implies !same_listen(#[trigger] t[a].play, #[trigger] t[b].play) by {
                if a < k && b < k {
                    assert(ps@.take(k as int)[a] == t[a]);
                    assert(ps@.take(k as int)[b] == t[b]);
                }
            }
        }
    }
    proof {
        assert(ps@.take(n as int) == ps@);
    }
    true
}

/// Whether the loves are in id order.
fn loves_in_order(ls: &Vec<LoveRecord>) -> (r: bool)
    ensures
        r == love_ids_ascending(ls@),
{
    let n = ls.len();
    for k in 0..n
        invariant
            n == ls@.len(),
            love_ids_ascending(ls@.take(k as int)),
    {
        if k > 0 && ls[k - 1].id >= ls[k].id {
            proof {
                assert(!love_ids_ascending(ls@)) by {
                    assert(ls@[k - 1].id >= ls@[k as int].id);
                }
            }
            return false;
        }
        proof {
            let t = ls@.take(k + 1);
            assert forall|a: int, b: int| 0 <= a < b < t.len() implies t[a].id < t[b].id by {
                if b < k {
                    assert(ls@.take(k as int)[a] == t[a]);
                    assert(ls@.take(k as int)[b] == t[b]);
                } else if a < k - 1 {
                    assert(ls@.take(k as int)[a] == t[a]);
                    assert(ls@.take(k as int)[k - 1] == t[k - 1]);
                }
            }
        }
    }
    proof {
        assert(ls@.take(n as int) == ls@);
    }
    true
}

/// Whether a queue is ordered by item and owes each target once per item.
fn queue_in_order(ds: &Vec<Delivery>) -> (r: bool)
    ensures
        r == queue_ordered(ds@),
{
    let n = ds.len();
    for k in 0..n
        invariant
            n == ds@.len(),
            queue_ordered(ds@.take(k as int)),
    {
        if k > 0 && ds[k - 1].item > ds[k].item {
            proof {
                assert(!queue_ordered(ds@)) by {
                    assert(ds@[k - 1].item > ds@[k as int].item);
                }
            }
            return false;
        }
        for j in 0..k
            invariant
                n == ds@.len(),
                j <= k < n,
                forall|i: int| 0 <= i < j ==> !(ds@[i].item == ds@[k as int].item && ds@[i].target@ == ds@[k as int].target@),
        {
            if ds[j].item == ds[k].item && same_text(ds[j].target.as_str(), ds[k].target.as_str()) {
                proof {
                    assert(!queue_ordered(ds@)) by {
                        assert(ds@[j as int].item == ds@[k as int].item);
                    }
                }
                return false;
            }
        }
        proof {
            let t = ds@.take(k + 1);
            assert forall|a: int, b: int| 0 <= a < b < t.len() implies t[a].item <= t[b].item && (t[a].item == t[b].item ==> t[a].target@ != t[b].target@) by {
                if b < k {
                    assert(ds@.take(k as int)[a] == t[a]);
                    assert(ds@.take(k as int)[b] == t[b]);
                } else if a < k - 1 {
                    assert(ds@.take(k as int)[a] == t[a]);
                    assert(ds@.take(k as int)[k - 1] == t[k - 1]);
                }
            }
        }
    }
    proof {
        assert(ds@.take(n as int) == ds@);
    }
    true
}

impl ScrobbleLog {
    /// The listens, oldest first.
    pub closed spec fn history(&self) -> Seq<PlayRecord> {
        self.plays@
    }

    /// The loves and unloves, oldest first.
    pub closed spec fn love_history(&self) -> Seq<LoveRecord> {
        self.loves@
    }

    /// The deliveries owed for listens.
    pub closed spec fn play_queue(&self) -> Seq<Delivery> {
        self.play_deliveries@
    }

    /// The deliveries owed for loves.
    pub closed spec fn love_queue(&self) -> Seq<Delivery> {
        self.love_deliveries@
    }

    pub open spec fn wf(&self) -> bool {
        &&& play_ids_ascending(self.history())
        &&& listens_distinct(self.history())
        &&& love_ids_ascending(self.love_history())
        &&& queue_ordered(self.play_queue())
        &&& queue_ordered(self.love_queue())
    }

    /// An empty history with nothing queued.
    pub fn new() -> (r: Self)
        ensures
            r.wf(),
            r.history().len() == 0,
            r.love_history().len() == 0,
            r.play_queue().len() == 0,
            r.love_queue().len() == 0,
    {
        ScrobbleLog {
            plays: Vec::new(),
            loves: Vec::new(),
            play_deliveries: Vec::new(),
            love_deliveries: Vec::new(),
        }
    }

    /// Records a love or unlove and queues it for each of `targets`.
    pub fn record_love(&mut self, love: &NewLove, targets: &[&str], now: i64) -> (id: i64)
        requires
            old(self).wf(),
            next_love_id(old(self).love_history()) <= i64::MAX,
        ensures
            final(self).wf(),
            id == next_love_id(old(self).love_history()),
            final(self).love_history() == old(self).love_history().push(
                LoveRecord { id, love: *love },
            ),
            enqueued(old(self).love_queue(), final(self).love_queue(), id, text_views(targets@), now),
            final(self).history() == old(self).history(),
            final(self).play_queue() == old(self).play_queue(),
    {
        let n = self.loves.len();
        let id: i64 = if n == 0 {
            1
        } else {
            self.loves[n - 1].id + 1
        };
        self.loves.push(LoveRecord { id, love: copy_love(love) });
        enqueue_all(&mut self.love_deliveries, id, targets, now);
        id
    }

    /// Records a listen. The same listen recorded again is merged into the
    /// row it already has (see `merged_play`) and keeps its id. A qualified
    /// listen is queued for each of `targets` it is not owed to yet; an
    /// unqualified one is history only.
    pub fn record_play(&mut self, play: &NewPlay, targets: &[&str], now: i64) -> (id: i64)
        requires
            old(self).wf(),
            next_play_id(old(self).history()) <= i64::MAX,
        ensures
            final(self).wf(),
            id == recorded_id(old(self).history(), *play),
            final(self).history() == recorded(old(self).history(), *play),
            play.qualified ==> enqueued(
                old(self).play_queue(),
                final(self).play_queue(),
                id,
                text_views(targets@),
                now,
            ),
            !play.qualified ==> final(self).play_queue() == old(self).play_queue(),
            final(self).love_history() == old(self).love_history(),
            final(self).love_queue() == old(self).love_queue(),
    {
        let n = self.plays.len();
        let mut found: Option<usize> = None;
        let mut k: usize = 0;
        while k < n
            invariant
                n == self.plays.len(),
                k <= n,
                found is None ==> forall|j: int| 0 <= j < k ==> !same_listen(self.plays@[j].play, *play),
                found matches Some(f) ==> f < n && same_listen(self.plays@[f as int].play, *play),
            decreases n - k,
        {
            if found.is_none() && self.plays[k].play.started_at == play.started_at
                && same_text(self.plays[k].play.artist.as_str(), play.artist.as_str())
                && same_text(self.plays[k].play.title.as_str(), play.title.as_str()) {
                found = Some(k);
            }
            k = k + 1;
        }
        let ghost old_plays = self.plays@;
        let id: i64 = match found {
            Some(k) => {
                let stored = &self.plays[k].play;
                let a = secs_of(stored.played_secs);
                let b = secs_of(play.played_secs);
                let mut merged = copy_play(stored);
                merged.played_secs = Some(if a >= b { a } else { b });
                merged.qualified = stored.qualified || play.qualified;
                let id = self.plays[k].id;
                proof {
                    assert(same_listen(old_plays[k as int].play, *play));
                    assert(recorded_at(old_plays, *play) == Some(k as int)) by {
                        let c = choose|i: int| 0 <= i < old_plays.len() && same_listen(old_plays[i].play, *play);
                        if c != k as int {
                            assert(!same_listen(old_plays[c].play, old_plays[k as int].play));
                        }
                    }
                    assert(merged == merged_play(old_plays[k as int].play, *play));
                }
                self.plays.set(k, PlayRecord { id, play: merged });
                proof {
                    assert forall|i: int, j: int|
                        0 <= i < self.plays@.len() && 0 <= j < self.plays@.len() && i != j
                        implies !same_listen(
                        #[trigger] self.plays@[i].play,
                        #[trigger] self.plays@[j].play,
                    ) by {
                        assert(!same_listen(old_plays[i].play, old_plays[j].play));
                    }
                }
                id
            },
            None => {
                let id: i64 = if n == 0 {
                    1
                } else {
                    self.plays[n - 1].id + 1
                };
                self.plays.push(PlayRecord { id, play: copy_play(play) });
                proof {
                    assert(recorded_at(old_plays, *play) is None);
                    assert forall|i: int, j: int|
                        0 <= i < self.plays@.len() && 0 <= j < self.plays@.len() && i != j
                        implies !same_listen(
                        #[trigger] self.plays@[i].play,
                        #[trigger] self.plays@[j].play,
                    ) by {
                        if i < n && j < n {
                            assert(!same_listen(old_plays[i].play, old_plays[j].play));
                        } else if i == n {
                            assert(!same_listen(old_plays[j].play, *play));
                        } else {
                            assert(!same_listen(old_plays[i].play, *play));
                        }
                    }
                }
                id
            },
        };
        if play.qualified {
            enqueue_all(&mut self.play_deliveries, id, targets, now);
        }
        id
    }
    /// The listens still owed to `target`, oldest first, at most `max` of them.
    pub fn pending_plays(&self, target: &str, max: usize) -> (r: Vec<PendingPlay>)
        requires
            self.wf(),
        ensures
            r@ == at_most(owed_plays(self.play_queue(), self.history(), target@), max as int),
    {
        let mut r: Vec<PendingPlay> = Vec::new();
        let mut k: usize = 0;
        let ghost q = self.play_deliveries@;
        let ghost ps = self.plays@;
        while k < self.play_deliveries.len() && r.len() < max
            invariant
                q == self.play_deliveries@,
                ps == self.plays@,
                play_ids_ascending(ps),
                k <= q.len(),
                r.len() <= max,
                r@ == owed_plays(q.take(k as int), ps, target@),
            decreases q.len() - k,
        {
            let d = &self.play_deliveries[k];
            proof {
                assert(q.take(k + 1).drop_last() == q.take(k as int));
                assert(q.take(k + 1).last() == q[k as int]);
            }
            if d.state == PENDING && same_text(d.target.as_str(), target) {
                match find_play(&self.plays, d.item) {
                    Some(i) => {
                        let p = &self.plays[i];
                        r.push(
                            PendingPlay {
                                id: p.id,
                                artist: p.play.artist.clone(),
                                title: p.play.title.clone(),
                                album: copy_text(&p.play.album),
                                album_artist: copy_text(&p.play.album_artist),
                                track_number: p.play.track_number,
                                duration_secs: p.play.duration_secs,
                                started_at: p.play.started_at,
                            },
                        );
                    },
                    None => {},
                }
            }
            k = k + 1;
        }
        proof {
            lemma_owed_plays_prefix(q, ps, target@, k as int);
            if k == q.len() {
                assert(q.take(k as int) == q);
            }
        }
        r
    }

    /// The loves still owed to `target`, oldest first, at most `max` of them.
    pub fn pending_loves(&self, target: &str, max: usize) -> (r: Vec<PendingLove>)
        requires
            self.wf(),
        ensures
            r@ == at_most(owed_loves(self.love_queue(), self.love_history(), target@), max as int),
    {
        let mut r: Vec<PendingLove> = Vec::new();
        let mut k: usize = 0;
        let ghost q = self.love_deliveries@;
        let ghost ls = self.loves@;
        while k < self.love_deliveries.len() && r.len() < max
            invariant
                q == self.love_deliveries@,
                ls == self.loves@,
                love_ids_ascending(ls),
                k <= q.len(),
                r.len() <= max,
                r@ == owed_loves(q.take(k as int), ls, target@),
            decreases q.len() - k,
        {
            let d = &self.love_deliveries[k];
            proof {
                assert(q.take(k + 1).drop_last() == q.take(k as int));
                assert(q.take(k + 1).last() == q[k as int]);
            }
            if d.state == PENDING && same_text(d.target.as_str(), target) {
                match find_love(&self.loves, d.item) {
                    Some(i) => {
                        let l = &self.loves[i];
                        r.push(
                            PendingLove {
                                id: l.id,
                                artist: l.love.artist.clone(),
                                title: l.love.title.clone(),
                                loved: l.love.loved,
                                at: l.love.at,
                            },
                        );
                    },
                    None => {},
                }
            }
            k = k + 1;
        }
        proof {
            lemma_owed_loves_prefix(q, ls, target@, k as int);
            if k == q.len() {
                assert(q.take(k as int) == q);
            }
        }
        r
    }
    /// Settles the listens `ids` for `target` with `outcome` (see `settle_one`).
    pub fn settle_plays(&mut self, ids: &[i64], target: &str, outcome: &DeliveryOutcome, now: i64)
        requires
            old(self).wf(),
            forall|k: int| 0 <= k < old(self).play_queue().len() ==> old(self).play_queue()[k].attempts + ids@.len() <= i64::MAX,
        ensures
            final(self).wf(),
            final(self).play_queue().len() == old(self).play_queue().len(),
            forall|k: int| 0 <= k < old(self).play_queue().len() ==> #[trigger] final(self).play_queue()[k] == settled(
                old(self).play_queue()[k],
                ids@,
                target@,
                *outcome,
                now,
            ),
            final(self).history() == old(self).history(),
            final(self).love_history() == old(self).love_history(),
            final(self).love_queue() == old(self).love_queue(),
    {
        settle_queue(&mut self.play_deliveries, ids, target, outcome, now);
    }

    /// Settles the loves `ids` for `target` with `outcome` (see `settle_one`).
    pub fn settle_loves(&mut self, ids: &[i64], target: &str, outcome: &DeliveryOutcome, now: i64)
        requires
            old(self).wf(),
            forall|k: int| 0 <= k < old(self).love_queue().len() ==> old(self).love_queue()[k].attempts + ids@.len() <= i64::MAX,
        ensures
            final(self).wf(),
            final(self).love_queue().len() == old(self).love_queue().len(),
            forall|k: int| 0 <= k < old(self).love_queue().len() ==> #[trigger] final(self).love_queue()[k] == settled(
                old(self).love_queue()[k],
                ids@,
                target@,
                *outcome,
                now,
            ),
            final(self).history() == old(self).history(),
            final(self).love_history() == old(self).love_history(),
            final(self).play_queue() == old(self).play_queue(),
    {
        settle_queue(&mut self.love_deliveries, ids, target, outcome, now);
    }
    /// How many listens and loves are still owed to any of `targets`. An item
    /// owed to several of them counts once; no targets, no count.
    pub fn pending_scrobble_count(&self, targets: &[&str]) -> (r: usize)
        requires
            self.wf(),
            self.play_queue().len() + self.love_queue().len() <= usize::MAX,
        ensures
            r == pending_items(self.play_queue(), Some(text_views(targets@))).len() + pending_items(
                self.love_queue(),
                Some(text_views(targets@)),
            ).len(),
    {
        let a = pending_ids(&self.play_deliveries, Some(targets));
        let b = pending_ids(&self.love_deliveries, Some(targets));
        proof {
            lemma_ascending_len(a@);
            lemma_ascending_len(b@);
        }
        a.len() + b.len()
    }

    /// A log over stored rows, or `None` where they break its order: ids not
    /// ascending, a listen held twice, or a queue out of item order or owing
    /// a target twice for one item.
    pub fn from_rows(
        plays: Vec<PlayRecord>,
        loves: Vec<LoveRecord>,
        play_deliveries: Vec<Delivery>,
        love_deliveries: Vec<Delivery>,
    ) -> (r: Option<Self>)
        ensures
            r is Some <==> (play_ids_ascending(plays@) && listens_distinct(plays@) && love_ids_ascending(loves@)
                && queue_ordered(play_deliveries@) && queue_ordered(love_deliveries@)),
            r matches Some(log) ==> {
                &&& log.wf()
                &&& log.history() == plays@
                &&& log.love_history() == loves@
                &&& log.play_queue() == play_deliveries@
                &&& log.love_queue() == love_deliveries@
            },
    {
        if plays_in_order(&plays) && loves_in_order(&loves) && queue_in_order(&play_deliveries)
            && queue_in_order(&love_deliveries) {
            Some(ScrobbleLog { plays, loves, play_deliveries, love_deliveries })
        } else {
            None
        }
    }

    /// The listens, oldest first.
    pub fn play_records(&self) -> (r: &Vec<PlayRecord>)
        ensures
            r@ == self.history(),
    {
        &self.plays
    }

    /// The loves, oldest first.
    pub fn love_records(&self) -> (r: &Vec<LoveRecord>)
        ensures
            r@ == self.love_history(),
    {
        &self.loves
    }

    /// The rows owed for listens.
    pub fn play_delivery_rows(&self) -> (r: &Vec<Delivery>)
        ensures
            r@ == self.play_queue(),
    {
        &self.play_deliveries
    }

    /// The rows owed for loves.
    pub fn love_delivery_rows(&self) -> (r: &Vec<Delivery>)
        ensures
            r@ == self.love_queue(),
    {
        &self.love_deliveries
    }

    /// Keeps at most `cap` items pending, counting items and not rows: when
    /// more are pending, the oldest listens are dropped first, then the
    /// oldest loves, each with every one of its rows. The history is kept.
    /// Says how many items were dropped.
    pub fn trim_pending_deliveries(&mut self, cap: usize, now: i64) -> (dropped: usize)
        requires
            old(self).wf(),
            old(self).play_queue().len() + old(self).love_queue().len() <= usize::MAX,
        ensures
            final(self).wf(),
            ({
                let plays = pending_items(old(self).play_queue(), None).len() as int;
                let loves = pending_items(old(self).love_queue(), None).len() as int;
                let over = excess(plays + loves, cap as int);
                &&& dropped == over
                &&& pending_items(final(self).play_queue(), None).len() + pending_items(
                    final(self).love_queue(),
                    None,
                ).len() == plays + loves - over
                &&& dropped_oldest(old(self).play_queue(), final(self).play_queue(), over, now)
                &&& dropped_oldest(
                    old(self).love_queue(),
                    final(self).love_queue(),
                    if over <= plays {
                        0
                    } else {
                        over - plays
                    },
                    now,
                )
            }),
            final(self).history() == old(self).history(),
            final(self).love_history() == old(self).love_history(),
    {
        let pp = pending_ids(&self.play_deliveries, None);
        let pl = pending_ids(&self.love_deliveries, None);
        proof {
            lemma_ascending_len(pp@);
            lemma_ascending_len(pl@);
        }
        let total = pp.len() + pl.len();
        if total <= cap {
            proof {
                lemma_nothing_dropped(self.play_deliveries@, now);
                lemma_nothing_dropped(self.love_deliveries@, now);
            }
            return 0;
        }
        let mut remaining = total - cap;
        let mut dropped = drop_oldest_items(&mut self.play_deliveries, remaining, now);
        remaining = remaining - dropped;
        if remaining > 0 {
            dropped = dropped + drop_oldest_items(&mut self.love_deliveries, remaining, now);
        } else {
            proof {
                lemma_nothing_dropped(self.love_deliveries@, now);
            }
        }
        dropped
    }
}

} // verus!

verus! {

/// A listen recorded again is found again, under the id it was first given.
pub proof fn law_a_listen_keeps_its_id(ps: Seq<PlayRecord>, p: NewPlay, again: NewPlay)
    requires
        play_ids_ascending(ps),
        listens_distinct(ps),
        next_play_id(ps) <= i64::MAX,
        same_listen(p, again),
    ensures
        recorded_at(recorded(ps, p), again) is Some,
        recorded_id(recorded(ps, p), again) == recorded_id(ps, p),
{
    let after = recorded(ps, p);
    match recorded_at(ps, p) {
        Some(i) => {
            assert(same_listen(after[i].play, again));
            let c = choose|c: int| 0 <= c < after.len() && same_listen(after[c].play, again);
            if c != i {
                assert(after[c] == ps[c]);
                assert(same_listen(ps[c].play, ps[i].play));
            }
        },
        None => {
            let n = ps.len() as int;
            assert(same_listen(after[n].play, again));
            let c = choose|c: int| 0 <= c < after.len() && same_listen(after[c].play, again);
            if c != n {
                assert(after[c] == ps[c]);
                assert(same_listen(ps[c].play, p));
            }
        },
    }
}

/// Recording a listen never shrinks what the history holds: every listen
/// keeps its id, its played time only grows, and a listen that qualified
/// stays qualified.
pub proof fn law_recording_never_shrinks(ps: Seq<PlayRecord>, p: NewPlay, j: int)
    requires
        0 <= j < ps.len(),
    ensures
        recorded(ps, p).len() >= ps.len(),
        recorded(ps, p)[j].id == ps[j].id,
        secs_or_zero(ps[j].play.played_secs) <= secs_or_zero(recorded(ps, p)[j].play.played_secs),
        ps[j].play.qualified ==> recorded(ps, p)[j].play.qualified,
{
}

/// A delivery that has left the queue, sent or dropped, is not reopened or
/// changed by a later settle.
pub proof fn law_a_settled_delivery_stays_settled(
    d: Delivery,
    ids: Seq<i64>,
    target: Seq<char>,
    outcome: DeliveryOutcome,
    now: i64,
)
    requires
        d.state != PENDING,
    ensures
        settled(d, ids, target, outcome, now) == d,
    decreases ids.len(),
{
    if ids.len() > 0 {
        law_a_settled_delivery_stays_settled(d, ids.drop_last(), target, outcome, now);
    }
}

/// Settling for one target leaves what other targets are owed as it is.
pub proof fn law_settling_touches_one_target(
    d: Delivery,
    ids: Seq<i64>,
    target: Seq<char>,
    outcome: DeliveryOutcome,
    now: i64,
)
    requires
        d.target@ != target,
    ensures
        settled(d, ids, target, outcome, now) == d,
    decreases ids.len(),
{
    if ids.len() > 0 {
        law_settling_touches_one_target(d, ids.drop_last(), target, outcome, now);
    }
}

/// A deferred delivery stays pending and keeps the error it was deferred with.
pub proof fn law_a_deferred_delivery_stays_pending(
    d: Delivery,
    ids: Seq<i64>,
    target: Seq<char>,
    message: String,
    now: i64,
)
    requires
        d.state == PENDING,
        d.target@ == target,
        ids.contains(d.item),
    ensures
        settled(d, ids, target, DeliveryOutcome::Deferred(message), now).state == PENDING,
        settled(d, ids, target, DeliveryOutcome::Deferred(message), now).last_error == Some(message),
    decreases ids.len(),
{
    lemma_deferred_pending(d, ids, target, message, now);
    let rest = ids.drop_last();
    if ids.last() != d.item {
        let k = choose|k: int| 0 <= k < ids.len() && ids[k] == d.item;
        assert(rest[k] == d.item);
        law_a_deferred_delivery_stays_pending(d, rest, target, message, now);
    }
}

proof fn lemma_deferred_pending(d: Delivery, ids: Seq<i64>, target: Seq<char>, message: String, now: i64)
    requires
        d.state == PENDING,
        d.target@ == target,
    ensures
        settled(d, ids, target, DeliveryOutcome::Deferred(message), now).state == PENDING,
        settled(d, ids, target, DeliveryOutcome::Deferred(message), now).item == d.item,
        settled(d, ids, target, DeliveryOutcome::Deferred(message), now).target == d.target,
    decreases ids.len(),
{
    if ids.len() > 0 {
        lemma_deferred_pending(d, ids.drop_last(), target, message, now);
    }
}

/// A pending delivery settled as sent or dropped leaves the queue, marked
/// as such.
pub proof fn law_sent_or_dropped_leaves_the_queue(
    d: Delivery,
    ids: Seq<i64>,
    target: Seq<char>,
    outcome: DeliveryOutcome,
    now: i64,
)
    requires
        d.state == PENDING,
        d.target@ == target,
        ids.contains(d.item),
        !(outcome is Deferred),
    ensures
        settled(d, ids, target, outcome, now).state == if outcome is Sent {
            SENT
        } else {
            DROPPED
        },
    decreases ids.len(),
{
    let rest = ids.drop_last();
    if ids.last() == d.item {
        let mid = settled(d, rest, target, outcome, now);
        lemma_state_stays_or_leaves(d, rest, target, outcome, now);
        if mid.state != PENDING {
            assert(settle_one(mid, ids.last(), target, outcome, now) == mid);
        }
    } else {
        let k = choose|k: int| 0 <= k < ids.len() && ids[k] == d.item;
        assert(rest[k] == d.item);
        law_sent_or_dropped_leaves_the_queue(d, rest, target, outcome, now);
        law_a_settled_delivery_stays_settled(
            settled(d, rest, target, outcome, now),
            seq![ids.last()],
            target,
            outcome,
            now,
        );
        assert(seq![ids.last()].drop_last() =~= Seq::<i64>::empty());
    }
}

proof fn lemma_state_stays_or_leaves(d: Delivery, ids: Seq<i64>, target: Seq<char>, outcome: DeliveryOutcome, now: i64)
    requires
        d.state == PENDING,
        d.target@ == target,
        !(outcome is Deferred),
    ensures
        settled(d, ids, target, outcome, now).item == d.item,
        settled(d, ids, target, outcome, now).target == d.target,
        settled(d, ids, target, outcome, now).state == PENDING || settled(d, ids, target, outcome, now).state == if outcome is Sent {
            SENT
        } else {
            DROPPED
        },
    decreases ids.len(),
{
    if ids.len() > 0 {
        lemma_state_stays_or_leaves(d, ids.drop_last(), target, outcome, now);
    }
}

proof fn lemma_pending_finite(ds: Seq<Delivery>, only: Option<Seq<Seq<char>>>)
    ensures
        pending_items(ds, only).finite(),
{
    let all = ds.map_values(|d: Delivery| d.item).to_set();
    assert forall|id: i64| pending_items(ds, only).contains(id) implies all.contains(id) by {
        let i = choose|i: int| 0 <= i < ds.len() && ds[i].item == id && selected(ds[i], only);
        assert(ds.map_values(|d: Delivery| d.item)[i] == id);
    }
    vstd::seq_lib::seq_to_set_is_finite(ds.map_values(|d: Delivery| d.item));
    vstd::set_lib::lemma_len_subset(pending_items(ds, only), all);
}

/// Trimming drops the oldest: every item it dropped is older than every
/// item still pending.
pub proof fn law_trimming_drops_the_oldest(
    before: Seq<Delivery>,
    after: Seq<Delivery>,
    limit: int,
    now: i64,
    k: int,
    j: int,
)
    requires
        dropped_oldest(before, after, limit, now),
        0 <= k < before.len(),
        0 <= j < before.len(),
        before[k].state == PENDING,
        after[k].state != PENDING,
        after[j].state == PENDING,
    ensures
        before[k].item < after[j].item,
{
    let x = before[k].item;
    let y = before[j].item;
    assert(among_oldest(before, x, limit)) by {
        if !among_oldest(before, x, limit) {
            assert(after[k] == before[k]);
        }
    }
    assert(after[j] == before[j]) by {
        if before[j].state == PENDING && among_oldest(before, y, limit) {
            assert(overflowed(before[j], after[j], now));
        }
    }
    let pend = pending_items(before, None);
    assert(pend.contains(y));
    assert(!among_oldest(before, y, limit));
    if y <= x {
        lemma_pending_finite(before, None);
        pend.lemma_len_filter(|p: i64| p < x);
        assert(pend.filter(|p: i64| p < y).subset_of(pend.filter(|p: i64| p < x)));
        vstd::set_lib::lemma_len_subset(pend.filter(|p: i64| p < y), pend.filter(|p: i64| p < x));
    }
}

} // verus!
