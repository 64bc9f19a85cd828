//! Filling the local cache with the server files of an album or an artist:
//! which files are missing, how many of them fit the cache, and the jobs
//! that fetch them.
use vstd::prelude::*;
use crate::models::Track;
use crate::remote::parse_spec;
use crate::paths::{paths_equal, same_path};
use crate::text::{chars_of, same_chars};

verus! {

/// What a fill was asked for.
#[derive(Clone, Copy, Debug, PartialEq, Eq, Hash, Structural)]
pub enum FillTarget {
    Album(i64),
    Artist(i64),
}

/// The files to fetch, in order, with their sizes in bytes.
#[derive(Clone, Debug, Default, PartialEq, Eq)]
pub struct FillPlan {
    pub files: Vec<String>,
    pub sizes: Vec<u64>,
}

/// The bytes of the first `k` sizes.
pub open spec fn prefix_sum(sizes: Seq<u64>, k: int) -> int
    decreases k,
{
    if k <= 0 {
        0
    } else {
        prefix_sum(sizes, k - 1) + sizes[k - 1]
    }
}

/// The running total of the first `k` sizes, as a saturating sum counts it.
pub open spec fn saturated(sizes: Seq<u64>, k: int) -> int {
    if prefix_sum(sizes, k) > u64::MAX {
        u64::MAX as int
    } else {
        prefix_sum(sizes, k)
    }
}

/// `r` is how many files, taken in order, fit `limit`: each of the first
/// `r` running totals stays within it, and the next one does not.
pub open spec fn is_fitting_count(sizes: Seq<u64>, limit: u64, r: int) -> bool {
    &&& 0 <= r <= sizes.len()
    &&& forall|k: int| 1 <= k <= r ==> #[trigger] saturated(sizes, k) <= limit
    &&& r < sizes.len() ==> saturated(sizes, r + 1) > limit
}

proof fn lemma_prefix_sum_grows(sizes: Seq<u64>, a: int, b: int)
    requires
        0 <= a <= b,
    ensures
        prefix_sum(sizes, a) <= prefix_sum(sizes, b),
    decreases b - a,
{
    if a < b {
        lemma_prefix_sum_grows(sizes, a, b - 1);
    }
}

/// How many of the files, taken in order, fit `limit`.
pub fn fitting_prefix(sizes: &[u64], limit: u64) -> (r: usize)
    ensures
        is_fitting_count(sizes@, limit, r as int),
{
    let mut used: u64 = 0;
    let mut i: usize = 0;
    while i < sizes.len()
        invariant
            i <= sizes@.len(),
            used == saturated(sizes@, i as int),
            forall|k: int| 1 <= k <= i ==> #[trigger] saturated(sizes@, k) <= limit,
        decreases sizes.len() - i,
    {
        let next = used.saturating_add(sizes[i]);
        assert(next == saturated(sizes@, i + 1)) by {
            assert(prefix_sum(sizes@, i + 1) == prefix_sum(sizes@, i as int) + sizes@[i as int]);
        }
        if next > limit {
            return i;
        }
        used = next;
        i = i + 1;
    }
    i
}

/// The bytes of all files.
pub open spec fn plan_total(p: FillPlan) -> int {
    prefix_sum(p.sizes@, p.sizes@.len() as int)
}

/// The first `count` files with their sizes.
pub open spec fn entries_spec(files: Seq<String>, sizes: Seq<u64>, count: int) -> Seq<
    (Seq<char>, u64),
> {
    let n = if files.len() < sizes.len() {
        files.len() as int
    } else {
        sizes.len() as int
    };
    let m = if count < n {
        count
    } else {
        n
    };
    Seq::new(m as nat, |i: int| (files[i]@, sizes[i]))
}

impl FillPlan {
    /// The bytes of all files.
    pub fn total(&self) -> (r: u64)
        requires
            plan_total(*self) <= u64::MAX,
        ensures
            r == plan_total(*self),
    {
        let mut sum: u64 = 0;
        for i in 0..self.sizes.len()
            invariant
                sum == prefix_sum(self.sizes@, i as int),
                prefix_sum(self.sizes@, self.sizes@.len() as int) <= u64::MAX,
        {
            proof {
                lemma_prefix_sum_grows(self.sizes@, i + 1, self.sizes@.len() as int);
            }
            sum = sum + self.sizes[i];
        }
        sum
    }

    /// How many of the files, taken in order, fit `limit`.
    pub fn fitting(&self, limit: u64) -> (r: usize)
        ensures
            is_fitting_count(self.sizes@, limit, r as int),
    {
        fitting_prefix(self.sizes.as_slice(), limit)
    }

    /// The first `count` files with their sizes.
    pub fn entries(&self, count: usize) -> (r: Vec<(String, u64)>)
        ensures
            r@.len() == entries_spec(self.files@, self.sizes@, count as int).len(),
            forall|i: int|
                0 <= i < r@.len() ==> (#[trigger] r@[i]).0@ == entries_spec(
                    self.files@,
                    self.sizes@,
                    count as int,
                )[i].0 && r@[i].1 == entries_spec(self.files@, self.sizes@, count as int)[i].1,
    {
        let mut r: Vec<(String, u64)> = Vec::new();
        let mut i: usize = 0;
        while i < count && i < self.files.len() && i < self.sizes.len()
            invariant
                i <= count,
                i <= self.files@.len(),
                i <= self.sizes@.len(),
                r@.len() == i,
                forall|j: int|
                    0 <= j < i ==> (#[trigger] r@[j]).0@ == self.files@[j]@ && r@[j].1
                        == self.sizes@[j],
            decreases count - i,
        {
            r.push((self.files[i].clone(), self.sizes[i]));
            i = i + 1;
        }
        r
    }
}

// ---------------------------------------------------------------------------
// Missing files
// ---------------------------------------------------------------------------

/// Whether the file of track `i` is known to be in the cache.
pub open spec fn cached_at(cached: Seq<bool>, i: int) -> bool {
    0 <= i < cached.len() && cached[i]
}

/// Whether a track before `i` has the same path as track `i` (compared as
/// paths, see `same_path`).
pub open spec fn seen_before(tracks: Seq<Track>, i: int) -> bool {
    exists|j: int| 0 <= j < i && same_path((#[trigger] tracks[j]).path@, tracks[i].path@)
}

/// The server files of the tracks that are not in the cache, each once, in
/// the order of the tracks: (source id, key, path). `cached[i]` tells whether
/// the file of track `i` is in the cache; a missing flag counts as not.
pub open spec fn missing_spec(tracks: Seq<Track>, cached: Seq<bool>) -> Seq<
    (i64, Seq<char>, Seq<char>),
>
    decreases tracks.len(),
{
    if tracks.len() == 0 {
        Seq::empty()
    } else {
        let i = tracks.len() - 1;
        let before = missing_spec(tracks.drop_last(), cached);
        match parse_spec(tracks[i].path@) {
            None => before,
            Some(r) => if seen_before(tracks, i) || cached_at(cached, i) {
                before
            } else {
                before.push((r.0, r.1, tracks[i].path@))
            },
        }
    }
}

pub open spec fn missing_view(v: Seq<(i64, String, String)>) -> Seq<(i64, Seq<char>, Seq<char>)> {
    Seq::new(v.len(), |i: int| (v[i].0, v[i].1@, v[i].2@))
}

fn seen_exec(tracks: &[Track], i: usize) -> (r: bool)
    requires
        i < tracks@.len(),
    ensures
        r == seen_before(tracks@, i as int),
{
    let path = chars_of(tracks[i].path.as_str());
    for j in 0..i
        invariant
            i < tracks@.len(),
            path@ == tracks@[i as int].path@,
            forall|k: int| 0 <= k < j ==> !same_path((#[trigger] tracks@[k]).path@, tracks@[i as int].path@),
    {
        let other = chars_of(tracks[j].path.as_str());
        if paths_equal(other.as_slice(), path.as_slice()) {
            return true;
        }
    }
    false
}

/// The server files of the tracks that are not in the cache, each once.
pub fn missing_files(tracks: &[Track], cached: &[bool]) -> (r: Vec<(i64, String, String)>)
    ensures
        missing_view(r@) == missing_spec(tracks@, cached@),
{
    let mut r: Vec<(i64, String, String)> = Vec::new();
    for i in 0..tracks.len()
        invariant
            missing_view(r@) == missing_spec(tracks@.take(i as int), cached@),
    {
        let ghost ts = tracks@.take(i + 1);
        assert(ts.drop_last() =~= tracks@.take(i as int));
        assert(ts[i as int] == tracks@[i as int]);
        assert(seen_before(ts, i as int) == seen_before(tracks@, i as int)) by {
            if seen_before(tracks@, i as int) {
                let j = choose|j: int|
                    0 <= j < i && same_path((#[trigger] tracks@[j]).path@, tracks@[i as int].path@);
                assert(ts[j] == tracks@[j]);
            }
            if seen_before(ts, i as int) {
                let j = choose|j: int| 0 <= j < i && same_path((#[trigger] ts[j]).path@, ts[i as int].path@);
                assert(ts[j] == tracks@[j]);
            }
        }
        match tracks[i].remote() {
            None => {},
            Some(reference) => {
                let seen = seen_exec(tracks, i);
                let is_cached = i < cached.len() && cached[i];
                if !seen && !is_cached {
                    let ghost before = r@;
                    r.push((reference.source_id, reference.key, tracks[i].path.clone()));
                    assert(missing_view(r@) =~= missing_view(before).push(
                        (reference.source_id, reference.key@, tracks@[i as int].path@),
                    ));
                }
            },
        }
    }
    assert(tracks@.take(tracks@.len() as int) =~= tracks@);
    r
}

/// Whether some server file of the tracks is not in the cache.
pub fn has_missing(tracks: &[Track], cached: &[bool]) -> (r: bool)
    ensures
        r == (missing_spec(tracks@, cached@).len() > 0),
{
    let missing = missing_files(tracks, cached);
    missing.len() > 0
}

/// The size the server listed for (source id, key), the last listing of it
/// counting, as a map filled in order keeps; a missing or negative size
/// counts as 0.
pub open spec fn listed_size(sizes: Seq<(i64, String, i64)>, source_id: i64, key: Seq<char>) -> u64
    decreases sizes.len(),
{
    if sizes.len() == 0 {
        0
    } else if sizes.last().0 == source_id && sizes.last().1@ == key {
        if sizes.last().2 > 0 {
            sizes.last().2 as u64
        } else {
            0
        }
    } else {
        listed_size(sizes.drop_last(), source_id, key)
    }
}

fn listed_size_exec(sizes: &[(i64, String, i64)], source_id: i64, key: &String) -> (r: u64)
    ensures
        r == listed_size(sizes@, source_id, key@),
{
    let wanted = chars_of(key.as_str());
    let mut n = sizes.len();
    assert(sizes@.take(n as int) =~= sizes@);
    while n > 0
        invariant
            n <= sizes@.len(),
            wanted@ == key@,
            listed_size(sizes@.take(n as int), source_id, key@) == listed_size(
                sizes@,
                source_id,
                key@,
            ),
        decreases n,
    {
        let i = n - 1;
        assert(sizes@.take(n as int).last() == sizes@[i as int]);
        if sizes[i].0 == source_id {
            let k = chars_of(sizes[i].1.as_str());
            if same_chars(&k, &wanted) {
                let size = sizes[i].2;
                return if size > 0 {
                    size as u64
                } else {
                    0
                };
            }
        }
        assert(sizes@.take(n as int).drop_last() =~= sizes@.take(i as int));
        n = i;
    }
    assert(sizes@.take(0) =~= Seq::<(i64, String, i64)>::empty());
    0
}

/// The fill plan of the tracks: their missing server files, in order, with
/// the sizes the server listed for them.
pub fn plan(tracks: &[Track], cached: &[bool], sizes: &[(i64, String, i64)]) -> (r: FillPlan)
    ensures
        r.files@.len() == missing_spec(tracks@, cached@).len(),
        r.sizes@.len() == missing_spec(tracks@, cached@).len(),
        forall|i: int|
            0 <= i < r.files@.len() ==> (#[trigger] r.files@[i])@ == missing_spec(
                tracks@,
                cached@,
            )[i].2 && r.sizes@[i] == listed_size(
                sizes@,
                missing_spec(tracks@, cached@)[i].0,
                missing_spec(tracks@, cached@)[i].1,
            ),
{
    let missing = missing_files(tracks, cached);
    let ghost m = missing_spec(tracks@, cached@);
    let mut p = FillPlan { files: Vec::new(), sizes: Vec::new() };
    let mut i: usize = 0;
    while i < missing.len()
        invariant
            i <= missing@.len(),
            missing_view(missing@) == m,
            p.files@.len() == i,
            p.sizes@.len() == i,
            forall|j: int|
                0 <= j < i ==> (#[trigger] p.files@[j])@ == m[j].2 && p.sizes@[j] == listed_size(
                    sizes@,
                    m[j].0,
                    m[j].1,
                ),
        decreases missing@.len() - i,
    {
        assert(missing_view(missing@)[i as int] == (
            missing@[i as int].0,
            missing@[i as int].1@,
            missing@[i as int].2@,
        ));
        let size = listed_size_exec(sizes, missing[i].0, &missing[i].1);
        let file = missing[i].2.clone();
        let ghost fb = p.files@;
        let ghost sb = p.sizes@;
        p.files.push(file);
        p.sizes.push(size);
        assert forall|j: int| 0 <= j < i + 1 implies (#[trigger] p.files@[j])@ == m[j].2
            && p.sizes@[j] == listed_size(sizes@, m[j].0, m[j].1) by {
            if j < i {
                assert(p.files@[j] == fb[j]);
                assert(p.sizes@[j] == sb[j]);
            }
        }
        i = i + 1;
    }
    assert forall|i: int| 0 <= i < p.files@.len() implies (#[trigger] p.files@[i])@ == m[i].2
        && p.sizes@[i] == listed_size(sizes@, m[i].0, m[i].1) by {}
    p
}

// ---------------------------------------------------------------------------
// Fill jobs
// ---------------------------------------------------------------------------

/// How far a job has come.
#[derive(Clone, Copy, Debug, PartialEq, Eq)]
pub struct FillProgress {
    pub done_bytes: u64,
    pub total_bytes: u64,
}

/// A running job: what it fills, how far it is, and whether it was asked to
/// stop.
#[derive(Clone, Copy, Debug, PartialEq, Eq)]
pub struct FillJob {
    pub target: FillTarget,
    pub progress: FillProgress,
    pub cancelled: bool,
}

/// The running fill jobs, at most one per target, and a counter that moves
/// whenever the cache changes.
pub struct CacheFill {
    jobs: Vec<FillJob>,
    revision: u64,
}

/// The index of the job for `target`.
pub open spec fn find_job(jobs: Seq<FillJob>, target: FillTarget) -> Option<int>
    decreases jobs.len(),
{
    if jobs.len() == 0 {
        None
    } else {
        match find_job(jobs.drop_last(), target) {
            Some(i) => Some(i),
            None => if jobs.last().target == target {
                Some(jobs.len() - 1)
            } else {
                None
            },
        }
    }
}

pub open spec fn targets_unique(jobs: Seq<FillJob>) -> bool {
    forall|i: int, j: int|
        0 <= i < j < jobs.len() ==> (#[trigger] jobs[i]).target != (#[trigger] jobs[j]).target
}

/// No job has done more bytes than it has in all.
pub open spec fn progress_bounded(jobs: Seq<FillJob>) -> bool {
    forall|i: int|
        0 <= i < jobs.len() ==> (#[trigger] jobs[i]).progress.done_bytes
            <= jobs[i].progress.total_bytes
}

pub(crate) proof fn lemma_find_job(jobs: Seq<FillJob>, target: FillTarget)
    ensures
        match find_job(jobs, target) {
            Some(i) => 0 <= i < jobs.len() && jobs[i].target == target,
            None => forall|i: int| 0 <= i < jobs.len() ==> (#[trigger] jobs[i]).target != target,
        },
    decreases jobs.len(),
{
    if jobs.len() > 0 {
        let prev = jobs.drop_last();
        lemma_find_job(prev, target);
        match find_job(prev, target) {
            Some(i) => {
                assert(prev[i] == jobs[i]);
            },
            None => {
                assert forall|i: int| 0 <= i < jobs.len() implies (#[trigger] jobs[i]).target
                    != target || find_job(jobs, target) is Some by {
                    if i < jobs.len() - 1 {
                        assert(prev[i] == jobs[i]);
                    }
                }
            },
        }
    }
}

pub(crate) proof fn lemma_find_job_unique(jobs: Seq<FillJob>, target: FillTarget, i: int)
    requires
        targets_unique(jobs),
        0 <= i < jobs.len(),
        jobs[i].target == target,
    ensures
        find_job(jobs, target) == Some(i),
{
    lemma_find_job(jobs, target);
}

/// What a fill holds: its jobs, in the order they started, and the revision.
pub struct CacheFillView {
    pub jobs: Seq<FillJob>,
    pub revision: u64,
}

impl View for CacheFill {
    type V = CacheFillView;

    closed spec fn view(&self) -> CacheFillView {
        CacheFillView { jobs: self.jobs@, revision: self.revision }
    }
}

/// The progress of the job for `target`, if one runs.
pub open spec fn progress_of(jobs: Seq<FillJob>, target: FillTarget) -> Option<FillProgress> {
    match find_job(jobs, target) {
        Some(i) => Some(jobs[i].progress),
        None => None,
    }
}

impl CacheFill {
    #[verifier::type_invariant]
    closed spec fn inv(self) -> bool {
        targets_unique(self.jobs@) && progress_bounded(self.jobs@)
    }

    /// No jobs, revision 0.
    pub fn new() -> (r: CacheFill)
        ensures
            r@.jobs == Seq::<FillJob>::empty(),
            r@.revision == 0,
    {
        CacheFill { jobs: Vec::new(), revision: 0 }
    }

    /// The progress of the job for `target`, if one runs.
    pub fn progress(&self, target: FillTarget) -> (r: Option<FillProgress>)
        ensures
            r == progress_of(self@.jobs, target),
            r matches Some(p) ==> p.done_bytes <= p.total_bytes,
    {
        proof {
            use_type_invariant(self);
        }
        match self.find(target) {
            Some(i) => Some(self.jobs[i].progress),
            None => None,
        }
    }

    /// Whether the job for `target` was asked to stop; false when none runs.
    pub fn is_cancelled(&self, target: FillTarget) -> (r: bool)
        ensures
            r == match find_job(self@.jobs, target) {
                Some(i) => self@.jobs[i].cancelled,
                None => false,
            },
    {
        match self.find(target) {
            Some(i) => self.jobs[i].cancelled,
            None => false,
        }
    }

    /// The counter that moves whenever the cache changes.
    pub fn revision(&self) -> (r: u64)
        ensures
            r == self@.revision,
    {
        self.revision
    }

    fn find(&self, target: FillTarget) -> (r: Option<usize>)
        ensures
            match r {
                Some(i) => find_job(self@.jobs, target) == Some(i as int) && i < self@.jobs.len()
                    && self@.jobs[i as int].target == target,
                None => find_job(self@.jobs, target) is None,
            },
    {
        proof {
            use_type_invariant(self);
        }
        for i in 0..self.jobs.len()
            invariant
                targets_unique(self.jobs@),
                forall|j: int| 0 <= j < i ==> (#[trigger] self.jobs@[j]).target != target,
        {
            if self.jobs[i].target == target {
                proof {
                    lemma_find_job_unique(self.jobs@, target, i as int);
                }
                return Some(i);
            }
        }
        proof {
            lemma_find_job(self.jobs@, target);
            if find_job(self.jobs@, target) is Some {
                let k = find_job(self.jobs@, target)->0;
                assert(self.jobs@[k].target == target);
            }
        }
        None
    }

    /// Records that the cache changed.
    pub fn cache_changed(&mut self)
        requires
            old(self)@.revision < u64::MAX,
        ensures
            final(self)@.jobs == fill_step(old(self)@.jobs, FillStep::CacheChanged),
            final(self)@.revision == old(self)@.revision + 1,
    {
        proof {
            use_type_invariant(&*self);
        }
        self.revision = self.revision + 1;
    }

    /// Asks the job for `target`, if one runs, to stop.
    pub fn cancel(&mut self, target: FillTarget)
        ensures
            final(self)@.revision == old(self)@.revision,
            final(self)@.jobs == fill_step(old(self)@.jobs, FillStep::Cancel(target)),
    {
        proof {
            use_type_invariant(&*self);
        }
        match self.find(target) {
            Some(i) => {
                let job = self.jobs[i];
                proof {
                    lemma_find_job(self.jobs@, target);
                }
                let mut jobs: Vec<FillJob> = Vec::new();
                std::mem::swap(&mut jobs, &mut self.jobs);
                jobs.set(i, FillJob { target: job.target, progress: job.progress, cancelled: true });
                assert forall|a: int, b: int| 0 <= a < b < jobs@.len() implies (
                #[trigger] jobs@[a]).target != (#[trigger] jobs@[b]).target by {
                    assert(old(self)@.jobs[a].target != old(self)@.jobs[b].target);
                }
                self.jobs = jobs;
            },
            None => {},
        }
    }

    /// Starts a job for `target` over `files`, unless there are none or a job
    /// for `target` runs; tells whether it started.
    pub fn start(&mut self, target: FillTarget, files: &[(String, u64)]) -> (r: bool)
        requires
            prefix_sum(Seq::new(files@.len(), |i: int| files@[i].1), files@.len() as int)
                <= u64::MAX,
        ensures
            r == (files@.len() > 0 && find_job(old(self)@.jobs, target) is None),
            final(self)@.revision == old(self)@.revision,
            final(self)@.jobs == fill_step(
                old(self)@.jobs,
                FillStep::Start {
                    target,
                    files: files@.len() as usize,
                    total: prefix_sum(
                        Seq::new(files@.len(), |i: int| files@[i].1),
                        files@.len() as int,
                    ) as u64,
                },
            ),
    {
        proof {
            use_type_invariant(&*self);
        }
        if files.len() == 0 || self.find(target).is_some() {
            return false;
        }
        let ghost sizes = Seq::new(files@.len(), |i: int| files@[i].1);
        let mut total: u64 = 0;
        for i in 0..files.len()
            invariant
                sizes == Seq::new(files@.len(), |i: int| files@[i].1),
                total == prefix_sum(sizes, i as int),
                prefix_sum(sizes, files@.len() as int) <= u64::MAX,
        {
            proof {
                lemma_prefix_sum_grows(sizes, i + 1, files@.len() as int);
            }
            total = total + files[i].1;
        }
        proof {
            lemma_find_job(self.jobs@, target);
        }
        let ghost before = self.jobs@;
        let mut jobs: Vec<FillJob> = Vec::new();
        std::mem::swap(&mut jobs, &mut self.jobs);
        jobs.push(
            FillJob {
                target,
                progress: FillProgress { done_bytes: 0, total_bytes: total },
                cancelled: false,
            },
        );
        assert forall|a: int, b: int| 0 <= a < b < jobs@.len() implies (
        #[trigger] jobs@[a]).target != (#[trigger] jobs@[b]).target by {
            if b == before.len() {
                assert(before[a].target != target);
            } else {
                assert(jobs@[a] == before[a] && jobs@[b] == before[b]);
            }
        }
        self.jobs = jobs;
        true
    }

    /// Counts `size` more bytes as done for the job of `target`, if one runs:
    /// the size of one of its own files, so that what is done stays within
    /// what the job has in all.
    pub fn record_done(&mut self, target: FillTarget, size: u64)
        requires
            match find_job(old(self)@.jobs, target) {
                Some(i) => old(self)@.jobs[i].progress.done_bytes + size
                    <= old(self)@.jobs[i].progress.total_bytes,
                None => true,
            },
        ensures
            final(self)@.revision == old(self)@.revision,
            final(self)@.jobs == fill_step(old(self)@.jobs, FillStep::Record(target, size)),
    {
        proof {
            use_type_invariant(&*self);
        }
        match self.find(target) {
            Some(i) => {
                let job = self.jobs[i];
                proof {
                    lemma_find_job(self.jobs@, target);
                }
                let mut jobs: Vec<FillJob> = Vec::new();
                std::mem::swap(&mut jobs, &mut self.jobs);
                jobs.set(
                    i,
                    FillJob {
                        target: job.target,
                        progress: FillProgress {
                            done_bytes: job.progress.done_bytes + size,
                            total_bytes: job.progress.total_bytes,
                        },
                        cancelled: job.cancelled,
                    },
                );
                assert forall|a: int, b: int| 0 <= a < b < jobs@.len() implies (
                #[trigger] jobs@[a]).target != (#[trigger] jobs@[b]).target by {
                    assert(old(self)@.jobs[a].target != old(self)@.jobs[b].target);
                }
                self.jobs = jobs;
            },
            None => {},
        }
    }

    /// Ends the job of `target`, if one runs, and records that the cache
    /// changed.
    pub fn finish(&mut self, target: FillTarget)
        requires
            old(self)@.revision < u64::MAX,
        ensures
            final(self)@.revision == old(self)@.revision + 1,
            final(self)@.jobs == fill_step(old(self)@.jobs, FillStep::Finish(target)),
    {
        proof {
            use_type_invariant(&*self);
        }
        match self.find(target) {
            Some(i) => {
                proof {
                    lemma_find_job(self.jobs@, target);
                }
                let ghost before = self.jobs@;
                let mut jobs: Vec<FillJob> = Vec::new();
                std::mem::swap(&mut jobs, &mut self.jobs);
                jobs.remove(i);
                assert forall|a: int, b: int| 0 <= a < b < jobs@.len() implies (
                #[trigger] jobs@[a]).target != (#[trigger] jobs@[b]).target by {
                    let a0 = if a < i { a } else { a + 1 };
                    let b0 = if b < i { b } else { b + 1 };
                    assert(jobs@[a] == before[a0]);
                    assert(jobs@[b] == before[b0]);
                }
                self.jobs = jobs;
            },
            None => {},
        }
        self.revision = self.revision + 1;
    }
}

/// A job started for a target that has none reports no bytes done of its
/// total, and the targets of the jobs stay distinct.
pub proof fn law_started_job_reports_progress(jobs: Seq<FillJob>, target: FillTarget, total: u64)
    requires
        targets_unique(jobs),
        find_job(jobs, target) is None,
    ensures
        progress_of(
            jobs.push(
                FillJob {
                    target,
                    progress: FillProgress { done_bytes: 0, total_bytes: total },
                    cancelled: false,
                },
            ),
            target,
        ) == Some(FillProgress { done_bytes: 0, total_bytes: total }),
        targets_unique(
            jobs.push(
                FillJob {
                    target,
                    progress: FillProgress { done_bytes: 0, total_bytes: total },
                    cancelled: false,
                },
            ),
        ),
{
    let job = FillJob {
        target,
        progress: FillProgress { done_bytes: 0, total_bytes: total },
        cancelled: false,
    };
    let next = jobs.push(job);
    lemma_find_job(jobs, target);
    assert(next.drop_last() =~= jobs);
    assert forall|i: int, j: int| 0 <= i < j < next.len() implies (#[trigger] next[i]).target != (
    #[trigger] next[j]).target by {
        if j == jobs.len() {
            assert(jobs[i].target != target);
        } else {
            assert(next[i] == jobs[i] && next[j] == jobs[j]);
        }
    }
}

/// Once the job of a target has finished, no progress is reported for it.
pub proof fn law_finished_job_reports_nothing(jobs: Seq<FillJob>, target: FillTarget)
    requires
        targets_unique(jobs),
    ensures
        progress_of(
            match find_job(jobs, target) {
                Some(i) => jobs.remove(i),
                None => jobs,
            },
            target,
        ) is None,
{
    lemma_find_job(jobs, target);
    let rest = match find_job(jobs, target) {
        Some(i) => jobs.remove(i),
        None => jobs,
    };
    assert forall|k: int| 0 <= k < rest.len() implies (#[trigger] rest[k]).target != target by {
        match find_job(jobs, target) {
            Some(i) => {
                let k0 = if k < i { k } else { k + 1 };
                assert(rest[k] == jobs[k0]);
                if k0 != i {
                    if k0 < i {
                        assert(jobs[k0].target != jobs[i].target);
                    } else {
                        assert(jobs[i].target != jobs[k0].target);
                    }
                }
            },
            None => {},
        }
    }
    lemma_find_job(rest, target);
}

/// The files that fit a limit are a prefix whose bytes stay within it
/// (unless the limit is the largest size there is, which a saturating total
/// never exceeds), and taking one file more would pass it.
pub proof fn law_fitting_files_stay_within_the_limit(sizes: Seq<u64>, limit: u64, r: int)
    requires
        is_fitting_count(sizes, limit, r),
        limit < u64::MAX,
    ensures
        prefix_sum(sizes, r) <= limit,
        r < sizes.len() ==> prefix_sum(sizes, r + 1) > limit,
{
    if r > 0 {
        assert(saturated(sizes, r) <= limit);
    }
}

/// A larger limit never lets fewer files fit.
pub proof fn law_fitting_grows_with_the_limit(
    sizes: Seq<u64>,
    small: u64,
    large: u64,
    a: int,
    b: int,
)
    requires
        small <= large,
        is_fitting_count(sizes, small, a),
        is_fitting_count(sizes, large, b),
    ensures
        a <= b,
{
    if b < a {
        assert(saturated(sizes, b + 1) <= small);
    }
}

} // verus!

verus! {

/// Whether the job for `target` fetches its file at `next` of `files`: it
/// runs, was not asked to stop, and has that file left.
pub open spec fn fetches_spec(jobs: Seq<FillJob>, target: FillTarget, next: int, files: int) -> bool {
    next < files && match find_job(jobs, target) {
        Some(i) => !jobs[i].cancelled,
        None => false,
    }
}

impl CacheFill {
    /// Whether the job for `target` goes on to fetch its file at `next` of
    /// `files` (see `fetches_spec`).
    pub fn fetches_next(&self, target: FillTarget, next: usize, files: usize) -> (r: bool)
        ensures
            r == fetches_spec(self@.jobs, target, next as int, files as int),
    {
        next < files && !self.is_cancelled(target) && self.find(target).is_some()
    }
}

/// Once its job is asked to stop, a fill fetches no further file.
pub proof fn law_a_stopped_fill_fetches_nothing_more(
    jobs: Seq<FillJob>,
    target: FillTarget,
    next: int,
    files: int,
)
    requires
        targets_unique(jobs),
        find_job(jobs, target) is Some,
    ensures
        ({
            let i = find_job(jobs, target)->0;
            !fetches_spec(
                jobs.update(i, FillJob { target: jobs[i].target, progress: jobs[i].progress, cancelled: true }),
                target,
                next,
                files,
            )
        }),
{
    let i = find_job(jobs, target)->0;
    lemma_find_job(jobs, target);
    let after = jobs.update(i, FillJob { target: jobs[i].target, progress: jobs[i].progress, cancelled: true });
    assert(targets_unique(after)) by {
        assert forall|a: int, b: int| 0 <= a < b < after.len() implies (#[trigger] after[a]).target
            != (#[trigger] after[b]).target by {
            assert(jobs[a].target != jobs[b].target);
        }
    }
    lemma_find_job_unique(after, target, i);
}

} // verus!

verus! {

// ---------------------------------------------------------------------------
// A fill over its life
// ---------------------------------------------------------------------------

/// One thing that happens to a fill, as its methods do it: a job starts for
/// a target over `files` files of `total` bytes, is asked to stop, has bytes
/// done, or ends; or the cache changes.
#[derive(Clone, Copy, Debug, PartialEq, Eq)]
pub enum FillStep {
    Start { target: FillTarget, files: usize, total: u64 },
    Cancel(FillTarget),
    Record(FillTarget, u64),
    Finish(FillTarget),
    CacheChanged,
}

/// The jobs after a step.
pub open spec fn fill_step(jobs: Seq<FillJob>, step: FillStep) -> Seq<FillJob> {
    match step {
        FillStep::Start { target, files, total } => if files > 0 && find_job(jobs, target) is None {
            jobs.push(
                FillJob {
                    target,
                    progress: FillProgress { done_bytes: 0, total_bytes: total },
                    cancelled: false,
                },
            )
        } else {
            jobs
        },
        FillStep::Cancel(target) => match find_job(jobs, target) {
            Some(i) => jobs.update(
                i,
                FillJob { target: jobs[i].target, progress: jobs[i].progress, cancelled: true },
            ),
            None => jobs,
        },
        FillStep::Record(target, size) => match find_job(jobs, target) {
            Some(i) => jobs.update(
                i,
                FillJob {
                    target: jobs[i].target,
                    progress: FillProgress {
                        done_bytes: (jobs[i].progress.done_bytes + size) as u64,
                        total_bytes: jobs[i].progress.total_bytes,
                    },
                    cancelled: jobs[i].cancelled,
                },
            ),
            None => jobs,
        },
        FillStep::Finish(target) => match find_job(jobs, target) {
            Some(i) => jobs.remove(i),
            None => jobs,
        },
        FillStep::CacheChanged => jobs,
    }
}

/// Whether the methods take a step: the bytes recorded for a job stay within
/// its total.
pub open spec fn step_allowed(jobs: Seq<FillJob>, step: FillStep) -> bool {
    match step {
        FillStep::Record(target, size) => match find_job(jobs, target) {
            Some(i) => jobs[i].progress.done_bytes + size <= jobs[i].progress.total_bytes,
            None => true,
        },
        _ => true,
    }
}

/// The jobs of a new fill after `steps`.
pub open spec fn run_fill(steps: Seq<FillStep>) -> Seq<FillJob>
    decreases steps.len(),
{
    if steps.len() == 0 {
        Seq::empty()
    } else {
        fill_step(run_fill(steps.drop_last()), steps.last())
    }
}

/// Whether every one of `steps` is taken.
pub open spec fn fill_allowed(steps: Seq<FillStep>) -> bool
    decreases steps.len(),
{
    if steps.len() == 0 {
        true
    } else {
        fill_allowed(steps.drop_last()) && step_allowed(run_fill(steps.drop_last()), steps.last())
    }
}

/// The total of the start that opened the job for `target` still running
/// after `steps`: the first start for it, with files, since it last
/// finished.
pub open spec fn opening_total(steps: Seq<FillStep>, target: FillTarget) -> Option<u64>
    decreases steps.len(),
{
    if steps.len() == 0 {
        None
    } else {
        let before = opening_total(steps.drop_last(), target);
        match steps.last() {
            FillStep::Finish(t) => if t == target {
                None
            } else {
                before
            },
            FillStep::Start { target: t, files, total } => if t == target && before is None
                && files > 0 {
                Some(total)
            } else {
                before
            },
            _ => before,
        }
    }
}

proof fn lemma_same_targets(prev: Seq<FillJob>, next: Seq<FillJob>, target: FillTarget)
    requires
        prev.len() == next.len(),
        forall|m: int| 0 <= m < prev.len() ==> (#[trigger] next[m]).target == prev[m].target,
    ensures
        find_job(next, target) == find_job(prev, target),
    decreases prev.len(),
{
    if prev.len() > 0 {
        let (p, n) = (prev.drop_last(), next.drop_last());
        assert forall|m: int| 0 <= m < p.len() implies (#[trigger] n[m]).target == p[m].target by {
            assert(n[m] == next[m] && p[m] == prev[m]);
        }
        lemma_same_targets(p, n, target);
        assert(next.last().target == prev.last().target);
    }
}

proof fn lemma_progress_at(jobs: Seq<FillJob>, target: FillTarget)
    requires
        targets_unique(jobs),
    ensures
        progress_of(jobs, target) is None <==> forall|m: int|
            0 <= m < jobs.len() ==> (#[trigger] jobs[m]).target != target,
        forall|m: int|
            0 <= m < jobs.len() && (#[trigger] jobs[m]).target == target ==> progress_of(jobs, target)
                == Some(jobs[m].progress),
{
    lemma_find_job(jobs, target);
    assert forall|m: int| 0 <= m < jobs.len() && (#[trigger] jobs[m]).target == target implies progress_of(
        jobs,
        target,
    ) == Some(jobs[m].progress) by {
        lemma_find_job_unique(jobs, target, m);
    }
}

/// What one step does to the job for `target`: a finish ends it, a start with
/// files opens it when none runs, and every other step keeps its total.
proof fn lemma_fill_step(prev: Seq<FillJob>, step: FillStep, target: FillTarget)
    requires
        targets_unique(prev),
        progress_bounded(prev),
        step_allowed(prev, step),
    ensures
        targets_unique(fill_step(prev, step)),
        progress_bounded(fill_step(prev, step)),
        match step {
            FillStep::Finish(t) => t == target ==> progress_of(fill_step(prev, step), target) is None,
            FillStep::Start { target: t, files, total } => t == target && files > 0 && progress_of(
                prev,
                target,
            ) is None ==> progress_of(fill_step(prev, step), target) == Some(
                FillProgress { done_bytes: 0, total_bytes: total },
            ),
            _ => true,
        },
        !(step matches FillStep::Finish(t) && t == target) && !(step matches FillStep::Start {
            target: t,
            files,
            ..
        } && t == target && files > 0 && progress_of(prev, target) is None) ==> {
            &&& (progress_of(fill_step(prev, step), target) is Some <==> progress_of(prev, target) is Some)
            &&& (progress_of(prev, target) is Some ==> progress_of(fill_step(prev, step), target)->0.total_bytes
                == progress_of(prev, target)->0.total_bytes)
        },
{
    let next = fill_step(prev, step);
    lemma_progress_at(prev, target);
    match step {
        FillStep::Start { target: t, files, total } => {
            if files > 0 && find_job(prev, t) is None {
                law_started_job_reports_progress(prev, t, total);
                let job = next.last();
                assert(next.drop_last() =~= prev);
                assert forall|m: int| 0 <= m < next.len() implies (#[trigger] next[m]).progress.done_bytes
                    <= next[m].progress.total_bytes by {
                    if m < prev.len() {
                        assert(next[m] == prev[m]);
                    }
                }
                if t != target {
                    lemma_progress_at(next, target);
                    assert forall|m: int| 0 <= m < prev.len() implies (#[trigger] next[m]) == prev[m] by {}
                    if progress_of(prev, target) is Some {
                        let k = find_job(prev, target)->0;
                        lemma_find_job(prev, target);
                        assert(next[k] == prev[k]);
                    } else {
                        assert forall|m: int| 0 <= m < next.len() implies (#[trigger] next[m]).target
                            != target by {
                            if m < prev.len() {
                                assert(next[m] == prev[m]);
                            }
                        }
                    }
                }
            }
        },
        FillStep::Cancel(u) | FillStep::Record(u, _) => {
            lemma_find_job(prev, u);
            if find_job(prev, u) is Some {
                let i = find_job(prev, u)->0;
                assert forall|m: int| 0 <= m < prev.len() implies (#[trigger] next[m]).target
                    == prev[m].target by {}
                lemma_same_targets(prev, next, target);
                assert forall|a: int, b: int| 0 <= a < b < next.len() implies (
                #[trigger] next[a]).target != (#[trigger] next[b]).target by {
                    assert(prev[a].target != prev[b].target);
                }
                assert forall|m: int| 0 <= m < next.len() implies (#[trigger] next[m]).progress.done_bytes
                    <= next[m].progress.total_bytes by {
                    if m != i {
                        assert(next[m] == prev[m]);
                    }
                }
                if find_job(prev, target) is Some {
                    let k = find_job(prev, target)->0;
                    lemma_find_job(prev, target);
                    if k != i {
                        assert(next[k] == prev[k]);
                    }
                }
            }
        },
        FillStep::Finish(u) => {
            lemma_find_job(prev, u);
            if find_job(prev, u) is Some {
                let i = find_job(prev, u)->0;
                law_finished_job_reports_nothing(prev, u);
                assert forall|a: int, b: int| 0 <= a < b < next.len() implies (
                #[trigger] next[a]).target != (#[trigger] next[b]).target by {
                    let a0 = if a < i { a } else { a + 1 };
                    let b0 = if b < i { b } else { b + 1 };
                    assert(next[a] == prev[a0]);
                    assert(next[b] == prev[b0]);
                }
                assert forall|m: int| 0 <= m < next.len() implies (#[trigger] next[m]).progress.done_bytes
                    <= next[m].progress.total_bytes by {
                    let m0 = if m < i { m } else { m + 1 };
                    assert(next[m] == prev[m0]);
                }
                if u != target {
                    lemma_progress_at(next, target);
                    if progress_of(prev, target) is Some {
                        let k = find_job(prev, target)->0;
                        lemma_find_job(prev, target);
                        let k1 = if k < i { k } else { k - 1 };
                        assert(next[k1] == prev[k]);
                    } else {
                        assert forall|m: int| 0 <= m < next.len() implies (#[trigger] next[m]).target
                            != target by {
                            let m0 = if m < i { m } else { m + 1 };
                            assert(next[m] == prev[m0]);
                        }
                    }
                }
            }
        },
        FillStep::CacheChanged => {},
    }
}

/// From a new fill, through any steps its methods take, a job runs for a
/// target exactly when a start with files opened one since the target last
/// finished; its total stays what that start gave it, and no more bytes are
/// done than that total.
pub proof fn law_a_job_keeps_the_total_it_started_with(steps: Seq<FillStep>, target: FillTarget)
    requires
        fill_allowed(steps),
    ensures
        targets_unique(run_fill(steps)),
        match opening_total(steps, target) {
            Some(total) => progress_of(run_fill(steps), target) matches Some(p) && p.total_bytes
                == total && p.done_bytes <= total,
            None => progress_of(run_fill(steps), target) is None,
        },
    decreases steps.len(),
{
    lemma_runs_bounded(steps);
    if steps.len() > 0 {
        let rest = steps.drop_last();
        law_a_job_keeps_the_total_it_started_with(rest, target);
        lemma_runs_bounded(rest);
        lemma_fill_step(run_fill(rest), steps.last(), target);
        lemma_progress_at(run_fill(steps), target);
        lemma_find_job(run_fill(steps), target);
    }
}

proof fn lemma_runs_bounded(steps: Seq<FillStep>)
    requires
        fill_allowed(steps),
    ensures
        targets_unique(run_fill(steps)),
        progress_bounded(run_fill(steps)),
    decreases steps.len(),
{
    if steps.len() > 0 {
        let rest = steps.drop_last();
        lemma_runs_bounded(rest);
        lemma_fill_step(run_fill(rest), steps.last(), FillTarget::Album(0));
    }
}

} // verus!

verus! {

// ---------------------------------------------------------------------------
// Asking for a fill
// ---------------------------------------------------------------------------

/// Whether `r` holds the first `count` files with their sizes.
pub open spec fn entries_match(r: Seq<(String, u64)>, files: Seq<String>, sizes: Seq<u64>, count: int) -> bool {
    &&& r.len() == entries_spec(files, sizes, count).len()
    &&& forall|i: int|
        0 <= i < r.len() ==> (#[trigger] r[i]).0@ == entries_spec(files, sizes, count)[i].0 && r[i].1
            == entries_spec(files, sizes, count)[i].1
}

/// What a request for a fill does when no job runs for its target: start on
/// every missing file when they all fit the limit, or else ask first,
/// offering the files that fit.
pub enum FillDecision {
    StartAll(Vec<(String, u64)>),
    AskFirst { fitting: usize, entries: Vec<(String, u64)> },
}

/// The decision on a plan under `limit` (see `FillDecision`).
pub fn decide_fill(plan: &FillPlan, limit: u64) -> (r: FillDecision)
    ensures
        match r {
            FillDecision::StartAll(e) => is_fitting_count(
                plan.sizes@,
                limit,
                plan.files@.len() as int,
            ) && entries_match(e@, plan.files@, plan.sizes@, plan.files@.len() as int),
            FillDecision::AskFirst { fitting, entries } => is_fitting_count(
                plan.sizes@,
                limit,
                fitting as int,
            ) && fitting != plan.files@.len() && entries_match(
                entries@,
                plan.files@,
                plan.sizes@,
                fitting as int,
            ),
        },
{
    let fitting = plan.fitting(limit);
    let entries = plan.entries(fitting);
    if fitting == plan.files.len() {
        FillDecision::StartAll(entries)
    } else {
        FillDecision::AskFirst { fitting, entries }
    }
}

impl CacheFill {
    /// The first half of a request for a fill: a job that runs for `target`
    /// is asked to stop, and the answer tells whether one ran (then the
    /// request ends there).
    pub fn request_cancel(&mut self, target: FillTarget) -> (r: bool)
        ensures
            r == progress_of(old(self)@.jobs, target) is Some,
            final(self)@.revision == old(self)@.revision,
            final(self)@.jobs == fill_step(old(self)@.jobs, FillStep::Cancel(target)),
    {
        let running = self.progress(target).is_some();
        self.cancel(target);
        running
    }
}

} // verus!
