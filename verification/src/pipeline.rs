//! Which decoded frames are kept, which are asked for ahead, and which results still
//! count when they arrive.
use std::collections::VecDeque;
use std::sync::Arc;
use vstd::prelude::*;
use crate::decode::{DecodedImage, TargetSize};
use crate::ui::as_ints;

verus! {

/// A request for a frame, with the generation that was current when it was made.
#[derive(Clone, Copy, PartialEq, Eq, Debug, Structural)]
pub struct Request {
    pub index: usize,
    pub generation: u64,
}

/// The latest request wins: the generation goes up with every navigation.
#[derive(Clone, Copy, PartialEq, Eq, Debug)]
pub struct Scheduler {
    pub generation: u64,
}

impl Default for Scheduler {
    fn default() -> (r: Self)
        ensures
            r.generation == 0,
    {
        Scheduler { generation: 0 }
    }
}

/// Whether a newer generation has begun since the request was made.
pub open spec fn superseded(req: Request, current_gen: u64) -> bool {
    req.generation < current_gen
}

impl Scheduler {
    /// Starts at generation 0.
    pub fn new() -> (r: Self)
        ensures
            r.generation == 0,
    {
        Scheduler { generation: 0 }
    }

    /// Begins a new generation.
    pub fn advance(&mut self) -> (r: u64)
        requires
            old(self).generation < u64::MAX,
        ensures
            r == old(self).generation + 1,
            final(self).generation == r,
    {
        self.generation += 1;
        self.generation
    }

    /// A request for the frame of a shot, in a generation.
    pub fn request(&self, index: usize, generation: u64) -> (r: Request)
        ensures
            r == (Request { index, generation }),
    {
        Request { index, generation }
    }

    /// Whether a newer generation has begun since the request was made.
    pub fn is_stale(req: &Request, current_gen: u64) -> (r: bool)
        ensures
            r == superseded(*req, current_gen),
    {
        req.generation < current_gen
    }
}

/// A request is fresh in its own generation and superseded from the next on.
pub proof fn a_request_lasts_one_generation(index: usize, generation: u64, later: u64)
    requires
        generation <= later,
    ensures
        superseded(Request { index, generation }, later) == (generation != later),
{
}

/// Whether a result may be painted when it arrives: it is for the shot that is shown, and
/// it was asked for in the current generation.
pub fn is_fresh_delivery(req: &Request, current_index: usize, current_gen: u64) -> (r: bool)
    ensures
        r == (req.index == current_index && !superseded(*req, current_gen)),
{
    req.index == current_index && !Scheduler::is_stale(req, current_gen)
}

/// A job for a worker.
#[derive(PartialEq, Eq, Debug)]
pub struct DecodeRequest {
    pub req: Request,
    pub path: String,
    pub target: TargetSize,
    /// Whether the thumbnail within the file is handed out first.
    pub thumb_first: bool,
}

/// A frame that was decoded.
#[derive(PartialEq, Eq, Debug)]
pub struct DecodeResult {
    pub req: Request,
    pub target: TargetSize,
    pub image: Arc<DecodedImage>,
}

/// The value of a job.
pub struct JobView {
    pub req: Request,
    pub path: Seq<char>,
    pub target: TargetSize,
    pub thumb_first: bool,
}

impl View for DecodeRequest {
    type V = JobView;

    open spec fn view(&self) -> JobView {
        JobView {
            req: self.req,
            path: self.path@,
            target: self.target,
            thumb_first: self.thumb_first,
        }
    }
}

/// The values of jobs.
pub open spec fn job_views(v: Seq<DecodeRequest>) -> Seq<JobView> {
    v.map_values(|j: DecodeRequest| j@)
}

/// The jobs from the first one on that was not superseded.
pub open spec fn still_due(jobs: Seq<JobView>, current_gen: u64) -> Seq<JobView>
    decreases jobs.len(),
{
    if jobs.len() > 0 && superseded(jobs[0].req, current_gen) {
        still_due(jobs.drop_first(), current_gen)
    } else {
        jobs
    }
}

/// Whether no job is of a generation that has not begun.
pub open spec fn none_ahead(jobs: Seq<JobView>, current_gen: u64) -> bool {
    forall|i: int| 0 <= i < jobs.len() ==> (#[trigger] jobs[i]).req.generation <= current_gen
}

/// The jobs that wait for a worker, in the order in which they were asked for, and the
/// generation that new ones get.
pub struct Pipeline {
    generation: u64,
    jobs: VecDeque<DecodeRequest>,
}

impl Default for Pipeline {
    fn default() -> (r: Self)
        ensures
            r.generation() == 0,
            r.waiting() == Seq::<JobView>::empty(),
    {
        Pipeline::new()
    }
}

impl Pipeline {
    /// The current generation.
    pub closed spec fn generation(&self) -> u64 {
        self.generation
    }

    /// The jobs that wait.
    pub closed spec fn waiting(&self) -> Seq<JobView> {
        job_views(self.jobs@)
    }

    /// No job is of a generation that has not begun.
    #[verifier::type_invariant]
    spec fn in_order(&self) -> bool {
        none_ahead(job_views(self.jobs@), self.generation)
    }

    /// Nothing waits, in generation 0.
    pub fn new() -> (r: Self)
        ensures
            r.generation() == 0,
            r.waiting() == Seq::<JobView>::empty(),
    {
        let jobs: VecDeque<DecodeRequest> = VecDeque::new();
        assert(job_views(jobs@) =~= Seq::empty());
        Pipeline { generation: 0, jobs }
    }

    /// The current generation.
    pub fn current(&self) -> (r: u64)
        ensures
            r == self.generation(),
    {
        self.generation
    }

    /// Begins a new generation, by which all jobs that wait are superseded.
    pub fn bump(&mut self) -> (r: u64)
        requires
            old(self).generation() < u64::MAX,
        ensures
            r == old(self).generation() + 1,
            final(self).generation() == r,
            final(self).waiting() == old(self).waiting(),
            still_due(final(self).waiting(), r) == Seq::<JobView>::empty(),
    {
        proof {
            use_type_invariant(&*self);
            lemma_all_superseded(job_views(self.jobs@), (self.generation + 1) as u64);
        }
        self.generation += 1;
        self.generation
    }

    /// Asks for a frame, in the current generation.
    pub fn enqueue(&mut self, index: usize, path: String, target: TargetSize, thumb_first: bool)
        ensures
            final(self).generation() == old(self).generation(),
            final(self).waiting() == old(self).waiting().push(
                JobView {
                    req: Request { index, generation: old(self).generation() },
                    path: path@,
                    target,
                    thumb_first,
                },
            ),
    {
        proof {
            use_type_invariant(&*self);
        }
        let job = DecodeRequest {
            req: Request { index, generation: self.generation },
            path,
            target,
            thumb_first,
        };
        let ghost before = self.waiting();
        let mut jobs: VecDeque<DecodeRequest> = VecDeque::new();
        std::mem::swap(&mut jobs, &mut self.jobs);
        jobs.push_back(job);
        proof {
            let after = job_views(jobs@);
            assert(after =~= before.push(job@));
            assert forall|i: int| 0 <= i < after.len() implies (#[trigger] after[i]).req.generation
                <= self.generation by {
                if i < before.len() {
                    assert(after[i] == before[i]);
                }
            }
        }
        self.jobs = jobs;
    }

    /// The next job that was not superseded while it waited. The ones before it are gone;
    /// `None` where no such job waits.
    pub fn next_job(&mut self) -> (r: Option<DecodeRequest>)
        ensures
            final(self).generation() == old(self).generation(),
            ({
                let due = still_due(old(self).waiting(), old(self).generation());
                if due.len() == 0 {
                    r is None && final(self).waiting() == due
                } else {
                    r is Some && r->0@ == due[0] && final(self).waiting() == due.drop_first()
                }
            }),
    {
        proof {
            use_type_invariant(&*self);
        }
        let ghost all = self.waiting();
        let now: u64 = self.generation;
        let mut jobs: VecDeque<DecodeRequest> = VecDeque::new();
        std::mem::swap(&mut jobs, &mut self.jobs);
        let mut r: Option<DecodeRequest> = None;
        while r.is_none() && jobs.len() > 0
            invariant
                none_ahead(job_views(jobs@), now),
                r is None ==> still_due(job_views(jobs@), now) == still_due(all, now),
                r is Some ==> {
                    let due = still_due(all, now);
                    &&& due.len() > 0
                    &&& r->0@ == due[0]
                    &&& job_views(jobs@) == due.drop_first()
                },
            decreases jobs@.len(), (if r is None {
                1int
            } else {
                0int
            }),
        {
            let ghost before = job_views(jobs@);
            match jobs.pop_front() {
                Some(job) => {
                    proof {
                        assert(before[0] == job@);
                        assert(job_views(jobs@) =~= before.drop_first());
                        let rest = job_views(jobs@);
                        assert forall|i: int| 0 <= i < rest.len() implies (
                        #[trigger] rest[i]).req.generation <= now by {
                            assert(rest[i] == before[i + 1]);
                        }
                    }
                    if !Scheduler::is_stale(&job.req, now) {
                        r = Some(job);
                    }
                },
                None => {},
            }
        }
        self.jobs = jobs;
        r
    }
}

proof fn lemma_all_superseded(jobs: Seq<JobView>, current_gen: u64)
    requires
        forall|i: int| 0 <= i < jobs.len() ==> (#[trigger] jobs[i]).req.generation < current_gen,
    ensures
        still_due(jobs, current_gen) == Seq::<JobView>::empty(),
    decreases jobs.len(),
{
    if jobs.len() > 0 {
        let rest = jobs.drop_first();
        assert forall|i: int| 0 <= i < rest.len() implies (#[trigger] rest[i]).req.generation
            < current_gen by {
            assert(rest[i] == jobs[i + 1]);
        }
        lemma_all_superseded(rest, current_gen);
    } else {
        assert(jobs =~= Seq::empty());
    }
}

/// A job that a worker gets was not superseded while it waited, and what was asked for
/// after it still waits, in order.
pub proof fn the_latest_requests_win(jobs: Seq<JobView>, current_gen: u64)
    ensures
        still_due(jobs, current_gen).len() <= jobs.len(),
        still_due(jobs, current_gen) == jobs.skip(
            jobs.len() - still_due(jobs, current_gen).len(),
        ),
        still_due(jobs, current_gen).len() > 0 ==> !superseded(
            still_due(jobs, current_gen)[0].req,
            current_gen,
        ),
        forall|i: int|
            0 <= i < jobs.len() - still_due(jobs, current_gen).len() ==> superseded(
                (#[trigger] jobs[i]).req,
                current_gen,
            ),
    decreases jobs.len(),
{
    let due = still_due(jobs, current_gen);
    if jobs.len() > 0 && superseded(jobs[0].req, current_gen) {
        let rest = jobs.drop_first();
        the_latest_requests_win(rest, current_gen);
        assert(jobs.skip(jobs.len() - due.len()) =~= rest.skip(rest.len() - due.len()));
        assert forall|i: int| 0 <= i < jobs.len() - due.len() implies superseded(
            (#[trigger] jobs[i]).req,
            current_gen,
        ) by {
            if i > 0 {
                assert(jobs[i] == rest[i - 1]);
            }
        }
    } else {
        assert(jobs.skip(0) =~= jobs);
    }
}

/// A frame that is kept for a shot.
struct CacheEntry {
    key: usize,
    image: Arc<DecodedImage>,
}

/// A frame that is kept for a shot.
pub type Kept = (usize, Arc<DecodedImage>);

/// How many bytes a frame takes.
pub open spec fn weight(e: Kept) -> int {
    e.1.rgba@.len() as int
}

/// How many bytes the frames take.
pub open spec fn total(s: Seq<Kept>) -> int
    decreases s.len(),
{
    if s.len() == 0 {
        0
    } else {
        total(s.drop_last()) + weight(s.last())
    }
}

/// The frames without that of a shot.
pub open spec fn without(s: Seq<Kept>, key: usize) -> Seq<Kept> {
    s.filter(|e: Kept| e.0 != key)
}

/// The place of the frame of a shot, or the length.
pub open spec fn place(s: Seq<Kept>, key: usize) -> int
    decreases s.len(),
{
    if s.len() == 0 {
        0
    } else {
        let front = place(s.drop_last(), key);
        if front < s.len() - 1 || s.last().0 == key {
            front
        } else {
            s.len() as int
        }
    }
}

/// Whether a frame is kept for a shot.
pub open spec fn holds(s: Seq<Kept>, key: usize) -> bool {
    exists|i: int| 0 <= i < s.len() && (#[trigger] s[i]).0 == key
}

/// Whether at most one frame is kept for each shot.
pub open spec fn one_each(s: Seq<Kept>) -> bool {
    forall|i: int, j: int| #![trigger s[i], s[j]] 0 <= i < j < s.len() ==> s[i].0 != s[j].0
}

/// The frames that stay within a budget: the least recently used go first, and the last
/// one stays in any case.
pub open spec fn evicted(s: Seq<Kept>, budget: int) -> Seq<Kept>
    decreases s.len(),
{
    if total(s) > budget && s.len() > 1 {
        evicted(s.drop_first(), budget)
    } else {
        s
    }
}

/// The frames after that of a shot was used: it is the most recent now.
pub open spec fn used_again(s: Seq<Kept>, key: usize) -> Seq<Kept> {
    if holds(s, key) {
        without(s, key).push(s[place(s, key)])
    } else {
        s
    }
}

proof fn lemma_place(s: Seq<Kept>, key: usize)
    ensures
        0 <= place(s, key) <= s.len(),
        place(s, key) < s.len() ==> s[place(s, key)].0 == key,
        forall|k: int| 0 <= k < place(s, key) ==> (#[trigger] s[k]).0 != key,
    decreases s.len(),
{
    if s.len() > 0 {
        lemma_place(s.drop_last(), key);
        let front = s.drop_last();
        assert forall|k: int| 0 <= k < place(s, key) implies (#[trigger] s[k]).0 != key by {
            if k < front.len() {
                assert(front[k] == s[k]);
            }
        }
    }
}

proof fn lemma_place_is(s: Seq<Kept>, key: usize, n: int)
    requires
        0 <= n <= s.len(),
        forall|k: int| 0 <= k < n ==> (#[trigger] s[k]).0 != key,
        n < s.len() ==> s[n].0 == key,
    ensures
        place(s, key) == n,
{
    lemma_place(s, key);
    let p = place(s, key);
    if p < n {
        assert(s[p].0 != key);
    }
    if n < p {
        assert(s[n].0 != key);
    }
}

proof fn lemma_without_absent(s: Seq<Kept>, key: usize)
    requires
        forall|k: int| 0 <= k < s.len() ==> (#[trigger] s[k]).0 != key,
    ensures
        without(s, key) == s,
    decreases s.len(),
{
    reveal(Seq::filter);
    if s.len() > 0 {
        let front = s.drop_last();
        assert forall|k: int| 0 <= k < front.len() implies (#[trigger] front[k]).0 != key by {
            assert(s[k].0 != key);
        }
        lemma_without_absent(front, key);
        assert(s.last() == s[s.len() - 1]);
        assert(front.push(s.last()) =~= s);
    }
}

proof fn lemma_without_present(s: Seq<Kept>, key: usize, n: int)
    requires
        one_each(s),
        0 <= n < s.len(),
        s[n].0 == key,
    ensures
        without(s, key) == s.remove(n),
        total(s.remove(n)) == total(s) - weight(s[n]),
    decreases s.len(),
{
    reveal(Seq::filter);
    let front = s.drop_last();
    if n == s.len() - 1 {
        assert forall|k: int| 0 <= k < front.len() implies (#[trigger] front[k]).0 != key by {
            assert(s[k].0 != s[n].0);
        }
        lemma_without_absent(front, key);
        assert(s.remove(n) =~= front);
    } else {
        assert(one_each(front)) by {
            assert forall|i: int, j: int|
                #![trigger front[i], front[j]]
                0 <= i < j < front.len() implies front[i].0 != front[j].0 by {
                assert(s[i].0 != s[j].0);
            }
        }
        assert(front[n] == s[n]);
        lemma_without_present(front, key, n);
        assert(s[n].0 != s[s.len() - 1].0);
        assert(s.remove(n) =~= front.remove(n).push(s.last()));
        assert(s.remove(n).drop_last() =~= front.remove(n));
    }
}

proof fn lemma_total_drop_first(s: Seq<Kept>)
    requires
        s.len() > 0,
    ensures
        total(s) == weight(s[0]) + total(s.drop_first()),
    decreases s.len(),
{
    if s.len() == 1 {
        assert(s.drop_first() =~= Seq::empty());
        assert(s.drop_last() =~= Seq::empty());
    } else {
        lemma_total_drop_first(s.drop_last());
        assert(s.drop_first().drop_last() =~= s.drop_last().drop_first());
    }
}

proof fn lemma_total_is_not_negative(s: Seq<Kept>)
    ensures
        total(s) >= 0,
    decreases s.len(),
{
    if s.len() > 0 {
        lemma_total_is_not_negative(s.drop_last());
    }
}

/// What is kept after a frame was put in: it is there, it is the most recent, and the
/// frames fit the budget unless it is alone. Those that went are the least recently used.
pub proof fn a_put_frame_stays(s: Seq<Kept>, budget: int)
    requires
        s.len() > 0,
    ensures
        0 < evicted(s, budget).len() <= s.len(),
        evicted(s, budget).last() == s.last(),
        total(evicted(s, budget)) <= budget || evicted(s, budget).len() == 1,
        evicted(s, budget) == s.skip(s.len() - evicted(s, budget).len()),
    decreases s.len(),
{
    if total(s) > budget && s.len() > 1 {
        a_put_frame_stays(s.drop_first(), budget);
        let e = evicted(s, budget);
        assert(s.drop_first().last() == s.last());
        assert(s.skip(s.len() - e.len()) =~= s.drop_first().skip(s.len() - 1 - e.len()));
    } else {
        assert(s.skip(0) =~= s);
    }
}

/// A frame that was put in is the one that is found for its shot.
pub proof fn what_is_put_is_found(s: Seq<Kept>, key: usize, image: Arc<DecodedImage>, budget: int)
    requires
        one_each(s),
    ensures
        ({
            let after = evicted(without(s, key).push((key, image)), budget);
            &&& one_each(after)
            &&& holds(after, key)
            &&& after[place(after, key)] == (key, image)
        }),
{
    let all = without(s, key).push((key, image));
    let after = evicted(all, budget);
    lemma_one_each_without(s, key, image);
    a_put_frame_stays(all, budget);
    let gone = all.len() - after.len();
    assert forall|i: int, j: int|
        #![trigger after[i], after[j]]
        0 <= i < j < after.len() implies after[i].0 != after[j].0 by {
        assert(after[i] == all[i + gone] && after[j] == all[j + gone]);
    }
    let last = after.len() - 1;
    assert(after[last] == (key, image));
    assert forall|k: int| 0 <= k < last implies (#[trigger] after[k]).0 != key by {
        assert(after[k].0 != after[last].0);
    }
    lemma_place_is(after, key, last);
}

/// Using a frame again changes only the order: the frames, their number and their bytes stay.
pub proof fn using_a_frame_keeps_the_frames(s: Seq<Kept>, key: usize)
    requires
        one_each(s),
    ensures
        used_again(s, key).len() == s.len(),
        used_again(s, key).to_multiset() == s.to_multiset(),
        total(used_again(s, key)) == total(s),
        one_each(used_again(s, key)),
        holds(s, key) ==> used_again(s, key).last() == s[place(s, key)],
{
    broadcast use vstd::seq_lib::group_to_multiset_ensures;

    if holds(s, key) {
        let i = choose|i: int| 0 <= i < s.len() && (#[trigger] s[i]).0 == key;
        assert forall|k: int| 0 <= k < i implies (#[trigger] s[k]).0 != key by {
            assert(s[k].0 != s[i].0);
        }
        lemma_place_is(s, key, i);
        lemma_without_present(s, key, i);
        let after = s.remove(i).push(s[i]);
        assert(after.drop_last() =~= s.remove(i));
        lemma_moved_to_the_end(s, i);
        assert(after.to_multiset() =~= s.to_multiset());
    }
}

/// Frames in the order of their use, within a budget of bytes.
pub struct LruCache {
    budget: usize,
    used: usize,
    /// The least recently used first.
    entries: Vec<CacheEntry>,
}

spec fn kept_views(v: Seq<CacheEntry>) -> Seq<Kept> {
    v.map_values(|e: CacheEntry| (e.key, e.image))
}

impl LruCache {
    /// The frames, the least recently used first.
    pub closed spec fn kept(&self) -> Seq<Kept> {
        kept_views(self.entries@)
    }

    /// The budget.
    pub closed spec fn limit(&self) -> int {
        self.budget as int
    }

    /// At most one frame is kept for each shot, and the bytes are counted rightly.
    pub closed spec fn well_formed(&self) -> bool {
        &&& one_each(kept_views(self.entries@))
        &&& self.used == total(kept_views(self.entries@))
    }

    /// What a well formed cache keeps: at most one frame for each shot, and no more bytes
    /// than can be counted.
    pub proof fn well_formed_keeps_one_each(&self)
        requires
            self.well_formed(),
        ensures
            one_each(self.kept()),
            0 <= total(self.kept()) <= usize::MAX,
    {
    }

    /// Nothing is kept yet.
    pub fn new(budget: usize) -> (r: Self)
        ensures
            r.well_formed(),
            one_each(r.kept()),
            r.kept() == Seq::<Kept>::empty(),
            r.limit() == budget,
    {
        let entries: Vec<CacheEntry> = Vec::new();
        assert(kept_views(entries@) =~= Seq::empty());
        LruCache { budget, used: 0, entries }
    }

    fn find(&self, key: usize) -> (r: usize)
        ensures
            r == place(self.kept(), key),
            r <= self.entries@.len(),
            r < self.entries@.len() <==> holds(self.kept(), key),
            r < self.entries@.len() ==> self.kept()[r as int].0 == key,
            r == self.entries@.len() ==> forall|k: int|
                0 <= k < self.kept().len() ==> (#[trigger] self.kept()[k]).0 != key,
    {
        let ghost s = self.kept();
        let mut i: usize = 0;
        while i < self.entries.len() && self.entries[i].key != key
            invariant
                0 <= i <= self.entries@.len(),
                s == kept_views(self.entries@),
                forall|k: int| 0 <= k < i ==> (#[trigger] s[k]).0 != key,
            decreases self.entries@.len() - i,
        {
            assert(s[i as int].0 == self.entries@[i as int].key);
            i += 1;
        }
        proof {
            if i < self.entries@.len() {
                assert(s[i as int].0 == self.entries@[i as int].key);
            }
            lemma_place_is(s, key, i as int);
        }
        i
    }

    /// The frame of a shot, which is thereby the most recent; `None` where none is kept.
    pub fn get(&mut self, key: usize) -> (r: Option<Arc<DecodedImage>>)
        requires
            old(self).well_formed(),
        ensures
            final(self).well_formed(),
            one_each(final(self).kept()),
            r is Some == holds(old(self).kept(), key),
            r is Some ==> r->0 == old(self).kept()[place(old(self).kept(), key)].1,
            final(self).kept() == used_again(old(self).kept(), key),
            final(self).limit() == old(self).limit(),
    {
        let i: usize = self.find(key);
        if i >= self.entries.len() {
            return None;
        }
        let ghost s = self.kept();
        let e = self.entries.remove(i);
        let image = e.image.clone();
        self.entries.push(e);
        proof {
            lemma_without_present(s, key, i as int);
            assert(self.kept() =~= s.remove(i as int).push(s[i as int]));
            lemma_moved_to_the_end(s, i as int);
        }
        Some(image)
    }

    /// Keeps a frame for a shot, in place of any that it had, as the most recent one. The
    /// least recently used then go until the frames fit the budget.
    pub fn put(&mut self, key: usize, image: Arc<DecodedImage>)
        requires
            old(self).well_formed(),
            total(without(old(self).kept(), key)) + image.rgba@.len() <= usize::MAX,
        ensures
            final(self).well_formed(),
            one_each(final(self).kept()),
            final(self).kept() == evicted(
                without(old(self).kept(), key).push((key, image)),
                old(self).limit(),
            ),
            final(self).limit() == old(self).limit(),
    {
        let ghost s = self.kept();
        let bytes: usize = image.rgba.len();
        let i: usize = self.find(key);
        if i < self.entries.len() {
            proof {
                lemma_without_present(s, key, i as int);
                lemma_total_is_not_negative(s.remove(i as int));
                assert(s[i as int] == (self.entries@[i as int].key, self.entries@[i as int].image));
            }
            let e = self.entries.remove(i);
            self.used -= e.image.rgba.len();
            assert(self.kept() =~= s.remove(i as int));
        } else {
            proof {
                lemma_without_absent(s, key);
            }
        }
        let ghost rest = self.kept();
        assert(rest == without(s, key));
        self.used += bytes;
        self.entries.push(CacheEntry { key, image });
        proof {
            let now = rest.push((key, image));
            assert(self.kept() =~= now);
            assert(now.drop_last() =~= rest);
            lemma_one_each_without(s, key, image);
        }
        self.evict();
    }

    fn evict(&mut self)
        requires
            old(self).well_formed(),
        ensures
            final(self).well_formed(),
            final(self).kept() == evicted(old(self).kept(), old(self).limit()),
            final(self).limit() == old(self).limit(),
    {
        let ghost s = self.kept();
        let ghost limit = self.limit();
        while self.used > self.budget && self.entries.len() > 1
            invariant
                self.well_formed(),
                self.limit() == limit,
                evicted(s, limit) == evicted(self.kept(), limit),
            decreases self.entries@.len(),
        {
            let ghost now = self.kept();
            proof {
                lemma_total_drop_first(now);
                lemma_total_is_not_negative(now.drop_first());
                assert(now[0] == (self.entries@[0].key, self.entries@[0].image));
                assert(one_each(now.drop_first())) by {
                    let d = now.drop_first();
                    assert forall|a: int, b: int|
                        #![trigger d[a], d[b]]
                        0 <= a < b < d.len() implies d[a].0 != d[b].0 by {
                        assert(now[a + 1].0 != now[b + 1].0);
                    }
                }
            }
            let e = self.entries.remove(0);
            self.used -= e.image.rgba.len();
            assert(self.kept() =~= now.drop_first());
        }
    }

    /// Whether a frame is kept for a shot.
    pub fn contains(&self, key: usize) -> (r: bool)
        ensures
            r == holds(self.kept(), key),
    {
        self.find(key) < self.entries.len()
    }

    /// How many frames are kept.
    pub fn len(&self) -> (r: usize)
        ensures
            r == self.kept().len(),
    {
        self.entries.len()
    }

    /// Whether no frame is kept.
    pub fn is_empty(&self) -> (r: bool)
        ensures
            r == (self.kept().len() == 0),
    {
        self.entries.len() == 0
    }

    /// How many bytes the frames take.
    pub fn used_bytes(&self) -> (r: usize)
        requires
            self.well_formed(),
        ensures
            r == total(self.kept()),
    {
        self.used
    }
}

proof fn lemma_one_each_without(s: Seq<Kept>, key: usize, image: Arc<DecodedImage>)
    requires
        one_each(s),
    ensures
        one_each(without(s, key).push((key, image))),
    decreases s.len(),
{
    let p = place(s, key);
    lemma_place(s, key);
    if p < s.len() {
        lemma_without_present(s, key, p);
    } else {
        lemma_without_absent(s, key);
    }
    let rest = without(s, key);
    let m = rest.push((key, image));
    assert forall|a: int, b: int|
        #![trigger m[a], m[b]]
        0 <= a < b < m.len() implies m[a].0 != m[b].0 by {
        let x = if a < p { a } else { a + 1 };
        let y = if b < p { b } else { b + 1 };
        assert(rest[a] == s[x]);
        if b < rest.len() {
            assert(rest[b] == s[y]);
            assert(s[x].0 != s[y].0);
        } else if p < s.len() {
            if x < p {
                assert(s[x].0 != s[p].0);
            } else {
                assert(s[p].0 != s[x].0);
            }
        } else {
            assert(s[x].0 != key);
        }
    }
}

proof fn lemma_moved_to_the_end(s: Seq<Kept>, i: int)
    requires
        one_each(s),
        0 <= i < s.len(),
    ensures
        one_each(s.remove(i).push(s[i])),
        total(s.remove(i).push(s[i])) == total(s),
{
    let m = s.remove(i).push(s[i]);
    lemma_without_present(s, s[i].0, i);
    assert(m.drop_last() =~= s.remove(i));
    assert forall|a: int, b: int|
        #![trigger m[a], m[b]]
        0 <= a < b < m.len() implies m[a].0 != m[b].0 by {
        let x = if a < i { a } else { a + 1 };
        let y = if b == m.len() - 1 {
            i
        } else if b < i {
            b
        } else {
            b + 1
        };
        assert(m[a] == s[x] && m[b] == s[y]);
        assert(x != y);
        if x < y {
            assert(s[x].0 != s[y].0);
        } else {
            assert(s[y].0 != s[x].0);
        }
    }
}

/// The shots of which the frames are asked for ahead: the current one, then those at each
/// distance up to `n`, the one ahead before the one behind.
pub open spec fn around(current: int, n: nat, len: int) -> Seq<int>
    decreases n,
{
    if n == 0 {
        seq![current]
    } else {
        let near = around(current, (n - 1) as nat, len);
        let ahead = if current + n < len {
            near.push(current + n)
        } else {
            near
        };
        if current >= n {
            ahead.push(current - n)
        } else {
            ahead
        }
    }
}

/// The shots of which the frames are asked for ahead. The current one is kept within the
/// shots; among none, none is asked for.
pub open spec fn prefetched(current: int, n: nat, len: int) -> Seq<int> {
    if len == 0 {
        Seq::empty()
    } else if current < len {
        around(current, n, len)
    } else {
        around(len - 1, n, len)
    }
}

/// The shots of which the frames are asked for ahead.
pub fn prefetch_set(current: usize, n: usize, len: usize) -> (out: Vec<usize>)
    ensures
        as_ints(out@) == prefetched(current as int, n as nat, len as int),
{
    let mut out: Vec<usize> = Vec::new();
    if len == 0 {
        assert(as_ints(out@) =~= Seq::empty());
        return out;
    }
    let at: usize = if current < len {
        current
    } else {
        len - 1
    };
    out.push(at);
    let mut d: usize = 0;
    assert(as_ints(out@) =~= around(at as int, 0, len as int));
    while d < n
        invariant
            0 <= d <= n,
            at < len,
            as_ints(out@) == around(at as int, d as nat, len as int),
        decreases n - d,
    {
        d += 1;
        let ghost near = as_ints(out@);
        if d < len - at {
            out.push(at + d);
            assert(as_ints(out@) =~= near.push(at + d));
        }
        let ghost ahead = as_ints(out@);
        if at >= d {
            out.push(at - d);
            assert(as_ints(out@) =~= ahead.push(at - d));
        }
    }
    out
}

/// Every shot within `n` of the current one is asked for, and no other.
pub proof fn prefetching_covers_the_neighbours(current: int, n: nat, len: int, i: int)
    requires
        0 <= current < len,
    ensures
        prefetched(current, n, len).contains(i) <==> 0 <= i < len && current - n <= i <= current
            + n,
        prefetched(current, n, len)[0] == current,
        prefetched(current, n, len).len() >= 1,
    decreases n,
{
    let all = around(current, n, len);
    if n == 0 {
        assert(all[0] == current);
    } else {
        prefetching_covers_the_neighbours(current, (n - 1) as nat, len, i);
        let near = around(current, (n - 1) as nat, len);
        if near.contains(i) {
            let k = choose|k: int| 0 <= k < near.len() && near[k] == i;
            assert(all[k] == i);
        }
        if i == current + n && i < len {
            assert(all[near.len() as int] == i);
        }
        if i == current - n && 0 <= i {
            assert(all[all.len() - 1] == i);
        }
        if all.contains(i) {
            let k = choose|k: int| 0 <= k < all.len() && all[k] == i;
            if k < near.len() {
                assert(near[k] == i);
            }
        }
    }
}

/// What is asked of a neighbour of which the frame is still to be asked for.
pub open spec fn wants(s: Seq<Kept>, current: int) -> spec_fn(int) -> bool {
    |i: int| i != current && !holds(s, i as usize)
}

/// The neighbours of which the frames are still to be asked for.
pub open spec fn missing(s: Seq<Kept>, current: int, n: nat, len: int) -> Seq<int> {
    prefetched(current, n, len).filter(wants(s, current))
}

/// The neighbours of which the frames are still to be asked for: those within `n` of the
/// current shot for which none is kept.
pub fn to_prefetch(cache: &LruCache, current: usize, n: usize, len: usize) -> (out: Vec<usize>)
    ensures
        as_ints(out@) == missing(cache.kept(), current as int, n as nat, len as int),
{
    let all = prefetch_set(current, n, len);
    let ghost av = as_ints(all@);
    let ghost p = wants(cache.kept(), current as int);
    let mut out: Vec<usize> = Vec::new();
    let mut k: usize = 0;
    proof {
        reveal(Seq::filter);
        assert(av.take(0) =~= Seq::empty());
        assert(as_ints(out@) =~= av.take(0).filter(p));
    }
    while k < all.len()
        invariant
            0 <= k <= all@.len(),
            av == as_ints(all@),
            p == wants(cache.kept(), current as int),
            as_ints(out@) == av.take(k as int).filter(p),
        decreases all@.len() - k,
    {
        let ghost before = as_ints(out@);
        let i: usize = all[k];
        proof {
            reveal(Seq::filter);
            assert(av[k as int] == i);
            assert(av.take(k + 1).drop_last() =~= av.take(k as int));
        }
        if i != current && !cache.contains(i) {
            out.push(i);
            assert(as_ints(out@) =~= before.push(i as int));
        }
        k += 1;
    }
    assert(av.take(k as int) =~= av);
    out
}

/// The one frame at full size that is kept, apart from the others.
pub struct FullSlot {
    pub index: Option<usize>,
    pub image: Option<Arc<DecodedImage>>,
}

impl Default for FullSlot {
    fn default() -> (r: Self)
        ensures
            r.index is None && r.image is None,
    {
        FullSlot { index: None, image: None }
    }
}

impl FullSlot {
    /// Keeps the frame of a shot in place of any other.
    pub fn set(&mut self, index: usize, image: Arc<DecodedImage>)
        ensures
            final(self).index == Some(index),
            final(self).image == Some(image),
    {
        self.index = Some(index);
        self.image = Some(image);
    }

    /// The frame, if it is that of the shot.
    pub fn get(&self, index: usize) -> (r: Option<Arc<DecodedImage>>)
        ensures
            r == (if self.index == Some(index) {
                self.image
            } else {
                None
            }),
    {
        if let Some(i) = self.index {
            if i == index {
                return match &self.image {
                    Some(image) => Some(image.clone()),
                    None => None,
                };
            }
        }
        None
    }
}

/// Sizes add up: two runs of frames are as large as the one and the other together, and one
/// frame is as large as its bytes.
pub proof fn frame_sizes_add_up(s: Seq<Kept>, t: Seq<Kept>, key: usize, image: Arc<DecodedImage>)
    ensures
        total(s + t) == total(s) + total(t),
        total(s.push((key, image))) == total(s) + image.rgba@.len(),
        total(Seq::empty()) == 0,
        total(s) >= 0,
    decreases s.len() + t.len(),
{
    assert(s.push((key, image)).drop_last() =~= s);
    if s.len() > 0 {
        frame_sizes_add_up(s.drop_last(), Seq::empty(), key, image);
    }
    if t.len() == 0 {
        assert(s + t =~= s);
    } else {
        frame_sizes_add_up(s, t.drop_last(), key, image);
        assert((s + t).drop_last() =~= s + t.drop_last());
    }
}

/// No more frames are dropped than have to be: the oldest go first, what fits the budget
/// stays whole, and with the youngest of those that were dropped it would be over.
pub proof fn no_more_is_dropped_than_has_to_be(s: Seq<Kept>, budget: int)
    ensures
        total(s) <= budget ==> evicted(s, budget) == s,
        ({
            let dropped = s.len() - evicted(s, budget).len();
            dropped > 0 ==> total(s.skip(dropped - 1)) > budget
        }),
    decreases s.len(),
{
    if total(s) > budget && s.len() > 1 {
        let rest = s.drop_first();
        no_more_is_dropped_than_has_to_be(rest, budget);
        a_put_frame_stays(rest, budget);
        let dropped = s.len() - evicted(s, budget).len();
        if dropped > 1 {
            assert(s.skip(dropped - 1) =~= rest.skip(dropped - 2));
        } else {
            assert(s.skip(0) =~= s);
        }
    }
}

/// A frame that is used becomes the youngest; the others keep their order. One that is not
/// held changes nothing.
pub proof fn a_used_frame_becomes_the_youngest(s: Seq<Kept>, i: int)
    requires
        one_each(s),
        0 <= i < s.len(),
    ensures
        used_again(s, s[i].0) == s.take(i) + s.skip(i + 1) + seq![s[i]],
{
    let key = s[i].0;
    lemma_without_present(s, key, i);
    assert(holds(s, key));
    lemma_place_is(s, key, i);
    assert(used_again(s, key) =~= s.take(i) + s.skip(i + 1) + seq![s[i]]);
}

/// A frame that is put replaces the one that its shot had, becomes the youngest, and as long
/// as the budget allows drops no other.
pub proof fn a_frame_replaces_the_one_before(
    s: Seq<Kept>,
    i: int,
    key: usize,
    image: Arc<DecodedImage>,
    budget: int,
)
    requires
        one_each(s),
        total(without(s, key)) + image.rgba@.len() <= budget,
    ensures
        ({
            let after = evicted(without(s, key).push((key, image)), budget);
            &&& 0 <= i < s.len() && s[i].0 == key ==> after == s.take(i) + s.skip(i + 1) + seq![
                (key, image),
            ]
            &&& !holds(s, key) ==> after == s.push((key, image))
        }),
{
    let w = without(s, key);
    frame_sizes_add_up(w, w, key, image);
    no_more_is_dropped_than_has_to_be(w.push((key, image)), budget);
    if 0 <= i < s.len() && s[i].0 == key {
        lemma_without_present(s, key, i);
        assert(w.push((key, image)) =~= s.take(i) + s.skip(i + 1) + seq![(key, image)]);
    }
    if !holds(s, key) {
        lemma_without_absent(s, key);
    }
}

/// How far a shot is from the current one.
pub open spec fn distance(a: int, b: int) -> int {
    if a < b {
        b - a
    } else {
        a - b
    }
}

/// Frames are fetched from near to far, and at the same distance the one ahead first; no
/// shot is fetched twice.
pub proof fn near_frames_are_fetched_first(current: int, n: nat, len: int, i: int, j: int)
    requires
        0 <= current < len,
        0 <= i < j < prefetched(current, n, len).len(),
    ensures
        ({
            let all = prefetched(current, n, len);
            &&& distance(all[i], current) <= distance(all[j], current)
            &&& distance(all[i], current) == distance(all[j], current) ==> all[i] > all[j]
        }),
{
    lemma_around_by_distance(current, n, len, i, j);
}

proof fn lemma_around_by_distance(current: int, n: nat, len: int, i: int, j: int)
    requires
        0 <= current < len,
    ensures
        ({
            let all = around(current, n, len);
            &&& 0 <= i < all.len() ==> distance(all[i], current) <= n
            &&& 0 <= j < all.len() ==> distance(all[j], current) <= n
            &&& 0 <= i < j < all.len() ==> {
                &&& distance(all[i], current) <= distance(all[j], current)
                &&& distance(all[i], current) == distance(all[j], current) ==> all[i] > all[j]
            }
        }),
    decreases n,
{
    if n > 0 {
        let near = around(current, (n - 1) as nat, len);
        lemma_around_by_distance(current, (n - 1) as nat, len, i, j);
        let all = around(current, n, len);
        assert(forall|k: int| 0 <= k < near.len() ==> all[k] == near[k]);
    }
}

/// A place behind the shots is taken as the last one.
pub proof fn a_place_behind_the_shots_is_the_last(current: int, n: nat, len: int)
    requires
        0 < len <= current,
    ensures
        prefetched(current, n, len) == prefetched(len - 1, n, len),
        prefetched(current, n, 0).len() == 0,
{
}

/// What is fetched is what is near and not held, but for the current shot.
pub proof fn what_is_held_is_not_fetched(s: Seq<Kept>, current: int, n: nat, len: int, i: int)
    requires
        0 <= current < len <= usize::MAX,
    ensures
        missing(s, current, n, len).contains(i) <==> {
            &&& 0 <= i < len
            &&& current - n <= i <= current + n
            &&& i != current
            &&& !holds(s, i as usize)
        },
{
    prefetching_covers_the_neighbours(current, n, len, i);
    let all = prefetched(current, n, len);
    let p = wants(s, current);
    if missing(s, current, n, len).contains(i) {
        all.lemma_filter_contains_rev(p, i);
        let k = choose|k: int| 0 <= k < all.filter(p).len() && all.filter(p)[k] == i;
        broadcast use vstd::seq_lib::group_filter_ensures;

        assert(p(all.filter(p)[k]));
    }
    if all.contains(i) && p(i) {
        let k = choose|k: int| 0 <= k < all.len() && all[k] == i;
        all.lemma_filter_contains(p, k);
    }
}

} // verus!
