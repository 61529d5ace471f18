//! How the states of a journal develop over a run: moves become done in order, a stopped
//! run leaves the rest as it was, and what is done is not done again.
use vstd::prelude::*;
use crate::apply::{
    all_moves, all_ran, ended_at, executed, fresh, mkdir_tasks, move_made, move_recorded,
    move_tasks, op_tasks, ops_tasks, sidecar_dirs, sync_tasks, task_ran, tasks, Progress, Task,
};
use crate::fsops::{FsErrorView, FsEvent};
use crate::journal::{ApplyErrorView, OpState, ReportView};
use crate::moves::move_ran;
use crate::plan::{OpView, PlanView};
use crate::records::sidecar_written;
use crate::safety::dir_synced;

verus! {

/// How many of the steps are moves.
pub open spec fn move_count(steps: Seq<Task>) -> int
    decreases steps.len(),
{
    if steps.len() == 0 {
        0
    } else {
        move_count(steps.drop_last()) + if steps.last() is Move {
            1int
        } else {
            0
        }
    }
}

/// How many shots the steps complete.
pub open spec fn shot_count(steps: Seq<Task>) -> int
    decreases steps.len(),
{
    if steps.len() == 0 {
        0
    } else {
        shot_count(steps.drop_last()) + if steps.last() is ShotDone {
            1int
        } else {
            0
        }
    }
}

/// Each move has the number of the moves before it.
pub open spec fn numbered(steps: Seq<Task>) -> bool {
    forall|k: int|
        0 <= k < steps.len() && (#[trigger] steps[k]) is Move ==> steps[k]->Move_number
            == move_count(steps.take(k))
}

/// How many of the first `n` moves are still to be made.
pub open spec fn still_to_move(statuses: Seq<OpState>, n: int) -> int
    decreases n,
{
    if n <= 0 {
        0
    } else {
        still_to_move(statuses, n - 1) + if statuses[n - 1] == OpState::Done {
            0int
        } else {
            1
        }
    }
}

/// The first `n` moves are done, the others are as they were.
pub open spec fn done_up_to(before: Seq<OpState>, after: Seq<OpState>, n: int) -> bool {
    &&& after.len() == before.len()
    &&& forall|g: int|
        0 <= g < before.len() ==> #[trigger] after[g] == if g < n {
            OpState::Done
        } else {
            before[g]
        }
}

pub(crate) proof fn lemma_counts_add(a: Seq<Task>, b: Seq<Task>)
    ensures
        move_count(a + b) == move_count(a) + move_count(b),
        shot_count(a + b) == shot_count(a) + shot_count(b),
        move_count(a) >= 0,
        shot_count(a) >= 0,
    decreases a.len() + b.len(),
{
    if b.len() == 0 {
        assert(a + b =~= a);
        if a.len() > 0 {
            lemma_counts_add(a.drop_last(), b);
        }
    } else {
        lemma_counts_add(a, b.drop_last());
        assert((a + b).drop_last() =~= a + b.drop_last());
    }
}

proof fn lemma_numbered_concat(a: Seq<Task>, b: Seq<Task>)
    requires
        numbered(a),
        forall|k: int|
            0 <= k < b.len() && (#[trigger] b[k]) is Move ==> b[k]->Move_number == move_count(a)
                + move_count(b.take(k)),
    ensures
        numbered(a + b),
{
    let s = a + b;
    assert forall|k: int| 0 <= k < s.len() && (#[trigger] s[k]) is Move implies s[k]->Move_number
        == move_count(s.take(k)) by {
        if k < a.len() {
            assert(s[k] == a[k]);
            assert(s.take(k) =~= a.take(k));
        } else {
            let j = k - a.len();
            assert(s[k] == b[j]);
            assert(s.take(k) =~= a + b.take(j));
            lemma_counts_add(a, b.take(j));
        }
    }
}

proof fn lemma_move_tasks(op: OpView, base: int, j: int)
    requires
        0 <= j <= op.moves.len(),
    ensures
        move_count(op_tasks(op, base).take(j)) == j,
        shot_count(op_tasks(op, base).take(j)) == 0,
    decreases j,
{
    let mine = op_tasks(op, base);
    if j > 0 {
        lemma_move_tasks(op, base, j - 1);
        assert(mine.take(j).drop_last() =~= mine.take(j - 1));
        assert(mine[j - 1] == move_tasks(op.moves, base)[j - 1]);
    } else {
        assert(mine.take(0) =~= Seq::<Task>::empty());
    }
}

proof fn lemma_op_tasks(op: OpView, base: int)
    ensures
        move_count(op_tasks(op, base)) == op.moves.len(),
        shot_count(op_tasks(op, base)) == 1,
        forall|k: int|
            0 <= k < op_tasks(op, base).len() && (#[trigger] op_tasks(op, base)[k]) is Move
                ==> op_tasks(op, base)[k]->Move_number == base + move_count(
                op_tasks(op, base).take(k),
            ),
{
    let mine = op_tasks(op, base);
    let n = op.moves.len() as int;
    lemma_move_tasks(op, base, n);
    let front = mine.drop_last();
    assert(mine.last() == Task::ShotDone);
    if op.write_sidecar is Some {
        assert(front.drop_last() =~= mine.take(n));
        assert(front.last() == Task::Sidecar(op.write_sidecar->0));
    } else {
        assert(front =~= mine.take(n));
    }
    assert(move_count(front) == n);
    assert(shot_count(front) == 0);
    assert forall|k: int|
        0 <= k < mine.len() && (#[trigger] mine[k]) is Move implies mine[k]->Move_number == base
        + move_count(mine.take(k)) by {
        assert(k < n);
        assert(mine[k] == move_tasks(op.moves, base)[k]);
        lemma_move_tasks(op, base, k);
    }
}

proof fn lemma_ops_tasks(ops: Seq<OpView>)
    ensures
        numbered(ops_tasks(ops)),
        move_count(ops_tasks(ops)) == all_moves(ops).len(),
        shot_count(ops_tasks(ops)) == ops.len(),
    decreases ops.len(),
{
    if ops.len() > 0 {
        let front = ops.drop_last();
        let base = all_moves(front).len() as int;
        lemma_ops_tasks(front);
        lemma_op_tasks(ops.last(), base);
        lemma_numbered_concat(ops_tasks(front), op_tasks(ops.last(), base));
        lemma_counts_add(ops_tasks(front), op_tasks(ops.last(), base));
    }
}

proof fn lemma_no_moves(steps: Seq<Task>)
    requires
        forall|k: int|
            0 <= k < steps.len() ==> (#[trigger] steps[k]) is Mkdir || steps[k] is SyncDir,
    ensures
        move_count(steps) == 0,
        shot_count(steps) == 0,
    decreases steps.len(),
{
    if steps.len() > 0 {
        let front = steps.drop_last();
        assert forall|k: int| 0 <= k < front.len() implies (#[trigger] front[k]) is Mkdir
            || front[k] is SyncDir by {
            assert(front[k] == steps[k]);
        }
        lemma_no_moves(front);
        assert(steps[steps.len() - 1] is Mkdir || steps[steps.len() - 1] is SyncDir);
    }
}

pub(crate) proof fn lemma_tasks(plan: PlanView)
    ensures
        numbered(tasks(plan)),
        move_count(tasks(plan)) == all_moves(plan.ops).len(),
        shot_count(tasks(plan)) == plan.ops.len(),
{
    let m = mkdir_tasks(plan);
    lemma_no_moves(m);
    lemma_ops_tasks(plan.ops);
    lemma_numbered_concat(m, ops_tasks(plan.ops));
    lemma_counts_add(m, ops_tasks(plan.ops));
    let moved = m + ops_tasks(plan.ops);
    let sync = sync_tasks(plan);
    lemma_no_moves(sync);
    lemma_numbered_concat(moved, sync);
    lemma_counts_add(moved, sync);
}

pub(crate) proof fn lemma_prefix_counts(steps: Seq<Task>, all: Seq<Task>)
    requires
        steps.is_prefix_of(all),
        numbered(all),
    ensures
        numbered(steps),
        move_count(steps) <= move_count(all),
{
    let n = steps.len() as int;
    assert(steps == all.subrange(0, n));
    assert forall|k: int|
        0 <= k < steps.len() && (#[trigger] steps[k]) is Move implies steps[k]->Move_number
        == move_count(steps.take(k)) by {
        assert(steps[k] == all[k]);
        assert(steps.take(k) =~= all.take(k));
    }
    assert(all =~= steps + all.skip(n));
    lemma_counts_add(steps, all.skip(n));
    lemma_counts_add(all.skip(n), Seq::empty());
}

pub(crate) proof fn lemma_all_ran_progress(
    plan: PlanView,
    journal_path: Seq<char>,
    steps: Seq<Task>,
    p: Progress,
    t: Seq<FsEvent>,
    q: Progress,
)
    requires
        numbered(steps),
        move_count(steps) <= p.statuses.len(),
        all_ran(plan, journal_path, steps, p, t, q),
    ensures
        done_up_to(p.statuses, q.statuses, move_count(steps)),
        q.files == p.files + still_to_move(p.statuses, move_count(steps)),
        q.shots == p.shots + shot_count(steps),
    decreases steps.len(),
{
    if steps.len() > 0 {
        let front = steps.drop_last();
        let task = steps.last();
        let (a, b, m) = choose|a: Seq<FsEvent>, b: Seq<FsEvent>, m: Progress|
            {
                &&& t == #[trigger] (a + b)
                &&& all_ran(plan, journal_path, front, p, a, m)
                &&& #[trigger] task_ran(plan, journal_path, task, m, b, q, Ok(()))
            };
        assert(front =~= steps.subrange(0, steps.len() - 1));
        lemma_prefix_counts(front, steps);
        lemma_all_ran_progress(plan, journal_path, front, p, a, m);
        lemma_counts_add(front, Seq::empty());
        match task {
            Task::Move { from, to, number } => {
                assert(steps.take(steps.len() - 1) =~= front);
                assert(steps[steps.len() - 1] == task);
                assert(number == move_count(front));
                assert(m.statuses[number] == p.statuses[number]);
                if m.statuses[number] != OpState::Done {
                    lemma_made(plan, journal_path, from, to, number, m, b, q);
                }
            },
            _ => {},
        }
    }
}

proof fn lemma_made(
    plan: PlanView,
    journal_path: Seq<char>,
    from: Seq<char>,
    to: Seq<char>,
    number: int,
    p: Progress,
    t: Seq<FsEvent>,
    q: Progress,
)
    requires
        move_made(plan, journal_path, from, to, number, p, t, q, Ok(())),
    ensures
        q.statuses == p.statuses.update(number, OpState::Done),
        q.files == p.files + 1,
        q.sidecars == p.sidecars,
        q.shots == p.shots,
{
    let (a, b, m) = choose|a: Seq<FsEvent>, b: Seq<FsEvent>, m: Result<(), ApplyErrorView>|
        {
            &&& t == a + b
            &&& #[trigger] move_ran(from, to, a, m)
            &&& #[trigger] move_recorded(plan, journal_path, number, p, b, q, m, Ok(()))
        };
    assert(m is Ok);
}

/// A run that comes to its end has made every move: all of them are done, each shot is
/// counted, and the files counted are those that were still to be moved.
pub proof fn a_finished_run_has_made_every_move(
    plan: PlanView,
    statuses: Seq<OpState>,
    journal_path: Seq<char>,
    t: Seq<FsEvent>,
    after: Seq<OpState>,
    report: ReportView,
)
    requires
        executed(plan, statuses, journal_path, t, after, Ok(report)),
        statuses.len() >= all_moves(plan.ops).len(),
    ensures
        done_up_to(statuses, after, all_moves(plan.ops).len() as int),
        report.moved_files == still_to_move(statuses, all_moves(plan.ops).len() as int),
        report.moved_shots == plan.ops.len(),
        report.stopped_at is None,
{
    let p = fresh(statuses);
    let r: Result<ReportView, ApplyErrorView> = Ok(report);
    let q = choose|q: Progress|
        {
            &&& q.statuses == after
            &&& #[trigger] ended_at(plan, journal_path, p, t, q, r)
        };
    lemma_tasks(plan);
    lemma_all_ran_progress(plan, journal_path, tasks(plan), p, t.drop_last(), q);
}

/// A run that stops has made every move before some point, and the moves after that point
/// are as they were; only the move at that point may have failed.
pub proof fn a_stopped_run_leaves_the_rest(
    plan: PlanView,
    statuses: Seq<OpState>,
    journal_path: Seq<char>,
    t: Seq<FsEvent>,
    after: Seq<OpState>,
    e: ApplyErrorView,
)
    requires
        executed(plan, statuses, journal_path, t, after, Err(e)),
        statuses.len() >= all_moves(plan.ops).len(),
    ensures
        after.len() == statuses.len(),
        exists|g: int|
            0 <= g <= all_moves(plan.ops).len() && #[trigger] stopped_at_move(statuses, after, g),
{
    let p = fresh(statuses);
    let r: Result<ReportView, ApplyErrorView> = Err(e);
    let q = choose|q: Progress|
        {
            &&& q.statuses == after
            &&& #[trigger] ended_at(plan, journal_path, p, t, q, r)
        };
    let (steps, task, a, b, m) = choose|
        steps: Seq<Task>,
        task: Task,
        a: Seq<FsEvent>,
        b: Seq<FsEvent>,
        m: Progress,
    |
        {
            &&& t == a + b
            &&& steps.push(task).is_prefix_of(tasks(plan))
            &&& #[trigger] all_ran(plan, journal_path, steps, p, a, m)
            &&& #[trigger] task_ran(plan, journal_path, task, m, b, q, Err(e))
        };
    lemma_tasks(plan);
    let longer = steps.push(task);
    lemma_prefix_counts(longer, tasks(plan));
    assert(longer.drop_last() =~= steps);
    assert(steps =~= longer.subrange(0, steps.len() as int));
    lemma_prefix_counts(steps, longer);
    lemma_all_ran_progress(plan, journal_path, steps, p, a, m);
    lemma_counts_add(steps, Seq::empty());
    let g = move_count(steps);
    match task {
        Task::Move { from, to, number } => {
            assert(longer[steps.len() as int] == task);
            assert(longer.take(steps.len() as int) =~= steps);
            assert(number == g);
            if m.statuses[number] != OpState::Done {
                assert(move_made(plan, journal_path, from, to, number, m, b, q, Err(e)));
                let (x, y, w) = choose|
                    x: Seq<FsEvent>,
                    y: Seq<FsEvent>,
                    w: Result<(), ApplyErrorView>,
                |
                    {
                        &&& b == x + y
                        &&& #[trigger] move_ran(from, to, x, w)
                        &&& #[trigger] move_recorded(
                            plan,
                            journal_path,
                            number,
                            m,
                            y,
                            q,
                            w,
                            Err(e),
                        )
                    };
            }
        },
        _ => {},
    }
    assert(stopped_at_move(statuses, after, g));
}

/// The moves before `g` are done, those after it are as they were, and the one at `g` is
/// done, failed, or as it was.
pub open spec fn stopped_at_move(before: Seq<OpState>, after: Seq<OpState>, g: int) -> bool {
    &&& forall|h: int| 0 <= h < g && h < after.len() ==> #[trigger] after[h] == OpState::Done
    &&& forall|h: int| g < h < after.len() ==> #[trigger] after[h] == before[h]
    &&& g < after.len() ==> {
        ||| after[g] == OpState::Done
        ||| after[g] == OpState::Failed
        ||| after[g] == before[g]
    }
}

/// The event neither renames nor copies a file, but for a sidecar into its place.
pub open spec fn moves_no_photo(e: FsEvent, plan: PlanView) -> bool {
    &&& !(e is CopyCreateNew)
    &&& e is RenameNoreplace ==> crate::safety::is_sidecar(plan, e->RenameNoreplace_to)
}

proof fn lemma_nothing_to_replay(
    plan: PlanView,
    journal_path: Seq<char>,
    steps: Seq<Task>,
    p: Progress,
    t: Seq<FsEvent>,
    q: Progress,
)
    requires
        numbered(steps),
        move_count(steps) <= p.statuses.len(),
        forall|g: int| 0 <= g < p.statuses.len() ==> p.statuses[g] == OpState::Done,
        forall|k: int|
            0 <= k < steps.len() ==> crate::safety::known(plan, #[trigger] steps[k]),
        all_ran(plan, journal_path, steps, p, t, q),
    ensures
        q.files == p.files,
        q.statuses == p.statuses,
        forall|i: int| 0 <= i < t.len() ==> moves_no_photo(#[trigger] t[i], plan),
    decreases steps.len(),
{
    if steps.len() > 0 {
        let front = steps.drop_last();
        let task = steps.last();
        let (a, b, m) = choose|a: Seq<FsEvent>, b: Seq<FsEvent>, m: Progress|
            {
                &&& t == #[trigger] (a + b)
                &&& all_ran(plan, journal_path, front, p, a, m)
                &&& #[trigger] task_ran(plan, journal_path, task, m, b, q, Ok(()))
            };
        assert(front =~= steps.subrange(0, steps.len() - 1));
        lemma_prefix_counts(front, steps);
        assert forall|k: int| 0 <= k < front.len() implies crate::safety::known(
            plan,
            #[trigger] front[k],
        ) by {
            assert(front[k] == steps[k]);
        }
        lemma_nothing_to_replay(plan, journal_path, front, p, a, m);
        lemma_counts_add(front, Seq::empty());
        assert(steps[steps.len() - 1] == task);
        match task {
            Task::Move { from, to, number } => {
                assert(steps.take(steps.len() - 1) =~= front);
                assert(number == move_count(front));
            },
            Task::Sidecar(s) => {
                if !b[0]->IsThere_reply {
                    let w = choose|w: Result<(), FsErrorView>| #[trigger]
                        sidecar_written(s.path, s.tags, s.rating, b.skip(1), w);
                    assert(forall|i: int| 1 <= i < b.len() ==> b[i] == b.skip(1)[i - 1]);
                }
            },
            _ => {},
        }
        assert forall|i: int| 0 <= i < t.len() implies moves_no_photo(#[trigger] t[i], plan) by {
            if i < a.len() {
                assert(t[i] == a[i]);
            } else {
                assert(t[i] == b[i - a.len()]);
            }
        }
    }
}

/// A journal of which every move is done replays nothing: no photo is renamed or copied,
/// and none is counted.
pub proof fn what_is_done_is_not_done_again(
    plan: PlanView,
    statuses: Seq<OpState>,
    journal_path: Seq<char>,
    t: Seq<FsEvent>,
    after: Seq<OpState>,
    report: ReportView,
)
    requires
        executed(plan, statuses, journal_path, t, after, Ok(report)),
        statuses.len() >= all_moves(plan.ops).len(),
        forall|g: int| 0 <= g < statuses.len() ==> statuses[g] == OpState::Done,
    ensures
        report.moved_files == 0,
        after == statuses,
        forall|i: int| 0 <= i < t.len() ==> moves_no_photo(#[trigger] t[i], plan),
{
    let p = fresh(statuses);
    let r: Result<ReportView, ApplyErrorView> = Ok(report);
    let q = choose|q: Progress|
        {
            &&& q.statuses == after
            &&& #[trigger] ended_at(plan, journal_path, p, t, q, r)
        };
    lemma_tasks(plan);
    assert forall|k: int| 0 <= k < tasks(plan).len() implies crate::safety::known(
        plan,
        #[trigger] tasks(plan)[k],
    ) by {
        crate::safety::lemma_tasks_known(plan, k);
    }
    lemma_nothing_to_replay(plan, journal_path, tasks(plan), p, t.drop_last(), q);
    assert forall|i: int| 0 <= i < t.len() implies moves_no_photo(#[trigger] t[i], plan) by {
        if i < t.len() - 1 {
            assert(t[i] == t.drop_last()[i]);
        }
    }
}

/// Whether the history holds the directory made durable.
pub open spec fn made_durable(t: Seq<FsEvent>, dir: Seq<char>) -> bool {
    exists|i: int| 0 <= i < t.len() && dir_synced(#[trigger] t[i], dir)
}

proof fn lemma_synced(
    plan: PlanView,
    journal_path: Seq<char>,
    steps: Seq<Task>,
    p: Progress,
    t: Seq<FsEvent>,
    q: Progress,
    k: int,
)
    requires
        all_ran(plan, journal_path, steps, p, t, q),
        0 <= k < steps.len(),
        steps[k] is SyncDir,
    ensures
        made_durable(t, steps[k]->SyncDir_0),
    decreases steps.len(),
{
    let front = steps.drop_last();
    let (a, b, m) = choose|a: Seq<FsEvent>, b: Seq<FsEvent>, m: Progress|
        {
            &&& t == #[trigger] (a + b)
            &&& all_ran(plan, journal_path, front, p, a, m)
            &&& #[trigger] task_ran(plan, journal_path, steps.last(), m, b, q, Ok(()))
        };
    let dir = steps[k]->SyncDir_0;
    if k < front.len() {
        assert(front[k] == steps[k]);
        lemma_synced(plan, journal_path, front, p, a, m, k);
        let i = choose|i: int| 0 <= i < a.len() && dir_synced(#[trigger] a[i], dir);
        assert(t[i] == a[i]);
    } else {
        assert(steps.last() == steps[k]);
        assert(dir_synced(b[0], dir));
        assert(t[a.len() as int] == b[0]);
    }
}

/// The journal goes last: when a run removes it, the directory of every sidecar of the plan
/// was made durable before, also where the run found every move done.
pub proof fn sidecars_are_durable_before_the_journal_goes(
    plan: PlanView,
    statuses: Seq<OpState>,
    journal_path: Seq<char>,
    t: Seq<FsEvent>,
    after: Seq<OpState>,
    report: ReportView,
    dir: Seq<char>,
)
    requires
        executed(plan, statuses, journal_path, t, after, Ok(report)),
        sidecar_dirs(plan.ops).contains(dir),
    ensures
        t.len() > 0,
        t.last() is RemoveFile && t.last()->RemoveFile_path == journal_path,
        made_durable(t.drop_last(), dir),
{
    let p = fresh(statuses);
    let r: Result<ReportView, ApplyErrorView> = Ok(report);
    let q = choose|q: Progress|
        {
            &&& q.statuses == after
            &&& #[trigger] ended_at(plan, journal_path, p, t, q, r)
        };
    let dirs = sidecar_dirs(plan.ops);
    let d = choose|d: int| 0 <= d < dirs.len() && dirs[d] == dir;
    let k = mkdir_tasks(plan).len() + ops_tasks(plan.ops).len() + d;
    assert(sync_tasks(plan)[d] == Task::SyncDir(dir));
    assert(tasks(plan)[k] == sync_tasks(plan)[d]);
    lemma_synced(plan, journal_path, tasks(plan), p, t.drop_last(), q, k);
}

} // verus!
