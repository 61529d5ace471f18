//! What holds of every run of the engine, whatever the disk answers: nothing moves
//! before the journal is durable, no source goes before its copy is safe, and no file is
//! lost or overwritten.
use vstd::prelude::*;
use crate::apply::{
    all_moves, all_pending, all_ran, applied, ended_at, executed, fresh, journaled_run, mkdir_tasks,
    move_made, move_recorded, move_tasks, op_tasks, ops_tasks, preflight_ran, reconcile_ran, rerun, sync_tasks,
    resumed, run_after_journal, task_ran, tasks, Progress, Task,
};
use crate::fsops::{FsErrorView, FsEvent};
use crate::journal::{ApplyErrorView, OpState, ReportView};
use crate::moves::{cross_ran, move_ran, partial_of, publish_ran};
use crate::paths::{file_name, parent};
use crate::plan::{MoveView, OpView, PlanView, SidecarView};
use crate::records::{journal_tmp, journal_written, sidecar_tmp, sidecar_written};

verus! {

/// The event can change what files there are.
pub open spec fn touches_files(e: FsEvent) -> bool {
    e is MkdirP || e is RenameNoreplace || e is CopyCreateNew || e is RemoveFile
}

/// At `k` the history holds the complete, durable publication of the journal with every
/// move still to be made.
pub open spec fn journal_published_at(
    plan: PlanView,
    journal_path: Seq<char>,
    t: Seq<FsEvent>,
    k: int,
) -> bool {
    &&& 0 <= k
    &&& k + 2 < t.len()
    &&& t[k] matches FsEvent::EncodeJournal { plan: p, statuses, reply }
    &&& p == plan
    &&& statuses == all_pending(plan)
    &&& reply is Ok
    &&& t[k + 1] matches FsEvent::WriteFile { path, content, sync, reply: wrote }
    &&& path == journal_tmp(journal_path)
    &&& content == reply->Ok_0
    &&& sync
    &&& wrote is Ok
    &&& t[k + 2] matches FsEvent::Rename { from, to, reply: renamed }
    &&& from == journal_tmp(journal_path)
    &&& to == journal_path
    &&& renamed is Ok
}

/// No file is touched before the journal stands durably in its place, with every move of
/// the plan marked as still to be made.
pub proof fn journal_comes_first(
    plan: PlanView,
    journal_path: Seq<char>,
    t: Seq<FsEvent>,
    r: Result<ReportView, ApplyErrorView>,
    i: int,
)
    requires
        applied(plan, journal_path, t, r),
        0 <= i < t.len(),
        touches_files(t[i]),
    ensures
        exists|k: int| k + 2 < i && #[trigger] journal_published_at(plan, journal_path, t, k),
{
    let (a, b, c) = choose|a: Seq<FsEvent>, b: Seq<FsEvent>, c: Result<(), ApplyErrorView>|
        {
            &&& t == a + b
            &&& #[trigger] preflight_ran(plan, a, c)
            &&& #[trigger] journaled_run(plan, journal_path, b, c, r)
        };
    assert(i >= a.len()) by {
        if i < a.len() {
            assert(t[i] == a[i]);
        }
    }
    let (x, y, w) = choose|x: Seq<FsEvent>, y: Seq<FsEvent>, w: Result<(), ApplyErrorView>|
        {
            &&& b == x + y
            &&& #[trigger] journal_written(plan, all_pending(plan), journal_path, true, x, w)
            &&& #[trigger] run_after_journal(plan, journal_path, y, w, r)
        };
    assert(t[i] == b[i - a.len()]);
    assert(i >= a.len() + x.len()) by {
        if i < a.len() + x.len() {
            assert(t[i] == x[i - a.len()]);
        }
    }
    let k = a.len() as int;
    assert(x.len() == 3);
    assert(t[k] == x[0]);
    assert(t[k + 1] == x[1]);
    assert(t[k + 2] == x[2]);
    assert(journal_published_at(plan, journal_path, t, k));
}

/// The plan moves `from` to `to`.
pub open spec fn is_move(plan: PlanView, from: Seq<char>, to: Seq<char>) -> bool {
    all_moves(plan.ops).contains(MoveView { from, to })
}

/// The plan writes a sidecar at `path`.
pub open spec fn is_sidecar(plan: PlanView, path: Seq<char>) -> bool {
    exists|i: int|
        0 <= i < plan.ops.len() && (#[trigger] plan.ops[i]).write_sidecar is Some
            && plan.ops[i].write_sidecar->0.path == path
}

/// The files that the engine makes for its own use: the journal and its sibling, the
/// partial of a move, and the sibling that a sidecar is written to.
pub open spec fn own_temp(plan: PlanView, journal_path: Seq<char>, p: Seq<char>) -> bool {
    ||| p == journal_path
    ||| p == journal_tmp(journal_path)
    ||| exists|from: Seq<char>, to: Seq<char>| #[trigger]
        is_move(plan, from, to) && p == partial_of(to)
    ||| exists|path: Seq<char>, pid: u32|
        is_sidecar(plan, path) && file_name(path) is Some && p == #[trigger] sidecar_tmp(
            path,
            file_name(path)->0,
            pid,
        )
}

/// The engine's own files: those that it makes for its own use, and the sidecars that the
/// plan writes.
pub open spec fn own_file(plan: PlanView, journal_path: Seq<char>, p: Seq<char>) -> bool {
    own_temp(plan, journal_path, p) || is_sidecar(plan, p)
}

/// The event made the directory durable.
pub open spec fn dir_synced(e: FsEvent, dir: Seq<char>) -> bool {
    e matches FsEvent::FsyncDir { path, reply } && path == dir && reply is Ok
}

/// Just before `i` the history holds, without a gap, the whole safe copy of `from` to
/// `to`: copied into the partial, made durable, of the length of the source and of the
/// copy, renamed into place, and the directory made durable.
pub open spec fn copied_safely(t: Seq<FsEvent>, i: int, from: Seq<char>, to: Seq<char>) -> bool {
    let partial = partial_of(to);
    let d: int = if parent(to) is Some {
        1
    } else {
        0
    };
    &&& i >= 5 + d
    &&& i <= t.len()
    &&& t[i - 5 - d] matches FsEvent::CopyCreateNew { from: f, to: g, reply: copied }
    &&& f == from
    &&& g == partial
    &&& copied is Ok
    &&& t[i - 4 - d] matches FsEvent::FsyncFile { path: p, reply: synced }
    &&& p == partial
    &&& synced is Ok
    &&& t[i - 3 - d] == (FsEvent::FileLen { path: partial, reply: copied })
    &&& t[i - 2 - d] == (FsEvent::FileLen { path: from, reply: copied })
    &&& t[i - 1 - d] matches FsEvent::RenameNoreplace { from: a, to: b, reply: renamed }
    &&& a == partial
    &&& b == to
    &&& renamed is Ok
    &&& parent(to) is Some ==> dir_synced(t[i - 1], parent(to)->0)
}

/// The event at `i` is one that a run of the plan may hold: it moves a file of the plan
/// to its place, or copies it into its partial or the partial into its place, or it
/// concerns the engine's own files, or it unlinks a source whose copy is safe.
pub open spec fn lawful_event(
    plan: PlanView,
    journal_path: Seq<char>,
    t: Seq<FsEvent>,
    i: int,
) -> bool {
    match t[i] {
        FsEvent::RenameNoreplace { from, to, .. } => {
            ||| is_move(plan, from, to)
            ||| from == partial_of(to) && exists|f: Seq<char>| #[trigger] is_move(plan, f, to)
            ||| own_temp(plan, journal_path, from) && is_sidecar(plan, to)
        },
        FsEvent::CopyCreateNew { from, to, .. } => exists|d: Seq<char>| #[trigger]
            is_move(plan, from, d) && to == partial_of(d),
        FsEvent::RemoveFile { path, .. } => {
            ||| own_temp(plan, journal_path, path)
            ||| exists|to: Seq<char>| #[trigger]
                is_move(plan, path, to) && copied_safely(t, i, path, to)
        },
        FsEvent::WriteFile { path, .. } => own_temp(plan, journal_path, path),
        FsEvent::Rename { from, to, .. } => {
            &&& own_temp(plan, journal_path, from)
            &&& own_temp(plan, journal_path, to)
        },
        _ => true,
    }
}

/// Every event of the history is lawful.
pub open spec fn lawful(plan: PlanView, journal_path: Seq<char>, t: Seq<FsEvent>) -> bool {
    forall|i: int| 0 <= i < t.len() ==> #[trigger] lawful_event(plan, journal_path, t, i)
}

proof fn lemma_lawful_concat(
    plan: PlanView,
    journal_path: Seq<char>,
    a: Seq<FsEvent>,
    b: Seq<FsEvent>,
)
    requires
        lawful(plan, journal_path, a),
        lawful(plan, journal_path, b),
    ensures
        lawful(plan, journal_path, a + b),
{
    let t = a + b;
    assert forall|i: int| 0 <= i < t.len() implies #[trigger] lawful_event(
        plan,
        journal_path,
        t,
        i,
    ) by {
        if i < a.len() {
            assert(lawful_event(plan, journal_path, a, i));
            assert(t[i] == a[i]);
            if a[i] is RemoveFile && !own_temp(plan, journal_path, a[i]->RemoveFile_path) {
                let path = a[i]->RemoveFile_path;
                let to = choose|to: Seq<char>| #[trigger]
                    is_move(plan, path, to) && copied_safely(a, i, path, to);
                assert(forall|k: int| 0 <= k < i ==> t[k] == a[k]);
                assert(copied_safely(t, i, path, to));
            }
        } else {
            let j = i - a.len();
            assert(lawful_event(plan, journal_path, b, j));
            assert(t[i] == b[j]);
            if b[j] is RemoveFile && !own_temp(plan, journal_path, b[j]->RemoveFile_path) {
                let path = b[j]->RemoveFile_path;
                let to = choose|to: Seq<char>| #[trigger]
                    is_move(plan, path, to) && copied_safely(b, j, path, to);
                assert(forall|k: int| 0 <= k < j ==> t[k + a.len()] == b[k]);
                let d: int = if parent(to) is Some {
                    1
                } else {
                    0
                };
                assert(t[i - 5 - d] == b[j - 5 - d]);
                assert(t[i - 4 - d] == b[j - 4 - d]);
                assert(t[i - 3 - d] == b[j - 3 - d]);
                assert(t[i - 2 - d] == b[j - 2 - d]);
                assert(t[i - 1 - d] == b[j - 1 - d]);
                assert(t[i - 1] == b[j - 1]);
                assert(copied_safely(t, i, path, to));
            }
        }
    }
}

proof fn lemma_journal_lawful(
    plan: PlanView,
    statuses: Seq<OpState>,
    journal_path: Seq<char>,
    sync: bool,
    t: Seq<FsEvent>,
    r: Result<(), ApplyErrorView>,
)
    requires
        journal_written(plan, statuses, journal_path, sync, t, r),
    ensures
        lawful(plan, journal_path, t),
{
}

proof fn lemma_sidecar_lawful(
    plan: PlanView,
    journal_path: Seq<char>,
    s: SidecarView,
    t: Seq<FsEvent>,
    r: Result<(), FsErrorView>,
)
    requires
        is_sidecar(plan, s.path),
        sidecar_written(s.path, s.tags, s.rating, t, r),
    ensures
        lawful(plan, journal_path, t),
{
    if file_name(s.path) is Some {
        let pid = t[0]->ProcessId_reply;
        let tmp = sidecar_tmp(s.path, file_name(s.path)->0, pid);
        assert(own_temp(plan, journal_path, tmp));
    }
}

proof fn lemma_cross_lawful(
    plan: PlanView,
    journal_path: Seq<char>,
    from: Seq<char>,
    to: Seq<char>,
    t: Seq<FsEvent>,
    r: Result<(), ApplyErrorView>,
)
    requires
        is_move(plan, from, to),
        cross_ran(from, to, t, r),
    ensures
        lawful(plan, journal_path, t),
{
    let partial = partial_of(to);
    assert(own_temp(plan, journal_path, partial));
    let p = t.skip(5);
    assert(forall|k: int| 5 <= k < t.len() ==> p[k - 5] == t[k]);
    assert forall|i: int| 0 <= i < t.len() implies #[trigger] lawful_event(
        plan,
        journal_path,
        t,
        i,
    ) by {
        if i >= 5 && t[i] is RemoveFile && t[i]->RemoveFile_path != partial {
            assert(p[0] == t[5]);
            assert(p[i - 5] == t[i]);
            assert(publish_ran(from, to, p, r));
            assert(parent(to) is Some ==> i == 7);
            assert(parent(to) is None ==> i == 6);
            assert(copied_safely(t, i, from, to));
        }
        if i >= 5 {
            assert(p[i - 5] == t[i]);
        }
    }
}

proof fn lemma_move_lawful(
    plan: PlanView,
    journal_path: Seq<char>,
    from: Seq<char>,
    to: Seq<char>,
    t: Seq<FsEvent>,
    r: Result<(), ApplyErrorView>,
)
    requires
        is_move(plan, from, to),
        move_ran(from, to, t, r),
    ensures
        lawful(plan, journal_path, t),
{
    let head = t.take(1);
    assert(lawful(plan, journal_path, head)) by {
        assert(head[0] == t[0]);
    }
    if t.len() > 1 {
        lemma_cross_lawful(plan, journal_path, from, to, t.skip(1), r);
        lemma_lawful_concat(plan, journal_path, head, t.skip(1));
        assert(t =~= head + t.skip(1));
    } else {
        assert(t =~= head);
    }
}

/// The step is one of the plan's.
pub open spec fn known(plan: PlanView, task: Task) -> bool {
    match task {
        Task::Mkdir(_) => true,
        Task::Move { from, to, .. } => is_move(plan, from, to),
        Task::Sidecar(s) => is_sidecar(plan, s.path),
        Task::ShotDone => true,
        Task::SyncDir(_) => true,
    }
}

proof fn lemma_task_lawful(
    plan: PlanView,
    journal_path: Seq<char>,
    task: Task,
    p: Progress,
    t: Seq<FsEvent>,
    q: Progress,
    r: Result<(), ApplyErrorView>,
)
    requires
        known(plan, task),
        task_ran(plan, journal_path, task, p, t, q, r),
    ensures
        lawful(plan, journal_path, t),
{
    match task {
        Task::Mkdir(_) => {},
        Task::ShotDone => {},
        Task::SyncDir(_) => {},
        Task::Move { from, to, number } => {
            if p.statuses[number] != OpState::Done {
                assert(move_made(plan, journal_path, from, to, number, p, t, q, r));
                let (a, b, m) = choose|
                    a: Seq<FsEvent>,
                    b: Seq<FsEvent>,
                    m: Result<(), ApplyErrorView>,
                |
                    {
                        &&& t == a + b
                        &&& #[trigger] move_ran(from, to, a, m)
                        &&& #[trigger] move_recorded(plan, journal_path, number, p, b, q, m, r)
                    };
                lemma_move_lawful(plan, journal_path, from, to, a, m);
                match m {
                    Ok(_) => {
                        lemma_journal_lawful(
                            plan,
                            q.statuses,
                            journal_path,
                            q.files % 64 == 0,
                            b,
                            r,
                        );
                    },
                    Err(_) => {
                        let w = choose|w: Result<(), ApplyErrorView>| #[trigger]
                            journal_written(plan, q.statuses, journal_path, true, b, w);
                        lemma_journal_lawful(plan, q.statuses, journal_path, true, b, w);
                    },
                }
                lemma_lawful_concat(plan, journal_path, a, b);
            }
        },
        Task::Sidecar(s) => {
            let head = t.take(1);
            assert(head[0] == t[0]);
            assert(lawful(plan, journal_path, head));
            if t[0]->IsThere_reply {
                assert(t =~= head);
            } else {
                let w = choose|w: Result<(), FsErrorView>| #[trigger]
                    sidecar_written(s.path, s.tags, s.rating, t.skip(1), w);
                lemma_sidecar_lawful(plan, journal_path, s, t.skip(1), w);
                lemma_lawful_concat(plan, journal_path, head, t.skip(1));
                assert(t =~= head + t.skip(1));
            }
        },
    }
}

proof fn lemma_op_tasks_known(plan: PlanView, i: int, base: int, k: int)
    requires
        0 <= i < plan.ops.len(),
        0 <= k < op_tasks(plan.ops[i], base).len(),
        forall|j: int|
            0 <= j < plan.ops[i].moves.len() ==> all_moves(plan.ops).contains(
                #[trigger] plan.ops[i].moves[j],
            ),
    ensures
        known(plan, op_tasks(plan.ops[i], base)[k]),
{
    let op = plan.ops[i];
    let mine = op_tasks(op, base);
    let n = op.moves.len();
    if k < n {
        assert(mine[k] == move_tasks(op.moves, base)[k]);
        let m = op.moves[k];
        assert(m == (MoveView { from: m.from, to: m.to }));
    } else if op.write_sidecar is Some && k == n {
        assert(mine[k] == Task::Sidecar(op.write_sidecar->0));
    }
}

pub(crate) proof fn lemma_all_moves_contains(ops: Seq<OpView>, i: int, j: int)
    requires
        0 <= i < ops.len(),
        0 <= j < ops[i].moves.len(),
    ensures
        all_moves(ops).contains(ops[i].moves[j]),
    decreases ops.len(),
{
    let front = ops.drop_last();
    let a = all_moves(front);
    let last = ops.last().moves;
    if i == ops.len() - 1 {
        assert(all_moves(ops)[a.len() + j] == last[j]);
    } else {
        lemma_all_moves_contains(front, i, j);
        let k = choose|k: int| 0 <= k < a.len() && a[k] == front[i].moves[j];
        assert(all_moves(ops)[k] == a[k]);
    }
}

proof fn lemma_ops_tasks_known(plan: PlanView, n: int, k: int)
    requires
        0 <= n <= plan.ops.len(),
        0 <= k < ops_tasks(plan.ops.take(n)).len(),
    ensures
        known(plan, ops_tasks(plan.ops.take(n))[k]),
    decreases n,
{
    if n > 0 {
        let front = plan.ops.take(n - 1);
        assert(plan.ops.take(n).drop_last() =~= front);
        assert(plan.ops.take(n).last() == plan.ops[n - 1]);
        if k < ops_tasks(front).len() {
            lemma_ops_tasks_known(plan, n - 1, k);
        } else {
            assert forall|j: int| 0 <= j < plan.ops[n - 1].moves.len() implies all_moves(
                plan.ops,
            ).contains(#[trigger] plan.ops[n - 1].moves[j]) by {
                lemma_all_moves_contains(plan.ops, n - 1, j);
            }
            lemma_op_tasks_known(
                plan,
                n - 1,
                all_moves(front).len() as int,
                k - ops_tasks(front).len(),
            );
        }
    }
}

pub(crate) proof fn lemma_tasks_known(plan: PlanView, k: int)
    requires
        0 <= k < tasks(plan).len(),
    ensures
        known(plan, tasks(plan)[k]),
{
    let d = mkdir_tasks(plan).len() as int;
    let n = ops_tasks(plan.ops).len() as int;
    if k < d {
        assert(tasks(plan)[k] == mkdir_tasks(plan)[k]);
    } else if k < d + n {
        assert(plan.ops.take(plan.ops.len() as int) =~= plan.ops);
        lemma_ops_tasks_known(plan, plan.ops.len() as int, k - d);
    } else {
        assert(tasks(plan)[k] == sync_tasks(plan)[k - d - n]);
    }
}

proof fn lemma_all_ran_lawful(
    plan: PlanView,
    journal_path: Seq<char>,
    steps: Seq<Task>,
    p: Progress,
    t: Seq<FsEvent>,
    q: Progress,
)
    requires
        forall|k: int| 0 <= k < steps.len() ==> known(plan, #[trigger] steps[k]),
        all_ran(plan, journal_path, steps, p, t, q),
    ensures
        lawful(plan, journal_path, t),
    decreases steps.len(),
{
    if steps.len() > 0 {
        let front = steps.drop_last();
        let (a, b, m) = choose|a: Seq<FsEvent>, b: Seq<FsEvent>, m: Progress|
            {
                &&& t == #[trigger] (a + b)
                &&& all_ran(plan, journal_path, front, p, a, m)
                &&& #[trigger] task_ran(plan, journal_path, steps.last(), m, b, q, Ok(()))
            };
        assert forall|k: int| 0 <= k < front.len() implies known(plan, #[trigger] front[k]) by {
            assert(front[k] == steps[k]);
        }
        lemma_all_ran_lawful(plan, journal_path, front, p, a, m);
        assert(known(plan, steps[steps.len() - 1]));
        lemma_task_lawful(plan, journal_path, steps.last(), m, b, q, Ok(()));
        lemma_lawful_concat(plan, journal_path, a, b);
    }
}

proof fn lemma_executed_lawful(
    plan: PlanView,
    statuses: Seq<OpState>,
    journal_path: Seq<char>,
    t: Seq<FsEvent>,
    after: Seq<OpState>,
    r: Result<ReportView, ApplyErrorView>,
)
    requires
        executed(plan, statuses, journal_path, t, after, r),
    ensures
        lawful(plan, journal_path, t),
{
    let p = fresh(statuses);
    let q = choose|q: Progress|
        {
            &&& q.statuses == after
            &&& #[trigger] ended_at(plan, journal_path, p, t, q, r)
        };
    assert forall|k: int| 0 <= k < tasks(plan).len() implies known(
        plan,
        #[trigger] tasks(plan)[k],
    ) by {
        lemma_tasks_known(plan, k);
    }
    match r {
        Ok(_) => {
            lemma_all_ran_lawful(plan, journal_path, tasks(plan), p, t.drop_last(), q);
            let tail = seq![t.last()];
            assert(lawful(plan, journal_path, tail));
            lemma_lawful_concat(plan, journal_path, t.drop_last(), tail);
            assert(t =~= t.drop_last() + tail);
        },
        Err(e) => {
            let (steps, task, a, b, m) = choose|
                steps: Seq<Task>,
                task: Task,
                a: Seq<FsEvent>,
                b: Seq<FsEvent>,
                m: Progress,
            |
                {
                    &&& t == a + b
                    &&& steps.push(task).is_prefix_of(tasks(plan))
                    &&& #[trigger] all_ran(plan, journal_path, steps, p, a, m)
                    &&& #[trigger] task_ran(plan, journal_path, task, m, b, q, Err(e))
                };
            let all = tasks(plan);
            let n = steps.len() as int;
            assert(steps.push(task) == all.subrange(0, n + 1));
            assert forall|k: int| 0 <= k < steps.len() implies known(plan, #[trigger] steps[k]) by {
                assert(steps.push(task)[k] == all[k]);
            }
            assert(steps.push(task)[n] == all[n]);
            lemma_all_ran_lawful(plan, journal_path, steps, p, a, m);
            lemma_task_lawful(plan, journal_path, task, m, b, q, Err(e));
            lemma_lawful_concat(plan, journal_path, a, b);
        },
    }
}

/// Every event of an apply is lawful. In particular a source is unlinked only directly
/// after its safe copy, and nothing else that is not the engine's own is ever unlinked.
pub proof fn apply_is_lawful(
    plan: PlanView,
    journal_path: Seq<char>,
    t: Seq<FsEvent>,
    r: Result<ReportView, ApplyErrorView>,
)
    requires
        applied(plan, journal_path, t, r),
    ensures
        lawful(plan, journal_path, t),
{
    let (a, b, c) = choose|a: Seq<FsEvent>, b: Seq<FsEvent>, c: Result<(), ApplyErrorView>|
        {
            &&& t == a + b
            &&& #[trigger] preflight_ran(plan, a, c)
            &&& #[trigger] journaled_run(plan, journal_path, b, c, r)
        };
    assert(lawful(plan, journal_path, a));
    match c {
        Err(_) => {
            assert(lawful(plan, journal_path, b));
        },
        Ok(_) => {
            let (x, y, w) = choose|
                x: Seq<FsEvent>,
                y: Seq<FsEvent>,
                w: Result<(), ApplyErrorView>,
            |
                {
                    &&& b == x + y
                    &&& #[trigger] journal_written(
                        plan,
                        all_pending(plan),
                        journal_path,
                        true,
                        x,
                        w,
                    )
                    &&& #[trigger] run_after_journal(plan, journal_path, y, w, r)
                };
            lemma_journal_lawful(plan, all_pending(plan), journal_path, true, x, w);
            match w {
                Err(_) => {
                    assert(lawful(plan, journal_path, y));
                },
                Ok(_) => {
                    let after = choose|after: Seq<OpState>| #[trigger]
                        executed(plan, all_pending(plan), journal_path, y, after, r);
                    lemma_executed_lawful(plan, all_pending(plan), journal_path, y, after, r);
                },
            }
            lemma_lawful_concat(plan, journal_path, x, y);
        },
    }
    lemma_lawful_concat(plan, journal_path, a, b);
}

/// Every event of a resumed run is lawful for the plan that its journal holds.
pub proof fn rerun_is_lawful(
    plan: PlanView,
    statuses: Seq<OpState>,
    journal_path: Seq<char>,
    t: Seq<FsEvent>,
    r: Result<ReportView, ApplyErrorView>,
)
    requires
        rerun(plan, statuses, journal_path, t, r),
    ensures
        lawful(plan, journal_path, t),
{
    let moves = all_moves(plan.ops);
    if statuses.len() >= moves.len() {
        let (a, b, mid, after) = choose|
            a: Seq<FsEvent>,
            b: Seq<FsEvent>,
            mid: Seq<OpState>,
            after: Seq<OpState>,
        |
            {
                &&& t == a + b
                &&& #[trigger] reconcile_ran(moves, statuses, a, mid)
                &&& #[trigger] executed(plan, mid, journal_path, b, after, r)
            };
        assert(lawful(plan, journal_path, a)) by {
            assert forall|i: int| 0 <= i < a.len() implies #[trigger] lawful_event(
                plan,
                journal_path,
                a,
                i,
            ) by {
                let g = i / 2;
                assert(0 <= g < moves.len());
                let m = moves[g];
                assert(i == 2 * g || i == 2 * g + 1);
            }
        }
        lemma_executed_lawful(plan, mid, journal_path, b, after, r);
        lemma_lawful_concat(plan, journal_path, a, b);
    }
}

} // verus!
