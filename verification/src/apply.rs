//! The engine that carries out a plan. The journal is written before the first file
//! moves and after every move; the first failure stops the run; a stopped run is
//! resumed from its journal.
use vstd::prelude::*;
use crate::fsops::{own_error, FsError, FsErrorKind, FsErrorView, FsEvent, FsLog, FsOps};
use crate::journal::{
    outcome,
    ApplyError,
    ApplyErrorView,
    ApplyReport,
    Journal,
    OpState,
    ReportView,
};
use crate::moves::{failed, move_one, move_ran};
use crate::paths::{join, join_path, parent, parent_of};
use crate::plan::{
    move_views, op_views, ApplyPlan, MoveView, OpView, PlanView, ShotOp, SidecarView,
};
use crate::records::{
    extends,
    journal_written,
    sidecar_written,
    since,
    since_adds_up,
    since_grows,
    since_starts_empty,
    write_journal,
    write_sidecar,
};
use crate::text::{
    a_written_number_reads_back, contains_text, decimal, decimal_text, number_in, texts,
};

verus! {

/// All file moves of the operations, in the order in which they are made.
pub open spec fn all_moves(ops: Seq<OpView>) -> Seq<MoveView>
    decreases ops.len(),
{
    if ops.len() == 0 {
        Seq::empty()
    } else {
        all_moves(ops.drop_last()) + ops.last().moves
    }
}

/// One step of a run. A move is known by its number among all moves.
pub enum Task {
    Mkdir(Seq<char>),
    Move { from: Seq<char>, to: Seq<char>, number: int },
    Sidecar(SidecarView),
    ShotDone,
    SyncDir(Seq<char>),
}

/// How far a run has come.
#[verifier::ext_equal]
pub struct Progress {
    pub statuses: Seq<OpState>,
    pub files: int,
    pub sidecars: int,
    pub shots: int,
}

/// The creation of the bucket directories.
pub open spec fn mkdir_tasks(plan: PlanView) -> Seq<Task> {
    Seq::new(plan.buckets.len(), |i: int| Task::Mkdir(join(plan.dest, plan.buckets[i])))
}

/// The moves of one shot, the first of which has the number `base`.
pub open spec fn move_tasks(moves: Seq<MoveView>, base: int) -> Seq<Task> {
    Seq::new(
        moves.len(),
        |j: int| Task::Move { from: moves[j].from, to: moves[j].to, number: base + j },
    )
}

/// The sidecar of one shot, where one is to be written.
pub open spec fn sidecar_tasks(o: Option<SidecarView>) -> Seq<Task> {
    match o {
        Some(s) => seq![Task::Sidecar(s)],
        None => Seq::empty(),
    }
}

/// The steps for one shot.
pub open spec fn op_tasks(op: OpView, base: int) -> Seq<Task> {
    move_tasks(op.moves, base) + sidecar_tasks(op.write_sidecar) + seq![Task::ShotDone]
}

/// The steps for all shots.
pub open spec fn ops_tasks(ops: Seq<OpView>) -> Seq<Task>
    decreases ops.len(),
{
    if ops.len() == 0 {
        Seq::empty()
    } else {
        let front = ops.drop_last();
        ops_tasks(front) + op_tasks(ops.last(), all_moves(front).len() as int)
    }
}

/// The directories that the sidecars of the operations are in, each of them once.
pub open spec fn sidecar_dirs(ops: Seq<OpView>) -> Seq<Seq<char>>
    decreases ops.len(),
{
    if ops.len() == 0 {
        Seq::empty()
    } else {
        let front = sidecar_dirs(ops.drop_last());
        match ops.last().write_sidecar {
            Some(s) => match parent(s.path) {
                Some(d) => if front.contains(d) {
                    front
                } else {
                    front.push(d)
                },
                None => front,
            },
            None => front,
        }
    }
}

/// The steps that make the sidecars durable.
pub open spec fn sync_tasks(plan: PlanView) -> Seq<Task> {
    let dirs = sidecar_dirs(plan.ops);
    Seq::new(dirs.len(), |i: int| Task::SyncDir(dirs[i]))
}

/// The steps of a run: the bucket directories, then shot by shot its files and its
/// sidecar, and at the end the directories of the sidecars, which are made durable.
pub open spec fn tasks(plan: PlanView) -> Seq<Task> {
    mkdir_tasks(plan) + ops_tasks(plan.ops) + sync_tasks(plan)
}

/// The history of one step, from `p` to `q`.
///
/// A move that is done is skipped. Any other is made and recorded as done, and the
/// journal is written, durably after every 64th; or it is recorded as failed, the
/// journal is written durably, and the run stops. A sidecar that is there is left
/// alone, also if it appears only while another is being written.
pub open spec fn task_ran(
    plan: PlanView,
    journal_path: Seq<char>,
    task: Task,
    p: Progress,
    t: Seq<FsEvent>,
    q: Progress,
    r: Result<(), ApplyErrorView>,
) -> bool {
    match task {
        Task::Mkdir(dir) => {
            &&& t.len() == 1
            &&& t[0] matches FsEvent::MkdirP { path, reply }
            &&& path == dir
            &&& q == p
            &&& r == match reply {
                Ok(_) => Ok(()),
                Err(e) => failed(dir, e),
            }
        },
        Task::Move { from, to, number } => if p.statuses[number] == OpState::Done {
            t.len() == 0 && q == p && r == Ok::<(), ApplyErrorView>(())
        } else {
            move_made(plan, journal_path, from, to, number, p, t, q, r)
        },
        Task::Sidecar(s) => {
            &&& t.len() >= 1
            &&& t[0] matches FsEvent::IsThere { path, reply }
            &&& path == s.path
            &&& if reply {
                t.len() == 1 && q == p && r == Ok::<(), ApplyErrorView>(())
            } else {
                exists|w: Result<(), FsErrorView>|
                    {
                        &&& #[trigger] sidecar_written(s.path, s.tags, s.rating, t.skip(1), w)
                        &&& match w {
                            Ok(_) => {
                                &&& q == (Progress { sidecars: p.sidecars + 1, ..p })
                                &&& r == Ok::<(), ApplyErrorView>(())
                            },
                            Err(e) => {
                                &&& q == p
                                &&& r == if e.kind == FsErrorKind::AlreadyExists {
                                    Ok(())
                                } else {
                                    failed(s.path, e)
                                }
                            },
                        }
                    }
            }
        },
        Task::ShotDone => {
            &&& t.len() == 0
            &&& q == (Progress { shots: p.shots + 1, ..p })
            &&& r == Ok::<(), ApplyErrorView>(())
        },
        Task::SyncDir(dir) => {
            &&& t.len() == 1
            &&& t[0] matches FsEvent::FsyncDir { path, reply }
            &&& path == dir
            &&& q == p
            &&& r == match reply {
                Ok(_) => Ok(()),
                Err(e) => failed(dir, e),
            }
        },
    }
}

/// The history of making a move and recording what came of it.
pub open spec fn move_made(
    plan: PlanView,
    journal_path: Seq<char>,
    from: Seq<char>,
    to: Seq<char>,
    number: int,
    p: Progress,
    t: Seq<FsEvent>,
    q: Progress,
    r: Result<(), ApplyErrorView>,
) -> bool {
    exists|a: Seq<FsEvent>, b: Seq<FsEvent>, m: Result<(), ApplyErrorView>|
        {
            &&& t == a + b
            &&& #[trigger] move_ran(from, to, a, m)
            &&& #[trigger] move_recorded(plan, journal_path, number, p, b, q, m, r)
        }
}

/// The history of recording what came of a move.
pub open spec fn move_recorded(
    plan: PlanView,
    journal_path: Seq<char>,
    number: int,
    p: Progress,
    t: Seq<FsEvent>,
    q: Progress,
    m: Result<(), ApplyErrorView>,
    r: Result<(), ApplyErrorView>,
) -> bool {
    match m {
        Ok(_) => {
            &&& q == (Progress {
                statuses: p.statuses.update(number, OpState::Done),
                files: p.files + 1,
                ..p
            })
            &&& journal_written(plan, q.statuses, journal_path, q.files % 64 == 0, t, r)
        },
        Err(e) => {
            &&& q == (Progress { statuses: p.statuses.update(number, OpState::Failed), ..p })
            &&& r == m
            &&& exists|w: Result<(), ApplyErrorView>| #[trigger]
                journal_written(plan, q.statuses, journal_path, true, t, w)
        },
    }
}

/// The history of steps that all went well, from `p` to `q`.
pub open spec fn all_ran(
    plan: PlanView,
    journal_path: Seq<char>,
    steps: Seq<Task>,
    p: Progress,
    t: Seq<FsEvent>,
    q: Progress,
) -> bool
    decreases steps.len(),
{
    if steps.len() == 0 {
        t.len() == 0 && q == p
    } else {
        exists|a: Seq<FsEvent>, b: Seq<FsEvent>, m: Progress|
            {
                &&& t == #[trigger] (a + b)
                &&& all_ran(plan, journal_path, steps.drop_last(), p, a, m)
                &&& #[trigger] task_ran(plan, journal_path, steps.last(), m, b, q, Ok(()))
            }
    }
}

/// The history of a run that stopped: steps that went well, and one that did not.
pub open spec fn stopped(
    plan: PlanView,
    journal_path: Seq<char>,
    p: Progress,
    t: Seq<FsEvent>,
    q: Progress,
    e: ApplyErrorView,
) -> bool {
    exists|
        steps: Seq<Task>,
        task: Task,
        a: Seq<FsEvent>,
        b: Seq<FsEvent>,
        m: Progress,
    |
        {
            &&& t == a + b
            &&& steps.push(task).is_prefix_of(tasks(plan))
            &&& #[trigger] all_ran(plan, journal_path, steps, p, a, m)
            &&& #[trigger] task_ran(plan, journal_path, task, m, b, q, Err(e))
        }
}

/// Where a run starts that has moved nothing yet.
pub open spec fn fresh(statuses: Seq<OpState>) -> Progress {
    Progress { statuses, files: 0, sidecars: 0, shots: 0 }
}

/// What a run that came to the end reports.
pub open spec fn report_of(q: Progress) -> ReportView {
    ReportView {
        moved_shots: q.shots,
        moved_files: q.files,
        sidecars_written: q.sidecars,
        stopped_at: None,
    }
}

/// The value of what a run returns.
pub open spec fn run_outcome(r: Result<ApplyReport, ApplyError>) -> Result<
    ReportView,
    ApplyErrorView,
> {
    match r {
        Ok(x) => Ok(x@),
        Err(e) => Err(e@),
    }
}

/// The history of carrying out a journal from the given states: every step in order and
/// then the removal of the journal, or every step up to the first that fails.
pub open spec fn executed(
    plan: PlanView,
    statuses: Seq<OpState>,
    journal_path: Seq<char>,
    t: Seq<FsEvent>,
    after: Seq<OpState>,
    r: Result<ReportView, ApplyErrorView>,
) -> bool {
    exists|q: Progress|
        {
            &&& q.statuses == after
            &&& #[trigger] ended_at(plan, journal_path, fresh(statuses), t, q, r)
        }
}

/// The history of carrying out a journal from `p` to `q`.
pub open spec fn ended_at(
    plan: PlanView,
    journal_path: Seq<char>,
    p: Progress,
    t: Seq<FsEvent>,
    q: Progress,
    r: Result<ReportView, ApplyErrorView>,
) -> bool {
    match r {
        Ok(report) => {
            &&& t.len() >= 1
            &&& all_ran(plan, journal_path, tasks(plan), p, t.drop_last(), q)
            &&& t.last() matches FsEvent::RemoveFile { path, .. }
            &&& path == journal_path
            &&& report == report_of(q)
        },
        Err(e) => stopped(plan, journal_path, p, t, q, e),
    }
}

proof fn lemma_all_ran_push(
    plan: PlanView,
    journal_path: Seq<char>,
    steps: Seq<Task>,
    task: Task,
    p: Progress,
    a: Seq<FsEvent>,
    m: Progress,
    b: Seq<FsEvent>,
    q: Progress,
)
    requires
        all_ran(plan, journal_path, steps, p, a, m),
        task_ran(plan, journal_path, task, m, b, q, Ok(())),
    ensures
        all_ran(plan, journal_path, steps.push(task), p, a + b, q),
{
    assert(steps.push(task).drop_last() =~= steps);
    assert(steps.push(task).last() == task);
}

proof fn lemma_move_task(
    plan: PlanView,
    journal_path: Seq<char>,
    from: Seq<char>,
    to: Seq<char>,
    number: int,
    p: Progress,
    a: Seq<FsEvent>,
    b: Seq<FsEvent>,
    q: Progress,
    m: Result<(), ApplyErrorView>,
    r: Result<(), ApplyErrorView>,
)
    requires
        p.statuses[number] != OpState::Done,
        move_ran(from, to, a, m),
        move_recorded(plan, journal_path, number, p, b, q, m, r),
    ensures
        task_ran(plan, journal_path, Task::Move { from, to, number }, p, a + b, q, r),
{
    assert(move_made(plan, journal_path, from, to, number, p, a + b, q, r));
}

proof fn lemma_ops_tasks_prefix(ops: Seq<OpView>, i: int)
    requires
        0 <= i <= ops.len(),
    ensures
        ops_tasks(ops.take(i)).is_prefix_of(ops_tasks(ops)),
    decreases ops.len() - i,
{
    if i == ops.len() {
        assert(ops.take(i) =~= ops);
        assert(ops_tasks(ops) =~= ops_tasks(ops).subrange(0, ops_tasks(ops).len() as int));
    } else {
        lemma_ops_tasks_prefix(ops, i + 1);
        assert(ops.take(i + 1).drop_last() =~= ops.take(i));
        let a = ops_tasks(ops.take(i));
        let b = ops_tasks(ops.take(i + 1));
        let c = ops_tasks(ops);
        assert(b == c.subrange(0, b.len() as int));
        assert(a =~= c.subrange(0, a.len() as int)) by {
            assert(a =~= b.subrange(0, a.len() as int));
        }
    }
}

/// The steps up to the `j`-th of shot `i`, and the next one, start the steps of the run.
proof fn lemma_prefix(plan: PlanView, i: int, j: int)
    requires
        0 <= i < plan.ops.len(),
        0 <= j < op_tasks(plan.ops[i], all_moves(plan.ops.take(i)).len() as int).len(),
    ensures
        ({
            let mine = op_tasks(plan.ops[i], all_moves(plan.ops.take(i)).len() as int);
            let done = mkdir_tasks(plan) + ops_tasks(plan.ops.take(i)) + mine.take(j);
            &&& done.push(mine[j]).is_prefix_of(tasks(plan))
        }),
{
    let mine = op_tasks(plan.ops[i], all_moves(plan.ops.take(i)).len() as int);
    let done = mkdir_tasks(plan) + ops_tasks(plan.ops.take(i)) + mine.take(j);
    lemma_ops_tasks_prefix(plan.ops, i + 1);
    assert(plan.ops.take(i + 1).drop_last() =~= plan.ops.take(i));
    assert(plan.ops.take(i + 1).last() == plan.ops[i]);
    let b = ops_tasks(plan.ops.take(i + 1));
    assert(b == ops_tasks(plan.ops.take(i)) + mine);
    let c = ops_tasks(plan.ops);
    assert(b == c.subrange(0, b.len() as int));
    let n = done.len() + 1;
    let want = done.push(mine[j]);
    assert forall|k: int| 0 <= k < n implies #[trigger] want[k] == tasks(plan)[k] by {
        let d = mkdir_tasks(plan).len() as int;
        if k >= d {
            assert(k - d < c.len());
            assert(tasks(plan)[k] == c[k - d]);
            assert(c[k - d] == b[k - d]);
        }
    }
    assert(want =~= tasks(plan).subrange(0, want.len() as int));
}

/// How far a run has come, by its journal and its report.
pub open spec fn progress_of(journal: Journal, report: ApplyReport) -> Progress {
    Progress {
        statuses: journal.statuses@,
        files: report.moved_files as int,
        sidecars: report.sidecars_written as int,
        shots: report.moved_shots as int,
    }
}

fn run_mkdir<F: FsOps>(dest: &str, bucket: &str, fs: &mut FsLog<F>) -> (r: Result<(), ApplyError>)
    ensures
        extends(final(fs).log(), old(fs).log()),
        forall|plan: PlanView, jp: Seq<char>, p: Progress| #[trigger]
            task_ran(
                plan,
                jp,
                Task::Mkdir(join(dest@, bucket@)),
                p,
                since(final(fs).log(), old(fs).log()),
                p,
                outcome(r),
            ),
{
    let ghost start = fs.log();
    let dir = join_path(dest, bucket);
    let made = fs.mkdir_p(dir.as_str());
    proof {
        since_starts_empty(start);
        since_grows(start, start, fs.log());
    }
    match made {
        Ok(()) => Ok(()),
        Err(e) => Err(ApplyError::Fs { path: dir, source: e }),
    }
}

fn dirs_of(ops: &Vec<ShotOp>) -> (out: Vec<String>)
    ensures
        texts(out@) == sidecar_dirs(op_views(ops@)),
{
    let ghost all = op_views(ops@);
    let mut out: Vec<String> = Vec::new();
    let mut i: usize = 0;
    assert(texts(out@) =~= sidecar_dirs(all.take(0)));
    while i < ops.len()
        invariant
            0 <= i <= ops@.len(),
            all == op_views(ops@),
            texts(out@) == sidecar_dirs(all.take(i as int)),
        decreases ops@.len() - i,
    {
        let ghost before = texts(out@);
        assert(all.take(i + 1).drop_last() =~= all.take(i as int));
        assert(all.take(i + 1).last() == ops@[i as int]@);
        if let Some(s) = &ops[i].write_sidecar {
            if let Some(d) = parent_of(s.path.as_str()) {
                if !contains_text(&out, d.as_str()) {
                    let ghost dir = d@;
                    out.push(d);
                    assert(texts(out@) =~= before.push(dir));
                }
            }
        }
        i += 1;
    }
    assert(all.take(i as int) =~= all);
    out
}

fn run_sync<F: FsOps>(dir: &str, fs: &mut FsLog<F>) -> (r: Result<(), ApplyError>)
    ensures
        extends(final(fs).log(), old(fs).log()),
        forall|plan: PlanView, jp: Seq<char>, p: Progress| #[trigger]
            task_ran(
                plan,
                jp,
                Task::SyncDir(dir@),
                p,
                since(final(fs).log(), old(fs).log()),
                p,
                outcome(r),
            ),
{
    let ghost start = fs.log();
    let synced = fs.fsync_dir(dir);
    proof {
        since_starts_empty(start);
        since_grows(start, start, fs.log());
    }
    match synced {
        Ok(()) => Ok(()),
        Err(e) => Err(ApplyError::Fs { path: dir.to_owned(), source: e }),
    }
}

fn run_move<F: FsOps>(
    journal: &mut Journal,
    i: usize,
    j: usize,
    number: usize,
    report: &mut ApplyReport,
    journal_path: &str,
    fs: &mut FsLog<F>,
) -> (r: Result<(), ApplyError>)
    requires
        i < old(journal).plan.ops@.len(),
        j < old(journal).plan.ops@[i as int].moves@.len(),
        number < old(journal).statuses@.len(),
        old(report).moved_files <= number,
    ensures
        extends(final(fs).log(), old(fs).log()),
        task_ran(
            old(journal).plan@,
            journal_path@,
            Task::Move {
                from: old(journal).plan.ops@[i as int].moves@[j as int].from@,
                to: old(journal).plan.ops@[i as int].moves@[j as int].to@,
                number: number as int,
            },
            progress_of(*old(journal), *old(report)),
            since(final(fs).log(), old(fs).log()),
            progress_of(*final(journal), *final(report)),
            outcome(r),
        ),
        final(journal).plan == old(journal).plan,
        final(report).stopped_at == old(report).stopped_at,
        final(report).moved_files <= old(report).moved_files + 1,
        final(journal).statuses@.len() == old(journal).statuses@.len(),
{
    let ghost start = fs.log();
    let ghost p = progress_of(*journal, *report);
    let ghost from = journal.plan.ops@[i as int].moves@[j as int].from@;
    let ghost to = journal.plan.ops@[i as int].moves@[j as int].to@;
    proof {
        since_starts_empty(start);
    }
    if journal.statuses[number] == OpState::Done {
        return Ok(());
    }
    let moved = move_one(
        fs,
        journal.plan.ops[i].moves[j].from.as_str(),
        journal.plan.ops[i].moves[j].to.as_str(),
    );
    let ghost mid = fs.log();
    let ghost m = outcome(moved);
    match moved {
        Ok(()) => {
            journal.statuses.set(number, OpState::Done);
            assert(number < journal.statuses.len());
            report.moved_files = report.moved_files + 1;
            let r = write_journal(journal, journal_path, report.moved_files % 64 == 0, fs);
            proof {
                since_adds_up(start, mid, fs.log());
                let q = progress_of(*journal, *report);
                assert(q == (Progress {
                    statuses: p.statuses.update(number as int, OpState::Done),
                    files: p.files + 1,
                    ..p
                }));
                assert(move_recorded(
                    journal.plan@,
                    journal_path@,
                    number as int,
                    p,
                    since(fs.log(), mid),
                    q,
                    m,
                    outcome(r),
                ));
                lemma_move_task(
                    journal.plan@,
                    journal_path@,
                    from,
                    to,
                    number as int,
                    p,
                    since(mid, start),
                    since(fs.log(), mid),
                    q,
                    m,
                    outcome(r),
                );
            }
            r
        },
        Err(e) => {
            journal.statuses.set(number, OpState::Failed);
            let w = write_journal(journal, journal_path, true, fs);
            proof {
                since_adds_up(start, mid, fs.log());
                let q = progress_of(*journal, *report);
                assert(q == (Progress {
                    statuses: p.statuses.update(number as int, OpState::Failed),
                    ..p
                }));
                assert(journal_written(
                    journal.plan@,
                    q.statuses,
                    journal_path@,
                    true,
                    since(fs.log(), mid),
                    outcome(w),
                ));
                assert(move_recorded(
                    journal.plan@,
                    journal_path@,
                    number as int,
                    p,
                    since(fs.log(), mid),
                    q,
                    m,
                    m,
                ));
                lemma_move_task(
                    journal.plan@,
                    journal_path@,
                    from,
                    to,
                    number as int,
                    p,
                    since(mid, start),
                    since(fs.log(), mid),
                    q,
                    m,
                    m,
                );
            }
            Err(e)
        },
    }
}

fn run_sidecar<F: FsOps>(
    journal: &Journal,
    i: usize,
    report: &mut ApplyReport,
    fs: &mut FsLog<F>,
) -> (r: Result<(), ApplyError>)
    requires
        i < journal.plan.ops@.len(),
        journal.plan.ops@[i as int].write_sidecar is Some,
        old(report).sidecars_written <= i,
    ensures
        extends(final(fs).log(), old(fs).log()),
        forall|plan: PlanView, jp: Seq<char>| #[trigger]
            task_ran(
                plan,
                jp,
                Task::Sidecar(journal.plan.ops@[i as int].write_sidecar->0@),
                progress_of(*journal, *old(report)),
                since(final(fs).log(), old(fs).log()),
                progress_of(*journal, *final(report)),
                outcome(r),
            ),
        final(report).moved_files == old(report).moved_files,
        final(report).moved_shots == old(report).moved_shots,
        final(report).stopped_at == old(report).stopped_at,
        final(report).sidecars_written <= old(report).sidecars_written + 1,
{
    let ghost start = fs.log();
    proof {
        since_starts_empty(start);
    }
    let ghost n = journal.plan.ops@.len();
    let count: usize = journal.plan.ops.len();
    match &journal.plan.ops[i].write_sidecar {
        None => Ok(()),
        Some(s) => {
            let there = fs.is_there(s.path.as_str());
            proof {
                since_grows(start, start, fs.log());
            }
            if there {
                return Ok(());
            }
            let ghost mid = fs.log();
            let wrote = write_sidecar(s.path.as_str(), &s.tags, s.rating, fs);
            let ghost w = crate::fsops::reply_of(wrote);
            proof {
                since_adds_up(start, mid, fs.log());
                assert(since(fs.log(), start).skip(1) =~= since(fs.log(), mid));
                assert(sidecar_written(
                    s@.path,
                    s@.tags,
                    s@.rating,
                    since(fs.log(), start).skip(1),
                    w,
                ));
            }
            match wrote {
                Ok(()) => {
                    report.sidecars_written = report.sidecars_written + 1;
                    Ok(())
                },
                Err(e) => {
                    if e.kind == FsErrorKind::AlreadyExists {
                        Ok(())
                    } else {
                        Err(ApplyError::Fs { path: s.path.clone(), source: e })
                    }
                },
            }
        },
    }
}

proof fn lemma_stopped(
    plan: PlanView,
    journal_path: Seq<char>,
    steps: Seq<Task>,
    task: Task,
    p: Progress,
    a: Seq<FsEvent>,
    m: Progress,
    b: Seq<FsEvent>,
    q: Progress,
    e: ApplyErrorView,
)
    requires
        steps.push(task).is_prefix_of(tasks(plan)),
        all_ran(plan, journal_path, steps, p, a, m),
        task_ran(plan, journal_path, task, m, b, q, Err(e)),
    ensures
        stopped(plan, journal_path, p, a + b, q, e),
{
}

/// Carries out a journal: creates the bucket directories, makes every move that is not
/// done, writes the sidecars, makes their directories durable, and only then removes the
/// journal.
pub fn execute<F: FsOps>(
    journal: &mut Journal,
    fs: &mut FsLog<F>,
    journal_path: &str,
) -> (r: Result<ApplyReport, ApplyError>)
    requires
        old(journal).statuses@.len() >= all_moves(old(journal).plan@.ops).len(),
    ensures
        extends(final(fs).log(), old(fs).log()),
        executed(
            old(journal).plan@,
            old(journal).statuses@,
            journal_path@,
            since(final(fs).log(), old(fs).log()),
            final(journal).statuses@,
            run_outcome(r),
        ),
        final(journal).plan == old(journal).plan,
{
    let ghost start = fs.log();
    let ghost plan = journal.plan@;
    let ghost jp = journal_path@;
    let ghost p = fresh(journal.statuses@);
    let ghost mut done: Seq<Task> = Seq::empty();
    let mut report = ApplyReport::default();
    proof {
        since_starts_empty(start);
        assert(all_ran(plan, jp, done, p, since(fs.log(), start), progress_of(*journal, report)));
        assert(mkdir_tasks(plan).take(0) =~= done);
    }
    let mut b: usize = 0;
    while b < 5
        invariant
            0 <= b <= 5,
            journal.plan@ == plan,
            journal.plan == old(journal).plan,
            journal.statuses == old(journal).statuses,
            plan.buckets.len() == 5,
            jp == journal_path@,
            p == fresh(journal.statuses@),
            done == mkdir_tasks(plan).take(b as int),
            report@ == (ReportView {
                moved_shots: 0,
                moved_files: 0,
                sidecars_written: 0,
                stopped_at: None,
            }),
            extends(fs.log(), start),
            start == old(fs).log(),
            all_ran(plan, jp, done, p, since(fs.log(), start), progress_of(*journal, report)),
        decreases 5 - b,
    {
        let ghost l0 = fs.log();
        let ghost m = progress_of(*journal, report);
        let ghost task = Task::Mkdir(join(plan.dest, plan.buckets[b as int]));
        assert(plan.buckets[b as int] == journal.plan.buckets@[b as int]@);
        let made = run_mkdir(journal.plan.dest.as_str(), journal.plan.buckets[b].as_str(), fs);
        proof {
            since_adds_up(start, l0, fs.log());
            assert(mkdir_tasks(plan)[b as int] == task);
            assert(done.push(task) =~= mkdir_tasks(plan).take(b + 1));
            assert(task_ran(plan, jp, task, m, since(fs.log(), l0), m, outcome(made)));
        }
        if let Err(e) = made {
            proof {
                assert(done.push(task) =~= tasks(plan).subrange(0, b + 1));
                lemma_stopped(
                    plan,
                    jp,
                    done,
                    task,
                    p,
                    since(l0, start),
                    m,
                    since(fs.log(), l0),
                    m,
                    e@,
                );
                assert(ended_at(plan, jp, p, since(fs.log(), start), m, Err(e@)));
            }
            return Err(e);
        }
        proof {
            lemma_all_ran_push(
                plan,
                jp,
                done,
                task,
                p,
                since(l0, start),
                m,
                since(fs.log(), l0),
                m,
            );
            done = done.push(task);
        }
        b += 1;
    }
    proof {
        assert(mkdir_tasks(plan).take(5) =~= mkdir_tasks(plan));
        assert(plan.ops.take(0) =~= Seq::<OpView>::empty());
        assert(done =~= mkdir_tasks(plan) + ops_tasks(plan.ops.take(0)));
    }
    let count: usize = journal.plan.ops.len();
    let mut number: usize = 0;
    let mut i: usize = 0;
    while i < count
        invariant
            0 <= i <= count,
            count == plan.ops.len(),
            journal.plan@ == plan,
            journal.plan == old(journal).plan,
            journal.statuses@.len() >= all_moves(plan.ops).len(),
            jp == journal_path@,
            p == fresh(old(journal).statuses@),
            number == all_moves(plan.ops.take(i as int)).len(),
            done == mkdir_tasks(plan) + ops_tasks(plan.ops.take(i as int)),
            report.moved_files <= number,
            report.sidecars_written <= i,
            report.moved_shots == i,
            report.stopped_at is None,
            extends(fs.log(), start),
            start == old(fs).log(),
            all_ran(plan, jp, done, p, since(fs.log(), start), progress_of(*journal, report)),
        decreases count - i,
    {
        let ghost base = number as int;
        let ghost op = plan.ops[i as int];
        let ghost mine = op_tasks(op, base);
        let ghost before = done;
        proof {
            lemma_moves_fit(plan.ops, i as int);
            assert(op == journal.plan.ops@[i as int]@);
            assert(op.moves == move_views(journal.plan.ops@[i as int].moves@));
            assert(mine.take(0) =~= Seq::<Task>::empty());
            assert(before + mine.take(0) =~= done);
        }
        let files: usize = journal.plan.ops[i].moves.len();
        let mut j: usize = 0;
        while j < files
            invariant
                0 <= i < count,
                count == plan.ops.len(),
                0 <= j <= files,
                op == plan.ops[i as int],
                op == journal.plan.ops@[i as int]@,
                op.moves == move_views(journal.plan.ops@[i as int].moves@),
                files == op.moves.len(),
                mine == op_tasks(op, base),
                base == all_moves(plan.ops.take(i as int)).len(),
                base + files <= all_moves(plan.ops).len(),
                before == mkdir_tasks(plan) + ops_tasks(plan.ops.take(i as int)),
                journal.plan@ == plan,
                journal.plan == old(journal).plan,
                journal.statuses@.len() >= all_moves(plan.ops).len(),
                jp == journal_path@,
                p == fresh(old(journal).statuses@),
                number == base + j,
                done == before + mine.take(j as int),
                report.moved_files <= number,
                report.sidecars_written <= i,
                report.moved_shots == i,
                report.stopped_at is None,
                extends(fs.log(), start),
                start == old(fs).log(),
                all_ran(plan, jp, done, p, since(fs.log(), start), progress_of(*journal, report)),
            decreases files - j,
        {
            let ghost l0 = fs.log();
            let ghost m = progress_of(*journal, report);
            let ghost task = Task::Move {
                from: op.moves[j as int].from,
                to: op.moves[j as int].to,
                number: number as int,
            };
            assert(number < journal.statuses.len());
            let moved = run_move(journal, i, j, number, &mut report, journal_path, fs);
            let ghost q = progress_of(*journal, report);
            proof {
                since_adds_up(start, l0, fs.log());
                assert(mine[j as int] == task);
                lemma_prefix(plan, i as int, j as int);
                assert(task_ran(plan, jp, task, m, since(fs.log(), l0), q, outcome(moved)));
            }
            if let Err(e) = moved {
                proof {
                    lemma_stopped(
                        plan,
                        jp,
                        done,
                        task,
                        p,
                        since(l0, start),
                        m,
                        since(fs.log(), l0),
                        q,
                        e@,
                    );
                    assert(ended_at(plan, jp, p, since(fs.log(), start), q, Err(e@)));
                }
                return Err(e);
            }
            proof {
                lemma_all_ran_push(
                    plan,
                    jp,
                    done,
                    task,
                    p,
                    since(l0, start),
                    m,
                    since(fs.log(), l0),
                    q,
                );
                assert(done.push(task) =~= before + mine.take(j + 1));
                done = done.push(task);
            }
            number += 1;
            j += 1;
        }
        let sidecar = journal.plan.ops[i].write_sidecar.is_some();
        if sidecar {
            let ghost l0 = fs.log();
            let ghost m = progress_of(*journal, report);
            let ghost task = Task::Sidecar(op.write_sidecar->0);
            let wrote = run_sidecar(journal, i, &mut report, fs);
            let ghost q = progress_of(*journal, report);
            proof {
                since_adds_up(start, l0, fs.log());
                assert(mine[files as int] == task);
                lemma_prefix(plan, i as int, files as int);
                assert(task_ran(plan, jp, task, m, since(fs.log(), l0), q, outcome(wrote)));
            }
            if let Err(e) = wrote {
                proof {
                    lemma_stopped(
                        plan,
                        jp,
                        done,
                        task,
                        p,
                        since(l0, start),
                        m,
                        since(fs.log(), l0),
                        q,
                        e@,
                    );
                    assert(ended_at(plan, jp, p, since(fs.log(), start), q, Err(e@)));
                }
                return Err(e);
            }
            proof {
                lemma_all_ran_push(
                    plan,
                    jp,
                    done,
                    task,
                    p,
                    since(l0, start),
                    m,
                    since(fs.log(), l0),
                    q,
                );
                assert(done.push(task) =~= before + mine.take(files + 1));
                done = done.push(task);
            }
        }
        let ghost m = progress_of(*journal, report);
        report.moved_shots = report.moved_shots + 1;
        proof {
            let q = progress_of(*journal, report);
            let none = Seq::<FsEvent>::empty();
            assert(task_ran(plan, jp, Task::ShotDone, m, none, q, Ok(())));
            lemma_all_ran_push(
                plan,
                jp,
                done,
                Task::ShotDone,
                p,
                since(fs.log(), start),
                m,
                none,
                q,
            );
            assert(since(fs.log(), start) + none =~= since(fs.log(), start));
            assert(done.push(Task::ShotDone) =~= before + mine);
            assert(plan.ops.take(i + 1).drop_last() =~= plan.ops.take(i as int));
            assert(before + mine =~= mkdir_tasks(plan) + ops_tasks(plan.ops.take(i + 1)));
            done = done.push(Task::ShotDone);
        }
        i += 1;
    }
    let dirs = dirs_of(&journal.plan.ops);
    let ghost moved = done;
    let ghost q = progress_of(*journal, report);
    proof {
        assert(plan.ops.take(count as int) =~= plan.ops);
        assert(moved + sync_tasks(plan).take(0) =~= done);
    }
    let mut d: usize = 0;
    while d < dirs.len()
        invariant
            0 <= d <= dirs@.len(),
            texts(dirs@) == sidecar_dirs(plan.ops),
            moved == mkdir_tasks(plan) + ops_tasks(plan.ops),
            done == moved + sync_tasks(plan).take(d as int),
            q == progress_of(*journal, report),
            journal.plan == old(journal).plan,
            jp == journal_path@,
            p == fresh(old(journal).statuses@),
            plan == old(journal).plan@,
            extends(fs.log(), start),
            start == old(fs).log(),
            all_ran(plan, jp, done, p, since(fs.log(), start), q),
        decreases dirs@.len() - d,
    {
        let ghost l0 = fs.log();
        let ghost task = Task::SyncDir(texts(dirs@)[d as int]);
        let synced = run_sync(dirs[d].as_str(), fs);
        proof {
            since_adds_up(start, l0, fs.log());
            assert(sync_tasks(plan)[d as int] == task);
            assert(done.push(task) =~= moved + sync_tasks(plan).take(d + 1));
            assert(task_ran(plan, jp, task, q, since(fs.log(), l0), q, outcome(synced)));
        }
        if let Err(e) = synced {
            proof {
                assert(done.push(task) =~= tasks(plan).subrange(0, done.len() as int + 1));
                lemma_stopped(
                    plan,
                    jp,
                    done,
                    task,
                    p,
                    since(l0, start),
                    q,
                    since(fs.log(), l0),
                    q,
                    e@,
                );
                assert(ended_at(plan, jp, p, since(fs.log(), start), q, Err(e@)));
            }
            return Err(e);
        }
        proof {
            lemma_all_ran_push(
                plan,
                jp,
                done,
                task,
                p,
                since(l0, start),
                q,
                since(fs.log(), l0),
                q,
            );
            done = done.push(task);
        }
        d += 1;
    }
    let ghost l0 = fs.log();
    let _ = fs.remove_file(journal_path);
    proof {
        since_grows(start, l0, fs.log());
        assert(sync_tasks(plan).take(d as int) =~= sync_tasks(plan));
        assert(done == tasks(plan));
        let t = since(fs.log(), start);
        assert(t.drop_last() =~= since(l0, start));
        assert(report@ == report_of(q));
        assert(ended_at(plan, jp, p, t, q, Ok(report@)));
    }
    Ok(report)
}

/// The moves of the first shots are no more than all moves.
proof fn lemma_moves_fit(ops: Seq<OpView>, i: int)
    requires
        0 <= i < ops.len(),
    ensures
        all_moves(ops.take(i)).len() + ops[i].moves.len() <= all_moves(ops).len(),
        all_moves(ops.take(i + 1)) == all_moves(ops.take(i)) + ops[i].moves,
    decreases ops.len(),
{
    assert(ops.take(i + 1).drop_last() =~= ops.take(i));
    if i + 1 == ops.len() {
        assert(ops.take(i + 1) =~= ops);
    } else {
        let front = ops.drop_last();
        assert(front.take(i) =~= ops.take(i));
        lemma_moves_fit(front, i);
    }
}

proof fn lemma_moves_prefix(ops: Seq<OpView>, i: int)
    requires
        0 <= i <= ops.len(),
    ensures
        all_moves(ops.take(i)).is_prefix_of(all_moves(ops)),
    decreases ops.len() - i,
{
    if i == ops.len() {
        assert(ops.take(i) =~= ops);
        assert(all_moves(ops) =~= all_moves(ops).subrange(0, all_moves(ops).len() as int));
    } else {
        lemma_moves_prefix(ops, i + 1);
        lemma_moves_fit(ops, i);
        let a = all_moves(ops.take(i));
        let b = all_moves(ops.take(i + 1));
        let c = all_moves(ops);
        assert(b == c.subrange(0, b.len() as int));
        assert(a =~= b.subrange(0, a.len() as int));
        assert(a =~= c.subrange(0, a.len() as int));
    }
}

/// Every move is still to be made.
pub open spec fn all_pending(plan: PlanView) -> Seq<OpState> {
    Seq::new(all_moves(plan.ops).len(), |i: int| OpState::Pending)
}

fn pending_states(plan: &ApplyPlan) -> (out: Vec<OpState>)
    ensures
        out@ == all_pending(plan@),
{
    let ghost ops = plan@.ops;
    let mut out: Vec<OpState> = Vec::new();
    let mut i: usize = 0;
    assert(ops.take(0) =~= Seq::<OpView>::empty());
    while i < plan.ops.len()
        invariant
            ops == plan@.ops,
            0 <= i <= ops.len(),
            out@.len() == all_moves(ops.take(i as int)).len(),
            forall|k: int| 0 <= k < out@.len() ==> #[trigger] out@[k] == OpState::Pending,
        decreases ops.len() - i,
    {
        let files: usize = plan.ops[i].moves.len();
        let ghost base = out@.len();
        assert(ops[i as int] == plan.ops@[i as int]@);
        let mut j: usize = 0;
        while j < files
            invariant
                0 <= j <= files,
                out@.len() == base + j,
                forall|k: int| 0 <= k < out@.len() ==> #[trigger] out@[k] == OpState::Pending,
            decreases files - j,
        {
            out.push(OpState::Pending);
            j += 1;
        }
        proof {
            lemma_moves_fit(ops, i as int);
        }
        i += 1;
    }
    assert(ops.take(ops.len() as int) =~= ops);
    assert(out@ =~= all_pending(plan@));
    out
}

/// The words for a run that cannot fit.
pub open spec fn no_room(dest: Seq<char>, need: u64, avail: u64) -> Seq<char> {
    "insufficient free space at "@ + dest + ": need "@ + decimal(need as nat) + " bytes, "@
        + decimal(avail as nat) + " available"@
}

/// The history of the check before a run. Where the first file to move lies on another
/// file system than the destination, the destination must have room for all of them.
pub open spec fn preflight_ran(
    plan: PlanView,
    t: Seq<FsEvent>,
    r: Result<(), ApplyErrorView>,
) -> bool {
    if all_moves(plan.ops).len() == 0 {
        t.len() == 0 && r == Ok::<(), ApplyErrorView>(())
    } else {
        &&& t.len() >= 1
        &&& t[0] matches FsEvent::SameFilesystem { a, b, reply }
        &&& a == all_moves(plan.ops)[0].from
        &&& b == plan.dest
        &&& match reply {
            Err(e) => t.len() == 1 && r == failed(plan.dest, e),
            Ok(same) => if same {
                t.len() == 1 && r == Ok::<(), ApplyErrorView>(())
            } else {
                &&& t.len() == 2
                &&& t[1] matches FsEvent::FreeSpace { path, reply: free }
                &&& path == plan.dest
                &&& r == match free {
                    Err(e) => failed(plan.dest, e),
                    Ok(avail) => if avail < plan.total_bytes {
                        Err(
                            ApplyErrorView::Preflight(
                                no_room(plan.dest, plan.total_bytes, avail),
                            ),
                        )
                    } else {
                        Ok(())
                    },
                }
            },
        }
    }
}

/// Refuses a run across file systems that cannot fit.
pub fn preflight<F: FsOps>(plan: &ApplyPlan, fs: &mut FsLog<F>) -> (r: Result<(), ApplyError>)
    ensures
        extends(final(fs).log(), old(fs).log()),
        preflight_ran(plan@, since(final(fs).log(), old(fs).log()), outcome(r)),
{
    let ghost start = fs.log();
    let ghost ops = plan@.ops;
    proof {
        since_starts_empty(start);
        assert(ops.take(0) =~= Seq::<OpView>::empty());
    }
    let mut i: usize = 0;
    while i < plan.ops.len() && plan.ops[i].moves.len() == 0
        invariant
            ops == plan@.ops,
            0 <= i <= ops.len(),
            all_moves(ops.take(i as int)).len() == 0,
        decreases ops.len() - i,
    {
        proof {
            assert(ops[i as int] == plan.ops@[i as int]@);
            lemma_moves_fit(ops, i as int);
        }
        i += 1;
    }
    if i >= plan.ops.len() {
        assert(ops.take(ops.len() as int) =~= ops);
        return Ok(());
    }
    let src = plan.ops[i].moves[0].from.as_str();
    proof {
        assert(ops[i as int] == plan.ops@[i as int]@);
        lemma_moves_fit(ops, i as int);
        lemma_moves_prefix(ops, i + 1);
        let b = all_moves(ops.take(i + 1));
        assert(b == all_moves(ops).subrange(0, b.len() as int));
        assert(b[0] == ops[i as int].moves[0]);
        assert(all_moves(ops)[0] == b[0]);
    }
    let same = fs.same_filesystem(src, plan.dest.as_str());
    proof {
        since_grows(start, start, fs.log());
    }
    let ghost l1 = fs.log();
    match same {
        Err(e) => Err(ApplyError::Fs { path: plan.dest.clone(), source: e }),
        Ok(same) => {
            if same {
                return Ok(());
            }
            let free = fs.free_space(plan.dest.as_str());
            proof {
                since_grows(start, l1, fs.log());
            }
            match free {
                Err(e) => Err(ApplyError::Fs { path: plan.dest.clone(), source: e }),
                Ok(avail) => {
                    if avail < plan.total_bytes {
                        let mut words = String::from_str("insufficient free space at ");
                        words.append(plan.dest.as_str());
                        words.append(": need ");
                        words.append(decimal_text(plan.total_bytes).as_str());
                        words.append(" bytes, ");
                        words.append(decimal_text(avail).as_str());
                        words.append(" available");
                        Err(ApplyError::Preflight(words))
                    } else {
                        Ok(())
                    }
                },
            }
        },
    }
}

/// The history of an apply: the check, then the journal with every move pending, made
/// durable, and only then the run.
pub open spec fn applied(
    plan: PlanView,
    journal_path: Seq<char>,
    t: Seq<FsEvent>,
    r: Result<ReportView, ApplyErrorView>,
) -> bool {
    exists|a: Seq<FsEvent>, b: Seq<FsEvent>, c: Result<(), ApplyErrorView>|
        {
            &&& t == a + b
            &&& #[trigger] preflight_ran(plan, a, c)
            &&& #[trigger] journaled_run(plan, journal_path, b, c, r)
        }
}

/// The history of an apply after its check.
pub open spec fn journaled_run(
    plan: PlanView,
    journal_path: Seq<char>,
    t: Seq<FsEvent>,
    checked: Result<(), ApplyErrorView>,
    r: Result<ReportView, ApplyErrorView>,
) -> bool {
    match checked {
        Err(e) => t.len() == 0 && r == Err::<ReportView, _>(e),
        Ok(_) => exists|a: Seq<FsEvent>, b: Seq<FsEvent>, w: Result<(), ApplyErrorView>|
            {
                &&& t == a + b
                &&& #[trigger] journal_written(plan, all_pending(plan), journal_path, true, a, w)
                &&& #[trigger] run_after_journal(plan, journal_path, b, w, r)
            },
    }
}

/// The history of an apply after its journal was first written.
pub open spec fn run_after_journal(
    plan: PlanView,
    journal_path: Seq<char>,
    t: Seq<FsEvent>,
    written: Result<(), ApplyErrorView>,
    r: Result<ReportView, ApplyErrorView>,
) -> bool {
    match written {
        Err(e) => t.len() == 0 && r == Err::<ReportView, _>(e),
        Ok(_) => exists|after: Seq<OpState>| #[trigger]
            executed(plan, all_pending(plan), journal_path, t, after, r),
    }
}

/// Carries out a plan, after writing its journal.
pub fn apply<F: FsOps>(plan: &ApplyPlan, fs: &mut FsLog<F>, journal_path: &str) -> (r: Result<
    ApplyReport,
    ApplyError,
>)
    ensures
        extends(final(fs).log(), old(fs).log()),
        applied(plan@, journal_path@, since(final(fs).log(), old(fs).log()), run_outcome(r)),
{
    let ghost start = fs.log();
    let ghost jp = journal_path@;
    let checked = preflight(plan, fs);
    let ghost l1 = fs.log();
    let ghost c = outcome(checked);
    let ghost none = Seq::<FsEvent>::empty();
    if let Err(e) = checked {
        proof {
            assert(since(l1, start) + none =~= since(l1, start));
            assert(journaled_run(plan@, jp, none, c, Err(e@)));
        }
        return Err(e);
    }
    let mut journal = Journal { plan: plan.clone(), statuses: pending_states(plan) };
    let wrote = write_journal(&journal, journal_path, true, fs);
    let ghost l2 = fs.log();
    let ghost w = outcome(wrote);
    proof {
        since_adds_up(start, l1, l2);
    }
    if let Err(e) = wrote {
        proof {
            assert(since(l2, l1) + none =~= since(l2, l1));
            assert(run_after_journal(plan@, jp, none, w, Err(e@)));
            assert(journaled_run(plan@, jp, since(l2, l1), c, Err(e@)));
        }
        return Err(e);
    }
    let r = execute(&mut journal, fs, journal_path);
    proof {
        since_adds_up(l1, l2, fs.log());
        since_adds_up(start, l1, fs.log());
        assert(run_after_journal(plan@, jp, since(fs.log(), l2), w, run_outcome(r)));
        assert(journaled_run(plan@, jp, since(fs.log(), l1), c, run_outcome(r)));
    }
    r
}

/// The state of a move in the light of what is on disk. Where the source is gone and the
/// destination is there, the move was made; where the source is there and the
/// destination is not, it was not.
pub open spec fn reconciled(state: OpState, src: bool, dst: bool) -> OpState {
    if state != OpState::Done && !src && dst {
        OpState::Done
    } else if state == OpState::Done && !dst && src {
        OpState::Pending
    } else {
        state
    }
}

/// The event asks for the length of `path`.
pub open spec fn probes(e: FsEvent, path: Seq<char>) -> bool {
    e matches FsEvent::FileLen { path: p, .. } && p == path
}

/// The file that the event asked about was there.
pub open spec fn found(e: FsEvent) -> bool {
    e matches FsEvent::FileLen { reply, .. } && reply is Ok
}

/// The history of reconciling a journal: for each move its source and its destination
/// are probed, and its state is settled by what was found.
pub open spec fn reconcile_ran(
    moves: Seq<MoveView>,
    before: Seq<OpState>,
    t: Seq<FsEvent>,
    after: Seq<OpState>,
) -> bool {
    &&& t.len() == 2 * moves.len()
    &&& after.len() == before.len()
    &&& forall|g: int|
        0 <= g < moves.len() ==> {
            &&& probes(t[2 * g], (#[trigger] moves[g]).from)
            &&& probes(t[2 * g + 1], moves[g].to)
        }
    &&& forall|g: int|
        0 <= g < before.len() ==> #[trigger] after[g] == if g < moves.len() {
            reconciled(before[g], found(t[2 * g]), found(t[2 * g + 1]))
        } else {
            before[g]
        }
}

/// Settles the states of a journal by what is on disk.
pub fn reconcile<F: FsOps>(journal: &mut Journal, fs: &mut FsLog<F>)
    requires
        old(journal).statuses@.len() >= all_moves(old(journal).plan@.ops).len(),
    ensures
        extends(final(fs).log(), old(fs).log()),
        reconcile_ran(
            all_moves(old(journal).plan@.ops),
            old(journal).statuses@,
            since(final(fs).log(), old(fs).log()),
            final(journal).statuses@,
        ),
        final(journal).plan == old(journal).plan,
{
    let ghost start = fs.log();
    let ghost ops = journal.plan@.ops;
    let ghost before = journal.statuses@;
    proof {
        since_starts_empty(start);
        assert(ops.take(0) =~= Seq::<OpView>::empty());
    }
    let count: usize = journal.plan.ops.len();
    let mut number: usize = 0;
    let mut i: usize = 0;
    while i < count
        invariant
            ops == journal.plan@.ops,
            journal.plan == old(journal).plan,
            count == ops.len(),
            0 <= i <= count,
            number == all_moves(ops.take(i as int)).len(),
            before.len() >= all_moves(ops).len(),
            start == old(fs).log(),
            extends(fs.log(), start),
            reconcile_ran(
                all_moves(ops.take(i as int)),
                before,
                since(fs.log(), start),
                journal.statuses@,
            ),
        decreases count - i,
    {
        let ghost base = number as int;
        let ghost mine = ops[i as int].moves;
        proof {
            lemma_moves_fit(ops, i as int);
            assert(ops[i as int] == journal.plan.ops@[i as int]@);
            assert(mine == move_views(journal.plan.ops@[i as int].moves@));
            assert(all_moves(ops.take(i as int)) + mine.take(0) =~= all_moves(
                ops.take(i as int),
            ));
        }
        let files: usize = journal.plan.ops[i].moves.len();
        let mut j: usize = 0;
        while j < files
            invariant
                ops == journal.plan@.ops,
                journal.plan == old(journal).plan,
                count == ops.len(),
                0 <= i < count,
                0 <= j <= files,
                mine == move_views(journal.plan.ops@[i as int].moves@),
                files == mine.len(),
                base == all_moves(ops.take(i as int)).len(),
                base + files <= all_moves(ops).len(),
                number == base + j,
                before.len() >= all_moves(ops).len(),
                start == old(fs).log(),
                extends(fs.log(), start),
                reconcile_ran(
                    all_moves(ops.take(i as int)) + mine.take(j as int),
                    before,
                    since(fs.log(), start),
                    journal.statuses@,
                ),
            decreases files - j,
        {
            let ghost l0 = fs.log();
            let ghost t0 = since(l0, start);
            let ghost had = all_moves(ops.take(i as int)) + mine.take(j as int);
            let ghost was = journal.statuses@;
            assert(number < journal.statuses.len());
            let src = fs.file_len(journal.plan.ops[i].moves[j].from.as_str()).is_ok();
            proof {
                since_grows(start, l0, fs.log());
            }
            let ghost l1 = fs.log();
            let dst = fs.file_len(journal.plan.ops[i].moves[j].to.as_str()).is_ok();
            proof {
                since_grows(start, l1, fs.log());
            }
            let state = journal.statuses[number];
            if state != OpState::Done && !src && dst {
                journal.statuses.set(number, OpState::Done);
            } else if state == OpState::Done && !dst && src {
                journal.statuses.set(number, OpState::Pending);
            }
            proof {
                let t = since(fs.log(), start);
                assert(t =~= t0.push(l1.last()).push(fs.log().last()));
                let has = all_moves(ops.take(i as int)) + mine.take(j + 1);
                assert(has =~= had.push(mine[j as int]));
                assert forall|g: int| 0 <= g < has.len() implies {
                    &&& probes(t[2 * g], (#[trigger] has[g]).from)
                    &&& probes(t[2 * g + 1], has[g].to)
                } by {
                    if g < had.len() {
                        assert(had[g] == has[g]);
                    }
                }
                assert forall|g: int| 0 <= g < before.len() implies #[trigger] journal.statuses@[g]
                    == if g < has.len() {
                    reconciled(before[g], found(t[2 * g]), found(t[2 * g + 1]))
                } else {
                    before[g]
                } by {
                    assert(was[g] == if g < had.len() {
                        reconciled(before[g], found(t0[2 * g]), found(t0[2 * g + 1]))
                    } else {
                        before[g]
                    });
                }
            }
            number += 1;
            j += 1;
        }
        proof {
            assert(all_moves(ops.take(i as int)) + mine.take(files as int) =~= all_moves(
                ops.take(i + 1),
            ));
        }
        i += 1;
    }
    assert(ops.take(count as int) =~= ops);
}

/// The words for a journal that has too few states for its plan.
pub open spec fn misfit(states: nat, moves: nat) -> Seq<char> {
    "the journal is corrupt: "@ + decimal(states) + " states for "@ + decimal(moves) + " moves"@
}

/// The history of resuming a run: the journal is read, its states are settled by what is
/// on disk, and it is carried out from there. A journal that cannot be read, does not
/// parse or has too few states for its plan is refused.
pub open spec fn resumed(
    journal_path: Seq<char>,
    t: Seq<FsEvent>,
    r: Result<ReportView, ApplyErrorView>,
) -> bool {
    &&& t.len() >= 1
    &&& t[0] matches FsEvent::Read { path, reply }
    &&& path == journal_path
    &&& match reply {
        Err(e) => {
            &&& t.len() == 1
            &&& r == Err::<ReportView, _>(ApplyErrorView::Fs { path: journal_path, source: e })
        },
        Ok(bytes) => {
            &&& t.len() >= 2
            &&& t[1] matches FsEvent::DecodeJournal { bytes: b, reply: decoded }
            &&& b == bytes
            &&& match decoded {
                Err(words) => {
                    &&& t.len() == 2
                    &&& r == Err::<ReportView, _>(
                        ApplyErrorView::Fs {
                            path: journal_path,
                            source: own_error(FsErrorKind::InvalidData, words),
                        },
                    )
                },
                Ok((plan, statuses)) => rerun(plan, statuses, journal_path, t.skip(2), r),
            }
        },
    }
}

/// The history of resuming a journal that was read.
pub open spec fn rerun(
    plan: PlanView,
    statuses: Seq<OpState>,
    journal_path: Seq<char>,
    t: Seq<FsEvent>,
    r: Result<ReportView, ApplyErrorView>,
) -> bool {
    let moves = all_moves(plan.ops);
    if statuses.len() < moves.len() {
        &&& t.len() == 0
        &&& r == Err::<ReportView, _>(
            ApplyErrorView::Preflight(misfit(statuses.len(), moves.len())),
        )
    } else {
        exists|a: Seq<FsEvent>, b: Seq<FsEvent>, mid: Seq<OpState>, after: Seq<OpState>|
            {
                &&& t == a + b
                &&& #[trigger] reconcile_ran(moves, statuses, a, mid)
                &&& #[trigger] executed(plan, mid, journal_path, b, after, r)
            }
    }
}

/// Reads a journal.
pub fn read_journal<F: FsOps>(path: &str, fs: &mut FsLog<F>) -> (r: Result<Journal, ApplyError>)
    ensures
        extends(final(fs).log(), old(fs).log()),
        journal_was_read(path@, since(final(fs).log(), old(fs).log()), r),
{
    let ghost start = fs.log();
    proof {
        since_starts_empty(start);
    }
    let read = fs.read(path);
    proof {
        since_grows(start, start, fs.log());
    }
    let ghost l1 = fs.log();
    let bytes = match read {
        Ok(b) => b,
        Err(e) => {
            return Err(ApplyError::Fs { path: path.to_owned(), source: e });
        },
    };
    let decoded = fs.decode_journal(&bytes);
    proof {
        since_grows(start, l1, fs.log());
    }
    match decoded {
        Ok(j) => Ok(j),
        Err(words) => Err(
            ApplyError::Fs {
                path: path.to_owned(),
                source: FsError::own(FsErrorKind::InvalidData, words),
            },
        ),
    }
}

/// The history of reading a journal.
pub open spec fn journal_was_read(
    journal_path: Seq<char>,
    t: Seq<FsEvent>,
    r: Result<Journal, ApplyError>,
) -> bool {
    &&& t.len() >= 1
    &&& t[0] matches FsEvent::Read { path, reply }
    &&& path == journal_path
    &&& match reply {
        Err(e) => {
            &&& t.len() == 1
            &&& r is Err
            &&& r->Err_0@ == (ApplyErrorView::Fs { path: journal_path, source: e })
        },
        Ok(bytes) => {
            &&& t.len() == 2
            &&& t[1] matches FsEvent::DecodeJournal { bytes: b, reply: decoded }
            &&& b == bytes
            &&& match decoded {
                Err(words) => {
                    &&& r is Err
                    &&& r->Err_0@ == (ApplyErrorView::Fs {
                        path: journal_path,
                        source: own_error(FsErrorKind::InvalidData, words),
                    })
                },
                Ok((plan, statuses)) => {
                    &&& r is Ok
                    &&& r->Ok_0.plan@ == plan
                    &&& r->Ok_0.statuses@ == statuses
                },
            }
        },
    }
}

/// Resumes a run from its journal.
pub fn resume<F: FsOps>(journal_path: &str, fs: &mut FsLog<F>) -> (r: Result<
    ApplyReport,
    ApplyError,
>)
    ensures
        extends(final(fs).log(), old(fs).log()),
        resumed(journal_path@, since(final(fs).log(), old(fs).log()), run_outcome(r)),
{
    let ghost start = fs.log();
    let read = read_journal(journal_path, fs);
    let ghost l1 = fs.log();
    let mut journal = match read {
        Ok(j) => j,
        Err(e) => {
            return Err(e);
        },
    };
    let ghost t1 = since(l1, start);
    let ghost plan = journal.plan@;
    let ghost statuses = journal.statuses@;
    let needed: usize = pending_states(&journal.plan).len();
    if journal.statuses.len() < needed {
        let mut words = String::from_str("the journal is corrupt: ");
        words.append(decimal_text(journal.statuses.len() as u64).as_str());
        words.append(" states for ");
        words.append(decimal_text(needed as u64).as_str());
        words.append(" moves");
        proof {
            assert(t1.skip(2) =~= Seq::<FsEvent>::empty());
        }
        return Err(ApplyError::Preflight(words));
    }
    reconcile(&mut journal, fs);
    let ghost l2 = fs.log();
    let ghost mid = journal.statuses@;
    let r = execute(&mut journal, fs, journal_path);
    proof {
        since_adds_up(l1, l2, fs.log());
        since_adds_up(start, l1, fs.log());
        let t = since(fs.log(), start);
        assert(t.skip(2) =~= since(fs.log(), l1));
        assert(reconcile_ran(all_moves(plan.ops), statuses, since(l2, l1), mid));
        assert(executed(
            plan,
            mid,
            journal_path@,
            since(fs.log(), l2),
            journal.statuses@,
            run_outcome(r),
        ));
        assert(rerun(plan, statuses, journal_path@, since(fs.log(), l1), run_outcome(r)));
    }
    r
}

/// The moves of two runs of operations are those of the one and then those of the other.
pub proof fn moves_are_made_in_the_order_of_the_shots(a: Seq<OpView>, b: Seq<OpView>, op: OpView)
    ensures
        all_moves(a + b) == all_moves(a) + all_moves(b),
        all_moves(seq![op]) == op.moves,
        all_moves(Seq::empty()).len() == 0,
    decreases b.len(),
{
    assert(seq![op].drop_last() =~= Seq::empty());
    reveal_with_fuel(all_moves, 2);
    assert(all_moves(seq![op]) =~= op.moves);
    if b.len() == 0 {
        assert(a + b =~= a);
        assert(all_moves(a) + all_moves(b) =~= all_moves(a));
    } else {
        moves_are_made_in_the_order_of_the_shots(a, b.drop_last(), op);
        assert((a + b).drop_last() =~= a + b.drop_last());
        assert(all_moves(a + b) =~= all_moves(a) + all_moves(b));
    }
}

/// The buckets are made before anything moves, one for each name and below the destination,
/// and the folders of the sidecars are brought to the disk after everything.
pub proof fn buckets_come_first_and_syncs_last(plan: PlanView, k: int)
    requires
        0 <= k < tasks(plan).len(),
    ensures
        k < plan.buckets.len() ==> tasks(plan)[k] == Task::Mkdir(
            join(plan.dest, plan.buckets[k]),
        ),
        tasks(plan)[k] is Mkdir ==> k < plan.buckets.len(),
        tasks(plan)[k] is SyncDir ==> k >= tasks(plan).len() - sidecar_dirs(plan.ops).len(),
        k >= tasks(plan).len() - sidecar_dirs(plan.ops).len() ==> tasks(plan)[k] is SyncDir,
{
    lemma_ops_tasks_are_for_shots(plan.ops);
    let a = mkdir_tasks(plan);
    let b = ops_tasks(plan.ops);
    let all = tasks(plan);
    if k < a.len() {
        assert(all[k] == a[k]);
    } else if k < a.len() + b.len() {
        assert(all[k] == b[k - a.len()]);
    } else {
        assert(all[k] == sync_tasks(plan)[k - a.len() - b.len()]);
    }
}

proof fn lemma_ops_tasks_are_for_shots(ops: Seq<OpView>)
    ensures
        forall|k: int|
            0 <= k < ops_tasks(ops).len() ==> !((#[trigger] ops_tasks(ops)[k]) is Mkdir)
                && !(ops_tasks(ops)[k] is SyncDir),
    decreases ops.len(),
{
    if ops.len() > 0 {
        let front = ops.drop_last();
        lemma_ops_tasks_are_for_shots(front);
        let a = ops_tasks(front);
        let b = op_tasks(ops.last(), all_moves(front).len() as int);
        assert forall|k: int| 0 <= k < ops_tasks(ops).len() implies !((
        #[trigger] ops_tasks(ops)[k]) is Mkdir) && !(ops_tasks(ops)[k] is SyncDir) by {
            if k < a.len() {
                assert(ops_tasks(ops)[k] == a[k]);
            } else {
                assert(ops_tasks(ops)[k] == b[k - a.len()]);
            }
        }
    }
}

/// Every folder that gets a sidecar is brought to the disk, and each of them once.
pub proof fn every_sidecar_folder_is_synced(ops: Seq<OpView>, i: int)
    ensures
        0 <= i < ops.len() && ops[i].write_sidecar is Some && parent(
            ops[i].write_sidecar->0.path,
        ) is Some ==> sidecar_dirs(ops).contains(parent(ops[i].write_sidecar->0.path)->0),
        sidecar_dirs(ops).no_duplicates(),
    decreases ops.len(),
{
    if ops.len() > 0 {
        let front = ops.drop_last();
        let n = ops.len() - 1;
        every_sidecar_folder_is_synced(front, i);
        let a = sidecar_dirs(front);
        let b = sidecar_dirs(ops);
        if 0 <= i < n && ops[i].write_sidecar is Some && parent(ops[i].write_sidecar->0.path)
            is Some {
            let d = parent(ops[i].write_sidecar->0.path)->0;
            assert(front[i] == ops[i]);
            let k = choose|k: int| 0 <= k < a.len() && a[k] == d;
            assert(b[k] == d);
        }
        if i == n && ops[i].write_sidecar is Some && parent(ops[i].write_sidecar->0.path)
            is Some {
            let d = parent(ops[i].write_sidecar->0.path)->0;
            if !a.contains(d) {
                assert(b[a.len() as int] == d);
            }
        }
        if b != a {
            assert forall|x: int, y: int| 0 <= x < b.len() && 0 <= y < b.len() && x != y implies b[x]
                != b[y] by {
                if x == a.len() {
                    assert(a.contains(a[y]));
                } else if y == a.len() {
                    assert(a.contains(a[x]));
                } else {
                    assert(a[x] != a[y]);
                }
            }
        }
    }
}

/// A move that went well counts as one file and is noted as done, and a move that failed as
/// failed; no other state changes, and nothing else is counted.
pub proof fn a_move_is_noted_by_how_it_went(
    plan: PlanView,
    journal_path: Seq<char>,
    number: int,
    p: Progress,
    t: Seq<FsEvent>,
    q: Progress,
    m: Result<(), ApplyErrorView>,
    r: Result<(), ApplyErrorView>,
)
    requires
        move_recorded(plan, journal_path, number, p, t, q, m, r),
        0 <= number < p.statuses.len(),
    ensures
        m is Ok ==> q.statuses[number] == OpState::Done && q.files == p.files + 1,
        m is Err ==> q.statuses[number] == OpState::Failed && q.files == p.files && r == m,
        q.statuses.len() == p.statuses.len(),
        forall|g: int|
            0 <= g < p.statuses.len() && g != number ==> #[trigger] q.statuses[g]
                == p.statuses[g],
        q.shots == p.shots,
        q.sidecars == p.sidecars,
        t.len() >= 1 && t[0] is EncodeJournal && t[0]->EncodeJournal_statuses == q.statuses,
{
}

/// The journal goes to the disk with every sixty-fourth file and with every failure, and is
/// written without waiting for the disk otherwise.
pub proof fn the_journal_is_synced_with_every_sixty_fourth_file(
    plan: PlanView,
    journal_path: Seq<char>,
    number: int,
    p: Progress,
    t: Seq<FsEvent>,
    q: Progress,
    m: Result<(), ApplyErrorView>,
    r: Result<(), ApplyErrorView>,
    k: int,
)
    requires
        move_recorded(plan, journal_path, number, p, t, q, m, r),
        t.len() >= 2,
    ensures
        t[1] is WriteFile,
        m is Err ==> t[1]->WriteFile_sync,
        m is Ok && q.files == 64 * k ==> t[1]->WriteFile_sync,
        m is Ok && 64 * k < q.files < 64 * (k + 1) ==> !t[1]->WriteFile_sync,
{
}

/// A sidecar counts exactly where it took its place; one that is there already, or that came
/// in between, is left as it is and is no failure.
pub proof fn a_sidecar_counts_where_it_was_written(
    plan: PlanView,
    journal_path: Seq<char>,
    s: SidecarView,
    p: Progress,
    t: Seq<FsEvent>,
    q: Progress,
    r: Result<(), ApplyErrorView>,
)
    requires
        task_ran(plan, journal_path, Task::Sidecar(s), p, t, q, r),
    ensures
        q.files == p.files,
        q.shots == p.shots,
        q.statuses == p.statuses,
        t[0] is IsThere && t[0]->IsThere_path == s.path,
        t[0]->IsThere_reply ==> t.len() == 1 && q.sidecars == p.sidecars && r is Ok,
        ({
            let wrote = t.last() is RenameNoreplace && t.last()->RenameNoreplace_reply is Ok;
            &&& wrote ==> q.sidecars == p.sidecars + 1 && r is Ok
            &&& !wrote ==> q.sidecars == p.sidecars
        }),
        r matches Err(e) ==> e is Fs && e->Fs_path == s.path && e->Fs_source.kind
            != FsErrorKind::AlreadyExists,
{
    if !t[0]->IsThere_reply {
        let u = t.skip(1);
        let w = choose|w: Result<(), FsErrorView>|
            {
                &&& #[trigger] sidecar_written(s.path, s.tags, s.rating, u, w)
                &&& match w {
                    Ok(_) => {
                        &&& q == (Progress { sidecars: p.sidecars + 1, ..p })
                        &&& r == Ok::<(), ApplyErrorView>(())
                    },
                    Err(e) => {
                        &&& q == p
                        &&& r == if e.kind == FsErrorKind::AlreadyExists {
                            Ok(())
                        } else {
                            failed(s.path, e)
                        }
                    },
                }
            };
        crate::records::a_sidecar_never_replaces_a_file(s.path, s.tags, s.rating, u, w);
        if u.len() > 0 {
            assert(u.last() == t.last());
        }
    }
}

/// An apply is refused before anything moves where it crosses filesystems and there is less
/// room than it needs, and on no other account of room.
pub proof fn an_apply_without_room_is_refused(
    plan: PlanView,
    t: Seq<FsEvent>,
    r: Result<(), ApplyErrorView>,
    avail: u64,
)
    requires
        preflight_ran(plan, t, r),
        all_moves(plan.ops).len() > 0,
        t[0]->SameFilesystem_reply is Ok,
    ensures
        t[0]->SameFilesystem_a == all_moves(plan.ops)[0].from,
        t[0]->SameFilesystem_b == plan.dest,
        t[0]->SameFilesystem_reply == Ok::<bool, FsErrorView>(true) ==> r is Ok,
        t[0]->SameFilesystem_reply == Ok::<bool, FsErrorView>(false) ==> {
            &&& t[1] is FreeSpace && t[1]->FreeSpace_path == plan.dest
            &&& t[1]->FreeSpace_reply == Ok::<u64, FsErrorView>(avail) ==> {
                &&& avail >= plan.total_bytes ==> r is Ok
                &&& avail < plan.total_bytes ==> r is Err && r->Err_0 is Preflight
            }
        },
        forall|k: int|
            0 <= k < t.len() ==> (#[trigger] t[k]) is SameFilesystem || t[k] is FreeSpace,
{
}

/// Where a file is, and not what was noted, decides what is left to do: one that is at its
/// place and gone from the source is done, one that is only at the source is not, and where
/// both or neither are there what was noted stands.
pub proof fn where_a_file_is_decides(state: OpState, src: bool, dst: bool)
    ensures
        !src && dst ==> reconciled(state, src, dst) == OpState::Done,
        src && !dst ==> reconciled(state, src, dst) != OpState::Done,
        src && !dst && state != OpState::Done ==> reconciled(state, src, dst) == state,
        src == dst ==> reconciled(state, src, dst) == state,
{
}

/// The files of a shot move in their order, each under its number among all moves; its
/// sidecar is written after the last of them, and only then the shot counts as moved.
pub proof fn a_sidecar_comes_after_the_files(op: OpView, base: int, k: int)
    requires
        0 <= k < op_tasks(op, base).len(),
    ensures
        ({
            let all = op_tasks(op, base);
            let n = op.moves.len() as int;
            &&& k < n ==> all[k] == (Task::Move {
                from: op.moves[k].from,
                to: op.moves[k].to,
                number: base + k,
            })
            &&& all[k] is Move ==> k < n
            &&& op.write_sidecar matches Some(s) ==> all.len() == n + 2 && all[n] == Task::Sidecar(
                s,
            )
            &&& op.write_sidecar is None ==> all.len() == n + 1
            &&& all.last() is ShotDone
            &&& all[k] is ShotDone ==> k == all.len() - 1
        }),
{
}

/// Every shot of a plan has its tasks, one after the other and in order; their moves are
/// numbered on from those of the shots before.
pub proof fn shots_are_worked_off_in_order(ops: Seq<OpView>, op: OpView)
    ensures
        ops_tasks(ops.push(op)) == ops_tasks(ops) + op_tasks(op, all_moves(ops).len() as int),
        ops_tasks(Seq::empty()).len() == 0,
{
    assert(ops.push(op).drop_last() =~= ops);
}

/// Whether the text names the room that is needed and the room that there is.
pub open spec fn names_room(
    text: Seq<char>,
    dest: Seq<char>,
    need: Seq<char>,
    avail: Seq<char>,
) -> bool {
    text == "insufficient free space at "@ + dest + ": need "@ + need + " bytes, "@ + avail
        + " available"@
}

/// A refusal for want of room names the destination, how much is needed and how much there
/// is.
pub proof fn a_refusal_names_the_room(dest: Seq<char>, need: u64, avail: u64)
    ensures
        exists|n: Seq<char>, a: Seq<char>|
            {
                &&& #[trigger] names_room(no_room(dest, need, avail), dest, n, a)
                &&& number_in(n) == need
                &&& number_in(a) == avail
            },
{
    a_written_number_reads_back(need as nat);
    a_written_number_reads_back(avail as nat);
    assert(names_room(
        no_room(dest, need, avail),
        dest,
        decimal(need as nat),
        decimal(avail as nat),
    ));
}

/// A journal with fewer states than moves is refused before anything is touched, and one
/// that cannot be read or decoded is told as an error of its file.
pub proof fn a_broken_journal_moves_nothing(
    journal_path: Seq<char>,
    t: Seq<FsEvent>,
    r: Result<ReportView, ApplyErrorView>,
)
    requires
        resumed(journal_path, t, r),
    ensures
        t[0] is Read && t[0]->Read_path == journal_path,
        t[0]->Read_reply matches Err(e) ==> t.len() == 1 && r == Err::<ReportView, _>(
            ApplyErrorView::Fs { path: journal_path, source: e },
        ),
        t[0]->Read_reply is Ok ==> {
            &&& t[1] is DecodeJournal
            &&& t[0]->Read_reply == Ok::<Seq<u8>, FsErrorView>(t[1]->DecodeJournal_bytes)
            &&& t[1]->DecodeJournal_reply matches Err(words) ==> {
                &&& t.len() == 2
                &&& r is Err
                &&& r->Err_0 is Fs
                &&& r->Err_0->Fs_path == journal_path
                &&& r->Err_0->Fs_source.kind == FsErrorKind::InvalidData
                &&& r->Err_0->Fs_source.message == words
            }
            &&& t[1]->DecodeJournal_reply matches Ok((plan, statuses)) ==> (statuses.len()
                < all_moves(plan.ops).len() ==> t.len() == 2 && r is Err && r->Err_0
                is Preflight)
        },
{
}

proof fn lemma_task_is_no_refusal(
    plan: PlanView,
    journal_path: Seq<char>,
    task: Task,
    p: Progress,
    t: Seq<FsEvent>,
    q: Progress,
    e: ApplyErrorView,
)
    requires
        task_ran(plan, journal_path, task, p, t, q, Err(e)),
    ensures
        !(e is Preflight),
{
    if let Task::Move { from, to, number } = task {
        let r = Err::<(), ApplyErrorView>(e);
        let (a, b, m) = choose|a: Seq<FsEvent>, b: Seq<FsEvent>, m: Result<(), ApplyErrorView>|
            {
                &&& t == a + b
                &&& #[trigger] move_ran(from, to, a, m)
                &&& #[trigger] move_recorded(plan, journal_path, number, p, b, q, m, r)
            };
        if m is Err {
            assert(m == r);
        }
    }
}

/// An apply that is refused has only looked: no folder was made, no file was moved, copied,
/// written or taken away. A run that was started never ends in a refusal.
pub proof fn a_refused_apply_has_only_looked(
    plan: PlanView,
    journal_path: Seq<char>,
    t: Seq<FsEvent>,
    m: Seq<char>,
)
    requires
        applied(plan, journal_path, t, Err(ApplyErrorView::Preflight(m))),
    ensures
        t.len() == 2,
        forall|k: int|
            0 <= k < t.len() ==> (#[trigger] t[k]) is SameFilesystem || t[k] is FreeSpace,
{
    let r = Err::<ReportView, ApplyErrorView>(ApplyErrorView::Preflight(m));
    let (a, b, c) = choose|a: Seq<FsEvent>, b: Seq<FsEvent>, c: Result<(), ApplyErrorView>|
        {
            &&& t == a + b
            &&& #[trigger] preflight_ran(plan, a, c)
            &&& #[trigger] journaled_run(plan, journal_path, b, c, r)
        };
    if c is Ok {
        let (x, y, w) = choose|x: Seq<FsEvent>, y: Seq<FsEvent>, w: Result<(), ApplyErrorView>|
            {
                &&& b == x + y
                &&& #[trigger] journal_written(
                    plan,
                    all_pending(plan),
                    journal_path,
                    true,
                    x,
                    w,
                )
                &&& #[trigger] run_after_journal(plan, journal_path, y, w, r)
            };
        if w is Ok {
            let after = choose|after: Seq<OpState>| #[trigger]
                executed(plan, all_pending(plan), journal_path, y, after, r);
            let q = choose|q: Progress|
                {
                    &&& q.statuses == after
                    &&& #[trigger] ended_at(
                        plan,
                        journal_path,
                        fresh(all_pending(plan)),
                        y,
                        q,
                        r,
                    )
                };
            let e = ApplyErrorView::Preflight(m);
            let (steps, task, f, g, n) = choose|
                steps: Seq<Task>,
                task: Task,
                f: Seq<FsEvent>,
                g: Seq<FsEvent>,
                n: Progress,
            |
                {
                    &&& y == f + g
                    &&& steps.push(task).is_prefix_of(tasks(plan))
                    &&& #[trigger] all_ran(
                        plan,
                        journal_path,
                        steps,
                        fresh(all_pending(plan)),
                        f,
                        n,
                    )
                    &&& #[trigger] task_ran(plan, journal_path, task, n, g, q, Err(e))
                };
            lemma_task_is_no_refusal(plan, journal_path, task, n, g, q, e);
        }
    }
    assert(t =~= a);
}

/// A run that went through ends by taking its journal away, and says what it counted.
pub proof fn a_finished_run_takes_its_journal_away(
    plan: PlanView,
    statuses: Seq<OpState>,
    journal_path: Seq<char>,
    t: Seq<FsEvent>,
    after: Seq<OpState>,
    report: ReportView,
)
    requires
        executed(plan, statuses, journal_path, t, after, Ok(report)),
    ensures
        t.len() > 0,
        t.last() is RemoveFile,
        t.last()->RemoveFile_path == journal_path,
        report.stopped_at is None,
{
}

/// Whether the text names how many states and how many moves a journal has.
pub open spec fn names_misfit(text: Seq<char>, states: Seq<char>, moves: Seq<char>) -> bool {
    text == "the journal is corrupt: "@ + states + " states for "@ + moves + " moves"@
}

/// A journal that does not fit its plan is told by both numbers.
pub proof fn a_misfit_is_told_in_numbers(states: nat, moves: nat)
    ensures
        exists|s: Seq<char>, m: Seq<char>|
            {
                &&& #[trigger] names_misfit(misfit(states, moves), s, m)
                &&& number_in(s) == states
                &&& number_in(m) == moves
            },
{
    a_written_number_reads_back(states);
    a_written_number_reads_back(moves);
    assert(names_misfit(misfit(states, moves), decimal(states), decimal(moves)));
}

} // verus!
