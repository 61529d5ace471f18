//! What a run that comes to its end has done: every photo of the plan is whole at its
//! destination and gone from its source.
use vstd::prelude::*;
use crate::apply::{
    all_moves, all_pending, all_ran, applied, ended_at, executed, fresh, journaled_run, mkdir_tasks,
    move_made, move_recorded, move_tasks, op_tasks, ops_tasks, preflight_ran, reconcile_ran, rerun,
    run_after_journal, task_ran, tasks, Progress, Task,
};
use crate::fsops::FsEvent;
use crate::journal::{ApplyErrorView, OpState, ReportView};
use crate::moves::{cross_ran, move_ran, partial_of, publish_ran};
use crate::paths::parent;
use crate::plan::{MoveView, OpView, PlanView};
use crate::preservation::{
    effect, keeps_apart, lemma_copied, lemma_kept, lemma_same_but, unfolds, Files,
};
use crate::progress::{
    lemma_all_ran_progress, lemma_prefix_counts, lemma_tasks, move_count, numbered,
};
use crate::records::journal_written;
use crate::safety::{
    apply_is_lawful, copied_safely, is_move, is_sidecar, lawful, lawful_event, own_file, own_temp,
    rerun_is_lawful,
};

verus! {

/// Whether a file has arrived with the event at `i`: it was renamed into its place, or its
/// source was unlinked after its safe copy.
pub open spec fn arrives(t: Seq<FsEvent>, i: int, from: Seq<char>, to: Seq<char>) -> bool {
    &&& 0 <= i < t.len()
    &&& match t[i] {
        FsEvent::RenameNoreplace { from: f, to: g, reply } => f == from && g == to && reply is Ok,
        FsEvent::RemoveFile { path, reply } => path == from && reply is Ok && copied_safely(
            t,
            i,
            from,
            to,
        ),
        _ => false,
    }
}

/// Whether a file arrives at some point of the history.
pub open spec fn arrives_within(t: Seq<FsEvent>, from: Seq<char>, to: Seq<char>) -> bool {
    exists|i: int| #[trigger] arrives(t, i, from, to)
}

proof fn lemma_arrives_before(a: Seq<FsEvent>, b: Seq<FsEvent>, from: Seq<char>, to: Seq<char>)
    requires
        arrives_within(a, from, to),
    ensures
        arrives_within(a + b, from, to),
{
    let i = choose|i: int| #[trigger] arrives(a, i, from, to);
    let t = a + b;
    assert(forall|k: int| 0 <= k < a.len() ==> t[k] == a[k]);
    if a[i] is RemoveFile {
        assert(copied_safely(t, i, from, to));
    }
    assert(arrives(t, i, from, to));
}

proof fn lemma_arrives_after(a: Seq<FsEvent>, b: Seq<FsEvent>, from: Seq<char>, to: Seq<char>)
    requires
        arrives_within(b, from, to),
    ensures
        arrives_within(a + b, from, to),
{
    let j = choose|j: int| #[trigger] arrives(b, j, from, to);
    let t = a + b;
    let i = j + a.len();
    assert(t[i] == b[j]);
    if b[j] is RemoveFile {
        let d: int = if parent(to) is Some {
            1
        } else {
            0
        };
        assert(t[i - 5 - d] == b[j - 5 - d]);
        assert(t[i - 4 - d] == b[j - 4 - d]);
        assert(t[i - 3 - d] == b[j - 3 - d]);
        assert(t[i - 2 - d] == b[j - 2 - d]);
        assert(t[i - 1 - d] == b[j - 1 - d]);
        assert(t[i - 1] == b[j - 1]);
        assert(copied_safely(t, i, from, to));
    }
    assert(arrives(t, i, from, to));
}

/// A move that went well brings its file.
proof fn lemma_move_arrives(from: Seq<char>, to: Seq<char>, t: Seq<FsEvent>)
    requires
        move_ran(from, to, t, Ok(())),
    ensures
        arrives_within(t, from, to),
{
    if t[0]->RenameNoreplace_reply is Ok {
        assert(arrives(t, 0, from, to));
    } else {
        let c = t.skip(1);
        assert(cross_ran(from, to, c, Ok(())));
        let p = c.skip(5);
        assert(publish_ran(from, to, p, Ok(())));
        assert(forall|k: int| 0 <= k < p.len() ==> p[k] == c[k + 5]);
        assert(p[0] == c[5]);
        assert(p[1] == c[6]);
        let i: int = if parent(to) is Some {
            7
        } else {
            6
        };
        if parent(to) is Some {
            assert(p[2] == c[7]);
        }
        assert(copied_safely(c, i, from, to));
        assert(arrives(c, i, from, to));
        let head = t.take(1);
        assert(t =~= head + c);
        lemma_arrives_after(head, c, from, to);
    }
}

/// Of steps that all went well, each move that was still to be made brings its file.
proof fn lemma_steps_arrive(
    plan: PlanView,
    journal_path: Seq<char>,
    steps: Seq<Task>,
    p: Progress,
    t: Seq<FsEvent>,
    q: Progress,
    k: int,
)
    requires
        numbered(steps),
        move_count(steps) <= p.statuses.len(),
        all_ran(plan, journal_path, steps, p, t, q),
        0 <= k < steps.len(),
        steps[k] is Move,
        p.statuses[steps[k]->Move_number] != OpState::Done,
    ensures
        arrives_within(t, steps[k]->Move_from, steps[k]->Move_to),
    decreases steps.len(),
{
    let front = steps.drop_last();
    let (a, b, m) = choose|a: Seq<FsEvent>, b: Seq<FsEvent>, m: Progress|
        {
            &&& t == #[trigger] (a + b)
            &&& all_ran(plan, journal_path, front, p, a, m)
            &&& #[trigger] task_ran(plan, journal_path, steps.last(), m, b, q, Ok(()))
        };
    let from = steps[k]->Move_from;
    let to = steps[k]->Move_to;
    assert(front =~= steps.subrange(0, steps.len() - 1));
    lemma_prefix_counts(front, steps);
    if k < front.len() {
        assert(front[k] == steps[k]);
        lemma_steps_arrive(plan, journal_path, front, p, a, m, k);
        lemma_arrives_before(a, b, from, to);
    } else {
        let number = steps[k]->Move_number;
        assert(steps.last() == steps[k]);
        assert(steps.take(k) =~= front);
        assert(number == move_count(front));
        lemma_all_ran_progress(plan, journal_path, front, p, a, m);
        lemma_count_is_not_negative(front);
        assert(m.statuses[number] == p.statuses[number]);
        assert(move_made(plan, journal_path, from, to, number, m, b, q, Ok(())));
        let (x, y, w) = choose|x: Seq<FsEvent>, y: Seq<FsEvent>, w: Result<(), ApplyErrorView>|
            {
                &&& b == x + y
                &&& #[trigger] move_ran(from, to, x, w)
                &&& #[trigger] move_recorded(plan, journal_path, number, m, y, q, w, Ok(()))
            };
        assert(w is Ok);
        assert(move_ran(from, to, x, Ok(())));
        lemma_move_arrives(from, to, x);
        lemma_arrives_before(x, y, from, to);
        lemma_arrives_after(a, b, from, to);
    }
}

/// Every move of the plan is one of the steps, under its number.
proof fn lemma_move_is_a_step(ops: Seq<OpView>, g: int) -> (k: int)
    requires
        0 <= g < all_moves(ops).len(),
    ensures
        0 <= k < ops_tasks(ops).len(),
        ops_tasks(ops)[k] == (Task::Move {
            from: all_moves(ops)[g].from,
            to: all_moves(ops)[g].to,
            number: g,
        }),
    decreases ops.len(),
{
    let front = ops.drop_last();
    let a = all_moves(front);
    let last = ops.last().moves;
    let base = a.len() as int;
    let mine = op_tasks(ops.last(), base);
    if g < a.len() {
        let k = lemma_move_is_a_step(front, g);
        assert(ops_tasks(ops)[k] == ops_tasks(front)[k]);
        k
    } else {
        let j = g - a.len();
        assert(mine[j] == move_tasks(last, base)[j]);
        let k = ops_tasks(front).len() + j;
        assert(ops_tasks(ops)[k] == mine[j]);
        k
    }
}

/// A photo that has arrived stays: it is whole at its destination and gone from its source
/// at every later moment.
proof fn lemma_stays_arrived(
    plan: PlanView,
    journal_path: Seq<char>,
    t: Seq<FsEvent>,
    states: Seq<Files>,
    from: Seq<char>,
    to: Seq<char>,
    photo: Seq<u8>,
    x: int,
    k: int,
)
    requires
        lawful(plan, journal_path, t),
        unfolds(states, t),
        keeps_apart(plan, journal_path),
        is_move(plan, from, to),
        0 <= x <= k <= t.len(),
        states[x].contains_key(to) && states[x][to] == photo,
        !states[x].contains_key(from),
    ensures
        states[k].contains_key(to) && states[k][to] == photo,
        !states[k].contains_key(from),
    decreases k - x,
{
    if x < k {
        let i = k - 1;
        lemma_stays_arrived(plan, journal_path, t, states, from, to, photo, x, i);
        let s = states[i];
        let after = states[k];
        assert(effect(states[i], t[i], states[i + 1]));
        assert(lawful_event(plan, journal_path, t, i));
        assert(!own_file(plan, journal_path, from) && !own_temp(plan, journal_path, to));
        match t[i] {
            FsEvent::RenameNoreplace { from: a, to: b, .. } => {
                if is_move(plan, a, b) {
                    assert(a != to && b != from);
                } else if a == partial_of(b) && exists|f: Seq<char>| #[trigger] is_move(plan, f, b) {
                    let f = choose|f: Seq<char>| #[trigger] is_move(plan, f, b);
                    assert(own_temp(plan, journal_path, a));
                    assert(b != from);
                } else {
                    assert(own_temp(plan, journal_path, a) && is_sidecar(plan, b));
                }
            },
            FsEvent::CopyCreateNew { from: a, to: b, reply } => {
                let d = choose|d: Seq<char>| #[trigger]
                    is_move(plan, a, d) && b == partial_of(d);
                assert(own_temp(plan, journal_path, b));
                if reply is Err && after != s {
                    assert(s.remove(b) =~= s);
                    lemma_same_but(s, after, b, to);
                    lemma_same_but(s, after, b, from);
                }
            },
            FsEvent::RemoveFile { path, .. } => {
                if !own_temp(plan, journal_path, path) {
                    let d = choose|d: Seq<char>| #[trigger]
                        is_move(plan, path, d) && copied_safely(t, i, path, d);
                    assert(path != to);
                }
            },
            FsEvent::WriteFile { path, .. } => {
                lemma_same_but(s, after, path, to);
                lemma_same_but(s, after, path, from);
            },
            _ => {},
        }
    }
}

proof fn lemma_arrived(
    plan: PlanView,
    journal_path: Seq<char>,
    t: Seq<FsEvent>,
    states: Seq<Files>,
    from: Seq<char>,
    to: Seq<char>,
)
    requires
        lawful(plan, journal_path, t),
        unfolds(states, t),
        keeps_apart(plan, journal_path),
        is_move(plan, from, to),
        states[0].contains_key(from),
        arrives_within(t, from, to),
    ensures
        states.last().contains_key(to),
        states.last()[to] == states[0][from],
        !states.last().contains_key(from),
{
    let photo = states[0][from];
    let i = choose|i: int| #[trigger] arrives(t, i, from, to);
    lemma_kept(plan, journal_path, t, states, from, to, i);
    assert(effect(states[i], t[i], states[i + 1]));
    assert(from != to);
    if t[i] is RemoveFile {
        let w: int = if parent(to) is Some {
            1
        } else {
            0
        };
        lemma_kept(plan, journal_path, t, states, from, to, i - 5 - w);
        assert(own_temp(plan, journal_path, partial_of(to)));
        lemma_copied(states, t, i, from, to, photo);
    }
    lemma_stays_arrived(
        plan,
        journal_path,
        t,
        states,
        from,
        to,
        photo,
        i + 1,
        t.len() as int,
    );
}

proof fn lemma_count_is_not_negative(steps: Seq<Task>)
    ensures
        move_count(steps) >= 0,
    decreases steps.len(),
{
    if steps.len() > 0 {
        lemma_count_is_not_negative(steps.drop_last());
    }
}

/// An execution that ends well brings the file of each move that was still to be made.
proof fn lemma_executed_arrives(
    plan: PlanView,
    statuses: Seq<OpState>,
    journal_path: Seq<char>,
    t: Seq<FsEvent>,
    after: Seq<OpState>,
    report: ReportView,
    g: int,
)
    requires
        executed(plan, statuses, journal_path, t, after, Ok(report)),
        statuses.len() >= all_moves(plan.ops).len(),
        0 <= g < all_moves(plan.ops).len(),
        statuses[g] != OpState::Done,
    ensures
        arrives_within(t, all_moves(plan.ops)[g].from, all_moves(plan.ops)[g].to),
{
    let p = fresh(statuses);
    let r: Result<ReportView, ApplyErrorView> = Ok(report);
    let q = choose|q: Progress|
        {
            &&& q.statuses == after
            &&& #[trigger] ended_at(plan, journal_path, p, t, q, r)
        };
    lemma_tasks(plan);
    let j = lemma_move_is_a_step(plan.ops, g);
    let k = mkdir_tasks(plan).len() + j;
    let all = tasks(plan);
    assert(all[k] == ops_tasks(plan.ops)[j]);
    lemma_steps_arrive(plan, journal_path, all, p, t.drop_last(), q, k);
    let last = seq![t.last()];
    assert(t =~= t.drop_last() + last);
    lemma_arrives_before(
        t.drop_last(),
        last,
        all_moves(plan.ops)[g].from,
        all_moves(plan.ops)[g].to,
    );
}

/// An apply that ends well has moved every photo: each file that the plan moves is whole at
/// its destination and gone from its source.
pub proof fn a_finished_apply_has_moved_every_photo(
    plan: PlanView,
    journal_path: Seq<char>,
    t: Seq<FsEvent>,
    report: ReportView,
    states: Seq<Files>,
    from: Seq<char>,
    to: Seq<char>,
)
    requires
        applied(plan, journal_path, t, Ok(report)),
        unfolds(states, t),
        keeps_apart(plan, journal_path),
        is_move(plan, from, to),
        states[0].contains_key(from),
    ensures
        states.last().contains_key(to),
        states.last()[to] == states[0][from],
        !states.last().contains_key(from),
{
    let r: Result<ReportView, ApplyErrorView> = Ok(report);
    apply_is_lawful(plan, journal_path, t, r);
    let (a, b, c) = choose|a: Seq<FsEvent>, b: Seq<FsEvent>, c: Result<(), ApplyErrorView>|
        {
            &&& t == a + b
            &&& #[trigger] preflight_ran(plan, a, c)
            &&& #[trigger] journaled_run(plan, journal_path, b, c, r)
        };
    assert(c is Ok);
    let (x, y, w) = choose|x: Seq<FsEvent>, y: Seq<FsEvent>, w: Result<(), ApplyErrorView>|
        {
            &&& b == x + y
            &&& #[trigger] journal_written(plan, all_pending(plan), journal_path, true, x, w)
            &&& #[trigger] run_after_journal(plan, journal_path, y, w, r)
        };
    assert(w is Ok);
    let after = choose|after: Seq<OpState>| #[trigger]
        executed(plan, all_pending(plan), journal_path, y, after, r);
    let moves = all_moves(plan.ops);
    let g = choose|g: int| 0 <= g < moves.len() && moves[g] == (MoveView { from, to });
    lemma_executed_arrives(plan, all_pending(plan), journal_path, y, after, report, g);
    lemma_arrives_after(x, y, from, to);
    lemma_arrives_after(a, b, from, to);
    lemma_arrived(plan, journal_path, t, states, from, to);
}

/// Whether each look for a file told what was on the disk.
pub open spec fn looks_are_true(states: Seq<Files>, t: Seq<FsEvent>) -> bool {
    forall|j: int|
        0 <= j < t.len() && (#[trigger] t[j]) is FileLen ==> (t[j]->FileLen_reply is Ok)
            == states[j].contains_key(t[j]->FileLen_path)
}

/// A resume that ends well has completed the apply, whatever the journal said of a move: each
/// file that was at its source or had come to its destination is whole at its destination and
/// gone from its source.
pub proof fn a_finished_resume_has_moved_every_photo(
    plan: PlanView,
    statuses: Seq<OpState>,
    journal_path: Seq<char>,
    t: Seq<FsEvent>,
    report: ReportView,
    states: Seq<Files>,
    from: Seq<char>,
    to: Seq<char>,
)
    requires
        rerun(plan, statuses, journal_path, t, Ok(report)),
        unfolds(states, t),
        looks_are_true(states, t),
        keeps_apart(plan, journal_path),
        is_move(plan, from, to),
        states[0].contains_key(from) != states[0].contains_key(to),
    ensures
        states.last().contains_key(to),
        states.last()[to] == states[0][if states[0].contains_key(from) {
            from
        } else {
            to
        }],
        !states.last().contains_key(from),
{
    let r: Result<ReportView, ApplyErrorView> = Ok(report);
    rerun_is_lawful(plan, statuses, journal_path, t, r);
    if states[0].contains_key(to) {
        let photo = states[0][to];
        let end = t.len() as int;
        lemma_stays_arrived(plan, journal_path, t, states, from, to, photo, 0, end);
    } else {
        let moves = all_moves(plan.ops);
        let g = choose|g: int| 0 <= g < moves.len() && moves[g] == (MoveView { from, to });
        let (a, b, mid, after) = choose|
            a: Seq<FsEvent>,
            b: Seq<FsEvent>,
            mid: Seq<OpState>,
            after: Seq<OpState>,
        |
            {
                &&& t == a + b
                &&& #[trigger] reconcile_ran(moves, statuses, a, mid)
                &&& #[trigger] executed(plan, mid, journal_path, b, after, r)
            };
        assert forall|i: int| 0 <= i < a.len() implies #[trigger] t[i] is FileLen by {
            let h = i / 2;
            let m = moves[h];
            assert(i == 2 * h || i == 2 * h + 1);
        }
        let x = 2 * g;
        lemma_measuring_changes_nothing(states, t, x);
        lemma_measuring_changes_nothing(states, t, x + 1);
        assert(t[x] == a[x] && t[x + 1] == a[x + 1]);
        assert(moves[g].from == from);
        assert(mid[g] != OpState::Done);
        lemma_executed_arrives(plan, mid, journal_path, b, after, report, g);
        lemma_arrives_after(a, b, from, to);
        lemma_arrived(plan, journal_path, t, states, from, to);
    }
}

proof fn lemma_measuring_changes_nothing(states: Seq<Files>, t: Seq<FsEvent>, n: int)
    requires
        unfolds(states, t),
        0 <= n <= t.len(),
        forall|i: int| 0 <= i < n ==> (#[trigger] t[i]) is FileLen,
    ensures
        states[n] == states[0],
    decreases n,
{
    if n > 0 {
        lemma_measuring_changes_nothing(states, t, n - 1);
        assert(effect(states[n - 1], t[n - 1], states[n - 1 + 1]));
    }
}

} // verus!
