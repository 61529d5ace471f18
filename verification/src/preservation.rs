//! What a run does to the files, on a disk that does what it answers: every photo stays
//! whole at its source or at its destination, and nothing else is touched.
use vstd::prelude::*;
use crate::apply::{applied, rerun};
use crate::fsops::FsEvent;
use crate::journal::{ApplyErrorView, OpState, ReportView};
use crate::moves::partial_of;
use crate::paths::parent;
use crate::plan::PlanView;
use crate::safety::{
    apply_is_lawful,
    copied_safely,
    is_move,
    lawful,
    lawful_event,
    own_file,
    own_temp,
    rerun_is_lawful,
};

verus! {

/// The files of a disk and what they hold.
pub type Files = Map<Seq<char>, Seq<u8>>;

/// What an operation does, given what it answered. A copy may come out short, and a copy
/// or a write that failed may leave anything at its own target.
pub open spec fn effect(s: Files, e: FsEvent, after: Files) -> bool {
    match e {
        FsEvent::RenameNoreplace { from, to, reply } => if reply is Ok {
            &&& s.contains_key(from)
            &&& !s.contains_key(to)
            &&& after == s.remove(from).insert(to, s[from])
        } else {
            after == s
        },
        FsEvent::CopyCreateNew { from, to, reply } => match reply {
            Ok(n) => {
                &&& s.contains_key(from)
                &&& !s.contains_key(to)
                &&& n <= s[from].len()
                &&& after == s.insert(to, s[from].take(n as int))
            },
            Err(_) => after == s || (!s.contains_key(to) && after.remove(to) == s),
        },
        FsEvent::RemoveFile { path, reply } => if reply is Ok {
            after == s.remove(path)
        } else {
            after == s
        },
        FsEvent::FileLen { path, reply } => {
            &&& after == s
            &&& reply is Ok ==> s.contains_key(path) && s[path].len() == reply->Ok_0
        },
        FsEvent::WriteFile { path, .. } => after.remove(path) == s.remove(path),
        FsEvent::Rename { from, to, reply } => if reply is Ok {
            &&& s.contains_key(from)
            &&& after == s.remove(from).insert(to, s[from])
        } else {
            after == s
        },
        _ => after == s,
    }
}

/// The files before, between and after the events of a history.
pub open spec fn unfolds(states: Seq<Files>, t: Seq<FsEvent>) -> bool {
    &&& states.len() == t.len() + 1
    &&& forall|i: int| 0 <= i < t.len() ==> #[trigger] effect(states[i], t[i], states[i + 1])
}

/// The plan keeps apart what it moves: no source is one of the engine's own files, no
/// destination one of its temporary ones, no destination is a source, and no source goes to
/// two places.
pub open spec fn keeps_apart(plan: PlanView, journal_path: Seq<char>) -> bool {
    &&& forall|from: Seq<char>, to: Seq<char>| #[trigger]
        is_move(plan, from, to) ==> !own_file(plan, journal_path, from) && !own_temp(
            plan,
            journal_path,
            to,
        )
    &&& forall|f: Seq<char>, t: Seq<char>, g: Seq<char>, u: Seq<char>|
        #![trigger is_move(plan, f, t), is_move(plan, g, u)]
        is_move(plan, f, t) && is_move(plan, g, u) ==> f != u && (f == g ==> t == u)
}

/// The photo is whole at its source or at its destination.
pub open spec fn kept(s: Files, from: Seq<char>, to: Seq<char>, photo: Seq<u8>) -> bool {
    ||| s.contains_key(from) && s[from] == photo
    ||| s.contains_key(to) && s[to] == photo
}

/// A file is as it was.
pub open spec fn same_at(a: Files, b: Files, p: Seq<char>) -> bool {
    &&& a.contains_key(p) == b.contains_key(p)
    &&& a.contains_key(p) ==> a[p] == b[p]
}

pub(crate) proof fn lemma_same_but(a: Files, b: Files, x: Seq<char>, p: Seq<char>)
    requires
        a.remove(x) == b.remove(x),
        p != x,
    ensures
        same_at(a, b, p),
{
    assert(a.remove(x).contains_key(p) == a.contains_key(p));
    assert(b.remove(x).contains_key(p) == b.contains_key(p));
    if a.contains_key(p) {
        assert(a.remove(x)[p] == a[p]);
        assert(b.remove(x)[p] == b[p]);
    }
}

/// An event that concerns the engine's own files leaves every file that is there and is not
/// one of the temporary ones.
proof fn lemma_own_event(
    plan: PlanView,
    journal_path: Seq<char>,
    s: Files,
    e: FsEvent,
    after: Files,
    p: Seq<char>,
)
    requires
        effect(s, e, after),
        !own_temp(plan, journal_path, p),
        s.contains_key(p),
        match e {
            FsEvent::RenameNoreplace { from, .. } => own_temp(plan, journal_path, from),
            FsEvent::CopyCreateNew { from, to, .. } => own_temp(plan, journal_path, to),
            FsEvent::RemoveFile { path, .. } => own_temp(plan, journal_path, path),
            FsEvent::WriteFile { path, .. } => own_temp(plan, journal_path, path),
            FsEvent::Rename { from, to, .. } => {
                own_temp(plan, journal_path, from) && own_temp(plan, journal_path, to)
            },
            _ => true,
        },
    ensures
        same_at(s, after, p),
{
    match e {
        FsEvent::WriteFile { path, .. } => {
            lemma_same_but(s, after, path, p);
        },
        FsEvent::CopyCreateNew { from, to, reply } => {
            if reply is Err && after != s {
                assert(s.remove(to) =~= s);
                lemma_same_but(s, after, to, p);
            }
        },
        _ => {},
    }
}

proof fn lemma_effect(states: Seq<Files>, t: Seq<FsEvent>, i: int)
    requires
        unfolds(states, t),
        0 <= i < t.len(),
    ensures
        effect(states[i], t[i], states[i + 1]),
{
}

/// Directly after its safe copy, the photo is whole at its destination.
pub(crate) proof fn lemma_copied(
    states: Seq<Files>,
    t: Seq<FsEvent>,
    i: int,
    from: Seq<char>,
    to: Seq<char>,
    photo: Seq<u8>,
)
    requires
        unfolds(states, t),
        0 <= i < t.len(),
        copied_safely(t, i, from, to),
        partial_of(to) != to,
        partial_of(to) != from,
        kept(
            states[i - 5 - (if parent(to) is Some {
                1int
            } else {
                0
            })],
            from,
            to,
            photo,
        ),
    ensures
        states[i].contains_key(to),
        states[i][to] == photo,
{
    let d: int = if parent(to) is Some {
        1
    } else {
        0
    };
    let partial = partial_of(to);
    let c = i - 5 - d;
    lemma_effect(states, t, c);
    lemma_effect(states, t, c + 1);
    lemma_effect(states, t, c + 2);
    lemma_effect(states, t, c + 3);
    lemma_effect(states, t, c + 4);
    if d == 1 {
        lemma_effect(states, t, c + 5);
    }
    let n = t[c]->CopyCreateNew_reply->Ok_0;
    assert(states[c + 4] == states[c + 1]);
    assert(!states[c + 4].contains_key(to));
    assert(!states[c].contains_key(to));
    assert(states[c][from] == photo);
    assert(states[c + 3].contains_key(from));
    assert(states[c + 3][from] == photo);
    assert(photo.len() == n);
    assert(photo.take(n as int) =~= photo);
    assert(states[c + 1][partial] == photo);
}

pub(crate) proof fn lemma_kept(
    plan: PlanView,
    journal_path: Seq<char>,
    t: Seq<FsEvent>,
    states: Seq<Files>,
    from: Seq<char>,
    to: Seq<char>,
    k: int,
)
    requires
        lawful(plan, journal_path, t),
        unfolds(states, t),
        keeps_apart(plan, journal_path),
        is_move(plan, from, to),
        states[0].contains_key(from),
        0 <= k <= t.len(),
    ensures
        kept(states[k], from, to, states[0][from]),
    decreases k,
{
    let photo = states[0][from];
    if k > 0 {
        let i = k - 1;
        lemma_kept(plan, journal_path, t, states, from, to, i);
        let s = states[i];
        let after = states[k];
        assert(effect(states[i], t[i], states[i + 1]));
        assert(lawful_event(plan, journal_path, t, i));
        let at = if s.contains_key(from) && s[from] == photo {
            from
        } else {
            to
        };
        match t[i] {
            FsEvent::RenameNoreplace { from: a, to: b, reply } => {
                if is_move(plan, a, b) {
                    assert(a != to && from != b);
                } else if a == partial_of(b) && exists|f: Seq<char>| #[trigger]
                    is_move(plan, f, b) {
                    let f = choose|f: Seq<char>| #[trigger] is_move(plan, f, b);
                    assert(own_temp(plan, journal_path, a));
                    lemma_own_event(plan, journal_path, s, t[i], after, at);
                } else {
                    lemma_own_event(plan, journal_path, s, t[i], after, at);
                }
            },
            FsEvent::CopyCreateNew { from: a, to: b, .. } => {
                let d = choose|d: Seq<char>| #[trigger]
                    is_move(plan, a, d) && b == partial_of(d);
                assert(own_temp(plan, journal_path, b));
                lemma_own_event(plan, journal_path, s, t[i], after, at);
            },
            FsEvent::RemoveFile { path, reply } => {
                if own_temp(plan, journal_path, path) {
                    lemma_own_event(plan, journal_path, s, t[i], after, at);
                } else {
                    let d = choose|d: Seq<char>| #[trigger]
                        is_move(plan, path, d) && copied_safely(t, i, path, d);
                    assert(path != to);
                    if path == from {
                        assert(d == to);
                        let w: int = if parent(to) is Some {
                            1
                        } else {
                            0
                        };
                        lemma_kept(plan, journal_path, t, states, from, to, i - 5 - w);
                        assert(own_temp(plan, journal_path, partial_of(to)));
                        lemma_copied(states, t, i, from, to, photo);
                    }
                }
            },
            _ => {
                lemma_own_event(plan, journal_path, s, t[i], after, at);
            },
        }
    }
}

pub(crate) proof fn lemma_untouched(
    plan: PlanView,
    journal_path: Seq<char>,
    t: Seq<FsEvent>,
    states: Seq<Files>,
    p: Seq<char>,
    k: int,
)
    requires
        lawful(plan, journal_path, t),
        unfolds(states, t),
        !own_temp(plan, journal_path, p),
        forall|to: Seq<char>| !#[trigger] is_move(plan, p, to),
        states[0].contains_key(p),
        0 <= k <= t.len(),
    ensures
        states[k].contains_key(p),
        states[k][p] == states[0][p],
    decreases k,
{
    if k > 0 {
        let i = k - 1;
        lemma_untouched(plan, journal_path, t, states, p, i);
        let s = states[i];
        let after = states[k];
        assert(effect(states[i], t[i], states[i + 1]));
        assert(lawful_event(plan, journal_path, t, i));
        match t[i] {
            FsEvent::RenameNoreplace { from: a, to: b, .. } => {
                if a == partial_of(b) && exists|f: Seq<char>| #[trigger] is_move(plan, f, b) {
                    let f = choose|f: Seq<char>| #[trigger] is_move(plan, f, b);
                    assert(own_temp(plan, journal_path, a));
                }
                assert(a != p);
            },
            FsEvent::CopyCreateNew { from: a, to: b, reply } => {
                let d = choose|d: Seq<char>| #[trigger]
                    is_move(plan, a, d) && b == partial_of(d);
                assert(own_temp(plan, journal_path, b));
                if reply is Err && after != s {
                    assert(s.remove(b) =~= s);
                    lemma_same_but(s, after, b, p);
                }
            },
            FsEvent::RemoveFile { path, .. } => {
                assert(path != p);
            },
            FsEvent::WriteFile { path, .. } => {
                lemma_same_but(s, after, path, p);
            },
            _ => {},
        }
    }
}

/// An apply loses no photo: at every moment, and so also if it is cut short there, each
/// file that the plan moves is whole at its source or at its destination.
pub proof fn apply_loses_nothing(
    plan: PlanView,
    journal_path: Seq<char>,
    t: Seq<FsEvent>,
    r: Result<ReportView, ApplyErrorView>,
    states: Seq<Files>,
    from: Seq<char>,
    to: Seq<char>,
    k: int,
)
    requires
        applied(plan, journal_path, t, r),
        unfolds(states, t),
        keeps_apart(plan, journal_path),
        is_move(plan, from, to),
        states[0].contains_key(from),
        0 <= k <= t.len(),
    ensures
        kept(states[k], from, to, states[0][from]),
{
    apply_is_lawful(plan, journal_path, t, r);
    lemma_kept(plan, journal_path, t, states, from, to, k);
}

/// An apply overwrites nothing: at every moment, each file that the plan does not move and
/// that the engine did not make for its own use is there with what it held, also where a
/// file or a sidecar of the plan was to go.
pub proof fn apply_overwrites_nothing(
    plan: PlanView,
    journal_path: Seq<char>,
    t: Seq<FsEvent>,
    r: Result<ReportView, ApplyErrorView>,
    states: Seq<Files>,
    p: Seq<char>,
    k: int,
)
    requires
        applied(plan, journal_path, t, r),
        unfolds(states, t),
        !own_temp(plan, journal_path, p),
        forall|to: Seq<char>| !#[trigger] is_move(plan, p, to),
        states[0].contains_key(p),
        0 <= k <= t.len(),
    ensures
        states[k].contains_key(p),
        states[k][p] == states[0][p],
{
    apply_is_lawful(plan, journal_path, t, r);
    lemma_untouched(plan, journal_path, t, states, p, k);
}

/// A resumed run loses no photo.
pub proof fn resume_loses_nothing(
    plan: PlanView,
    statuses: Seq<OpState>,
    journal_path: Seq<char>,
    t: Seq<FsEvent>,
    r: Result<ReportView, ApplyErrorView>,
    states: Seq<Files>,
    from: Seq<char>,
    to: Seq<char>,
    k: int,
)
    requires
        rerun(plan, statuses, journal_path, t, r),
        unfolds(states, t),
        keeps_apart(plan, journal_path),
        is_move(plan, from, to),
        states[0].contains_key(from),
        0 <= k <= t.len(),
    ensures
        kept(states[k], from, to, states[0][from]),
{
    rerun_is_lawful(plan, statuses, journal_path, t, r);
    lemma_kept(plan, journal_path, t, states, from, to, k);
}

/// A resumed run overwrites nothing. In particular what the interrupted run has already
/// put in its place stays there, photos and sidecars alike.
pub proof fn resume_overwrites_nothing(
    plan: PlanView,
    statuses: Seq<OpState>,
    journal_path: Seq<char>,
    t: Seq<FsEvent>,
    r: Result<ReportView, ApplyErrorView>,
    states: Seq<Files>,
    p: Seq<char>,
    k: int,
)
    requires
        rerun(plan, statuses, journal_path, t, r),
        unfolds(states, t),
        !own_temp(plan, journal_path, p),
        forall|to: Seq<char>| !#[trigger] is_move(plan, p, to),
        states[0].contains_key(p),
        0 <= k <= t.len(),
    ensures
        states[k].contains_key(p),
        states[k][p] == states[0][p],
{
    rerun_is_lawful(plan, statuses, journal_path, t, r);
    lemma_untouched(plan, journal_path, t, states, p, k);
}

} // verus!
