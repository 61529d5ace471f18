//! From the moment an apply is started until its record is moved: every photo of the shoot
//! stays whole, at its source or in the bucket of its decision, and once the apply has ended
//! well it is there.
use vstd::prelude::*;
use crate::apply::{applied, rerun, resumed};
use crate::applyflow::{
    finish_ran, record_at, record_brought, relocate_ran, resume_ended, resume_ran, run_apply_ran,
    run_at_destination, run_ended, run_of_kept, saved_with, Applied,
};
use crate::arrival::a_finished_apply_has_moved_every_photo;
use crate::fsops::FsEvent;
use crate::journal::{ApplyErrorView, OpState, ReportView};
use crate::layout::{
    a_plan_keeps_apart, dropping_stale_shots_keeps_the_layout, ends_in, laid_out,
    lemma_concat_no_slash, lemma_file_name_of, lemma_join, lemma_move_of, lemma_not_temp,
    lemma_numbered_photo, lemma_present_one, lemma_record_name, lies_at, lies_in,
    photo_name, record_name, with_slash,
};
use crate::model::{SessionView, ShotView, SESSION_FILE};
use crate::naming::stem_with;
use crate::paths::{join, last_piece, lemma_last_piece};
use crate::persist::{first_free_ran, numbered, record_tmp, save_ran, PersistErrorView};
use crate::plan::{
    after_a_prefix, bucket_place, lemma_op_at, planned, planned_move, MoveView, PlanView,
};
use crate::preservation::{
    apply_loses_nothing, apply_overwrites_nothing, effect, keeps_apart, kept, lemma_same_but,
    resume_loses_nothing, resume_overwrites_nothing, same_at, unfolds, Files,
};
use crate::preview::{
    all_measured, all_probed, existing_ran, gather_ran, leftovers_ran, partition_ran, present,
    sizes_ran, strung, without_stale,
};
use crate::safety::{is_move, lemma_all_moves_contains};
use crate::startup::{journal_of, unmarked};

verus! {

/// Whether an event only looks at the disk.
pub open spec fn only_looks(e: FsEvent) -> bool {
    !(e is RenameNoreplace || e is CopyCreateNew || e is RemoveFile || e is WriteFile
        || e is Rename)
}

/// Whether an event may change a file.
pub open spec fn touches(e: FsEvent, p: Seq<char>) -> bool {
    match e {
        FsEvent::RenameNoreplace { from, to, .. } => p == from || p == to,
        FsEvent::CopyCreateNew { to, .. } => p == to,
        FsEvent::RemoveFile { path, .. } => p == path,
        FsEvent::WriteFile { path, .. } => p == path,
        FsEvent::Rename { from, to, .. } => p == from || p == to,
        _ => false,
    }
}

proof fn lemma_untouched_by(s: Files, e: FsEvent, after: Files, p: Seq<char>)
    requires
        effect(s, e, after),
        !touches(e, p),
    ensures
        same_at(s, after, p),
{
    match e {
        FsEvent::WriteFile { path, .. } => {
            lemma_same_but(s, after, path, p);
        },
        FsEvent::CopyCreateNew { to, reply, .. } => {
            if reply is Err && after != s {
                assert(after.remove(to).contains_key(p) == after.contains_key(p));
                if after.contains_key(p) {
                    assert(after.remove(to)[p] == after[p]);
                }
            }
        },
        _ => {},
    }
}

proof fn lemma_looking_changes_nothing(states: Seq<Files>, t: Seq<FsEvent>, n: int)
    requires
        unfolds(states, t),
        0 <= n <= t.len(),
        forall|i: int| 0 <= i < n ==> only_looks(#[trigger] t[i]),
    ensures
        states[n] == states[0],
    decreases n,
{
    if n > 0 {
        lemma_looking_changes_nothing(states, t, n - 1);
        assert(effect(states[n - 1], t[n - 1], states[n - 1 + 1]));
    }
}

proof fn lemma_stays_kept(
    states: Seq<Files>,
    t: Seq<FsEvent>,
    x: int,
    m: int,
    from: Seq<char>,
    to: Seq<char>,
    photo: Seq<u8>,
)
    requires
        unfolds(states, t),
        0 <= x <= m <= t.len(),
        kept(states[x], from, to, photo),
        forall|i: int| x <= i < m ==> !touches(#[trigger] t[i], from) && !touches(t[i], to),
    ensures
        kept(states[m], from, to, photo),
    decreases m - x,
{
    if x < m {
        lemma_stays_kept(states, t, x, m - 1, from, to, photo);
        assert(effect(states[m - 1], t[m - 1], states[m - 1 + 1]));
        lemma_untouched_by(states[m - 1], t[m - 1], states[m], from);
        lemma_untouched_by(states[m - 1], t[m - 1], states[m], to);
    }
}

proof fn lemma_strung_looks(parts: Seq<Seq<FsEvent>>)
    requires
        forall|i: int, j: int|
            0 <= i < parts.len() && 0 <= j < parts[i].len() ==> only_looks(#[trigger] parts[i][j]),
    ensures
        forall|i: int| 0 <= i < strung(parts).len() ==> only_looks(#[trigger] strung(parts)[i]),
    decreases parts.len(),
{
    if parts.len() > 0 {
        let front = parts.drop_last();
        assert forall|i: int, j: int|
            0 <= i < front.len() && 0 <= j < front[i].len() implies only_looks(
            #[trigger] front[i][j],
        ) by {
            assert(front[i][j] == parts[i][j]);
        }
        lemma_strung_looks(front);
        let last = parts.last();
        assert forall|i: int| 0 <= i < strung(parts).len() implies only_looks(
            #[trigger] strung(parts)[i],
        ) by {
            if i < strung(front).len() {
                assert(strung(parts)[i] == strung(front)[i]);
            } else {
                let j = i - strung(front).len();
                assert(strung(parts)[i] == last[j]);
                assert(only_looks(parts[parts.len() - 1][j]));
            }
        }
    }
}

proof fn lemma_partition_looks(
    s: SessionView,
    t: Seq<FsEvent>,
    left: SessionView,
    stale: Seq<Seq<char>>,
)
    requires
        partition_ran(s, t, left, stale),
    ensures
        forall|i: int| 0 <= i < t.len() ==> only_looks(#[trigger] t[i]),
{
    let (parts, there) = choose|parts: Seq<Seq<FsEvent>>, there: Seq<bool>|
        {
            &&& #[trigger] all_probed(s.shots, parts, there)
            &&& t == strung(parts)
            &&& left == without_stale(s, there)
            &&& crate::preview::sorted_from(stale, crate::preview::gone(s.shots, there))
        };
    assert forall|i: int, j: int|
        0 <= i < parts.len() && 0 <= j < parts[i].len() implies only_looks(
        #[trigger] parts[i][j],
    ) by {
        assert(crate::preview::probed(s.shots[i].files(), parts[i], there[i]));
        assert(parts[i][j] is IsThere);
    }
    lemma_strung_looks(parts);
}

proof fn lemma_gather_looks(
    s: SessionView,
    dest: Seq<char>,
    buckets: Seq<Seq<char>>,
    t: Seq<FsEvent>,
    existing: Seq<Seq<char>>,
    sizes: Seq<(Seq<char>, u64)>,
    leftovers: int,
)
    requires
        gather_ran(s, dest, buckets, t, existing, sizes, leftovers),
    ensures
        forall|i: int| 0 <= i < t.len() ==> only_looks(#[trigger] t[i]),
{
    let (a, b, c) = choose|a: Seq<FsEvent>, b: Seq<FsEvent>, c: Seq<FsEvent>|
        {
            &&& t == a + b + c
            &&& #[trigger] existing_ran(dest, buckets, a, existing)
            &&& #[trigger] sizes_ran(s.shots, b, sizes)
            &&& #[trigger] leftovers_ran(s.source_dir, s.shots, c, leftovers)
        };
    let parts = choose|parts: Seq<Seq<FsEvent>>|
        b == strung(parts) && #[trigger] all_measured(s.shots, parts, sizes);
    assert forall|i: int, j: int|
        0 <= i < parts.len() && 0 <= j < parts[i].len() implies only_looks(
        #[trigger] parts[i][j],
    ) by {
        assert(crate::preview::measured(s.shots[i].files(), parts[i]));
        assert(parts[i][j] is FileLen);
    }
    lemma_strung_looks(parts);
    assert forall|i: int| 0 <= i < t.len() implies only_looks(#[trigger] t[i]) by {
        if i < a.len() {
            assert(t[i] == a[i]);
            assert(crate::preview::lists_bucket(a[i], dest, buckets[i]));
        } else if i < a.len() + b.len() {
            assert(t[i] == b[i - a.len()]);
        } else {
            assert(t[i] == c[i - a.len() - b.len()]);
        }
    }
}

proof fn lemma_not_a_record(dir: Seq<char>, n: nat, p: Seq<char>)
    requires
        photo_name(last_piece(p)),
    ensures
        p != join(dir, numbered(SESSION_FILE@, n)),
        p != record_tmp(join(dir, numbered(SESSION_FILE@, n))),
{
    let name = numbered(SESSION_FILE@, n);
    lemma_record_name(n);
    lemma_join(dir, name);
    reveal_strlit(".tmp");
    let tmp = name + ".tmp"@;
    assert(!".tmp"@.contains('/'));
    lemma_concat_no_slash(name, ".tmp"@);
    assert(record_tmp(join(dir, name)) =~= with_slash(dir) + tmp);
    lemma_last_piece(with_slash(dir), tmp);
    assert(tmp.skip(tmp.len() - 4) =~= ".tmp"@);
    assert(ends_in(tmp, ".tmp"@));
    assert(record_name(name));
}

proof fn lemma_save_spares(
    s: SessionView,
    dir: Seq<char>,
    n: nat,
    t: Seq<FsEvent>,
    r: Option<Seq<char>>,
    p: Seq<char>,
)
    requires
        saved_with(s, join(dir, numbered(SESSION_FILE@, n)), t, r),
        photo_name(last_piece(p)),
    ensures
        forall|i: int| 0 <= i < t.len() ==> !touches(#[trigger] t[i], p),
{
    let to = join(dir, numbered(SESSION_FILE@, n));
    let w = choose|w: Result<(), PersistErrorView>|
        #[trigger] save_ran(s, to, t, w) && r == crate::applyflow::save_failure(w);
    lemma_not_a_record(dir, n, p);
    assert forall|i: int| 0 <= i < t.len() implies !touches(#[trigger] t[i], p) by {
        assert(i == 0 || i == 1 || i == 2);
    }
}

/// Moving the record touches no photo.
proof fn lemma_finish_spares(
    s: SessionView,
    dest: Seq<char>,
    t: Seq<FsEvent>,
    warning: Option<Seq<char>>,
    p: Seq<char>,
)
    requires
        finish_ran(s, dest, t, warning),
        photo_name(last_piece(p)),
    ensures
        forall|i: int| 0 <= i < t.len() ==> !touches(#[trigger] t[i], p),
{
    let failed = choose|failed: Option<Seq<char>>|
        #[trigger] relocate_ran(s, dest, t, failed) && warning == crate::applyflow::warning_for(
            failed,
        );
    let (a, b, to) = choose|a: Seq<FsEvent>, b: Seq<FsEvent>, to: Option<Seq<char>>|
        {
            &&& t == a + b
            &&& #[trigger] first_free_ran(dest, SESSION_FILE@, a, to)
            &&& #[trigger] record_at(s, to, b, failed)
        };
    assert forall|i: int| 0 <= i < a.len() implies !touches(#[trigger] a[i], p) by {
        if i == a.len() - 1 {
            assert(a[i] == a.last());
        }
    }
    if let Some(d) = to {
        let n = (a.len() - 1) as nat;
        assert(d == join(dest, numbered(SESSION_FILE@, n)));
        assert(record_brought(s, d, b, failed));
        lemma_not_a_record(dest, n, p);
        lemma_not_a_record(s.source_dir, 0, p);
        assert(numbered(SESSION_FILE@, 0) == SESSION_FILE@);
        let rest = b.skip(1);
        assert forall|i: int| 0 <= i < b.len() implies !touches(#[trigger] b[i], p) by {
            if i > 0 {
                assert(b[i] == rest[i - 1]);
                if saved_with(s, d, rest, failed) {
                    lemma_save_spares(s, dest, n, rest, failed, p);
                } else {
                    lemma_save_spares(s, dest, n, rest.drop_last(), failed, p);
                    if i < b.len() - 1 {
                        assert(rest.drop_last()[i - 1] == rest[i - 1]);
                    } else {
                        assert(b[i] == b.last());
                    }
                }
            }
        }
    }
    assert forall|i: int| 0 <= i < t.len() implies !touches(#[trigger] t[i], p) by {
        if i < a.len() {
            assert(t[i] == a[i]);
        } else {
            assert(t[i] == b[i - a.len()]);
        }
    }
}

/// Where the file `f` of the shot at `i` goes when the session is applied and the shot has the
/// number: into the bucket of the decision about the shot.
pub open spec fn goes_to(
    s: SessionView,
    dest: Seq<char>,
    buckets: Seq<Seq<char>>,
    i: int,
    f: int,
    number: Option<u32>,
) -> Seq<char> {
    let bucket = buckets[bucket_place(s.decision_at(i).tier)];
    planned_move(s.shots[i].files()[f], s.shots[i].stem, number, join(dest, bucket)).to
}

/// Whether each file of the shot at `i` that was there stays whole at every moment, at its
/// source or at the place that it has in its bucket with the number.
pub open spec fn stays_whole(
    states: Seq<Files>,
    s: SessionView,
    dest: Seq<char>,
    buckets: Seq<Seq<char>>,
    i: int,
    number: Option<u32>,
) -> bool {
    forall|f: int, m: int|
        #![trigger s.shots[i].files()[f], states[m]]
        0 <= f < s.shots[i].files().len() && states[0].contains_key(s.shots[i].files()[f]) && 0 <= m
            < states.len() ==> kept(
            states[m],
            s.shots[i].files()[f],
            goes_to(s, dest, buckets, i, f, number),
            states[0][s.shots[i].files()[f]],
        )
}

/// Whether each file of the shot at `i` that was there is at last whole at the place that it
/// has in its bucket with the number, and gone from its source.
pub open spec fn has_moved(
    states: Seq<Files>,
    s: SessionView,
    dest: Seq<char>,
    buckets: Seq<Seq<char>>,
    i: int,
    number: Option<u32>,
) -> bool {
    forall|f: int|
        0 <= f < s.shots[i].files().len() && states[0].contains_key(
            #[trigger] s.shots[i].files()[f],
        ) ==> {
            let to = goes_to(s, dest, buckets, i, f, number);
            &&& states.last().contains_key(to)
            &&& states.last()[to] == states[0][s.shots[i].files()[f]]
            &&& !states.last().contains_key(s.shots[i].files()[f])
        }
}

/// The number that the plan for the shots that are left gives to a shot.
spec fn number_in(plan: PlanView, left: SessionView, shot: ShotView) -> Option<u32> {
    if exists|x: int| 0 <= x < left.shots.len() && (#[trigger] left.shots[x]) == shot {
        plan.ops[choose|x: int| 0 <= x < left.shots.len() && (#[trigger] left.shots[x])
            == shot].suffix
    } else {
        None
    }
}

/// The parts of an apply at its destination.
spec fn parts_of_run(
    s: SessionView,
    left: SessionView,
    dest: Seq<char>,
    buckets: Seq<Seq<char>>,
    t: Seq<FsEvent>,
    r: Applied,
    parts: (Seq<FsEvent>, Seq<FsEvent>, Seq<FsEvent>),
    existing: Seq<Seq<char>>,
    sizes: Seq<(Seq<char>, u64)>,
    leftovers: int,
    out: Result<ReportView, ApplyErrorView>,
) -> bool {
    &&& t == parts.0 + parts.1 + parts.2
    &&& gather_ran(left, dest, buckets, parts.0, existing, sizes, leftovers)
    &&& applied(
        planned(left, dest, buckets, existing, sizes),
        journal_of(dest),
        parts.1,
        out,
    )
    &&& run_ended(s, dest, journal_of(dest), parts.2, out, r)
}

/// Whether the shoot can be applied to the destination: it is laid out, and no bucket is its
/// own folder.
pub open spec fn can_be_applied(
    s: SessionView,
    dest: Seq<char>,
    buckets: Seq<Seq<char>>,
) -> bool {
    &&& buckets.len() == 5
    &&& laid_out(s.source_dir, s.shots)
    &&& forall|b: int|
        0 <= b < 5 ==> with_slash(join(dest, #[trigger] buckets[b])) != with_slash(s.source_dir)
}

/// The names of a photo at its source and at its destination are those of a photo.
proof fn lemma_photo_paths(
    s: SessionView,
    dest: Seq<char>,
    buckets: Seq<Seq<char>>,
    i: int,
    f: int,
    number: Option<u32>,
)
    requires
        can_be_applied(s, dest, buckets),
        0 <= i < s.shots.len(),
        0 <= f < s.shots[i].files().len(),
    ensures
        photo_name(last_piece(s.shots[i].files()[f])),
        photo_name(last_piece(goes_to(s, dest, buckets, i, f, number))),
{
    let shot = s.shots[i];
    let file = shot.files()[f];
    assert(lies_in(s.source_dir, shot, file));
    let name = choose|name: Seq<char>| #[trigger] lies_at(s.source_dir, shot, file, name);
    let rest = name.skip(shot.stem.len() as int);
    assert(name =~= shot.stem + rest);
    lemma_join(s.source_dir, name);
    lemma_file_name_of(s.source_dir, name);
    after_a_prefix(shot.stem, rest);
    lemma_numbered_photo(shot.stem, number, rest);
    let b = bucket_place(s.decision_at(i).tier);
    lemma_join(join(dest, buckets[b]), stem_with(shot.stem, number) + rest);
}

proof fn lemma_kept_in_moves(
    s: SessionView,
    there: Seq<bool>,
    dest: Seq<char>,
    buckets: Seq<Seq<char>>,
    existing: Seq<Seq<char>>,
    sizes: Seq<(Seq<char>, u64)>,
    t: Seq<FsEvent>,
    out: Result<ReportView, ApplyErrorView>,
    states: Seq<Files>,
    i: int,
    f: int,
    m: int,
)
    requires
        can_be_applied(s, dest, buckets),
        there.len() == s.shots.len(),
        applied(
            planned(without_stale(s, there), dest, buckets, existing, sizes),
            journal_of(dest),
            t,
            out,
        ),
        unfolds(states, t),
        0 <= i < s.shots.len(),
        0 <= f < s.shots[i].files().len(),
        states[0].contains_key(s.shots[i].files()[f]),
        0 <= m <= t.len(),
    ensures
        kept(
            states[m],
            s.shots[i].files()[f],
            goes_to(
                s,
                dest,
                buckets,
                i,
                f,
                number_in(
                    planned(without_stale(s, there), dest, buckets, existing, sizes),
                    without_stale(s, there),
                    s.shots[i],
                ),
            ),
            states[0][s.shots[i].files()[f]],
        ),
{
    let left = without_stale(s, there);
    let plan = planned(left, dest, buckets, existing, sizes);
    let jp = journal_of(dest);
    let from = s.shots[i].files()[f];
    let number = number_in(plan, left, s.shots[i]);
    let to = goes_to(s, dest, buckets, i, f, number);
    dropping_stale_shots_keeps_the_layout(s.source_dir, s.shots, there);
    a_plan_keeps_apart(left, dest, buckets, existing, sizes);
    if exists|x: int| 0 <= x < left.shots.len() && (#[trigger] left.shots[x]) == s.shots[i] {
        let x = choose|x: int| 0 <= x < left.shots.len() && (#[trigger] left.shots[x])
            == s.shots[i];
        lemma_planned_move(s, left, dest, buckets, existing, sizes, i, x, f);
        apply_loses_nothing(plan, jp, t, out, states, from, to, m);
    } else {
        assert forall|u: Seq<char>| !#[trigger] is_move(plan, from, u) by {
            if is_move(plan, from, u) {
                let (x, k, b, name, new) = lemma_move_of(
                    left,
                    dest,
                    buckets,
                    existing,
                    sizes,
                    from,
                    u,
                );
                let y = lemma_present_one(s.shots, there, x);
                assert(s.shots[y].files()[k] == s.shots[i].files()[f]);
                assert(left.shots[x] == s.shots[i]);
            }
        }
        lemma_photo_paths(s, dest, buckets, i, f, number);
        lemma_not_temp(plan, dest, from);
        apply_overwrites_nothing(plan, jp, t, out, states, from, m);
    }
}

/// No photo is lost from the moment an apply is started until it ends, however it ends: at
/// every moment each file of a shot is whole, at its source or in the bucket of the decision
/// about the shot, where all files of the shot have one number or none.
pub proof fn a_run_loses_no_photo(
    s: SessionView,
    dest: Seq<char>,
    buckets: Seq<Seq<char>>,
    t: Seq<FsEvent>,
    r: Applied,
    states: Seq<Files>,
    i: int,
)
    requires
        run_apply_ran(s, dest, buckets, t, r),
        unfolds(states, t),
        can_be_applied(s, dest, buckets),
        0 <= i < s.shots.len(),
    ensures
        exists|number: Option<u32>| #[trigger] stays_whole(states, s, dest, buckets, i, number),
{
    let (a, b, left, stale) = choose|
        a: Seq<FsEvent>,
        b: Seq<FsEvent>,
        left: SessionView,
        stale: Seq<Seq<char>>,
    |
        {
            &&& t == a + b
            &&& #[trigger] partition_ran(s, a, left, stale)
            &&& #[trigger] run_of_kept(s, left, stale.len(), dest, buckets, b, r)
        };
    lemma_partition_looks(s, a, left, stale);
    let (probes, there) = choose|parts: Seq<Seq<FsEvent>>, there: Seq<bool>|
        {
            &&& #[trigger] all_probed(s.shots, parts, there)
            &&& a == strung(parts)
            &&& left == without_stale(s, there)
            &&& crate::preview::sorted_from(stale, crate::preview::gone(s.shots, there))
        };
    let x = a.len() + 1;
    assert forall|j: int| 0 <= j < t.len() && j < x implies only_looks(#[trigger] t[j]) by {
        if j < a.len() {
            assert(t[j] == a[j]);
        } else {
            assert(t[j] == b[0]);
        }
    }
    if t.len() <= x {
        assert forall|f: int, m: int|
            #![trigger s.shots[i].files()[f], states[m]]
            0 <= f < s.shots[i].files().len() && states[0].contains_key(s.shots[i].files()[f])
                && 0 <= m < states.len() implies kept(
            states[m],
            s.shots[i].files()[f],
            goes_to(s, dest, buckets, i, f, None),
            states[0][s.shots[i].files()[f]],
        ) by {
            lemma_looking_changes_nothing(states, t, m);
        }
        assert(stays_whole(states, s, dest, buckets, i, None));
    } else {
        let rest = b.skip(1);
        assert(rest =~= t.skip(x as int));
        let (parts, existing, sizes, leftovers, out) = lemma_parts(s, left, dest, buckets, rest, r);
        let plan = planned(left, dest, buckets, existing, sizes);
        let number = number_in(plan, left, s.shots[i]);
        assert forall|f: int, m: int|
            #![trigger s.shots[i].files()[f], states[m]]
            0 <= f < s.shots[i].files().len() && states[0].contains_key(s.shots[i].files()[f])
                && 0 <= m < states.len() implies kept(
            states[m],
            s.shots[i].files()[f],
            goes_to(s, dest, buckets, i, f, number),
            states[0][s.shots[i].files()[f]],
        ) by {
            lemma_kept_after(
                s,
                there,
                dest,
                buckets,
                t,
                r,
                states,
                i,
                f,
                m,
                x as int,
                parts,
                existing,
                sizes,
                leftovers,
                out,
            );
        }
        assert(stays_whole(states, s, dest, buckets, i, number));
    }
}

proof fn lemma_parts(
    s: SessionView,
    left: SessionView,
    dest: Seq<char>,
    buckets: Seq<Seq<char>>,
    t: Seq<FsEvent>,
    r: Applied,
) -> (p: (
    (Seq<FsEvent>, Seq<FsEvent>, Seq<FsEvent>),
    Seq<Seq<char>>,
    Seq<(Seq<char>, u64)>,
    int,
    Result<ReportView, ApplyErrorView>,
))
    requires
        run_at_destination(s, left, dest, buckets, t, r),
    ensures
        parts_of_run(s, left, dest, buckets, t, r, p.0, p.1, p.2, p.3, p.4),
{
    let (a, b, c, existing, sizes, leftovers, out) = choose|
        a: Seq<FsEvent>,
        b: Seq<FsEvent>,
        c: Seq<FsEvent>,
        existing: Seq<Seq<char>>,
        sizes: Seq<(Seq<char>, u64)>,
        leftovers: int,
        out: Result<ReportView, ApplyErrorView>,
    |
        {
            &&& t == a + b + c
            &&& #[trigger] gather_ran(left, dest, buckets, a, existing, sizes, leftovers)
            &&& #[trigger] applied(
                planned(left, dest, buckets, existing, sizes),
                journal_of(dest),
                b,
                out,
            )
            &&& #[trigger] run_ended(s, dest, journal_of(dest), c, out, r)
        };
    ((a, b, c), existing, sizes, leftovers, out)
}

proof fn lemma_kept_after(
    s: SessionView,
    there: Seq<bool>,
    dest: Seq<char>,
    buckets: Seq<Seq<char>>,
    t: Seq<FsEvent>,
    r: Applied,
    states: Seq<Files>,
    i: int,
    f: int,
    m: int,
    x: int,
    parts: (Seq<FsEvent>, Seq<FsEvent>, Seq<FsEvent>),
    existing: Seq<Seq<char>>,
    sizes: Seq<(Seq<char>, u64)>,
    leftovers: int,
    out: Result<ReportView, ApplyErrorView>,
)
    requires
        unfolds(states, t),
        can_be_applied(s, dest, buckets),
        there.len() == s.shots.len(),
        0 <= i < s.shots.len(),
        0 <= f < s.shots[i].files().len(),
        states[0].contains_key(s.shots[i].files()[f]),
        0 <= x <= t.len(),
        0 <= m <= t.len(),
        forall|j: int| 0 <= j < x ==> only_looks(#[trigger] t[j]),
        parts_of_run(
            s,
            without_stale(s, there),
            dest,
            buckets,
            t.skip(x),
            r,
            parts,
            existing,
            sizes,
            leftovers,
            out,
        ),
    ensures
        kept(
            states[m],
            s.shots[i].files()[f],
            goes_to(
                s,
                dest,
                buckets,
                i,
                f,
                number_in(
                    planned(without_stale(s, there), dest, buckets, existing, sizes),
                    without_stale(s, there),
                    s.shots[i],
                ),
            ),
            states[0][s.shots[i].files()[f]],
        ),
{
    let from = s.shots[i].files()[f];
    let left = without_stale(s, there);
    let number = number_in(
        planned(left, dest, buckets, existing, sizes),
        left,
        s.shots[i],
    );
    let to = goes_to(s, dest, buckets, i, f, number);
    let rest = t.skip(x);
    let (ga, ap, fin) = parts;
    lemma_gather_looks(left, dest, buckets, ga, existing, sizes, leftovers);
    let p0 = x + ga.len();
    let p1 = p0 + ap.len();
    assert(t.len() == p1 + fin.len()) by {
        assert(rest.len() == t.len() - x);
    }
    assert forall|j: int| 0 <= j < p0 implies only_looks(#[trigger] t[j]) by {
        if j >= x {
            assert(t[j] == rest[j - x]);
            assert(rest[j - x] == ga[j - x]);
        }
    }
    if m <= p0 {
        lemma_looking_changes_nothing(states, t, m);
    } else {
        lemma_looking_changes_nothing(states, t, p0);
        let sub = states.subrange(p0, p1 + 1);
        assert forall|j: int| 0 <= j < ap.len() implies #[trigger] effect(
            sub[j],
            ap[j],
            sub[j + 1],
        ) by {
            let g = p0 + j;
            assert(effect(states[g], t[g], states[g + 1]));
            assert(t[p0 + j] == rest[p0 + j - x]);
            assert(rest[p0 + j - x] == ap[j]);
        }
        assert(unfolds(sub, ap));
        assert(sub[0] == states[0]);
        let at = if m <= p1 {
            m - p0
        } else {
            ap.len() as int
        };
        lemma_kept_in_moves(s, there, dest, buckets, existing, sizes, ap, out, sub, i, f, at);
        assert(sub[at] == states[p0 + at]);
        if m > p1 {
            assert(out is Ok);
            let warning = r->Ok_0.1;
            assert(finish_ran(unmarked(s), dest, fin, warning));
            lemma_photo_paths(s, dest, buckets, i, f, number);
            lemma_finish_spares(unmarked(s), dest, fin, warning, from);
            lemma_finish_spares(unmarked(s), dest, fin, warning, to);
            assert forall|j: int| p1 <= j < m implies !touches(#[trigger] t[j], from) && !touches(
                t[j],
                to,
            ) by {
                assert(t[j] == rest[j - x]);
                assert(rest[j - x] == fin[j - p1]);
            }
            lemma_stays_kept(states, t, p1, m, from, to, states[0][from]);
        }
    }
}

/// Whether no look for one of the files found it gone.
pub open spec fn never_missed(t: Seq<FsEvent>, files: Seq<Seq<char>>) -> bool {
    forall|j: int|
        0 <= j < t.len() ==> !(#[trigger] t[j] matches FsEvent::IsThere { path, reply }
            && files.contains(path) && !reply)
}

proof fn lemma_part_of_strung(parts: Seq<Seq<FsEvent>>, i: int, j: int) -> (k: int)
    requires
        0 <= i < parts.len(),
        0 <= j < parts[i].len(),
    ensures
        0 <= k < strung(parts).len(),
        strung(parts)[k] == parts[i][j],
    decreases parts.len(),
{
    let front = parts.drop_last();
    if i < front.len() {
        assert(front[i] == parts[i]);
        lemma_part_of_strung(front, i, j)
    } else {
        strung(front).len() + j
    }
}

proof fn lemma_present_has(shots: Seq<ShotView>, there: Seq<bool>, i: int) -> (x: int)
    requires
        shots.len() == there.len(),
        0 <= i < shots.len(),
        there[i],
    ensures
        0 <= x < present(shots, there).len(),
        present(shots, there)[x] == shots[i],
    decreases shots.len(),
{
    let front = present(shots.drop_last(), there.drop_last());
    if i < shots.len() - 1 {
        lemma_present_has(shots.drop_last(), there.drop_last(), i)
    } else {
        front.len() as int
    }
}

proof fn lemma_stays_there(
    states: Seq<Files>,
    t: Seq<FsEvent>,
    x: int,
    m: int,
    p: Seq<char>,
)
    requires
        unfolds(states, t),
        0 <= x <= m <= t.len(),
        forall|i: int| x <= i < m ==> !touches(#[trigger] t[i], p),
    ensures
        same_at(states[x], states[m], p),
    decreases m - x,
{
    if x < m {
        lemma_stays_there(states, t, x, m - 1, p);
        assert(effect(states[m - 1], t[m - 1], states[m - 1 + 1]));
        lemma_untouched_by(states[m - 1], t[m - 1], states[m], p);
    }
}

/// A run that ends well has moved every photo that was found: each file of the shot is whole
/// in the bucket of the decision about it, where all files of the shot have one number or
/// none, and gone from its source.
pub proof fn a_finished_run_has_moved_every_photo(
    s: SessionView,
    dest: Seq<char>,
    buckets: Seq<Seq<char>>,
    t: Seq<FsEvent>,
    r: Applied,
    states: Seq<Files>,
    i: int,
)
    requires
        run_apply_ran(s, dest, buckets, t, r),
        r is Ok,
        unfolds(states, t),
        can_be_applied(s, dest, buckets),
        0 <= i < s.shots.len(),
        never_missed(t, s.shots[i].files()),
    ensures
        exists|number: Option<u32>| #[trigger] has_moved(states, s, dest, buckets, i, number),
{
    let (a, b, left, stale) = choose|
        a: Seq<FsEvent>,
        b: Seq<FsEvent>,
        left: SessionView,
        stale: Seq<Seq<char>>,
    |
        {
            &&& t == a + b
            &&& #[trigger] partition_ran(s, a, left, stale)
            &&& #[trigger] run_of_kept(s, left, stale.len(), dest, buckets, b, r)
        };
    lemma_partition_looks(s, a, left, stale);
    let (parts, there) = choose|parts: Seq<Seq<FsEvent>>, there: Seq<bool>|
        {
            &&& #[trigger] all_probed(s.shots, parts, there)
            &&& a == strung(parts)
            &&& left == without_stale(s, there)
            &&& crate::preview::sorted_from(stale, crate::preview::gone(s.shots, there))
        };
    let files = s.shots[i].files();
    assert(crate::preview::probed(files, parts[i], there[i]));
    if !there[i] {
        let j = parts[i].len() - 1;
        let k = lemma_part_of_strung(parts, i, j);
        assert(t[k] == a[k]);
        assert(files.contains(files[j]));
        assert(t[k] == (FsEvent::IsThere { path: files[j], reply: false }));
    }
    let x = a.len() + 1;
    assert forall|j: int| 0 <= j < x implies only_looks(#[trigger] t[j]) by {
        if j < a.len() {
            assert(t[j] == a[j]);
        } else {
            assert(t[j] == b[0]);
        }
    }
    assert(b.skip(1) =~= t.skip(x as int));
    let (run, existing, sizes, leftovers, out) = lemma_parts(
        s,
        left,
        dest,
        buckets,
        b.skip(1),
        r,
    );
    let number = number_in(planned(left, dest, buckets, existing, sizes), left, s.shots[i]);
    assert forall|f: int|
        0 <= f < s.shots[i].files().len() && states[0].contains_key(
            #[trigger] s.shots[i].files()[f],
        ) implies {
        let to = goes_to(s, dest, buckets, i, f, number);
        &&& states.last().contains_key(to)
        &&& states.last()[to] == states[0][s.shots[i].files()[f]]
        &&& !states.last().contains_key(s.shots[i].files()[f])
    } by {
        lemma_moved_after(
            s,
            there,
            dest,
            buckets,
            t,
            r,
            states,
            i,
            f,
            x as int,
            run,
            existing,
            sizes,
            leftovers,
            out,
        );
    }
    assert(has_moved(states, s, dest, buckets, i, number));
}

proof fn lemma_moved_after(
    s: SessionView,
    there: Seq<bool>,
    dest: Seq<char>,
    buckets: Seq<Seq<char>>,
    t: Seq<FsEvent>,
    r: Applied,
    states: Seq<Files>,
    i: int,
    f: int,
    x: int,
    parts: (Seq<FsEvent>, Seq<FsEvent>, Seq<FsEvent>),
    existing: Seq<Seq<char>>,
    sizes: Seq<(Seq<char>, u64)>,
    leftovers: int,
    out: Result<ReportView, ApplyErrorView>,
)
    requires
        unfolds(states, t),
        can_be_applied(s, dest, buckets),
        there.len() == s.shots.len(),
        0 <= i < s.shots.len(),
        there[i],
        0 <= f < s.shots[i].files().len(),
        states[0].contains_key(s.shots[i].files()[f]),
        0 <= x <= t.len(),
        forall|j: int| 0 <= j < x ==> only_looks(#[trigger] t[j]),
        r is Ok,
        parts_of_run(
            s,
            without_stale(s, there),
            dest,
            buckets,
            t.skip(x),
            r,
            parts,
            existing,
            sizes,
            leftovers,
            out,
        ),
    ensures
        ({
            let left = without_stale(s, there);
            let plan = planned(left, dest, buckets, existing, sizes);
            let to = goes_to(s, dest, buckets, i, f, number_in(plan, left, s.shots[i]));
            &&& states.last().contains_key(to)
            &&& states.last()[to] == states[0][s.shots[i].files()[f]]
            &&& !states.last().contains_key(s.shots[i].files()[f])
        }),
{
    let from = s.shots[i].files()[f];
    let left = without_stale(s, there);
    let number = number_in(
        planned(left, dest, buckets, existing, sizes),
        left,
        s.shots[i],
    );
    let to = goes_to(s, dest, buckets, i, f, number);
    let rest = t.skip(x);
    let (ga, ap, fin) = parts;
    lemma_gather_looks(left, dest, buckets, ga, existing, sizes, leftovers);
    let p0 = x + ga.len();
    let p1 = p0 + ap.len();
    assert(t.len() == p1 + fin.len()) by {
        assert(rest.len() == t.len() - x);
    }
    assert forall|j: int| 0 <= j < p0 implies only_looks(#[trigger] t[j]) by {
        if j >= x {
            assert(t[j] == rest[j - x]);
            assert(rest[j - x] == ga[j - x]);
        }
    }
    lemma_looking_changes_nothing(states, t, p0);
    let sub = states.subrange(p0, p1 + 1);
    assert forall|j: int| 0 <= j < ap.len() implies #[trigger] effect(
        sub[j],
        ap[j],
        sub[j + 1],
    ) by {
        let g = p0 + j;
        assert(effect(states[g], t[g], states[g + 1]));
        assert(t[p0 + j] == rest[p0 + j - x]);
        assert(rest[p0 + j - x] == ap[j]);
    }
    assert(unfolds(sub, ap));
    assert(sub[0] == states[0]);
    let plan = planned(left, dest, buckets, existing, sizes);
    dropping_stale_shots_keeps_the_layout(s.source_dir, s.shots, there);
    a_plan_keeps_apart(left, dest, buckets, existing, sizes);
    let z = lemma_present_has(s.shots, there, i);
    assert(left.shots[z] == s.shots[i]);
    let y = choose|y: int| 0 <= y < left.shots.len() && (#[trigger] left.shots[y])
        == s.shots[i];
    lemma_planned_move(s, left, dest, buckets, existing, sizes, i, y, f);
    a_finished_apply_has_moved_every_photo(
        plan,
        journal_of(dest),
        ap,
        out->Ok_0,
        sub,
        from,
        to,
    );
    assert(sub.last() == states[p1]);
    let warning = r->Ok_0.1;
    assert(finish_ran(unmarked(s), dest, fin, warning));
    lemma_photo_paths(s, dest, buckets, i, f, number);
    lemma_finish_spares(unmarked(s), dest, fin, warning, from);
    lemma_finish_spares(unmarked(s), dest, fin, warning, to);
    let m = t.len() as int;
    assert forall|j: int| p1 <= j < m implies !touches(#[trigger] t[j], from) && !touches(
        t[j],
        to,
    ) by {
        assert(t[j] == rest[j - x]);
        assert(rest[j - x] == fin[j - p1]);
    }
    lemma_stays_there(states, t, p1, m, from);
    lemma_stays_there(states, t, p1, m, to);
}

/// The plan for the shots that are left moves their files where a plan for all shots does.
proof fn lemma_planned_move(
    s: SessionView,
    left: SessionView,
    dest: Seq<char>,
    buckets: Seq<Seq<char>>,
    existing: Seq<Seq<char>>,
    sizes: Seq<(Seq<char>, u64)>,
    i: int,
    x: int,
    f: int,
)
    requires
        left == (SessionView { shots: left.shots, ..s }),
        0 <= i < s.shots.len(),
        0 <= x < left.shots.len(),
        left.shots[x] == s.shots[i],
        0 <= f < s.shots[i].files().len(),
    ensures
        is_move(
            planned(left, dest, buckets, existing, sizes),
            s.shots[i].files()[f],
            goes_to(
                s,
                dest,
                buckets,
                i,
                f,
                planned(left, dest, buckets, existing, sizes).ops[x].suffix,
            ),
        ),
{
    let plan = planned(left, dest, buckets, existing, sizes);
    let from = s.shots[i].files()[f];
    let to = goes_to(s, dest, buckets, i, f, plan.ops[x].suffix);
    lemma_op_at(left, dest, buckets, existing, sizes, x);
    assert(left.decision_at(x) == s.decision_at(i));
    let mv = plan.ops[x].moves[f];
    assert(mv.from == from && mv.to == to);
    lemma_all_moves_contains(plan.ops, x, f);
    assert(mv == MoveView { from, to });
}

proof fn lemma_kept_in_rerun(
    plan: PlanView,
    statuses: Seq<OpState>,
    journal: Seq<char>,
    t: Seq<FsEvent>,
    out: Result<ReportView, ApplyErrorView>,
    states: Seq<Files>,
    from: Seq<char>,
    to: Seq<char>,
    photo: Seq<u8>,
    m: int,
)
    requires
        rerun(plan, statuses, journal, t, out),
        unfolds(states, t),
        keeps_apart(plan, journal),
        is_move(plan, from, to),
        kept(states[0], from, to, photo),
        0 <= m <= t.len(),
    ensures
        kept(states[m], from, to, photo),
{
    if states[0].contains_key(from) && states[0][from] == photo {
        resume_loses_nothing(plan, statuses, journal, t, out, states, from, to, m);
    } else {
        assert forall|u: Seq<char>| !#[trigger] is_move(plan, to, u) by {
            if is_move(plan, to, u) {
                assert(is_move(plan, from, to));
            }
        }
        resume_overwrites_nothing(plan, statuses, journal, t, out, states, to, m);
    }
}

/// No photo is lost while an apply is resumed from its journal: one that is whole at its
/// source or at its destination stays so at every moment, whichever of the two it is.
pub proof fn a_resumed_run_loses_no_photo(
    journal: Seq<char>,
    dest: Seq<char>,
    s: SessionView,
    relocate: bool,
    t: Seq<FsEvent>,
    r: Applied,
    states: Seq<Files>,
    bytes: Seq<u8>,
    plan: PlanView,
    statuses: Seq<OpState>,
    from: Seq<char>,
    to: Seq<char>,
    photo: Seq<u8>,
    m: int,
)
    requires
        resume_ran(journal, dest, s, relocate, t, r),
        unfolds(states, t),
        t.len() >= 2,
        t[1] == (FsEvent::DecodeJournal { bytes, reply: Ok((plan, statuses)) }),
        keeps_apart(plan, journal),
        is_move(plan, from, to),
        photo_name(last_piece(from)),
        photo_name(last_piece(to)),
        kept(states[0], from, to, photo),
        0 <= m <= t.len(),
    ensures
        kept(states[m], from, to, photo),
{
    let (a, b, out) = choose|a: Seq<FsEvent>, b: Seq<FsEvent>, out: Result<ReportView, ApplyErrorView>|
        {
            &&& t == a + b
            &&& #[trigger] resumed(journal, a, out)
            &&& #[trigger] resume_ended(journal, dest, s, relocate, b, out, r)
        };
    assert(t[0] == a[0]);
    if a.len() < 2 {
        assert(out is Err);
        assert(b.len() == 0);
    }
    assert(t[1] == a[1]);
    let again = a.skip(2);
    assert(rerun(plan, statuses, journal, again, out));
    if m <= 2 {
        lemma_looking_changes_nothing(states, t, m);
    } else {
        lemma_looking_changes_nothing(states, t, 2);
        let end = a.len() as int;
        let sub = states.subrange(2, end + 1);
        assert forall|j: int| 0 <= j < again.len() implies #[trigger] effect(
            sub[j],
            again[j],
            sub[j + 1],
        ) by {
            let g = j + 2;
            assert(effect(states[g], t[g], states[g + 1]));
            assert(t[g] == a[g]);
        }
        assert(unfolds(sub, again));
        let at = if m <= end {
            m - 2
        } else {
            again.len() as int
        };
        lemma_kept_in_rerun(plan, statuses, journal, again, out, sub, from, to, photo, at);
        assert(sub[at] == states[at + 2]);
        if m > end {
            let warning = r->Ok_0.1;
            assert(finish_ran(unmarked(s), dest, b, warning));
            lemma_finish_spares(unmarked(s), dest, b, warning, from);
            lemma_finish_spares(unmarked(s), dest, b, warning, to);
            assert forall|j: int| end <= j < m implies !touches(#[trigger] t[j], from) && !touches(
                t[j],
                to,
            ) by {
                assert(t[j] == b[j - end]);
            }
            lemma_stays_kept(states, t, end, m, from, to, photo);
        }
    }
}

} // verus!
