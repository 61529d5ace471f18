//! How the files of a shoot lie: in one folder, each under a name that starts with the stem
//! of its shot. Of such a shoot every plan keeps apart what it moves.
use vstd::prelude::*;
use crate::apply::all_moves;
use crate::fsops::FsEvent;
use crate::grouping::{
    jpeg_ext, kind_of, owner, raw_ext, rightly_filled, sidecar_owner, stem_or_empty, stems_ascend,
    FileKind, GroupView,
};
use crate::model::{
    SessionView, ShotView, JOURNAL_FILE, JPEG_EXTS, RAW_EXTS, SESSION_FILE,
};
use crate::moves::partial_of;
use crate::naming::{
    below_bucket, clashes, name_taken, name_with, no_planned_place_is_taken, stem_with,
};
use crate::paths::{
    above, extension, file_name, front_piece, here, join, last_dot, last_piece, lemma_last_piece,
    parent, settled, with_file_name,
};
use crate::persist::numbered;
use crate::plan::{
    a_file_keeps_its_name, after_a_prefix, bucket_place, lemma_op_at, lemma_op_count, planned,
    MoveView, OpView, PlanView,
};
use crate::preservation::keeps_apart;
use crate::preview::present;
use crate::records::{journal_tmp, sidecar_tmp};
use crate::safety::{is_move, is_sidecar, own_file, own_temp};
use crate::scan::{
    gathered, names_scanned, shots_from, shown_groups, sorting_orders_the_same_shots, Scanned,
};
use crate::startup::journal_of;
use crate::text::{ascii_lowered, decimal};

verus! {

/// The text of a folder with a separator at its end.
pub open spec fn with_slash(dir: Seq<char>) -> Seq<char> {
    if dir.len() == 0 || dir.last() == '/' {
        dir
    } else {
        dir.push('/')
    }
}

/// Whether a name ends in an ending.
pub open spec fn ends_in(name: Seq<char>, ending: Seq<char>) -> bool {
    name.len() >= ending.len() && name.skip(name.len() - ending.len()) == ending
}

/// Whether a name is one that the record of a session may have.
pub open spec fn record_name(name: Seq<char>) -> bool {
    exists|n: nat| name == #[trigger] numbered(SESSION_FILE@, n)
}

/// Whether a name is that of a file in a folder, and none that the engine gives to its own
/// files or that a record of a session has.
pub open spec fn photo_name(name: Seq<char>) -> bool {
    &&& name.len() > 0
    &&& name != here()
    &&& name != above()
    &&& !name.contains('/')
    &&& !ends_in(name, ".json"@)
    &&& !ends_in(name, ".tmp"@)
    &&& !ends_in(name, ".partial"@)
    &&& !record_name(name)
}

/// Whether a file of a shot lies in the folder under the name.
pub open spec fn lies_at(
    dir: Seq<char>,
    shot: ShotView,
    file: Seq<char>,
    name: Seq<char>,
) -> bool {
    &&& photo_name(name)
    &&& shot.stem.is_prefix_of(name)
    &&& file == join(dir, name)
}

/// Whether a file of a shot lies in the folder under a name that starts with the stem.
pub open spec fn lies_in(dir: Seq<char>, shot: ShotView, file: Seq<char>) -> bool {
    exists|name: Seq<char>| #[trigger] lies_at(dir, shot, file, name)
}

/// Whether the files of all shots lie in the folder, and none belongs to two places.
pub open spec fn laid_out(dir: Seq<char>, shots: Seq<ShotView>) -> bool {
    &&& forall|i: int, k: int|
        0 <= i < shots.len() && 0 <= k < shots[i].files().len() ==> lies_in(
            dir,
            shots[i],
            #[trigger] shots[i].files()[k],
        )
    &&& forall|i: int, k: int, j: int, l: int|
        #![trigger shots[i].files()[k], shots[j].files()[l]]
        0 <= i < shots.len() && 0 <= k < shots[i].files().len() && 0 <= j < shots.len() && 0 <= l
            < shots[j].files().len() && shots[i].files()[k] == shots[j].files()[l] ==> i == j
            && k == l
}

pub(crate) proof fn lemma_join(dir: Seq<char>, name: Seq<char>)
    requires
        name.len() > 0,
        !name.contains('/'),
    ensures
        join(dir, name) == with_slash(dir) + name,
        last_piece(join(dir, name)) == name,
        front_piece(join(dir, name)) == with_slash(dir),
{
    assert(name.contains(name[0]));
    assert(join(dir, name) =~= with_slash(dir) + name);
    lemma_last_piece(with_slash(dir), name);
}

proof fn lemma_piece_has_no_slash(p: Seq<char>)
    ensures
        !last_piece(p).contains('/'),
    decreases p.len(),
{
    if p.len() > 0 && p.last() != '/' {
        lemma_piece_has_no_slash(p.drop_last());
        let front = last_piece(p.drop_last());
        let all = front.push(p.last());
        if all.contains('/') {
            let i = choose|i: int| 0 <= i < all.len() && all[i] == '/';
            if i < front.len() {
                assert(front[i] == '/');
            }
        }
    }
}

proof fn lemma_file_name_has_no_slash(p: Seq<char>)
    ensures
        file_name(p) is Some ==> !file_name(p)->0.contains('/') && file_name(p)->0.len() > 0,
{
    lemma_piece_has_no_slash(settled(p));
}

pub(crate) proof fn lemma_concat_no_slash(a: Seq<char>, b: Seq<char>)
    requires
        !a.contains('/'),
        !b.contains('/'),
    ensures
        !(a + b).contains('/'),
{
    if (a + b).contains('/') {
        let i = choose|i: int| 0 <= i < (a + b).len() && (a + b)[i] == '/';
        if i < a.len() {
            assert(a[i] == '/');
        } else {
            assert(b[i - a.len()] == '/');
        }
    }
}

proof fn lemma_sibling(p: Seq<char>, name: Seq<char>)
    requires
        name.len() > 0,
        !name.contains('/'),
    ensures
        last_piece(with_file_name(p, name)) == name,
{
    if file_name(p) is Some && parent(p) is Some {
        lemma_join(parent(p)->0, name);
    } else {
        lemma_join(p, name);
    }
}

proof fn lemma_all_moves(ops: Seq<OpView>, m: MoveView)
    requires
        all_moves(ops).contains(m),
    ensures
        exists|i: int, k: int|
            0 <= i < ops.len() && 0 <= k < ops[i].moves.len() && #[trigger] ops[i].moves[k] == m,
    decreases ops.len(),
{
    if ops.len() > 0 {
        let front = all_moves(ops.drop_last());
        let last = ops.last().moves;
        let x = choose|x: int| 0 <= x < all_moves(ops).len() && all_moves(ops)[x] == m;
        if x < front.len() {
            assert(front[x] == m);
            lemma_all_moves(ops.drop_last(), m);
            let (i, k) = choose|i: int, k: int|
                0 <= i < ops.drop_last().len() && 0 <= k < ops.drop_last()[i].moves.len()
                    && #[trigger] ops.drop_last()[i].moves[k] == m;
            assert(ops[i].moves[k] == m);
        } else {
            assert(last[x - front.len()] == m);
            assert(ops[ops.len() - 1].moves[x - front.len()] == m);
        }
    }
}

proof fn lemma_partial_name(to: Seq<char>)
    ensures
        ends_in(last_piece(partial_of(to)), ".partial"@),
{
    reveal_strlit(".");
    reveal_strlit(".partial");
    let name = match file_name(to) {
        Some(n) => n,
        None => Seq::empty(),
    };
    lemma_file_name_has_no_slash(to);
    let full = "."@ + name + ".partial"@;
    lemma_concat_no_slash("."@, name);
    lemma_concat_no_slash("."@ + name, ".partial"@);
    lemma_sibling(to, full);
    assert(full.skip(full.len() - 8) =~= ".partial"@);
}

proof fn lemma_journal_names(dest: Seq<char>)
    ensures
        ends_in(last_piece(journal_of(dest)), ".json"@),
        ends_in(last_piece(journal_tmp(journal_of(dest))), ".tmp"@),
{
    reveal_strlit(".json");
    reveal_strlit(".tmp");
    reveal_strlit("journal");
    let j = JOURNAL_FILE@;
    reveal_strlit(".fastcull-apply.json");
    assert(!j.contains('/'));
    lemma_join(dest, j);
    assert(j.skip(j.len() - 5) =~= ".json"@);
    let p = journal_of(dest);
    let name = match file_name(p) {
        Some(n) => n,
        None => "journal"@,
    };
    lemma_file_name_has_no_slash(p);
    let full = name + ".tmp"@;
    lemma_concat_no_slash(name, ".tmp"@);
    lemma_sibling(p, full);
    assert(full.skip(full.len() - 4) =~= ".tmp"@);
}

proof fn lemma_sidecar_tmp_name(path: Seq<char>, pid: u32)
    requires
        file_name(path) is Some,
    ensures
        ends_in(last_piece(sidecar_tmp(path, file_name(path)->0, pid)), ".tmp"@),
{
    reveal_strlit(".");
    reveal_strlit(".tmp");
    let name = file_name(path)->0;
    let digits = decimal(pid as nat);
    lemma_file_name_has_no_slash(path);
    lemma_digits(pid as nat);
    if digits.contains('/') {
        let i = choose|i: int| 0 <= i < digits.len() && digits[i] == '/';
    }
    let full = "."@ + name + "."@ + digits + ".tmp"@;
    lemma_concat_no_slash("."@, name);
    lemma_concat_no_slash("."@ + name, "."@);
    lemma_concat_no_slash("."@ + name + "."@, digits);
    lemma_concat_no_slash("."@ + name + "."@ + digits, ".tmp"@);
    let dir = match parent(path) {
        Some(d) => d,
        None => "."@,
    };
    lemma_join(dir, full);
    assert(full.skip(full.len() - 4) =~= ".tmp"@);
}

/// A photo is none of the temporary files of the engine.
pub(crate) proof fn lemma_not_temp(plan: PlanView, dest: Seq<char>, p: Seq<char>)
    requires
        photo_name(last_piece(p)),
    ensures
        !own_temp(plan, journal_of(dest), p),
{
    lemma_journal_names(dest);
    assert forall|from: Seq<char>, to: Seq<char>| #[trigger]
        is_move(plan, from, to) implies p != partial_of(to) by {
        lemma_partial_name(to);
    }
    assert forall|path: Seq<char>, pid: u32|
        is_sidecar(plan, path) && file_name(path) is Some implies p != #[trigger] sidecar_tmp(
        path,
        file_name(path)->0,
        pid,
    ) by {
        lemma_sidecar_tmp_name(path, pid);
    }
}

/// The plan for a shoot that is laid out keeps apart what it moves, unless a bucket of the
/// destination is the folder of the shoot itself. So nothing is lost or overwritten when it
/// is applied.
pub proof fn a_plan_keeps_apart(
    s: SessionView,
    dest: Seq<char>,
    buckets: Seq<Seq<char>>,
    existing: Seq<Seq<char>>,
    sizes: Seq<(Seq<char>, u64)>,
)
    requires
        buckets.len() == 5,
        laid_out(s.source_dir, s.shots),
        forall|b: int|
            0 <= b < 5 ==> with_slash(join(dest, #[trigger] buckets[b])) != with_slash(
                s.source_dir,
            ),
    ensures
        keeps_apart(planned(s, dest, buckets, existing, sizes), journal_of(dest)),
{
    let plan = planned(s, dest, buckets, existing, sizes);
    let jp = journal_of(dest);
    assert forall|from: Seq<char>, to: Seq<char>| #[trigger] is_move(plan, from, to) implies !own_file(
        plan,
        jp,
        from,
    ) && !own_temp(plan, jp, to) by {
        let (i, k, b, name, new) = lemma_move_of(s, dest, buckets, existing, sizes, from, to);
        lemma_join(s.source_dir, name);
        lemma_join(join(dest, buckets[b]), new);
        lemma_not_temp(plan, dest, from);
        lemma_not_temp(plan, dest, to);
        assert forall|x: int|
            0 <= x < plan.ops.len() && (#[trigger] plan.ops[x]).write_sidecar
                is Some implies plan.ops[x].write_sidecar->0.path != from by {
            lemma_sidecar_below(s, dest, buckets, existing, sizes, x);
        }
    }
    assert forall|f: Seq<char>, t: Seq<char>, g: Seq<char>, u: Seq<char>|
        #![trigger is_move(plan, f, t), is_move(plan, g, u)]
        is_move(plan, f, t) && is_move(plan, g, u) implies f != u && (f == g ==> t == u) by {
        let (i, k, b, name, new) = lemma_move_of(s, dest, buckets, existing, sizes, f, t);
        let (j, l, c, other, goal) = lemma_move_of(s, dest, buckets, existing, sizes, g, u);
        lemma_join(s.source_dir, name);
        lemma_join(join(dest, buckets[c]), goal);
        if f == u {
            assert(front_piece(f) == front_piece(u));
        }
        if f == g {
            assert(s.shots[i].files()[k] == s.shots[j].files()[l]);
        }
    }
}

pub(crate) proof fn lemma_move_of(
    s: SessionView,
    dest: Seq<char>,
    buckets: Seq<Seq<char>>,
    existing: Seq<Seq<char>>,
    sizes: Seq<(Seq<char>, u64)>,
    from: Seq<char>,
    to: Seq<char>,
) -> (r: (int, int, int, Seq<char>, Seq<char>))
    requires
        buckets.len() == 5,
        laid_out(s.source_dir, s.shots),
        is_move(planned(s, dest, buckets, existing, sizes), from, to),
    ensures
        0 <= r.0 < s.shots.len(),
        0 <= r.1 < s.shots[r.0].files().len(),
        0 <= r.2 < 5,
        photo_name(r.3),
        photo_name(r.4),
        from == s.shots[r.0].files()[r.1],
        from == join(s.source_dir, r.3),
        to == join(join(dest, buckets[r.2]), r.4),
        to == planned(s, dest, buckets, existing, sizes).ops[r.0].moves[r.1].to,
{
    let plan = planned(s, dest, buckets, existing, sizes);
    let m = MoveView { from, to };
    lemma_all_moves(plan.ops, m);
    let (i, k) = choose|i: int, k: int|
        0 <= i < plan.ops.len() && 0 <= k < plan.ops[i].moves.len() && #[trigger] plan.ops[i].moves[k]
            == m;
    lemma_op_count(s, dest, buckets, existing, sizes);
    lemma_op_at(s, dest, buckets, existing, sizes, i);
    let shot = s.shots[i];
    let file = shot.files()[k];
    assert(lies_in(s.source_dir, shot, file));
    let name = choose|name: Seq<char>| #[trigger] lies_at(s.source_dir, shot, file, name);
    let rest = name.skip(shot.stem.len() as int);
    assert(name =~= shot.stem + rest);
    lemma_join(s.source_dir, name);
    lemma_file_name_of(s.source_dir, name);
    a_file_keeps_its_name(s, dest, buckets, existing, sizes, i, k, rest);
    lemma_op_at(s, dest, buckets, existing, sizes, i);
    lemma_numbered_photo(shot.stem, plan.ops[i].suffix, rest);
    (
        i,
        k,
        bucket_place(s.decision_at(i).tier),
        name,
        stem_with(shot.stem, plan.ops[i].suffix) + rest,
    )
}

/// A photo that gets a number has the name of a photo.
pub(crate) proof fn lemma_numbered_photo(
    stem: Seq<char>,
    number: Option<u32>,
    rest: Seq<char>,
)
    requires
        photo_name(stem + rest),
    ensures
        photo_name(stem_with(stem, number) + rest),
{
    if let Some(n) = number {
        reveal_strlit("-");
        let digits = decimal(n as nat);
        let old = stem + rest;
        let new = stem_with(stem, number) + rest;
        lemma_digits(n as nat);
        assert(new[stem.len() as int] == '-');
        assert(new.contains('-'));
        assert(!here().contains('-'));
        assert(!above().contains('-'));
        if new.contains('/') {
            let i = choose|i: int| 0 <= i < new.len() && new[i] == '/';
            if i < stem.len() {
                assert(old[i] == '/');
            } else if i < stem.len() + 1 + digits.len() {
                if i > stem.len() {
                    assert(new[i] == digits[i - stem.len() - 1]);
                }
            } else {
                assert(old[i - 1 - digits.len()] == '/');
            }
        }
        lemma_numbered_ending(stem, n, rest, ".json"@);
        lemma_numbered_ending(stem, n, rest, ".tmp"@);
        lemma_numbered_ending(stem, n, rest, ".partial"@);
        if record_name(new) {
            let m = choose|m: nat| new == #[trigger] numbered(SESSION_FILE@, m);
            lemma_record_has_no_dash(m);
        }
    }
}

/// A number in front of what follows the stem makes no ending of the engine's own files.
proof fn lemma_numbered_ending(stem: Seq<char>, n: u32, rest: Seq<char>, ending: Seq<char>)
    requires
        ending == ".json"@ || ending == ".tmp"@ || ending == ".partial"@,
        !ends_in(stem + rest, ending),
    ensures
        !ends_in(stem_with(stem, Some(n)) + rest, ending),
{
    reveal_strlit(".json");
    reveal_strlit(".tmp");
    reveal_strlit(".partial");
    reveal_strlit("-");
    let old = stem + rest;
    let front = stem_with(stem, Some(n));
    let new = front + rest;
    lemma_digits(n as nat);
    let digits = decimal(n as nat);
    assert(front.last() == digits.last());
    assert(48 <= digits[digits.len() - 1] as int <= 57);
    if ends_in(new, ending) {
        let tail = new.skip(new.len() - ending.len());
        if rest.len() >= ending.len() {
            assert(old.skip(old.len() - ending.len()) =~= tail);
        } else {
            let at = ending.len() - rest.len() - 1;
            assert(tail[at] == front.last());
            assert(ending[at] == front.last());
        }
    }
}

proof fn lemma_record_has_no_dash(n: nat)
    ensures
        !numbered(SESSION_FILE@, n).contains('-'),
{
    reveal_strlit(".fastcull.json");
    reveal_strlit(".");
    let base = SESSION_FILE@;
    let name = numbered(base, n);
    lemma_digits(n);
    let tail = decimal(n);
    if name.contains('-') {
        let i = choose|i: int| 0 <= i < name.len() && name[i] == '-';
        if i < base.len() {
            assert(base[i] == '-');
        } else if i > base.len() {
            assert(name[i] == tail[i - base.len() - 1]);
        }
    }
}

/// A sidecar that is planned lies in a bucket of the destination.
proof fn lemma_sidecar_below(
    s: SessionView,
    dest: Seq<char>,
    buckets: Seq<Seq<char>>,
    existing: Seq<Seq<char>>,
    sizes: Seq<(Seq<char>, u64)>,
    i: int,
)
    requires
        buckets.len() == 5,
        laid_out(s.source_dir, s.shots),
        0 <= i < planned(s, dest, buckets, existing, sizes).ops.len(),
        planned(s, dest, buckets, existing, sizes).ops[i].write_sidecar is Some,
    ensures
        exists|b: int|
            0 <= b < 5 && front_piece(
                planned(s, dest, buckets, existing, sizes).ops[i].write_sidecar->0.path,
            ) == with_slash(join(dest, #[trigger] buckets[b])),
{
    let ops = planned(s, dest, buckets, existing, sizes).ops;
    lemma_op_count(s, dest, buckets, existing, sizes);
    lemma_op_at(s, dest, buckets, existing, sizes, i);
    let shot = s.shots[i];
    let rest = lemma_planned_at(s, dest, buckets, existing, sizes, i, 0);
    let front = stem_with(shot.stem, ops[i].suffix);
    assert(!front.contains('/')) by {
        if front.contains('/') {
            let x = choose|x: int| 0 <= x < front.len() && front[x] == '/';
            assert((front + rest)[x] == '/');
        }
    }
    reveal_strlit(".xmp");
    assert(!".xmp"@.contains('/'));
    lemma_concat_no_slash(front, ".xmp"@);
    let b = bucket_place(s.decision_at(i).tier);
    lemma_join(join(dest, buckets[b]), front + ".xmp"@);
}

/// The name of a file of a laid out shoot, and its place in a plan.
proof fn lemma_planned_at(
    s: SessionView,
    dest: Seq<char>,
    buckets: Seq<Seq<char>>,
    existing: Seq<Seq<char>>,
    sizes: Seq<(Seq<char>, u64)>,
    i: int,
    k: int,
) -> (rest: Seq<char>)
    requires
        laid_out(s.source_dir, s.shots),
        0 <= i < s.shots.len(),
        0 <= k < s.shots[i].files().len(),
    ensures
        ({
            let ops = planned(s, dest, buckets, existing, sizes).ops;
            let own = s.shots[i].stem + rest;
            let name = stem_with(s.shots[i].stem, ops[i].suffix) + rest;
            &&& photo_name(own)
            &&& photo_name(name)
            &&& s.shots[i].files()[k] == join(s.source_dir, own)
            &&& name_with(s.shots[i].files()[k], s.shots[i].stem, None) == own
            &&& ops[i].moves[k].to == join(join(dest, ops[i].bucket), name)
        }),
{
    let plan = planned(s, dest, buckets, existing, sizes);
    let shot = s.shots[i];
    let file = shot.files()[k];
    assert(lies_in(s.source_dir, shot, file));
    let name = choose|name: Seq<char>| #[trigger] lies_at(s.source_dir, shot, file, name);
    let rest = name.skip(shot.stem.len() as int);
    assert(name =~= shot.stem + rest);
    lemma_file_name_of(s.source_dir, name);
    after_a_prefix(shot.stem, rest);
    a_file_keeps_its_name(s, dest, buckets, existing, sizes, i, k, rest);
    lemma_op_at(s, dest, buckets, existing, sizes, i);
    lemma_numbered_photo(shot.stem, plan.ops[i].suffix, rest);
    rest
}

/// No two files of a shoot that is laid out are planned to one place. The names are fewer
/// than the numbers.
pub proof fn no_two_files_meet(
    s: SessionView,
    dest: Seq<char>,
    buckets: Seq<Seq<char>>,
    existing: Seq<Seq<char>>,
    sizes: Seq<(Seq<char>, u64)>,
    i: int,
    k: int,
    j: int,
    l: int,
)
    requires
        laid_out(s.source_dir, s.shots),
        3 * existing.len() + 9 * s.shots.len() < u32::MAX,
        0 <= i < s.shots.len(),
        0 <= k < s.shots[i].files().len(),
        0 <= j < s.shots.len(),
        0 <= l < s.shots[j].files().len(),
        i != j || k != l,
    ensures
        planned(s, dest, buckets, existing, sizes).ops[i].moves[k].to != planned(
            s,
            dest,
            buckets,
            existing,
            sizes,
        ).ops[j].moves[l].to,
{
    let ops = planned(s, dest, buckets, existing, sizes).ops;
    lemma_op_at(s, dest, buckets, existing, sizes, i);
    lemma_op_at(s, dest, buckets, existing, sizes, j);
    if j < i {
        no_planned_place_is_taken(s, dest, buckets, existing, sizes, i, k);
        assert(ops[j].moves[l].to != ops[i].moves[k].to);
    } else if i < j {
        no_planned_place_is_taken(s, dest, buckets, existing, sizes, j, l);
        assert(ops[i].moves[k].to != ops[j].moves[l].to);
    } else {
        let p = lemma_planned_at(s, dest, buckets, existing, sizes, i, k);
        let q = lemma_planned_at(s, dest, buckets, existing, sizes, i, l);
        let stem = stem_with(s.shots[i].stem, ops[i].suffix);
        let dir = join(dest, ops[i].bucket);
        lemma_join(dir, stem + p);
        lemma_join(dir, stem + q);
        if ops[i].moves[k].to == ops[i].moves[l].to {
            assert((stem + p).skip(stem.len() as int) =~= p);
            assert((stem + q).skip(stem.len() as int) =~= q);
            assert(s.shots[i].files()[k] == s.shots[i].files()[l]);
        }
    }
}

/// No file of a shoot that is laid out is planned to a place where the buckets hold one. The
/// names are fewer than the numbers.
pub proof fn no_file_meets_what_is_there(
    s: SessionView,
    dest: Seq<char>,
    buckets: Seq<Seq<char>>,
    existing: Seq<Seq<char>>,
    sizes: Seq<(Seq<char>, u64)>,
    i: int,
    k: int,
    x: Seq<char>,
)
    requires
        buckets.len() == 5,
        forall|b: int|
            0 <= b < 5 ==> (#[trigger] buckets[b]).len() > 0 && !buckets[b].contains('/'),
        laid_out(s.source_dir, s.shots),
        3 * existing.len() + 9 * s.shots.len() < u32::MAX,
        0 <= i < s.shots.len(),
        0 <= k < s.shots[i].files().len(),
        existing.contains(x),
        x.len() > 0 ==> x[0] != '/',
    ensures
        planned(s, dest, buckets, existing, sizes).ops[i].moves[k].to != join(dest, x),
{
    let ops = planned(s, dest, buckets, existing, sizes).ops;
    let bucket = buckets[bucket_place(s.decision_at(i).tier)];
    no_planned_place_is_taken(s, dest, buckets, existing, sizes, i, k);
    let rest = lemma_planned_at(s, dest, buckets, existing, sizes, i, k);
    lemma_op_at(s, dest, buckets, existing, sizes, i);
    let name = stem_with(s.shots[i].stem, ops[i].suffix) + rest;
    let file = s.shots[i].files()[k];
    assert(name_with(file, s.shots[i].stem, ops[i].suffix) == name) by {
        lemma_join(join(dest, bucket), name);
        lemma_file_name_of(s.source_dir, s.shots[i].stem + rest);
        after_a_prefix(s.shots[i].stem, rest);
    }
    lemma_join(dest, bucket);
    lemma_join(join(dest, bucket), name);
    assert(bucket.contains(bucket.last()));
    reveal_strlit("/");
    let front = with_slash(dest);
    assert(ops[i].moves[k].to =~= front + below_bucket(bucket, name));
    if ops[i].moves[k].to == join(dest, x) {
        assert(join(dest, x) =~= front + x);
        assert((front + x).skip(front.len() as int) =~= x);
        assert((front + below_bucket(bucket, name)).skip(front.len() as int) =~= below_bucket(
            bucket,
            name,
        ));
    }
}

/// The folders of two plain names below the destination differ where the names do.
proof fn lemma_folders_differ(dest: Seq<char>, b: Seq<char>, c: Seq<char>)
    requires
        b.len() > 0,
        c.len() > 0,
        !b.contains('/'),
        !c.contains('/'),
        with_slash(join(dest, b)) == with_slash(join(dest, c)),
    ensures
        b == c,
{
    lemma_join(dest, b);
    lemma_join(dest, c);
    assert(b.contains(b.last()));
    assert(c.contains(c.last()));
    let front = with_slash(dest);
    assert(with_slash(join(dest, b)) =~= front + b.push('/'));
    assert(with_slash(join(dest, c)) =~= front + c.push('/'));
    assert((front + b.push('/')).skip(front.len() as int) =~= b.push('/'));
    assert((front + c.push('/')).skip(front.len() as int) =~= c.push('/'));
    assert(b.push('/').drop_last() =~= b);
    assert(c.push('/').drop_last() =~= c);
}

/// A name that another bucket holds forces nothing: where its own bucket holds no name, a
/// shot of a shoot that is laid out gets no number.
pub proof fn another_bucket_forces_nothing(
    s: SessionView,
    dest: Seq<char>,
    buckets: Seq<Seq<char>>,
    existing: Seq<Seq<char>>,
    sizes: Seq<(Seq<char>, u64)>,
    i: int,
)
    requires
        buckets.len() == 5,
        forall|b: int|
            0 <= b < 5 ==> (#[trigger] buckets[b]).len() > 0 && !buckets[b].contains('/'),
        laid_out(s.source_dir, s.shots),
        0 <= i < s.shots.len(),
        forall|name: Seq<char>|
            !existing.contains(
                #[trigger] below_bucket(buckets[bucket_place(s.decision_at(i).tier)], name),
            ),
    ensures
        planned(s, dest, buckets, existing, sizes).ops[i].suffix is None,
    decreases i,
{
    let ops = planned(s, dest, buckets, existing, sizes).ops;
    let shot = s.shots[i];
    let bucket = buckets[bucket_place(s.decision_at(i).tier)];
    lemma_op_at(s, dest, buckets, existing, sizes, i);
    if clashes(shot, None, existing, ops.take(i), dest, bucket) {
        let k = choose|k: int|
            0 <= k < shot.files().len() && name_taken(
                existing,
                ops.take(i),
                dest,
                bucket,
                name_with(#[trigger] shot.files()[k], shot.stem, None),
            );
        let p = lemma_planned_at(s, dest, buckets, existing, sizes, i, k);
        let own = shot.stem + p;
        let before = ops.take(i);
        assert(!existing.contains(below_bucket(bucket, own)));
        let to = join(join(dest, bucket), own);
        let (j, l) = choose|j: int, l: int|
            0 <= j < before.len() && 0 <= l < before[j].moves.len() && (
            #[trigger] before[j].moves[l]).to == to;
        assert(before[j] == ops[j]);
        lemma_op_at(s, dest, buckets, existing, sizes, j);
        let q = lemma_planned_at(s, dest, buckets, existing, sizes, j, l);
        let name = stem_with(s.shots[j].stem, ops[j].suffix) + q;
        lemma_join(join(dest, bucket), own);
        lemma_join(join(dest, ops[j].bucket), name);
        lemma_folders_differ(dest, bucket, ops[j].bucket);
        another_bucket_forces_nothing(s, dest, buckets, existing, sizes, j);
        assert(own == s.shots[j].stem + q);
        assert(s.shots[i].files()[k] == s.shots[j].files()[l]);
    }
}

pub(crate) proof fn lemma_file_name_of(dir: Seq<char>, name: Seq<char>)
    requires
        name.len() > 0,
        name != here(),
        name != above(),
        !name.contains('/'),
    ensures
        file_name(join(dir, name)) == Some(name),
{
    lemma_join(dir, name);
    let p = join(dir, name);
    assert(p.last() == name.last());
    assert(name.contains(name.last()));
    if p.last() == '.' && p.len() > 1 && p[p.len() - 2] == '/' {
        if name.len() > 1 {
            assert(name[name.len() - 2] == '/');
            assert(name.contains(name[name.len() - 2]));
        } else {
            assert(name =~= here());
        }
    }
    assert(settled(p) == p);
}

proof fn lemma_last_dot(a: Seq<char>, b: Seq<char>)
    requires
        a.len() > 0,
        a.last() == '.',
        !b.contains('.'),
    ensures
        last_dot(a + b) == a.len() - 1,
    decreases b.len(),
{
    if b.len() == 0 {
        assert(a + b =~= a);
    } else {
        assert(b.contains(b.last()));
        assert((a + b).drop_last() =~= a + b.drop_last());
        assert forall|c: char| b.drop_last().contains(c) implies b.contains(c) by {
            let i = choose|i: int| 0 <= i < b.drop_last().len() && b.drop_last()[i] == c;
            assert(b[i] == c);
        }
        lemma_last_dot(a, b.drop_last());
    }
}

proof fn lemma_name_itself(name: Seq<char>)
    requires
        !name.contains('/'),
    ensures
        file_name(name) is Some ==> file_name(name)->0 == name,
{
    let none = Seq::<char>::empty();
    lemma_last_piece(none, name);
    assert(none + name =~= name);
    if name.len() > 1 {
        assert(name.contains(name.last()));
        assert(name.contains(name[name.len() - 2]));
    }
    assert(settled(name) == name);
}

/// A name with one of the endings of the engine's own files has that for its extension.
proof fn lemma_ending(name: Seq<char>, ending: Seq<char>)
    requires
        !name.contains('/'),
        ends_in(name, seq!['.'] + ending),
        !ending.contains('.'),
    ensures
        extension(name) is None || extension(name) == Some(ending),
{
    lemma_name_itself(name);
    let cut = name.len() - ending.len();
    let front = name.take(cut);
    let tail = name.skip(cut - 1);
    assert(tail == seq!['.'] + ending);
    assert(front.last() == tail[0]);
    assert(name =~= front + name.skip(cut));
    assert(name.skip(cut) =~= tail.skip(1));
    assert(tail.skip(1) =~= ending);
    lemma_last_dot(front, ending);
}

proof fn lemma_foreign_extensions(e: Seq<char>)
    requires
        e == "json"@ || e == "tmp"@ || e == "partial"@,
    ensures
        !jpeg_ext(e),
        !raw_ext(e),
        e != "xmp"@,
        ascii_lowered(e) == e,
        !e.contains('.'),
{
    reveal_strlit("json");
    reveal_strlit("tmp");
    reveal_strlit("partial");
    reveal_strlit("xmp");
    reveal_strlit("jpg");
    reveal_strlit("jpeg");
    reveal_strlit("cr3");
    reveal_strlit("cr2");
    reveal_strlit("nef");
    reveal_strlit("arw");
    reveal_strlit("raf");
    reveal_strlit("rw2");
    reveal_strlit("orf");
    reveal_strlit("dng");
    reveal_strlit("pef");
    reveal_strlit("srw");
    assert forall|i: int| 0 <= i < 2 implies (#[trigger] JPEG_EXTS@[i])@ != e by {
        assert(i == 0 || i == 1);
        if JPEG_EXTS@[i]@ == e {
            assert(JPEG_EXTS@[i]@.len() == e.len());
            assert(JPEG_EXTS@[i]@[1] == e[1]);
        }
    }
    assert forall|i: int| 0 <= i < 10 implies (#[trigger] RAW_EXTS@[i])@ != e by {
        assert(i == 0 || i == 1 || i == 2 || i == 3 || i == 4 || i == 5 || i == 6 || i == 7 || i
            == 8 || i == 9);
        if RAW_EXTS@[i]@ == e {
            assert(RAW_EXTS@[i]@.len() == e.len());
            assert(RAW_EXTS@[i]@[0] == e[0]);
        }
    }
    if e == "xmp"@ {
        assert(e[0] == 'x');
    }
    assert(ascii_lowered(e) =~= e);
}

proof fn lemma_no_own_ending(name: Seq<char>, ending: Seq<char>, full: Seq<char>)
    requires
        !name.contains('/'),
        kind_of(name) != FileKind::Other,
        ending == "json"@ || ending == "tmp"@ || ending == "partial"@,
        full == seq!['.'] + ending,
    ensures
        !ends_in(name, full),
{
    lemma_foreign_extensions(ending);
    if ends_in(name, full) {
        lemma_ending(name, ending);
    }
}

proof fn lemma_digits(n: nat)
    ensures
        decimal(n).len() > 0,
        forall|i: int| 0 <= i < decimal(n).len() ==> 48 <= (#[trigger] decimal(n)[i]) as int <= 57,
    decreases n,
{
    if n >= 10 {
        lemma_digits(n / 10);
        let front = decimal(n / 10);
        assert forall|i: int| 0 <= i < decimal(n).len() implies 48 <= (#[trigger] decimal(
            n,
        )[i]) as int <= 57 by {
            if i < front.len() {
                assert(decimal(n)[i] == front[i]);
            }
        }
    }
}

/// What starts with a digit is no extension of a photo.
proof fn lemma_digit_extension(e: Seq<char>)
    requires
        e.len() > 0,
        48 <= e[0] as int <= 57,
    ensures
        !jpeg_ext(e),
        !raw_ext(e),
        e != "xmp"@,
{
    reveal_strlit("xmp");
    reveal_strlit("jpg");
    reveal_strlit("jpeg");
    reveal_strlit("cr3");
    reveal_strlit("cr2");
    reveal_strlit("nef");
    reveal_strlit("arw");
    reveal_strlit("raf");
    reveal_strlit("rw2");
    reveal_strlit("orf");
    reveal_strlit("dng");
    reveal_strlit("pef");
    reveal_strlit("srw");
    assert forall|i: int| 0 <= i < 2 implies (#[trigger] JPEG_EXTS@[i])@ != e by {
        assert(i == 0 || i == 1);
        if JPEG_EXTS@[i]@ == e {
            assert(JPEG_EXTS@[i]@[0] == e[0]);
        }
    }
    assert forall|i: int| 0 <= i < 10 implies (#[trigger] RAW_EXTS@[i])@ != e by {
        assert(i == 0 || i == 1 || i == 2 || i == 3 || i == 4 || i == 5 || i == 6 || i == 7 || i
            == 8 || i == 9);
        if RAW_EXTS@[i]@ == e {
            assert(RAW_EXTS@[i]@[0] == e[0]);
        }
    }
    if e == "xmp"@ {
        assert(e[0] == 'x');
    }
}

/// A record has no name with a separator, and none that a scan takes in.
pub(crate) proof fn lemma_record_name(n: nat)
    ensures
        numbered(SESSION_FILE@, n).len() > 0,
        !numbered(SESSION_FILE@, n).contains('/'),
        kind_of(numbered(SESSION_FILE@, n)) == FileKind::Other,
{
    reveal_strlit(".fastcull.json");
    reveal_strlit(".");
    reveal_strlit("json");
    let base = SESSION_FILE@;
    let name = numbered(base, n);
    let tail = decimal(n);
    lemma_digits(n);
    if tail.contains('/') {
        let i = choose|i: int| 0 <= i < tail.len() && tail[i] == '/';
    }
    if tail.contains('.') {
        let i = choose|i: int| 0 <= i < tail.len() && tail[i] == '.';
    }
    assert(!base.contains('/'));
    if n == 0 {
        lemma_name_itself(name);
        let front = base.take(10);
        assert(base =~= front + "json"@);
        assert(!"json"@.contains('.'));
        lemma_last_dot(front, "json"@);
        assert(base.skip(10) =~= "json"@);
        lemma_foreign_extensions("json"@);
    } else {
        assert(name == base + "."@ + tail);
        lemma_concat_no_slash(base, "."@);
        lemma_concat_no_slash(base + "."@, tail);
        lemma_name_itself(name);
        lemma_last_dot(base + "."@, tail);
        assert(name.skip(base.len() as int + 1) =~= tail);
        assert(ascii_lowered(tail)[0] == tail[0]);
        lemma_digit_extension(ascii_lowered(tail));
    }
}

/// A name that a scan takes in is a photo's, and the stem that it belongs to starts it.
proof fn lemma_scanned_name(name: Seq<char>)
    requires
        !name.contains('/'),
        kind_of(name) != FileKind::Other,
    ensures
        photo_name(name),
        owner(name).is_prefix_of(name),
{
    reveal_strlit("json");
    reveal_strlit("tmp");
    reveal_strlit("partial");
    reveal_strlit(".json");
    reveal_strlit(".tmp");
    reveal_strlit(".partial");
    assert(".json"@ =~= seq!['.'] + "json"@);
    assert(".tmp"@ =~= seq!['.'] + "tmp"@);
    assert(".partial"@ =~= seq!['.'] + "partial"@);
    lemma_no_own_ending(name, "json"@, ".json"@);
    lemma_no_own_ending(name, "tmp"@, ".tmp"@);
    lemma_no_own_ending(name, "partial"@, ".partial"@);
    if record_name(name) {
        lemma_record_name(choose|n: nat| name == #[trigger] numbered(SESSION_FILE@, n));
    }
    lemma_name_itself(name);
    assert(extension(name) is Some);
    let inner = stem_or_empty(name);
    assert(inner == name.take(last_dot(name)));
    lemma_last_dot_bounds(name);
    assert(inner.is_prefix_of(name));
    if kind_of(name) == FileKind::Sidecar && sidecar_owner(name) != inner {
        assert forall|c: char| inner.contains(c) implies name.contains(c) by {
            let i = choose|i: int| 0 <= i < inner.len() && inner[i] == c;
            assert(name[i] == c);
        }
        lemma_name_itself(inner);
        assert(extension(inner) is Some);
        lemma_last_dot_bounds(inner);
        let stem = stem_or_empty(inner);
        assert(stem == inner.take(last_dot(inner)));
        assert(stem =~= name.take(last_dot(inner)));
        assert(stem =~= name.subrange(0, stem.len() as int));
    }
}

proof fn lemma_last_dot_bounds(n: Seq<char>)
    ensures
        -1 <= last_dot(n) < n.len(),
    decreases n.len(),
{
    if n.len() > 0 && n.last() != '.' {
        lemma_last_dot_bounds(n.drop_last());
    }
}

/// The place of the file of a kind among the files of a shot.
spec fn place_of_kind(g: GroupView, kind: FileKind) -> int {
    let one: int = if g.jpeg is Some {
        1
    } else {
        0
    };
    let two: int = if g.raw is Some {
        1
    } else {
        0
    };
    match kind {
        FileKind::Jpeg => 0,
        FileKind::Raw => one,
        FileKind::Sidecar => one + two,
        FileKind::Other => 3,
    }
}

proof fn lemma_file_of(
    dir: Seq<char>,
    names: Seq<Seq<char>>,
    g: GroupView,
    shot: ShotView,
    k: int,
) -> (name: Seq<char>)
    requires
        rightly_filled(names, g),
        shot.jpeg == crate::scan::below(dir, g.jpeg),
        shot.raw == crate::scan::below(dir, g.raw),
        shot.sidecar == crate::scan::below(dir, g.sidecar),
        0 <= k < shot.files().len(),
    ensures
        names.contains(name),
        kind_of(name) != FileKind::Other,
        owner(name) == g.stem,
        shot.files()[k] == join(dir, name),
        k == place_of_kind(g, kind_of(name)),
{
    if k == 0 && g.jpeg is Some {
        g.jpeg->0
    } else if k == place_of_kind(g, FileKind::Raw) && g.raw is Some {
        g.raw->0
    } else {
        g.sidecar->0
    }
}

proof fn lemma_shown_stems(groups: Seq<GroupView>, i: int, j: int)
    requires
        stems_ascend(groups),
        0 <= i < j < shown_groups(groups).len(),
    ensures
        shown_groups(groups)[i].stem != shown_groups(groups)[j].stem,
    decreases groups.len(),
{
    reveal(Seq::filter);
    let p = |g: GroupView| crate::scan::is_shown(g);
    if groups.len() > 0 {
        let front = groups.drop_last();
        assert(stems_ascend(front)) by {
            assert forall|x: int, y: int|
                #![trigger front[x], front[y]]
                0 <= x < y < front.len() implies crate::text::text_le(front[x].stem, front[y].stem)
                && front[x].stem != front[y].stem by {
                assert(front[x] == groups[x] && front[y] == groups[y]);
            }
        }
        let kept = shown_groups(front);
        if j < kept.len() {
            lemma_shown_stems(front, i, j);
        } else {
            assert(kept.contains(kept[i]));
            front.lemma_filter_contains_rev(p, kept[i]);
            let x = choose|x: int| 0 <= x < front.len() && front[x] == kept[i];
            assert(groups[x].stem != groups[groups.len() - 1].stem);
        }
    }
}

/// What a scan gives is laid out: each file lies in the folder under a name that starts
/// with the stem of its shot, and no file belongs to two shots. The names that the system
/// lists hold no separator.
pub proof fn a_scan_lays_the_shots_out(
    dir: Seq<char>,
    names: Seq<Seq<char>>,
    ran: Seq<FsEvent>,
    shots: Seq<ShotView>,
    raw_only: Seq<Seq<char>>,
)
    requires
        names_scanned(dir, names, ran, Scanned::Ok((shots, raw_only))),
        forall|n: Seq<char>| #[trigger] names.contains(n) ==> !n.contains('/'),
    ensures
        laid_out(dir, shots),
{
    broadcast use vstd::seq_lib::group_to_multiset_ensures;

    let groups = choose|groups: Seq<GroupView>| #[trigger]
        gathered(dir, names, groups, ran, Scanned::Ok((shots, raw_only)));
    let shown = shown_groups(groups);
    let all = shots_from(dir, shown, ran);
    sorting_orders_the_same_shots(all);
    assert forall|i: int| 0 <= i < shots.len() implies all.contains(#[trigger] shots[i]) by {
        assert(shots.contains(shots[i]));
        assert(shots.to_multiset().count(shots[i]) > 0);
    }
    assert forall|x: int| 0 <= x < shown.len() implies rightly_filled(
        names,
        #[trigger] shown[x],
    ) by {
        assert(shown.contains(shown[x]));
        groups.lemma_filter_contains_rev(|g: GroupView| crate::scan::is_shown(g), shown[x]);
    }
    assert(all.no_duplicates()) by {
        assert forall|x: int, y: int| 0 <= x < all.len() && 0 <= y < all.len() && x
            != y implies all[x] != all[y] by {
            if x < y {
                lemma_shown_stems(groups, x, y);
            } else {
                lemma_shown_stems(groups, y, x);
            }
        }
    }
    all.lemma_multiset_has_no_duplicates();
    shots.lemma_multiset_has_no_duplicates_conv();
    assert forall|i: int, k: int|
        0 <= i < shots.len() && 0 <= k < shots[i].files().len() implies lies_in(
        dir,
        shots[i],
        #[trigger] shots[i].files()[k],
    ) by {
        assert(all.contains(shots[i]));
        let x = choose|x: int| 0 <= x < all.len() && all[x] == shots[i];
        let name = lemma_file_of(dir, names, shown[x], shots[i], k);
        lemma_scanned_name(name);
        assert(lies_at(dir, shots[i], shots[i].files()[k], name));
    }
    assert forall|i: int, k: int, j: int, l: int|
        #![trigger shots[i].files()[k], shots[j].files()[l]]
        0 <= i < shots.len() && 0 <= k < shots[i].files().len() && 0 <= j < shots.len() && 0 <= l
            < shots[j].files().len() && shots[i].files()[k] == shots[j].files()[l] implies i == j
        && k == l by {
        assert(all.contains(shots[i]));
        assert(all.contains(shots[j]));
        let x = choose|x: int| 0 <= x < all.len() && all[x] == shots[i];
        let y = choose|y: int| 0 <= y < all.len() && all[y] == shots[j];
        let n = lemma_file_of(dir, names, shown[x], shots[i], k);
        let m = lemma_file_of(dir, names, shown[y], shots[j], l);
        lemma_scanned_name(n);
        lemma_scanned_name(m);
        lemma_join(dir, n);
        lemma_join(dir, m);
        assert(n == m);
        if x < y {
            lemma_shown_stems(groups, x, y);
        } else if y < x {
            lemma_shown_stems(groups, y, x);
        }
        assert(shots[i] == shots[j]);
    }
}

proof fn lemma_present(shots: Seq<ShotView>, there: Seq<bool>, i: int, j: int) -> (r: (int, int))
    requires
        shots.len() == there.len(),
        0 <= i < j < present(shots, there).len(),
    ensures
        0 <= r.0 < r.1 < shots.len(),
        shots[r.0] == present(shots, there)[i],
        shots[r.1] == present(shots, there)[j],
    decreases shots.len(),
{
    let front = present(shots.drop_last(), there.drop_last());
    if j < front.len() {
        lemma_present(shots.drop_last(), there.drop_last(), i, j)
    } else {
        let x = lemma_present_one(shots.drop_last(), there.drop_last(), i);
        (x, shots.len() - 1)
    }
}

pub(crate) proof fn lemma_present_one(shots: Seq<ShotView>, there: Seq<bool>, i: int) -> (r: int)
    requires
        shots.len() == there.len(),
        0 <= i < present(shots, there).len(),
    ensures
        0 <= r < shots.len(),
        shots[r] == present(shots, there)[i],
    decreases shots.len(),
{
    let front = present(shots.drop_last(), there.drop_last());
    if i < front.len() {
        lemma_present_one(shots.drop_last(), there.drop_last(), i)
    } else {
        shots.len() - 1
    }
}

/// The shots of which all files are there are laid out where all shots are.
pub proof fn dropping_stale_shots_keeps_the_layout(
    dir: Seq<char>,
    shots: Seq<ShotView>,
    there: Seq<bool>,
)
    requires
        shots.len() == there.len(),
        laid_out(dir, shots),
    ensures
        laid_out(dir, present(shots, there)),
{
    let kept = present(shots, there);
    assert forall|i: int, k: int|
        0 <= i < kept.len() && 0 <= k < kept[i].files().len() implies lies_in(
        dir,
        kept[i],
        #[trigger] kept[i].files()[k],
    ) by {
        let x = lemma_present_one(shots, there, i);
        assert(lies_in(dir, shots[x], shots[x].files()[k]));
    }
    assert forall|i: int, k: int, j: int, l: int|
        #![trigger kept[i].files()[k], kept[j].files()[l]]
        0 <= i < kept.len() && 0 <= k < kept[i].files().len() && 0 <= j < kept.len() && 0 <= l
            < kept[j].files().len() && kept[i].files()[k] == kept[j].files()[l] implies i == j
        && k == l by {
        if i < j {
            let (x, y) = lemma_present(shots, there, i, j);
            assert(shots[x].files()[k] == shots[y].files()[l]);
        } else if j < i {
            let (y, x) = lemma_present(shots, there, j, i);
            assert(shots[x].files()[k] == shots[y].files()[l]);
        } else {
            let x = lemma_present_one(shots, there, i);
            assert(shots[x].files()[k] == shots[x].files()[l]);
        }
    }
}

} // verus!
