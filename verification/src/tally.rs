//! What the numbers of a preview stand for: sizes are sums of file lengths, counts are
//! counts of shots and files.
use vstd::prelude::*;
use crate::apply::all_moves;
use crate::fsops::{EntryType, EntryView, FsErrorView, FsEvent};
use crate::model::{SessionView, ShotView};
use crate::paths::parent;
use crate::plan::{lemma_op_at, planned, saturated, size_of, size_sum, OpView, PlanView};
use crate::preview::{
    all_measured, all_probed, climbed, cross_probed, existing_ran, gather_ran, gone, is_shot_file,
    leftover_count, leftovers_ran, listed_among, lists, measured, partition_ran, present,
    preview_of, preview_ran, probed, sizes_ran, sorted_from, space_asked, strung, suffixed_count,
    told_sum, without_stale, ApplyPreview,
};

verus! {

/// The sum of some numbers.
pub open spec fn sum_of(lens: Seq<int>) -> int {
    lens.fold_left(0, |a: int, n: int| a + n)
}

/// Whether every event asks for the length of a file, and is told the length that stands in
/// its place; a length that could not be told stands as 0.
pub open spec fn tells(t: Seq<FsEvent>, lens: Seq<int>) -> bool {
    &&& t.len() == lens.len()
    &&& forall|k: int|
        0 <= k < t.len() ==> #[trigger] t[k] is FileLen && match t[k]->FileLen_reply {
            Ok(n) => lens[k] == n,
            Err(_) => lens[k] == 0,
        }
}

/// Lengths add up: the sum over two stretches of a history is the sum over the one and the
/// sum over the other, one more reply of `n` bytes adds `n`, and a file that could not be
/// measured adds nothing.
pub proof fn lengths_add_up(t: Seq<FsEvent>, u: Seq<FsEvent>, path: Seq<char>, n: u64, e: FsErrorView)
    ensures
        told_sum(Seq::empty()) == 0,
        told_sum(t + u) == told_sum(t) + told_sum(u),
        told_sum(t.push(FsEvent::FileLen { path, reply: Ok(n) })) == told_sum(t) + n,
        told_sum(t.push(FsEvent::FileLen { path, reply: Err(e) })) == told_sum(t),
    decreases u.len(),
{
    let more = FsEvent::FileLen { path, reply: Ok::<u64, FsErrorView>(n) };
    let none = FsEvent::FileLen { path, reply: Err::<u64, FsErrorView>(e) };
    assert(t.push(more).drop_last() =~= t);
    assert(t.push(none).drop_last() =~= t);
    if u.len() == 0 {
        assert(t + u =~= t);
    } else {
        lengths_add_up(t, u.drop_last(), path, n, e);
        assert((t + u).drop_last() =~= t + u.drop_last());
    }
}

proof fn lemma_told(t: Seq<FsEvent>, lens: Seq<int>)
    requires
        tells(t, lens),
    ensures
        told_sum(t) == sum_of(lens),
        sum_of(lens) >= 0,
    decreases t.len(),
{
    if t.len() > 0 {
        assert forall|k: int| 0 <= k < t.len() - 1 implies #[trigger] t.drop_last()[k] is FileLen
            && match t.drop_last()[k]->FileLen_reply {
            Ok(n) => lens.drop_last()[k] == n,
            Err(_) => lens.drop_last()[k] == 0,
        } by {
            assert(t[k] is FileLen);
        }
        lemma_told(t.drop_last(), lens.drop_last());
        assert(t[t.len() - 1] is FileLen);
        reveal_with_fuel(Seq::fold_left, 2);
        assert(sum_of(lens) == sum_of(lens.drop_last()) + lens.last());
    } else {
        reveal_with_fuel(Seq::fold_left, 2);
    }
}

/// The size of a shot is the sum of the lengths of its files, up to the largest number that
/// can be held.
pub proof fn a_shot_is_as_large_as_its_files(
    shots: Seq<ShotView>,
    parts: Seq<Seq<FsEvent>>,
    sizes: Seq<(Seq<char>, u64)>,
    i: int,
    lens: Seq<int>,
)
    requires
        all_measured(shots, parts, sizes),
        0 <= i < shots.len(),
        tells(parts[i], lens),
    ensures
        sizes[i].0 == shots[i].stem,
        lens.len() == shots[i].files().len(),
        forall|k: int|
            0 <= k < lens.len() ==> (#[trigger] parts[i][k])->FileLen_path == shots[i].files()[k],
        sum_of(lens) <= u64::MAX ==> sizes[i].1 == sum_of(lens),
        sum_of(lens) > u64::MAX ==> sizes[i].1 == u64::MAX,
{
    lemma_told(parts[i], lens);
    assert(measured(shots[i].files(), parts[i]));
}

/// Whether no two shots have the same stem.
pub open spec fn distinct_stems(shots: Seq<ShotView>) -> bool {
    forall|i: int, j: int|
        #![trigger shots[i], shots[j]]
        0 <= i < j < shots.len() ==> shots[i].stem != shots[j].stem
}

/// The size that counts for a stem is the one listed last.
pub proof fn the_last_size_counts(sizes: Seq<(Seq<char>, u64)>, stem: Seq<char>, i: int)
    requires
        0 <= i < sizes.len(),
        sizes[i].0 == stem,
        forall|j: int| i < j < sizes.len() ==> (#[trigger] sizes[j]).0 != stem,
    ensures
        size_of(sizes, stem) == sizes[i].1,
    decreases sizes.len(),
{
    if i < sizes.len() - 1 {
        assert(sizes[sizes.len() - 1].0 != stem);
        assert forall|j: int| i < j < sizes.drop_last().len() implies (
        #[trigger] sizes.drop_last()[j]).0 != stem by {
            assert(sizes[j].0 != stem);
        }
        the_last_size_counts(sizes.drop_last(), stem, i);
    }
}

/// A stem without a listed size counts for nothing.
pub proof fn an_unlisted_stem_has_no_size(sizes: Seq<(Seq<char>, u64)>, stem: Seq<char>)
    requires
        forall|j: int| 0 <= j < sizes.len() ==> (#[trigger] sizes[j]).0 != stem,
    ensures
        size_of(sizes, stem) == 0,
    decreases sizes.len(),
{
    if sizes.len() > 0 {
        assert(sizes[sizes.len() - 1].0 != stem);
        assert forall|j: int| 0 <= j < sizes.drop_last().len() implies (
        #[trigger] sizes.drop_last()[j]).0 != stem by {
            assert(sizes[j].0 != stem);
        }
        an_unlisted_stem_has_no_size(sizes.drop_last(), stem);
    }
}

proof fn lemma_total(
    shots: Seq<ShotView>,
    parts: Seq<Seq<FsEvent>>,
    sizes: Seq<(Seq<char>, u64)>,
    n: int,
)
    requires
        all_measured(shots, parts, sizes),
        distinct_stems(shots),
        0 <= n <= shots.len(),
    ensures
        saturated(size_sum(shots, sizes, n)) == saturated(told_sum(strung(parts.take(n)))),
        0 <= size_sum(shots, sizes, n) <= told_sum(strung(parts.take(n))),
        told_sum(strung(parts.take(n))) <= u64::MAX ==> size_sum(shots, sizes, n) == told_sum(
            strung(parts.take(n)),
        ),
    decreases n,
{
    if n == 0 {
        assert(parts.take(0) =~= Seq::empty());
    } else {
        lemma_total(shots, parts, sizes, n - 1);
        assert(parts.take(n).drop_last() =~= parts.take(n - 1));
        lengths_add_up(
            strung(parts.take(n - 1)),
            parts[n - 1],
            Seq::empty(),
            0,
            crate::fsops::own_error(crate::fsops::FsErrorKind::Other, Seq::empty()),
        );
        lemma_told_is_a_size(parts[n - 1]);
        assert(measured(shots[n - 1].files(), parts[n - 1]));
        assert forall|j: int| n - 1 < j < sizes.len() implies (#[trigger] sizes[j]).0
            != shots[n - 1].stem by {
            assert(measured(shots[j].files(), parts[j]));
            assert(shots[n - 1].stem != shots[j].stem);
        }
        the_last_size_counts(sizes, shots[n - 1].stem, n - 1);
    }
}

proof fn lemma_told_is_a_size(t: Seq<FsEvent>)
    ensures
        told_sum(t) >= 0,
    decreases t.len(),
{
    if t.len() > 0 {
        lemma_told_is_a_size(t.drop_last());
    }
}

/// The total of a plan is the sum of the lengths of all files that were measured for it, up
/// to the largest number that can be held.
pub proof fn the_total_is_the_sum_of_all_lengths(
    s: SessionView,
    dest: Seq<char>,
    buckets: Seq<Seq<char>>,
    existing: Seq<Seq<char>>,
    sizes: Seq<(Seq<char>, u64)>,
    t: Seq<FsEvent>,
    lens: Seq<int>,
)
    requires
        sizes_ran(s.shots, t, sizes),
        distinct_stems(s.shots),
        tells(t, lens),
    ensures
        sum_of(lens) <= u64::MAX ==> planned(s, dest, buckets, existing, sizes).total_bytes
            == sum_of(lens),
        sum_of(lens) > u64::MAX ==> planned(s, dest, buckets, existing, sizes).total_bytes
            == u64::MAX,
{
    let parts = choose|parts: Seq<Seq<FsEvent>>|
        t == strung(parts) && #[trigger] all_measured(s.shots, parts, sizes);
    assert(parts.take(parts.len() as int) =~= parts);
    lemma_total(s.shots, parts, sizes, s.shots.len() as int);
    lemma_told(t, lens);
}

proof fn lemma_measured_moves(
    shots: Seq<ShotView>,
    ops: Seq<OpView>,
    parts: Seq<Seq<FsEvent>>,
    n: int,
)
    requires
        0 <= n <= shots.len(),
        ops.len() == shots.len(),
        parts.len() == shots.len(),
        forall|i: int| 0 <= i < shots.len() ==> measured(shots[i].files(), #[trigger] parts[i]),
        forall|i: int|
            0 <= i < shots.len() ==> (#[trigger] ops[i]).moves.len() == shots[i].files().len(),
        forall|i: int, k: int|
            0 <= i < shots.len() && 0 <= k < shots[i].files().len() ==> (
            #[trigger] ops[i].moves[k]).from == shots[i].files()[k],
    ensures
        all_moves(ops.take(n)).len() == strung(parts.take(n)).len(),
        forall|k: int|
            0 <= k < strung(parts.take(n)).len() ==> (#[trigger] strung(
                parts.take(n),
            )[k])->FileLen_path == all_moves(ops.take(n))[k].from,
    decreases n,
{
    if n > 0 {
        lemma_measured_moves(shots, ops, parts, n - 1);
        assert(parts.take(n).drop_last() =~= parts.take(n - 1));
        assert(ops.take(n).drop_last() =~= ops.take(n - 1));
        assert(measured(shots[n - 1].files(), parts[n - 1]));
        assert(ops[n - 1].moves.len() == shots[n - 1].files().len());
        let t = strung(parts.take(n));
        let m = all_moves(ops.take(n));
        let front = strung(parts.take(n - 1));
        assert forall|k: int| 0 <= k < t.len() implies (#[trigger] t[k])->FileLen_path
            == m[k].from by {
            if k < front.len() {
                assert(t[k] == front[k]);
                assert(m[k] == all_moves(ops.take(n - 1))[k]);
            } else {
                let j = k - front.len();
                assert(t[k] == parts[n - 1][j]);
                assert(m[k] == ops[n - 1].moves[j]);
            }
        }
    }
}

/// The files that are measured for a plan are the files that it moves, each of them once and
/// in the same order: the total counts everything that moves and nothing else.
pub proof fn what_is_measured_is_what_moves(
    s: SessionView,
    dest: Seq<char>,
    buckets: Seq<Seq<char>>,
    existing: Seq<Seq<char>>,
    sizes: Seq<(Seq<char>, u64)>,
    t: Seq<FsEvent>,
)
    requires
        sizes_ran(s.shots, t, sizes),
    ensures
        ({
            let moves = all_moves(planned(s, dest, buckets, existing, sizes).ops);
            &&& moves.len() == t.len()
            &&& forall|k: int|
                0 <= k < t.len() ==> (#[trigger] t[k])->FileLen_path == moves[k].from
        }),
{
    let parts = choose|parts: Seq<Seq<FsEvent>>|
        t == strung(parts) && #[trigger] all_measured(s.shots, parts, sizes);
    let ops = planned(s, dest, buckets, existing, sizes).ops;
    let n = s.shots.len() as int;
    crate::plan::lemma_op_count(s, dest, buckets, existing, sizes);
    assert forall|i: int| 0 <= i < n implies (#[trigger] ops[i]).moves.len()
        == s.shots[i].files().len() by {
        lemma_op_at(s, dest, buckets, existing, sizes, i);
    }
    assert forall|i: int, k: int|
        0 <= i < n && 0 <= k < s.shots[i].files().len() implies (#[trigger] ops[i].moves[k]).from
        == s.shots[i].files()[k] by {
        lemma_op_at(s, dest, buckets, existing, sizes, i);
    }
    lemma_measured_moves(s.shots, ops, parts, n);
    assert(parts.take(n) =~= parts);
    assert(ops.take(n) =~= ops);
}

/// Space is short only where the move crosses filesystems, the free space is known and it is
/// less than what moves.
pub proof fn space_is_short_when_less_is_free_than_moves(
    plan: PlanView,
    stale: usize,
    leftovers: usize,
    free: u64,
)
    ensures
        preview_of(plan, stale, leftovers, true, Some(free)).enough_space <==> plan.total_bytes
            <= free,
        preview_of(plan, stale, leftovers, true, None).enough_space,
        preview_of(plan, stale, leftovers, false, Some(free)).enough_space,
        preview_of(plan, stale, leftovers, false, None).enough_space,
{
}

/// A preview shows what it is given: the counts and the total of the plan, how many shots
/// are stale, how many files stay behind, and the space.
pub proof fn a_preview_shows_the_plan(
    plan: PlanView,
    stale: usize,
    leftovers: usize,
    cross_fs: bool,
    free: Option<u64>,
)
    requires
        plan.ops.len() <= usize::MAX,
        plan.skipped_sidecar_writes.len() <= usize::MAX,
    ensures
        ({
            let p = preview_of(plan, stale, leftovers, cross_fs, free);
            &&& p.per_bucket == plan.per_bucket_counts
            &&& p.collisions == numbered_places(plan.ops).len()
            &&& p.skipped_sidecars == plan.skipped_sidecar_writes.len()
            &&& p.stale == stale
            &&& p.leftovers == leftovers
            &&& p.total_bytes == plan.total_bytes
            &&& p.cross_fs == cross_fs
            &&& p.free_bytes == free
        }),
{
    lemma_numbered(plan.ops);
}

/// The places of the operations that move under a name with a number.
pub open spec fn numbered_places(ops: Seq<OpView>) -> Set<int> {
    Set::new(|k: int| 0 <= k < ops.len() && ops[k].suffix is Some)
}

proof fn lemma_numbered(ops: Seq<OpView>)
    ensures
        numbered_places(ops).finite(),
        suffixed_count(ops) == numbered_places(ops).len(),
        suffixed_count(ops) <= ops.len(),
    decreases ops.len(),
{
    if ops.len() == 0 {
        assert(numbered_places(ops) =~= Set::empty());
    } else {
        let front = ops.drop_last();
        lemma_numbered(front);
        if ops.last().suffix is Some {
            assert(numbered_places(ops) =~= numbered_places(front).insert(ops.len() - 1));
        } else {
            assert(numbered_places(ops) =~= numbered_places(front));
        }
    }
}

/// The shots that are there are kept in their order and the others are named in theirs: what
/// holds of two lists one after the other is put together from what holds of each.
pub proof fn shots_are_kept_or_named(
    a: Seq<ShotView>,
    there_a: Seq<bool>,
    b: Seq<ShotView>,
    there_b: Seq<bool>,
    shot: ShotView,
)
    requires
        a.len() == there_a.len(),
        b.len() == there_b.len(),
    ensures
        present(a + b, there_a + there_b) == present(a, there_a) + present(b, there_b),
        gone(a + b, there_a + there_b) == gone(a, there_a) + gone(b, there_b),
        present(seq![shot], seq![true]) == seq![shot],
        present(seq![shot], seq![false]).len() == 0,
        gone(seq![shot], seq![true]).len() == 0,
        gone(seq![shot], seq![false]) == seq![shot.stem],
        present(a, there_a).len() + gone(a, there_a).len() == a.len(),
    decreases a.len() + b.len(),
{
    assert(seq![shot].drop_last() =~= Seq::empty());
    assert(seq![true].drop_last() =~= Seq::empty());
    assert(seq![false].drop_last() =~= Seq::empty());
    reveal_with_fuel(present, 2);
    reveal_with_fuel(gone, 2);
    assert(Seq::<ShotView>::empty().push(shot) =~= seq![shot]);
    assert(Seq::<Seq<char>>::empty().push(shot.stem) =~= seq![shot.stem]);
    if a.len() > 0 {
        shots_are_kept_or_named(
            a.drop_last(),
            there_a.drop_last(),
            Seq::empty(),
            Seq::empty(),
            shot,
        );
    }
    if b.len() == 0 {
        assert(a + b =~= a);
        assert(there_a + there_b =~= there_a);
    } else {
        shots_are_kept_or_named(a, there_a, b.drop_last(), there_b.drop_last(), shot);
        assert((a + b).drop_last() =~= a + b.drop_last());
        assert((there_a + there_b).drop_last() =~= there_a + there_b.drop_last());
        assert((a + b).last() == b.last());
        assert((there_a + there_b).last() == there_b.last());
        assert(present(a + b, there_a + there_b) =~= present(a, there_a) + present(b, there_b));
        assert(gone(a + b, there_a + there_b) =~= gone(a, there_a) + gone(b, there_b));
    }
}

/// A shot is there when every one of its files was found, and it is stale as soon as one was
/// not.
pub proof fn a_shot_is_there_when_all_its_files_are(
    files: Seq<Seq<char>>,
    t: Seq<FsEvent>,
    all_there: bool,
)
    requires
        probed(files, t, all_there),
    ensures
        all_there ==> t.len() == files.len(),
        all_there ==> forall|k: int|
            0 <= k < t.len() ==> #[trigger] t[k] == (FsEvent::IsThere {
                path: files[k],
                reply: true,
            }),
        !all_there ==> 0 < t.len() <= files.len() && t.last() == (FsEvent::IsThere {
            path: files[t.len() - 1],
            reply: false,
        }),
{
    if !all_there {
        assert(t[t.len() - 1] is IsThere);
    }
}

/// Every entry that a bucket was found to hold stands in the list of what is there, under
/// the name of the bucket and its own.
pub proof fn what_a_bucket_holds_is_listed(
    dest: Seq<char>,
    buckets: Seq<Seq<char>>,
    t: Seq<FsEvent>,
    existing: Seq<Seq<char>>,
    b: int,
    v: Seq<Result<EntryView, FsErrorView>>,
    i: int,
    name: Seq<char>,
)
    requires
        existing_ran(dest, buckets, t, existing),
        0 <= b < buckets.len(),
        t[b] is ListDir,
        t[b]->ListDir_reply == Ok::<Seq<Result<EntryView, FsErrorView>>, FsErrorView>(v),
        0 <= i < v.len(),
        v[i] is Ok,
        v[i]->Ok_0.name == Some(name),
    ensures
        existing.contains(buckets[b] + seq!['/'] + name),
{
    reveal_strlit("/");
    assert("/"@ =~= seq!['/']);
    let x = buckets[b] + "/"@ + name;
    assert(crate::preview::entry_below(buckets[b], v[i]) == Some(x));
    assert(lists(buckets[b], t[b]->ListDir_reply, x));
    assert(listed_among(buckets, t, t.len() as int, x));
}

/// The places of the entries that stay behind: files that are not hidden and belong to no
/// shot.
pub open spec fn places_left(
    shots: Seq<ShotView>,
    entries: Seq<Result<EntryView, FsErrorView>>,
) -> Set<int> {
    Set::new(
        |k: int|
            {
                &&& 0 <= k < entries.len()
                &&& entries[k] is Ok
                &&& entries[k]->Ok_0.entry_type == EntryType::NotDir
                &&& !entries[k]->Ok_0.hidden
                &&& entries[k]->Ok_0.name is Some ==> !is_shot_file(
                    shots,
                    entries[k]->Ok_0.name->0,
                )
            },
    )
}

/// What stays behind is counted entry by entry.
pub proof fn leftovers_are_counted_one_by_one(
    shots: Seq<ShotView>,
    entries: Seq<Result<EntryView, FsErrorView>>,
)
    ensures
        places_left(shots, entries).finite(),
        leftover_count(shots, entries) == places_left(shots, entries).len(),
    decreases entries.len(),
{
    if entries.len() == 0 {
        assert(places_left(shots, entries) =~= Set::empty());
    } else {
        let front = entries.drop_last();
        let n = entries.len() - 1;
        leftovers_are_counted_one_by_one(shots, front);
        if crate::preview::stays_behind(shots, entries.last()) {
            assert(places_left(shots, entries) =~= places_left(shots, front).insert(n));
        } else {
            assert(places_left(shots, entries) =~= places_left(shots, front));
        }
    }
}

/// A file of a shot never counts as left behind, and neither does a directory or a hidden
/// entry.
pub proof fn a_file_of_a_shot_is_not_left_behind(
    shots: Seq<ShotView>,
    i: int,
    k: int,
    name: Seq<char>,
    e: EntryView,
)
    requires
        0 <= i < shots.len(),
        0 <= k < shots[i].files().len(),
        crate::paths::file_name(shots[i].files()[k]) == Some(name),
        e.name == Some(name) || e.entry_type != EntryType::NotDir || e.hidden,
    ensures
        !crate::preview::stays_behind(shots, Ok(e)),
{
    assert(crate::preview::has_file_named(shots[i], name));
}

/// The path that an event asks about.
pub open spec fn asked_path(e: FsEvent) -> Seq<char> {
    e->IsThere_path
}

/// The nearest ancestor is looked for from the path itself upwards, one folder at a time, up
/// to the first that is there; where none is, all of them were asked for.
pub proof fn the_nearest_ancestor_is_looked_for_upwards(
    p: Seq<char>,
    t: Seq<FsEvent>,
    r: Option<Seq<char>>,
)
    requires
        climbed(p, t, r),
    ensures
        t.len() > 0,
        asked_path(t[0]) == p,
        forall|k: int| 0 <= k < t.len() ==> (#[trigger] t[k]) is IsThere,
        forall|k: int|
            0 <= k < t.len() - 1 ==> !(#[trigger] t[k])->IsThere_reply && parent(asked_path(t[k]))
                == Some(asked_path(t[k + 1])),
        r matches Some(q) ==> t.last() == (FsEvent::IsThere { path: q, reply: true }),
        r is None ==> !t.last()->IsThere_reply && parent(asked_path(t.last())) is None,
    decreases t.len(),
{
    if !t[0]->IsThere_reply && parent(p) is Some {
        let u = t.skip(1);
        let q = parent(p)->0;
        the_nearest_ancestor_is_looked_for_upwards(q, u, r);
        assert(u[0] == t[1]);
        assert(u.last() == t.last());
        assert forall|k: int| 0 <= k < t.len() implies (#[trigger] t[k]) is IsThere by {
            if k > 0 {
                assert(u[k - 1] == t[k]);
            }
        }
        assert forall|k: int| 0 <= k < t.len() - 1 implies !(#[trigger] t[k])->IsThere_reply
            && parent(asked_path(t[k])) == Some(asked_path(t[k + 1])) by {
            if k > 0 {
                assert(u[k - 1] == t[k]);
                assert(u[k] == t[k + 1]);
            }
        }
    }
}

/// A move counts as crossing filesystems only where the disk said that the source and the
/// nearest folder of the destination are on two; where it could not be told, it does not.
pub proof fn a_move_crosses_where_the_disk_says_so(
    source: Seq<char>,
    dest: Seq<char>,
    t: Seq<FsEvent>,
    cross: bool,
)
    requires
        cross_probed(source, dest, t, cross),
    ensures
        cross ==> t.len() >= 2 && t.last() is SameFilesystem && t.last()->SameFilesystem_a
            == source && t.last()->SameFilesystem_reply == Ok::<bool, FsErrorView>(false)
            && t[t.len() - 2] == (FsEvent::IsThere {
            path: t.last()->SameFilesystem_b,
            reply: true,
        }),
        !cross && t.last() is SameFilesystem ==> t.last()->SameFilesystem_reply != Ok::<
            bool,
            FsErrorView,
        >(false),
{
    if t.last() is SameFilesystem {
        if climbed(dest, t, None) {
            the_nearest_ancestor_is_looked_for_upwards(dest, t, None);
            assert(t[t.len() - 1] is IsThere);
        }
        let u = t.drop_last();
        the_nearest_ancestor_is_looked_for_upwards(dest, u, Some(t.last()->SameFilesystem_b));
        assert(u.last() == t[t.len() - 2]);
    }
}

/// The free space is asked for at the destination, and only where the move crosses
/// filesystems; where it could not be told it is not known.
pub proof fn free_space_is_asked_for_where_it_is_needed(
    dest: Seq<char>,
    cross: bool,
    t: Seq<FsEvent>,
    free: Option<u64>,
)
    requires
        space_asked(dest, cross, t, free),
    ensures
        cross <==> t.len() == 1,
        !cross ==> t.len() == 0 && free is None,
        cross ==> t[0] is FreeSpace && t[0]->FreeSpace_path == dest,
        free matches Some(n) ==> cross && t[0]->FreeSpace_reply == Ok::<u64, FsErrorView>(n),
        cross && free is None ==> t[0]->FreeSpace_reply is Err,
{
}

/// A preview shows the plan that goes with it: as many stale shots as are left out of the
/// plan, and the total, the counts and the judgement on space that follow from the plan.
pub proof fn a_preview_goes_with_its_plan(
    s: SessionView,
    dest: Seq<char>,
    buckets: Seq<Seq<char>>,
    t: Seq<FsEvent>,
    plan: PlanView,
    p: ApplyPreview,
)
    requires
        preview_ran(s, dest, buckets, t, plan, p),
        s.shots.len() <= usize::MAX,
    ensures
        p.stale + plan.ops.len() == s.shots.len(),
        p.total_bytes == plan.total_bytes,
        p.per_bucket == plan.per_bucket_counts,
        p.enough_space <==> !p.cross_fs || p.free_bytes is None || p.free_bytes->0
            >= plan.total_bytes,
        plan.dest == dest,
        plan.buckets == buckets,
{
    let (a, b, c, d, kept, stale, existing, sizes) = choose|
        a: Seq<FsEvent>,
        b: Seq<FsEvent>,
        c: Seq<FsEvent>,
        d: Seq<FsEvent>,
        kept: SessionView,
        stale: Seq<Seq<char>>,
        existing: Seq<Seq<char>>,
        sizes: Seq<(Seq<char>, u64)>,
    |
        {
            &&& t == a + b + c + d
            &&& #[trigger] partition_ran(s, a, kept, stale)
            &&& #[trigger] gather_ran(
                kept,
                dest,
                buckets,
                b,
                existing,
                sizes,
                p.leftovers as int,
            )
            &&& plan == planned(kept, dest, buckets, existing, sizes)
            &&& #[trigger] cross_probed(s.source_dir, dest, c, p.cross_fs)
            &&& #[trigger] space_asked(dest, p.cross_fs, d, p.free_bytes)
            &&& p == preview_of(
                plan,
                stale.len() as usize,
                p.leftovers,
                p.cross_fs,
                p.free_bytes,
            )
        };
    let (parts, there) = choose|parts: Seq<Seq<FsEvent>>, there: Seq<bool>|
        {
            &&& #[trigger] all_probed(s.shots, parts, there)
            &&& a == strung(parts)
            &&& kept == without_stale(s, there)
            &&& sorted_from(stale, gone(s.shots, there))
        };
    let g = gone(s.shots, there);
    broadcast use vstd::seq_lib::group_to_multiset_ensures;

    assert(stale.to_multiset().len() == g.to_multiset().len());
    assert(stale.len() == g.len());
    lemma_kept_and_gone(s.shots, there);
    crate::plan::lemma_op_count(kept, dest, buckets, existing, sizes);
}

proof fn lemma_kept_and_gone(shots: Seq<ShotView>, there: Seq<bool>)
    requires
        shots.len() == there.len(),
    ensures
        present(shots, there).len() + gone(shots, there).len() == shots.len(),
    decreases shots.len(),
{
    if shots.len() > 0 {
        lemma_kept_and_gone(shots.drop_last(), there.drop_last());
    }
}

/// What stays behind is counted in the source folder; a folder that cannot be listed leaves
/// nothing.
pub proof fn leftovers_are_those_of_the_source_folder(
    source_dir: Seq<char>,
    shots: Seq<ShotView>,
    t: Seq<FsEvent>,
    leftovers: int,
)
    requires
        leftovers_ran(source_dir, shots, t, leftovers),
    ensures
        t.len() == 1,
        t[0] is ListDir && t[0]->ListDir_path == source_dir,
        t[0]->ListDir_reply matches Ok(entries) ==> leftovers == places_left(shots, entries).len(),
        t[0]->ListDir_reply is Err ==> leftovers == 0,
{
    if let Ok(entries) = t[0]->ListDir_reply {
        leftovers_are_counted_one_by_one(shots, entries);
    }
}

/// Leaving stale shots out leaves everything else of the session as it is.
pub proof fn leaving_stale_shots_out_keeps_the_rest(s: SessionView, there: Seq<bool>)
    ensures
        without_stale(s, there).decisions == s.decisions,
        without_stale(s, there).source_dir == s.source_dir,
        without_stale(s, there).current == s.current,
        without_stale(s, there).undo == s.undo,
        without_stale(s, there).pending_apply == s.pending_apply,
{
}

} // verus!
