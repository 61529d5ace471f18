//! What an apply would do, gathered from the disk before it starts: which shots are still
//! there, what stands at the destination, how large the files are, what stays behind.
use vstd::prelude::*;
use crate::fsops::{
    listing_reply, listing_view, EntryType, EntryView, FsErrorView, FsEvent, FsLog, FsOps,
};
use crate::model::{shot_views, Session, SessionView, Shot, ShotView};
use crate::paths::{
    file_name, file_name_of, join, join_path, lemma_parent_is_shorter, parent, parent_of,
};
use crate::plan::{
    op_views, plan, planned, saturated, size_views, ApplyPlan, OpView, PlanView, TierCountsPlan,
};
use crate::records::{extends, since, since_adds_up, since_grows, since_starts_empty};
use crate::session::{ascending, insert_sorted};
use crate::text::{at_or_before, contains_text, text_le, text_le_total, text_le_transitive, texts};

verus! {

/// Whether one text comes at or before the next all along.
pub open spec fn in_text_order(s: Seq<Seq<char>>) -> bool {
    forall|i: int, j: int| #![trigger s[i], s[j]] 0 <= i < j < s.len() ==> text_le(s[i], s[j])
}

/// Whether `r` is `s` in ascending order.
pub open spec fn sorted_from(r: Seq<Seq<char>>, s: Seq<Seq<char>>) -> bool {
    in_text_order(r) && r.to_multiset() == s.to_multiset()
}

fn insert_in_order(list: &mut Vec<String>, t: String)
    requires
        in_text_order(texts(old(list)@)),
    ensures
        in_text_order(texts(final(list)@)),
        texts(final(list)@).to_multiset() == texts(old(list)@).to_multiset().insert(t@),
{
    let ghost before = texts(list@);
    let ghost x = t@;
    let mut i: usize = list.len();
    while i > 0 && !at_or_before(list[i - 1].as_str(), t.as_str())
        invariant
            0 <= i <= list@.len(),
            before == texts(list@),
            x == t@,
            forall|k: int| i <= k < before.len() ==> !text_le(#[trigger] before[k], x),
        decreases i,
    {
        assert(before[i - 1] == list@[i - 1]@);
        i -= 1;
    }
    proof {
        if i > 0 {
            assert(before[i - 1] == list@[i - 1]@);
        }
    }
    list.insert(i, t);
    proof {
        let after = texts(list@);
        assert(after =~= before.insert(i as int, x));
        vstd::seq_lib::to_multiset_insert(before, i as int, x);
        assert forall|a: int, b: int|
            #![trigger after[a], after[b]]
            0 <= a < b < after.len() implies text_le(after[a], after[b]) by {
            let p = if a < i { a } else { a - 1 };
            let q = if b < i { b } else { b - 1 };
            if a == i {
                assert(after[b] == before[q]);
                text_le_total(x, before[q]);
            } else if b == i {
                assert(after[a] == before[p]);
                if p < i - 1 {
                    text_le_transitive(before[p], before[i - 1], x);
                }
            } else {
                assert(after[a] == before[p] && after[b] == before[q]);
            }
        }
    }
}

/// Stretches of one history, put together.
pub open spec fn strung(parts: Seq<Seq<FsEvent>>) -> Seq<FsEvent>
    decreases parts.len(),
{
    if parts.len() == 0 {
        Seq::empty()
    } else {
        strung(parts.drop_last()) + parts.last()
    }
}

/// The history of looking whether all of the files are there: they are tried in turn, up
/// to the first that is not.
pub open spec fn probed(files: Seq<Seq<char>>, t: Seq<FsEvent>, all_there: bool) -> bool {
    &&& t.len() <= files.len()
    &&& forall|i: int|
        0 <= i < t.len() ==> #[trigger] t[i] == (FsEvent::IsThere {
            path: files[i],
            reply: all_there || i < t.len() - 1,
        })
    &&& if all_there {
        t.len() == files.len()
    } else {
        t.len() >= 1
    }
}

/// The history of looking for the files of all shots: one stretch for each, which tells
/// whether all of its files are there.
pub open spec fn all_probed(
    shots: Seq<ShotView>,
    parts: Seq<Seq<FsEvent>>,
    there: Seq<bool>,
) -> bool {
    &&& parts.len() == shots.len()
    &&& there.len() == shots.len()
    &&& forall|i: int|
        0 <= i < shots.len() ==> probed(shots[i].files(), #[trigger] parts[i], there[i])
}

/// The shots of which all files are there.
pub open spec fn present(shots: Seq<ShotView>, there: Seq<bool>) -> Seq<ShotView>
    decreases shots.len(),
{
    if shots.len() == 0 {
        Seq::empty()
    } else {
        let front = present(shots.drop_last(), there.drop_last());
        if there.last() {
            front.push(shots.last())
        } else {
            front
        }
    }
}

/// The stems of the shots of which a file is gone.
pub open spec fn gone(shots: Seq<ShotView>, there: Seq<bool>) -> Seq<Seq<char>>
    decreases shots.len(),
{
    if shots.len() == 0 {
        Seq::empty()
    } else {
        let front = gone(shots.drop_last(), there.drop_last());
        if there.last() {
            front
        } else {
            front.push(shots.last().stem)
        }
    }
}

/// The session without the shots of which a file is gone. Its decisions stay as they are.
pub open spec fn without_stale(s: SessionView, there: Seq<bool>) -> SessionView {
    SessionView { shots: present(s.shots, there), ..s }
}

/// The history of telling the shots that are there from those that are not.
pub open spec fn partition_ran(
    s: SessionView,
    t: Seq<FsEvent>,
    kept: SessionView,
    stale: Seq<Seq<char>>,
) -> bool {
    exists|parts: Seq<Seq<FsEvent>>, there: Seq<bool>|
        {
            &&& #[trigger] all_probed(s.shots, parts, there)
            &&& t == strung(parts)
            &&& kept == without_stale(s, there)
            &&& sorted_from(stale, gone(s.shots, there))
        }
}

fn all_there<F: FsOps>(files: &Vec<String>, fs: &mut FsLog<F>) -> (r: bool)
    ensures
        extends(final(fs).log(), old(fs).log()),
        probed(texts(files@), since(final(fs).log(), old(fs).log()), r),
{
    let ghost start = fs.log();
    let mut i: usize = 0;
    proof {
        since_starts_empty(start);
    }
    while i < files.len()
        invariant
            start == old(fs).log(),
            0 <= i <= files@.len(),
            extends(fs.log(), start),
            since(fs.log(), start).len() == i,
            forall|k: int|
                0 <= k < i ==> #[trigger] since(fs.log(), start)[k] == (FsEvent::IsThere {
                    path: texts(files@)[k],
                    reply: true,
                }),
        decreases files@.len() - i,
    {
        let ghost before = fs.log();
        let there = fs.is_there(files[i].as_str());
        proof {
            since_grows(start, before, fs.log());
            let t = since(fs.log(), start);
            assert forall|k: int| 0 <= k < i implies #[trigger] t[k] == (FsEvent::IsThere {
                path: texts(files@)[k],
                reply: true,
            }) by {
                assert(t[k] == since(before, start)[k]);
            }
        }
        if !there {
            return false;
        }
        i += 1;
    }
    true
}

/// Tells the shots that are there from those that are not. A shot is stale as soon as one
/// of its files is gone. Gives the session without the stale shots, and their stems in
/// ascending order.
pub fn partition_stale<F: FsOps>(session: &Session, fs: &mut FsLog<F>) -> (r: (
    Session,
    Vec<String>,
))
    ensures
        extends(final(fs).log(), old(fs).log()),
        partition_ran(
            session@,
            since(final(fs).log(), old(fs).log()),
            r.0@,
            texts(r.1@),
        ),
{
    let ghost start = fs.log();
    let ghost all = session@.shots;
    let mut kept: Vec<Shot> = Vec::new();
    let mut stale: Vec<String> = Vec::new();
    let mut i: usize = 0;
    let ghost mut parts: Seq<Seq<FsEvent>> = Seq::empty();
    let ghost mut there: Seq<bool> = Seq::empty();
    proof {
        since_starts_empty(start);
        assert(all.take(0) =~= Seq::empty());
        assert(shot_views(kept@) =~= present(all.take(0), there));
        assert(texts(stale@) =~= gone(all.take(0), there));
    }
    while i < session.shots.len()
        invariant
            start == old(fs).log(),
            0 <= i <= session.shots@.len(),
            all == session@.shots,
            all == shot_views(session.shots@),
            extends(fs.log(), start),
            all_probed(all.take(i as int), parts, there),
            since(fs.log(), start) == strung(parts),
            shot_views(kept@) == present(all.take(i as int), there),
            sorted_from(texts(stale@), gone(all.take(i as int), there)),
        decreases session.shots@.len() - i,
    {
        let ghost before = fs.log();
        let shot: &Shot = &session.shots[i];
        assert(all[i as int] == shot@);
        let files = shot.files();
        let found = all_there(&files, fs);
        let ghost old_kept = shot_views(kept@);
        let ghost old_there = there;
        let ghost part = since(fs.log(), before);
        proof {
            since_adds_up(start, before, fs.log());
            let more = parts.push(part);
            assert(more.drop_last() =~= parts);
            assert(there.push(found).drop_last() =~= there);
            assert(all.take(i + 1).drop_last() =~= all.take(i as int));
            assert(all.take(i + 1).last() == shot@);
            assert forall|k: int| 0 <= k < i + 1 implies probed(
                all.take(i + 1)[k].files(),
                #[trigger] more[k],
                there.push(found)[k],
            ) by {
                if k < i {
                    assert(more[k] == parts[k]);
                    assert(all.take(i + 1)[k] == all.take(i as int)[k]);
                }
            }
            parts = more;
            there = there.push(found);
        }
        if found {
            kept.push(shot.clone());
            assert(shot_views(kept@) =~= old_kept.push(shot@));
        } else {
            insert_in_order(&mut stale, shot.stem.clone());
            proof {
                broadcast use vstd::seq_lib::group_to_multiset_ensures;

                let g = gone(all.take(i as int), there.drop_last());
                assert(there.drop_last() =~= old_there);
                assert(gone(all.take(i + 1), there) == g.push(shot@.stem));
                assert(g.push(shot@.stem).to_multiset() =~= g.to_multiset().insert(shot@.stem));
            }
        }
        i += 1;
    }
    proof {
        assert(all.take(i as int) =~= all);
    }
    let mut filtered = session.clone();
    filtered.shots = kept;
    assert(filtered@ == without_stale(session@, there));
    assert(all_probed(session@.shots, parts, there));
    (filtered, stale)
}

/// An entry of a bucket by its path below the destination, where its name is known.
pub open spec fn entry_below(
    bucket: Seq<char>,
    e: Result<EntryView, FsErrorView>,
) -> Option<Seq<char>> {
    match e {
        Ok(e) => match e.name {
            Some(n) => Some(bucket + "/"@ + n),
            None => None,
        },
        Err(_) => None,
    }
}

/// Whether the listing of a bucket, if there is one, holds the path `x`.
pub open spec fn lists(
    bucket: Seq<char>,
    reply: Result<Seq<Result<EntryView, FsErrorView>>, FsErrorView>,
    x: Seq<char>,
) -> bool {
    &&& reply matches Ok(v)
    &&& exists|i: int| 0 <= i < v.len() && entry_below(bucket, #[trigger] v[i]) == Some(x)
}

/// Whether the event lists the bucket.
pub open spec fn lists_bucket(e: FsEvent, dest: Seq<char>, bucket: Seq<char>) -> bool {
    e matches FsEvent::ListDir { path, .. } && path == join(dest, bucket)
}

/// Whether one of the first `n` listings holds the path `x`.
pub open spec fn listed_among(
    buckets: Seq<Seq<char>>,
    t: Seq<FsEvent>,
    n: int,
    x: Seq<char>,
) -> bool {
    exists|b: int| 0 <= b < n && #[trigger] lists(buckets[b], t[b]->ListDir_reply, x)
}

/// The history of listing what the buckets hold. A bucket that cannot be listed holds
/// nothing; the paths are below the destination, ascending, each of them once.
pub open spec fn existing_ran(
    dest: Seq<char>,
    buckets: Seq<Seq<char>>,
    t: Seq<FsEvent>,
    existing: Seq<Seq<char>>,
) -> bool {
    &&& t.len() == buckets.len()
    &&& forall|b: int| 0 <= b < t.len() ==> lists_bucket(#[trigger] t[b], dest, buckets[b])
    &&& ascending(existing)
    &&& forall|x: Seq<char>| #[trigger]
        existing.contains(x) <==> listed_among(buckets, t, t.len() as int, x)
}

fn list_existing<F: FsOps>(dest: &str, buckets: &[String; 5], fs: &mut FsLog<F>) -> (r: Vec<
    String,
>)
    ensures
        extends(final(fs).log(), old(fs).log()),
        existing_ran(
            dest@,
            texts(buckets@),
            since(final(fs).log(), old(fs).log()),
            texts(r@),
        ),
{
    let ghost start = fs.log();
    let ghost names = texts(buckets@);
    let mut out: Vec<String> = Vec::new();
    let mut b: usize = 0;
    proof {
        since_starts_empty(start);
        assert(texts(out@) =~= Seq::empty());
    }
    while b < 5
        invariant
            start == old(fs).log(),
            0 <= b <= 5,
            names == texts(buckets@),
            names.len() == 5,
            extends(fs.log(), start),
            since(fs.log(), start).len() == b,
            forall|k: int|
                0 <= k < b ==> lists_bucket(
                    #[trigger] since(fs.log(), start)[k],
                    dest@,
                    names[k],
                ),
            ascending(texts(out@)),
            forall|x: Seq<char>| #[trigger]
                texts(out@).contains(x) <==> listed_among(
                    names,
                    since(fs.log(), start),
                    b as int,
                    x,
                ),
        decreases 5 - b,
    {
        let ghost before = fs.log();
        let ghost t0 = since(before, start);
        let ghost had = texts(out@);
        let bucket = buckets[b].as_str();
        let dir = join_path(dest, bucket);
        let reply = fs.list_dir(dir.as_str());
        let ghost t = since(fs.log(), start);
        let ghost answer = listing_reply(reply);
        proof {
            since_grows(start, before, fs.log());
            assert(names[b as int] == bucket@);
            assert forall|k: int| 0 <= k < b + 1 implies lists_bucket(
                #[trigger] t[k],
                dest@,
                names[k],
            ) by {
                if k < b {
                    assert(t[k] == t0[k]);
                }
            }
        }
        if let Ok(v) = reply {
            let mut i: usize = 0;
            let ghost lv = listing_view(v@);
            while i < v.len()
                invariant
                    0 <= i <= v@.len(),
                    lv == listing_view(v@),
                    ascending(texts(out@)),
                    forall|x: Seq<char>| #[trigger]
                        texts(out@).contains(x) <==> had.contains(x) || exists|k: int|
                            0 <= k < i && entry_below(bucket@, #[trigger] lv[k]) == Some(x),
                decreases v@.len() - i,
            {
                let ghost now = texts(out@);
                assert(lv[i as int] == crate::fsops::entry_reply(v@[i as int]));
                let name: Option<&String> = match &v[i] {
                    Ok(e) => match &e.name {
                        Some(n) => Some(n),
                        None => None,
                    },
                    Err(_) => None,
                };
                match name {
                    Some(n) => {
                        let mut p = bucket.to_owned();
                        p.append("/");
                        p.append(n.as_str());
                        let ghost px = p@;
                        assert(entry_below(bucket@, lv[i as int]) == Some(px));
                        insert_sorted(&mut out, p);
                        assert forall|x: Seq<char>| #[trigger]
                            texts(out@).contains(x) <==> had.contains(x) || exists|k: int|
                                0 <= k < i + 1 && entry_below(bucket@, #[trigger] lv[k]) == Some(
                                    x,
                                ) by {
                            assert(texts(out@).contains(x) <==> now.contains(x) || x == px);
                            if x == px {
                                assert(entry_below(bucket@, lv[i as int]) == Some(x));
                            }
                        }
                    },
                    None => {
                        assert(entry_below(bucket@, lv[i as int]) is None);
                    },
                }
                i += 1;
            }
            proof {
                assert forall|x: Seq<char>| #[trigger]
                    texts(out@).contains(x) <==> had.contains(x) || lists(
                        bucket@,
                        answer,
                        x,
                    ) by {}
            }
        }
        proof {
            assert forall|x: Seq<char>| #[trigger]
                texts(out@).contains(x) <==> listed_among(names, t, b + 1, x) by {
                assert(texts(out@).contains(x) <==> had.contains(x) || lists(
                    bucket@,
                    answer,
                    x,
                ));
                assert(had.contains(x) <==> listed_among(names, t0, b as int, x));
                if listed_among(names, t0, b as int, x) {
                    let k = choose|k: int|
                        0 <= k < b && #[trigger] lists(names[k], t0[k]->ListDir_reply, x);
                    assert(t[k] == t0[k]);
                    assert(lists(names[k], t[k]->ListDir_reply, x));
                }
                if lists(bucket@, answer, x) {
                    assert(lists(names[b as int], t[b as int]->ListDir_reply, x));
                }
                if listed_among(names, t, b + 1, x) {
                    let k = choose|k: int|
                        0 <= k < b + 1 && #[trigger] lists(names[k], t[k]->ListDir_reply, x);
                    if k < b {
                        assert(t[k] == t0[k]);
                        assert(lists(names[k], t0[k]->ListDir_reply, x));
                    }
                }
            }
        }
        b += 1;
    }
    out
}

/// The length that an event told of a file; none where it could not tell.
pub open spec fn told_len(e: FsEvent) -> int {
    match e {
        FsEvent::FileLen { reply, .. } => match reply {
            Ok(n) => n as int,
            Err(_) => 0,
        },
        _ => 0,
    }
}

/// The sum of the lengths that the events told.
pub open spec fn told_sum(t: Seq<FsEvent>) -> int
    decreases t.len(),
{
    if t.len() == 0 {
        0
    } else {
        told_sum(t.drop_last()) + told_len(t.last())
    }
}

/// The history of measuring files: each is asked for its length in turn.
pub open spec fn measured(files: Seq<Seq<char>>, t: Seq<FsEvent>) -> bool {
    &&& t.len() == files.len()
    &&& forall|i: int|
        0 <= i < t.len() ==> (#[trigger] t[i] matches FsEvent::FileLen { path, .. } && path
            == files[i])
}

/// The history of measuring all shots: one stretch for each.
pub open spec fn all_measured(
    shots: Seq<ShotView>,
    parts: Seq<Seq<FsEvent>>,
    sizes: Seq<(Seq<char>, u64)>,
) -> bool {
    &&& parts.len() == shots.len()
    &&& sizes.len() == shots.len()
    &&& forall|i: int|
        0 <= i < shots.len() ==> measured(shots[i].files(), #[trigger] parts[i]) && sizes[i] == (
            shots[i].stem,
            saturated(told_sum(parts[i])),
        )
}

/// The history of taking the sizes of the shots.
pub open spec fn sizes_ran(
    shots: Seq<ShotView>,
    t: Seq<FsEvent>,
    sizes: Seq<(Seq<char>, u64)>,
) -> bool {
    exists|parts: Seq<Seq<FsEvent>>|
        t == strung(parts) && #[trigger] all_measured(shots, parts, sizes)
}

fn measure<F: FsOps>(files: &Vec<String>, fs: &mut FsLog<F>) -> (r: u64)
    ensures
        extends(final(fs).log(), old(fs).log()),
        measured(texts(files@), since(final(fs).log(), old(fs).log())),
        r == saturated(told_sum(since(final(fs).log(), old(fs).log()))),
{
    let ghost start = fs.log();
    let mut total: u64 = 0;
    let mut i: usize = 0;
    proof {
        since_starts_empty(start);
    }
    while i < files.len()
        invariant
            start == old(fs).log(),
            0 <= i <= files@.len(),
            extends(fs.log(), start),
            measured(texts(files@).take(i as int), since(fs.log(), start)),
            told_sum(since(fs.log(), start)) >= 0,
            total == saturated(told_sum(since(fs.log(), start))),
        decreases files@.len() - i,
    {
        let ghost before = fs.log();
        let ghost t0 = since(before, start);
        let reply = fs.file_len(files[i].as_str());
        proof {
            since_grows(start, before, fs.log());
            let t = since(fs.log(), start);
            assert(t.drop_last() =~= t0);
            assert forall|k: int| 0 <= k < t.len() implies (#[trigger] t[k] matches
                FsEvent::FileLen { path, .. } && path == texts(files@).take(i + 1)[k]) by {
                if k < i {
                    assert(t[k] == t0[k]);
                    assert(texts(files@).take(i + 1)[k] == texts(files@).take(i as int)[k]);
                }
            }
        }
        if let Ok(n) = reply {
            total = total.saturating_add(n);
        }
        i += 1;
    }
    assert(texts(files@).take(i as int) =~= texts(files@));
    total
}

fn take_sizes<F: FsOps>(shots: &Vec<Shot>, fs: &mut FsLog<F>) -> (r: Vec<(String, u64)>)
    ensures
        extends(final(fs).log(), old(fs).log()),
        sizes_ran(
            shot_views(shots@),
            since(final(fs).log(), old(fs).log()),
            size_views(r@),
        ),
{
    let ghost start = fs.log();
    let ghost all = shot_views(shots@);
    let mut out: Vec<(String, u64)> = Vec::new();
    let mut i: usize = 0;
    let ghost mut parts: Seq<Seq<FsEvent>> = Seq::empty();
    proof {
        since_starts_empty(start);
    }
    while i < shots.len()
        invariant
            start == old(fs).log(),
            0 <= i <= shots@.len(),
            all == shot_views(shots@),
            extends(fs.log(), start),
            since(fs.log(), start) == strung(parts),
            all_measured(all.take(i as int), parts, size_views(out@)),
        decreases shots@.len() - i,
    {
        let ghost before = fs.log();
        let ghost had = size_views(out@);
        let shot: &Shot = &shots[i];
        assert(all[i as int] == shot@);
        let files = shot.files();
        let n: u64 = measure(&files, fs);
        out.push((shot.stem.clone(), n));
        proof {
            since_adds_up(start, before, fs.log());
            let more = parts.push(since(fs.log(), before));
            assert(more.drop_last() =~= parts);
            assert(size_views(out@) =~= had.push((shot@.stem, n)));
            assert forall|k: int| 0 <= k < i + 1 implies measured(
                all.take(i + 1)[k].files(),
                #[trigger] more[k],
            ) && size_views(out@)[k] == (all.take(i + 1)[k].stem, saturated(told_sum(more[k]))) by {
                if k < i {
                    assert(more[k] == parts[k]);
                    assert(all.take(i + 1)[k] == all.take(i as int)[k]);
                }
            }
            parts = more;
        }
        i += 1;
    }
    proof {
        assert(all.take(i as int) =~= all);
        assert(all_measured(all, parts, size_views(out@)));
    }
    out
}

/// Whether a name is that of a file of one of the shots.
pub open spec fn is_shot_file(shots: Seq<ShotView>, name: Seq<char>) -> bool {
    exists|i: int| 0 <= i < shots.len() && has_file_named(#[trigger] shots[i], name)
}

/// Whether a name is that of a file of the shot.
pub open spec fn has_file_named(shot: ShotView, name: Seq<char>) -> bool {
    exists|k: int| 0 <= k < shot.files().len() && file_name(#[trigger] shot.files()[k]) == Some(name)
}

/// Whether an entry of the source folder stays behind: it is no directory, it is not
/// hidden, and it is no file of a shot. A name that is not valid UTF-8 is no file of a
/// shot.
pub open spec fn stays_behind(shots: Seq<ShotView>, e: Result<EntryView, FsErrorView>) -> bool {
    &&& e matches Ok(e)
    &&& e.entry_type == EntryType::NotDir
    &&& !e.hidden
    &&& !(e.name is Some && is_shot_file(shots, e.name->0))
}

/// How many of the entries stay behind.
pub open spec fn leftover_count(
    shots: Seq<ShotView>,
    entries: Seq<Result<EntryView, FsErrorView>>,
) -> nat
    decreases entries.len(),
{
    if entries.len() == 0 {
        0
    } else {
        leftover_count(shots, entries.drop_last()) + if stays_behind(shots, entries.last()) {
            1nat
        } else {
            0nat
        }
    }
}

/// The history of counting what stays behind: the source folder is listed. A folder that
/// cannot be listed leaves nothing.
pub open spec fn leftovers_ran(
    source_dir: Seq<char>,
    shots: Seq<ShotView>,
    t: Seq<FsEvent>,
    leftovers: int,
) -> bool {
    &&& t.len() == 1
    &&& t[0] matches FsEvent::ListDir { path, reply }
    &&& path == source_dir
    &&& leftovers == match reply {
        Ok(entries) => leftover_count(shots, entries) as int,
        Err(_) => 0,
    }
}

fn shot_file_names(shots: &Vec<Shot>) -> (r: Vec<String>)
    ensures
        forall|x: Seq<char>| #[trigger]
            texts(r@).contains(x) <==> is_shot_file(shot_views(shots@), x),
{
    let ghost all = shot_views(shots@);
    let mut out: Vec<String> = Vec::new();
    let mut i: usize = 0;
    while i < shots.len()
        invariant
            0 <= i <= shots@.len(),
            all == shot_views(shots@),
            forall|x: Seq<char>| #[trigger]
                texts(out@).contains(x) <==> exists|j: int|
                    0 <= j < i && has_file_named(#[trigger] all[j], x),
        decreases shots@.len() - i,
    {
        let ghost had = texts(out@);
        assert(all[i as int] == shots@[i as int]@);
        let files = shots[i].files();
        let ghost fv = texts(files@);
        let mut k: usize = 0;
        while k < files.len()
            invariant
                0 <= k <= files@.len(),
                fv == texts(files@),
                forall|x: Seq<char>| #[trigger]
                    texts(out@).contains(x) <==> had.contains(x) || exists|l: int|
                        0 <= l < k && file_name(#[trigger] fv[l]) == Some(x),
            decreases files@.len() - k,
        {
            let ghost now = texts(out@);
            assert(fv[k as int] == files@[k as int]@);
            if let Some(n) = file_name_of(files[k].as_str()) {
                let ghost nx = n@;
                out.push(n);
                assert(texts(out@) =~= now.push(nx));
                assert(file_name(fv[k as int]) == Some(nx));
                assert forall|x: Seq<char>| #[trigger]
                    texts(out@).contains(x) <==> now.contains(x) || x == nx by {
                    if texts(out@).contains(x) {
                        let y = choose|y: int| 0 <= y < texts(out@).len() && texts(out@)[y] == x;
                        if y < now.len() {
                            assert(now[y] == x);
                        }
                    }
                    if now.contains(x) {
                        let y = choose|y: int| 0 <= y < now.len() && now[y] == x;
                        assert(texts(out@)[y] == x);
                    }
                    if x == nx {
                        assert(texts(out@)[now.len() as int] == x);
                    }
                }
            }
            k += 1;
        }
        proof {
            assert forall|x: Seq<char>| #[trigger]
                texts(out@).contains(x) <==> exists|j: int|
                    0 <= j < i + 1 && has_file_named(#[trigger] all[j], x) by {
                assert(texts(out@).contains(x) <==> had.contains(x) || has_file_named(
                    all[i as int],
                    x,
                ));
            }
        }
        i += 1;
    }
    out
}

fn count_leftovers<F: FsOps>(source_dir: &str, shots: &Vec<Shot>, fs: &mut FsLog<F>) -> (r: usize)
    ensures
        extends(final(fs).log(), old(fs).log()),
        leftovers_ran(
            source_dir@,
            shot_views(shots@),
            since(final(fs).log(), old(fs).log()),
            r as int,
        ),
{
    let ghost start = fs.log();
    proof {
        since_starts_empty(start);
    }
    let names = shot_file_names(shots);
    let reply = fs.list_dir(source_dir);
    proof {
        since_grows(start, start, fs.log());
    }
    let mut count: usize = 0;
    if let Ok(v) = reply {
        let ghost lv = listing_view(v@);
        let ghost all = shot_views(shots@);
        let mut i: usize = 0;
        while i < v.len()
            invariant
                0 <= i <= v@.len(),
                count <= i,
                lv == listing_view(v@),
                forall|x: Seq<char>| #[trigger]
                    texts(names@).contains(x) <==> is_shot_file(all, x),
                count == leftover_count(all, lv.take(i as int)),
            decreases v@.len() - i,
        {
            assert(lv.take(i + 1).drop_last() =~= lv.take(i as int));
            assert(lv[i as int] == crate::fsops::entry_reply(v@[i as int]));
            if let Ok(e) = &v[i] {
                if e.entry_type == EntryType::NotDir && !e.hidden {
                    let known = match &e.name {
                        Some(n) => contains_text(&names, n.as_str()),
                        None => false,
                    };
                    if !known {
                        count += 1;
                    }
                }
            }
            i += 1;
        }
        assert(lv.take(i as int) =~= lv);
    }
    count
}

/// The history of gathering what a plan is made from.
pub open spec fn gather_ran(
    s: SessionView,
    dest: Seq<char>,
    buckets: Seq<Seq<char>>,
    t: Seq<FsEvent>,
    existing: Seq<Seq<char>>,
    sizes: Seq<(Seq<char>, u64)>,
    leftovers: int,
) -> bool {
    exists|a: Seq<FsEvent>, b: Seq<FsEvent>, c: Seq<FsEvent>|
        {
            &&& t == a + b + c
            &&& #[trigger] existing_ran(dest, buckets, a, existing)
            &&& #[trigger] sizes_ran(s.shots, b, sizes)
            &&& #[trigger] leftovers_ran(s.source_dir, s.shots, c, leftovers)
        }
}

/// Gathers what a plan is made from: what the buckets at the destination hold, the size of
/// each shot, and how many files of the source folder belong to no shot.
pub fn gather_apply_inputs<F: FsOps>(
    session: &Session,
    dest: &str,
    buckets: &[String; 5],
    fs: &mut FsLog<F>,
) -> (r: (Vec<String>, Vec<(String, u64)>, usize))
    ensures
        extends(final(fs).log(), old(fs).log()),
        gather_ran(
            session@,
            dest@,
            texts(buckets@),
            since(final(fs).log(), old(fs).log()),
            texts(r.0@),
            size_views(r.1@),
            r.2 as int,
        ),
{
    let ghost start = fs.log();
    let existing = list_existing(dest, buckets, fs);
    let ghost l1 = fs.log();
    let sizes = take_sizes(&session.shots, fs);
    let ghost l2 = fs.log();
    let leftovers: usize = count_leftovers(session.source_dir.as_str(), &session.shots, fs);
    proof {
        since_adds_up(start, l1, l2);
        since_adds_up(start, l2, fs.log());
        assert(existing_ran(dest@, texts(buckets@), since(l1, start), texts(existing@)));
        assert(sizes_ran(session@.shots, since(l2, l1), size_views(sizes@)));
        assert(leftovers_ran(
            session@.source_dir,
            session@.shots,
            since(fs.log(), l2),
            leftovers as int,
        ));
    }
    (existing, sizes, leftovers)
}

/// What is shown before an apply is confirmed.
#[derive(Clone, Copy, PartialEq, Eq, Debug)]
pub struct ApplyPreview {
    pub per_bucket: TierCountsPlan,
    /// How many shots move under a name with a number.
    pub collisions: usize,
    /// How many shots bring a sidecar, so that none is written.
    pub skipped_sidecars: usize,
    /// How many shots have lost a file.
    pub stale: usize,
    /// How many files of the source folder stay behind.
    pub leftovers: usize,
    pub total_bytes: u64,
    pub cross_fs: bool,
    pub free_bytes: Option<u64>,
    pub enough_space: bool,
}

/// How many operations move under a name with a number.
pub open spec fn suffixed_count(ops: Seq<OpView>) -> nat
    decreases ops.len(),
{
    if ops.len() == 0 {
        0
    } else {
        suffixed_count(ops.drop_last()) + if ops.last().suffix is Some {
            1nat
        } else {
            0nat
        }
    }
}

/// The preview of a plan. Space is only needed where the move crosses filesystems, and
/// only judged where the free space is known.
pub open spec fn preview_of(
    plan: PlanView,
    stale: usize,
    leftovers: usize,
    cross_fs: bool,
    free_bytes: Option<u64>,
) -> ApplyPreview {
    ApplyPreview {
        per_bucket: plan.per_bucket_counts,
        collisions: suffixed_count(plan.ops) as usize,
        skipped_sidecars: plan.skipped_sidecar_writes.len() as usize,
        stale,
        leftovers,
        total_bytes: plan.total_bytes,
        cross_fs,
        free_bytes,
        enough_space: cross_fs && free_bytes is Some ==> free_bytes->0 >= plan.total_bytes,
    }
}

/// Makes the preview of a plan.
pub fn build_preview(
    planned: &ApplyPlan,
    stale: usize,
    leftovers: usize,
    cross_fs: bool,
    free_bytes: Option<u64>,
) -> (r: ApplyPreview)
    ensures
        r == preview_of(planned@, stale, leftovers, cross_fs, free_bytes),
{
    let ghost all = planned@.ops;
    let mut collisions: usize = 0;
    let mut i: usize = 0;
    while i < planned.ops.len()
        invariant
            0 <= i <= planned.ops@.len(),
            all == op_views(planned.ops@),
            collisions <= i,
            collisions == suffixed_count(all.take(i as int)),
        decreases planned.ops@.len() - i,
    {
        assert(all.take(i + 1).drop_last() =~= all.take(i as int));
        assert(all[i as int] == planned.ops@[i as int]@);
        if planned.ops[i].suffix.is_some() {
            collisions += 1;
        }
        i += 1;
    }
    assert(all.take(i as int) =~= all);
    let enough_space = match free_bytes {
        Some(free) => !cross_fs || free >= planned.total_bytes,
        None => true,
    };
    ApplyPreview {
        per_bucket: planned.per_bucket_counts,
        collisions,
        skipped_sidecars: planned.skipped_sidecar_writes.len(),
        stale,
        leftovers,
        total_bytes: planned.total_bytes,
        cross_fs,
        free_bytes,
        enough_space,
    }
}

/// The history of looking for the nearest ancestor that is there, the path itself first.
pub open spec fn climbed(p: Seq<char>, t: Seq<FsEvent>, r: Option<Seq<char>>) -> bool
    decreases t.len(),
{
    &&& t.len() >= 1
    &&& t[0] matches FsEvent::IsThere { path, reply }
    &&& path == p
    &&& if reply {
        t.len() == 1 && r == Some(p)
    } else {
        match parent(p) {
            None => t.len() == 1 && r is None,
            Some(q) => climbed(q, t.skip(1), r),
        }
    }
}

fn nearest_ancestor<F: FsOps>(p: &str, fs: &mut FsLog<F>) -> (r: Option<String>)
    ensures
        extends(final(fs).log(), old(fs).log()),
        climbed(p@, since(final(fs).log(), old(fs).log()), crate::model::opt_text(r)),
    decreases p@.len(),
{
    let ghost start = fs.log();
    proof {
        since_starts_empty(start);
    }
    let there = fs.is_there(p);
    let ghost l1 = fs.log();
    proof {
        since_grows(start, start, l1);
    }
    if there {
        return Some(p.to_owned());
    }
    match parent_of(p) {
        None => None,
        Some(q) => {
            proof {
                lemma_parent_is_shorter(p@);
            }
            let r = nearest_ancestor(q.as_str(), fs);
            proof {
                since_adds_up(start, l1, fs.log());
                assert(since(fs.log(), start).skip(1) =~= since(fs.log(), l1));
            }
            r
        },
    }
}

/// The history of telling whether a move from `source` to `dest` crosses filesystems: the
/// nearest ancestor of the destination that is there is held against the source. Where
/// there is none, or it cannot be told, it does not.
pub open spec fn cross_probed(
    source: Seq<char>,
    dest: Seq<char>,
    t: Seq<FsEvent>,
    cross: bool,
) -> bool {
    ||| climbed(dest, t, None) && !cross
    ||| {
        &&& t.len() >= 1
        &&& t.last() matches FsEvent::SameFilesystem { a, b, reply }
        &&& a == source
        &&& climbed(dest, t.drop_last(), Some(b))
        &&& cross == (reply == Ok::<bool, FsErrorView>(false))
    }
}

/// Whether a move from `source` to `dest` crosses filesystems.
pub fn probe_cross_fs<F: FsOps>(source: &str, dest: &str, fs: &mut FsLog<F>) -> (r: bool)
    ensures
        extends(final(fs).log(), old(fs).log()),
        cross_probed(source@, dest@, since(final(fs).log(), old(fs).log()), r),
{
    let ghost start = fs.log();
    match nearest_ancestor(dest, fs) {
        None => false,
        Some(probe) => {
            let ghost l1 = fs.log();
            let reply = fs.same_filesystem(source, probe.as_str());
            proof {
                since_grows(start, l1, fs.log());
                assert(since(fs.log(), start).drop_last() =~= since(l1, start));
            }
            match reply {
                Ok(same) => !same,
                Err(_) => false,
            }
        },
    }
}

/// The history of asking for the free space at the destination, where it is needed.
pub open spec fn space_asked(
    dest: Seq<char>,
    cross: bool,
    t: Seq<FsEvent>,
    free: Option<u64>,
) -> bool {
    if cross {
        &&& t.len() == 1
        &&& t[0] matches FsEvent::FreeSpace { path, reply }
        &&& path == dest
        &&& free == match reply {
            Ok(n) => Some(n),
            Err(_) => None,
        }
    } else {
        t.len() == 0 && free is None
    }
}

/// The history of previewing an apply, of which the plan and the preview are made.
pub open spec fn preview_ran(
    s: SessionView,
    dest: Seq<char>,
    buckets: Seq<Seq<char>>,
    t: Seq<FsEvent>,
    plan: PlanView,
    preview: ApplyPreview,
) -> bool {
    exists|
        a: Seq<FsEvent>,
        b: Seq<FsEvent>,
        c: Seq<FsEvent>,
        d: Seq<FsEvent>,
        kept: SessionView,
        stale: Seq<Seq<char>>,
        existing: Seq<Seq<char>>,
        sizes: Seq<(Seq<char>, u64)>,
    |
        {
            &&& t == a + b + c + d
            &&& #[trigger] partition_ran(s, a, kept, stale)
            &&& #[trigger] gather_ran(
                kept,
                dest,
                buckets,
                b,
                existing,
                sizes,
                preview.leftovers as int,
            )
            &&& plan == planned(kept, dest, buckets, existing, sizes)
            &&& #[trigger] cross_probed(s.source_dir, dest, c, preview.cross_fs)
            &&& #[trigger] space_asked(dest, preview.cross_fs, d, preview.free_bytes)
            &&& preview == preview_of(
                plan,
                stale.len() as usize,
                preview.leftovers,
                preview.cross_fs,
                preview.free_bytes,
            )
        }
}

/// Plans an apply and previews it. Shots that have lost a file are left out of the plan
/// and counted.
pub fn compute_preview<F: FsOps>(
    session: &Session,
    dest: &str,
    buckets: &[String; 5],
    fs: &mut FsLog<F>,
) -> (r: (ApplyPlan, ApplyPreview))
    ensures
        extends(final(fs).log(), old(fs).log()),
        preview_ran(
            session@,
            dest@,
            texts(buckets@),
            since(final(fs).log(), old(fs).log()),
            r.0@,
            r.1,
        ),
{
    let ghost start = fs.log();
    let (filtered, stale) = partition_stale(session, fs);
    let ghost l1 = fs.log();
    let (existing, sizes, leftovers) = gather_apply_inputs(&filtered, dest, buckets, fs);
    let ghost l2 = fs.log();
    let made = plan(&filtered, dest, buckets, &existing, &sizes);
    let cross_fs = probe_cross_fs(filtered.source_dir.as_str(), dest, fs);
    let ghost l3 = fs.log();
    let free_bytes: Option<u64> = if cross_fs {
        match fs.free_space(dest) {
            Ok(n) => Some(n),
            Err(_) => None,
        }
    } else {
        None
    };
    let preview = build_preview(&made, stale.len(), leftovers, cross_fs, free_bytes);
    proof {
        since_starts_empty(l3);
        if cross_fs {
            since_grows(l3, l3, fs.log());
        }
        since_adds_up(start, l1, l2);
        since_adds_up(start, l2, l3);
        since_adds_up(start, l3, fs.log());
        assert(filtered@.source_dir == session@.source_dir);
        assert(partition_ran(session@, since(l1, start), filtered@, texts(stale@)));
        assert(gather_ran(
            filtered@,
            dest@,
            texts(buckets@),
            since(l2, l1),
            texts(existing@),
            size_views(sizes@),
            preview.leftovers as int,
        ));
        assert(cross_probed(session@.source_dir, dest@, since(l3, l2), preview.cross_fs));
        assert(space_asked(dest@, preview.cross_fs, since(fs.log(), l3), preview.free_bytes));
    }
    (made, preview)
}

} // verus!
