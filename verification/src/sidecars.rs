//! Which sidecars an apply writes. What was decided about a shot goes into a sidecar of its
//! own; one that the shot has already is carried along as it is, and the write is skipped.
use vstd::prelude::*;
use crate::model::{DecisionView, Session, SessionView, Tier};
use crate::naming::{
    aimed_at, below_bucket, is_taken, lemma_same_targets, name_taken, stem_text, stem_with,
};
use crate::paths::{join, join_path};
use crate::plan::{
    lemma_op_at, lemma_op_count, op_views, opt_sidecar, planned, OpView, ShotOp, SidecarView,
    SidecarWrite,
};
use crate::text::{clone_texts, contains_text, texts};

verus! {

/// Whether a decision says something that a sidecar can hold: a tier or tags.
pub open spec fn wants_sidecar(d: DecisionView) -> bool {
    d.tier is Some || d.tags.len() > 0
}

/// The rating for a tier; none where nothing was decided.
pub open spec fn rating_of(tier: Option<Tier>) -> Option<i32> {
    match tier {
        Some(t) => Some(t.stars() as i32),
        None => None,
    }
}

/// The name of the sidecar beside the files of a shot, once they are moved.
pub open spec fn sidecar_name(op: OpView) -> Seq<char> {
    stem_with(op.stem, op.suffix) + ".xmp"@
}

/// Where the sidecar of a shot lies, once its files are moved.
pub open spec fn sidecar_place(dest: Seq<char>, op: OpView) -> Seq<char> {
    join(join(dest, op.bucket), sidecar_name(op))
}

/// The sidecar that tells what was decided about the shot at `i`: none where nothing was,
/// where the shot has one of its own, or where it has no files.
pub open spec fn fresh_sidecar(
    s: SessionView,
    i: int,
    dest: Seq<char>,
    op: OpView,
) -> Option<SidecarView> {
    let d = s.decision_at(i);
    if wants_sidecar(d) && s.shots[i].sidecar is None && s.shots[i].files().len() > 0 {
        Some(
            SidecarView {
                path: sidecar_place(dest, op),
                tags: d.tags,
                rating: rating_of(d.tier),
            },
        )
    } else {
        None
    }
}

/// Whether the place of the sidecar of the shot at `i` is free: its bucket does not hold the
/// name, no file is moved there, and no shot before it has its sidecar there.
pub open spec fn has_room(
    s: SessionView,
    i: int,
    dest: Seq<char>,
    existing: Seq<Seq<char>>,
    ops: Seq<OpView>,
) -> bool {
    &&& !name_taken(existing, ops, dest, ops[i].bucket, sidecar_name(ops[i]))
    &&& forall|j: int|
        0 <= j < i && fresh_sidecar(s, j, dest, #[trigger] ops[j]) is Some ==> sidecar_place(
            dest,
            ops[j],
        ) != sidecar_place(dest, ops[i])
}

/// The sidecar that is written for the shot at `i`.
pub open spec fn sidecar_for(
    s: SessionView,
    i: int,
    dest: Seq<char>,
    existing: Seq<Seq<char>>,
    ops: Seq<OpView>,
) -> Option<SidecarView> {
    if has_room(s, i, dest, existing, ops) {
        fresh_sidecar(s, i, dest, ops[i])
    } else {
        None
    }
}

/// The operations with the sidecars that they write.
pub open spec fn with_sidecars(
    s: SessionView,
    dest: Seq<char>,
    existing: Seq<Seq<char>>,
    ops: Seq<OpView>,
) -> Seq<OpView> {
    Seq::new(
        ops.len(),
        |i: int| OpView { write_sidecar: sidecar_for(s, i, dest, existing, ops), ..ops[i] },
    )
}

/// The stems of those of the first `n` shots of which something was decided and for which no
/// sidecar is written.
pub open spec fn skipped_writes(s: SessionView, ops: Seq<OpView>, n: int) -> Seq<Seq<char>>
    decreases n,
{
    if n <= 0 {
        Seq::empty()
    } else {
        let front = skipped_writes(s, ops, n - 1);
        if wants_sidecar(s.decision_at(n - 1)) && ops[n - 1].write_sidecar is None {
            front.push(ops[n - 1].stem)
        } else {
            front
        }
    }
}

/// The sidecars depend on where the files go and not on other sidecars.
pub(crate) proof fn lemma_same_sidecars(
    s: SessionView,
    dest: Seq<char>,
    existing: Seq<Seq<char>>,
    ops: Seq<OpView>,
    i: int,
)
    requires
        0 <= i < ops.len(),
    ensures
        ({
            let all = with_sidecars(s, dest, existing, ops);
            sidecar_for(s, i, dest, existing, all) == sidecar_for(s, i, dest, existing, ops)
        }),
{
    let all = with_sidecars(s, dest, existing, ops);
    lemma_same_targets(all, ops, sidecar_place(dest, ops[i]));
    assert forall|j: int| 0 <= j < ops.len() implies fresh_sidecar(
        s,
        j,
        dest,
        #[trigger] all[j],
    ) == fresh_sidecar(s, j, dest, ops[j]) && sidecar_place(dest, all[j]) == sidecar_place(
        dest,
        ops[j],
    ) by {
    }
    if has_room(s, i, dest, existing, all) {
        assert forall|j: int|
            0 <= j < i && fresh_sidecar(s, j, dest, #[trigger] ops[j])
                is Some implies sidecar_place(dest, ops[j]) != sidecar_place(dest, ops[i]) by {
            assert(fresh_sidecar(s, j, dest, all[j]) is Some);
        }
    }
}

fn fresh(session: &Session, i: usize, path: &str) -> (r: Option<SidecarWrite>)
    requires
        i < session.shots@.len(),
    ensures
        forall|dest: Seq<char>, op: OpView|
            sidecar_place(dest, op) == path@ ==> opt_sidecar(r) == #[trigger] fresh_sidecar(
                session@,
                i as int,
                dest,
                op,
            ),
{
    let d = session.decision(i);
    let shot = &session.shots[i];
    assert(session@.shots[i as int] == shot@);
    let files = shot.files();
    if (d.tier.is_some() || d.tags.len() > 0) && shot.sidecar.is_none() && files.len() > 0 {
        let w = SidecarWrite {
            path: path.to_owned(),
            tags: clone_texts(&d.tags),
            rating: d.xmp_rating(),
        };
        assert(w@.rating == rating_of(d@.tier));
        Some(w)
    } else {
        None
    }
}

/// The operations with the sidecars that they write, and the stems of the shots for which a
/// write is skipped.
pub fn add_sidecars(
    session: &Session,
    dest: &str,
    existing: &Vec<String>,
    ops: Vec<ShotOp>,
) -> (r: (Vec<ShotOp>, Vec<String>))
    requires
        ops@.len() == session.shots@.len(),
    ensures
        op_views(r.0@) == with_sidecars(session@, dest@, texts(existing@), op_views(ops@)),
        texts(r.1@) == skipped_writes(session@, op_views(r.0@), ops@.len() as int),
{
    let ghost s = session@;
    let ghost base = op_views(ops@);
    let ghost all = with_sidecars(s, dest@, texts(existing@), base);
    let n: usize = ops.len();
    let mut out: Vec<ShotOp> = Vec::new();
    let mut skipped: Vec<String> = Vec::new();
    let mut places: Vec<String> = Vec::new();
    let mut i: usize = 0;
    assert(texts(skipped@) =~= Seq::<Seq<char>>::empty());
    assert(op_views(out@) =~= all.take(0));
    while i < n
        invariant
            s == session@,
            base == op_views(ops@),
            all == with_sidecars(s, dest@, texts(existing@), base),
            n == ops@.len(),
            n == session.shots@.len(),
            0 <= i <= n,
            op_views(out@) == all.take(i as int),
            texts(skipped@) == skipped_writes(s, all, i as int),
            forall|p: Seq<char>| #[trigger]
                texts(places@).contains(p) <==> exists|j: int|
                    0 <= j < i && fresh_sidecar(s, j, dest@, #[trigger] base[j]) is Some
                        && sidecar_place(dest@, base[j]) == p,
        decreases n - i,
    {
        assert(base[i as int] == ops@[i as int]@);
        let mut name = stem_text(ops[i].stem.as_str(), ops[i].suffix);
        name.append(".xmp");
        let dir = join_path(dest, ops[i].bucket.as_str());
        let path = join_path(dir.as_str(), name.as_str());
        let ghost op = base[i as int];
        assert(path@ == sidecar_place(dest@, op));
        let wish = fresh(session, i, path.as_str());
        assert(opt_sidecar(wish) == fresh_sidecar(s, i as int, dest@, op));
        let wished = wish.is_some();
        let taken = is_taken(existing, &ops, dest, ops[i].bucket.as_str(), name.as_str())
            || contains_text(&places, path.as_str());
        proof {
            if !taken {
                assert forall|j: int|
                    0 <= j < i && fresh_sidecar(s, j, dest@, #[trigger] base[j])
                        is Some implies sidecar_place(dest@, base[j]) != path@ by {
                }
            } else if has_room(s, i as int, dest@, texts(existing@), base) {
                assert(texts(places@).contains(path@));
            }
        }
        let write = if taken {
            None
        } else {
            wish
        };
        assert(opt_sidecar(write) == sidecar_for(s, i as int, dest@, texts(existing@), base));
        let d = session.decision(i);
        if (d.tier.is_some() || d.tags.len() > 0) && write.is_none() {
            let ghost had = texts(skipped@);
            skipped.push(ops[i].stem.clone());
            assert(texts(skipped@) =~= had.push(op.stem));
        }
        let mut op2 = ops[i].clone();
        op2.write_sidecar = write;
        let ghost o = op2@;
        let ghost had = op_views(out@);
        assert(o =~= all[i as int]);
        out.push(op2);
        assert(op_views(out@) =~= had.push(o));
        let ghost was = texts(places@);
        if wished {
            places.push(path);
            assert(texts(places@) =~= was.push(sidecar_place(dest@, op)));
        }
        proof {
            assert forall|p: Seq<char>| #[trigger]
                texts(places@).contains(p) <==> exists|j: int|
                    0 <= j < i + 1 && fresh_sidecar(s, j, dest@, #[trigger] base[j]) is Some
                        && sidecar_place(dest@, base[j]) == p by {
                lemma_push_contains(was, sidecar_place(dest@, op), p);
                if exists|j: int|
                    0 <= j < i + 1 && fresh_sidecar(s, j, dest@, #[trigger] base[j]) is Some
                        && sidecar_place(dest@, base[j]) == p {
                    let j = choose|j: int|
                        0 <= j < i + 1 && fresh_sidecar(s, j, dest@, #[trigger] base[j]) is Some
                            && sidecar_place(dest@, base[j]) == p;
                    if j < i {
                        assert(was.contains(p));
                    }
                }
                if texts(places@).contains(p) {
                    if was.contains(p) {
                        let j = choose|j: int|
                            0 <= j < i && fresh_sidecar(s, j, dest@, #[trigger] base[j]) is Some
                                && sidecar_place(dest@, base[j]) == p;
                        assert(fresh_sidecar(s, j, dest@, base[j]) is Some);
                    } else {
                        assert(fresh_sidecar(s, i as int, dest@, base[i as int]) is Some);
                    }
                }
            }
        }
        i += 1;
        assert(op_views(out@) =~= all.take(i as int));
    }
    assert(all.take(n as int) =~= all);
    (out, skipped)
}

proof fn lemma_push_contains(v: Seq<Seq<char>>, x: Seq<char>, p: Seq<char>)
    ensures
        v.push(x).contains(p) == (v.contains(p) || p == x),
{
    let w = v.push(x);
    if v.contains(p) {
        let k = choose|k: int| 0 <= k < v.len() && v[k] == p;
        assert(w[k] == p);
    }
    assert(w[v.len() as int] == x);
    if w.contains(p) && p != x {
        let k = choose|k: int| 0 <= k < w.len() && w[k] == p;
        assert(v[k] == p);
    }
}

proof fn lemma_skipped(s: SessionView, ops: Seq<OpView>, n: int, i: int)
    requires
        0 <= i < n,
        wants_sidecar(s.decision_at(i)),
        ops[i].write_sidecar is None,
    ensures
        skipped_writes(s, ops, n).contains(ops[i].stem),
    decreases n,
{
    let front = skipped_writes(s, ops, n - 1);
    let all = skipped_writes(s, ops, n);
    if i == n - 1 {
        assert(all[front.len() as int] == ops[i].stem);
    } else {
        lemma_skipped(s, ops, n - 1, i);
        let k = choose|k: int| 0 <= k < front.len() && front[k] == ops[i].stem;
        assert(all[k] == ops[i].stem);
    }
}

/// What was decided about a shot is not lost in silence: its tags and its rating are written
/// into a sidecar beside its files, or the plan lists its stem among the writes that are
/// skipped. Where nothing was decided nothing is written, and a shot that has a sidecar keeps
/// it as it is.
pub proof fn decisions_reach_the_sidecars(
    s: SessionView,
    dest: Seq<char>,
    buckets: Seq<Seq<char>>,
    existing: Seq<Seq<char>>,
    sizes: Seq<(Seq<char>, u64)>,
    i: int,
)
    requires
        0 <= i < s.shots.len(),
    ensures
        ({
            let plan = planned(s, dest, buckets, existing, sizes);
            let d = s.decision_at(i);
            let op = plan.ops[i];
            &&& op.write_sidecar matches Some(w) ==> {
                &&& wants_sidecar(d)
                &&& s.shots[i].sidecar is None
                &&& w.path == join(
                    join(dest, op.bucket),
                    stem_with(s.shots[i].stem, op.suffix) + ".xmp"@,
                )
                &&& w.tags == d.tags
                &&& w.rating == rating_of(d.tier)
            }
            &&& wants_sidecar(d) && op.write_sidecar is None
                ==> plan.skipped_sidecar_writes.contains(s.shots[i].stem)
        }),
{
    let plan = planned(s, dest, buckets, existing, sizes);
    lemma_op_at(s, dest, buckets, existing, sizes, i);
    lemma_op_count(s, dest, buckets, existing, sizes);
    if wants_sidecar(s.decision_at(i)) && plan.ops[i].write_sidecar is None {
        lemma_skipped(s, plan.ops, s.shots.len() as int, i);
    }
}

/// A sidecar is written where its bucket holds none of that name, where no file of the plan
/// is moved to, and where no other sidecar of the plan is written.
pub proof fn a_sidecar_has_a_place_of_its_own(
    s: SessionView,
    dest: Seq<char>,
    buckets: Seq<Seq<char>>,
    existing: Seq<Seq<char>>,
    sizes: Seq<(Seq<char>, u64)>,
    i: int,
    j: int,
)
    requires
        0 <= i < s.shots.len(),
        0 <= j < s.shots.len(),
        i != j,
        planned(s, dest, buckets, existing, sizes).ops[i].write_sidecar is Some,
    ensures
        ({
            let ops = planned(s, dest, buckets, existing, sizes).ops;
            let w = ops[i].write_sidecar->0;
            &&& !existing.contains(below_bucket(ops[i].bucket, sidecar_name(ops[i])))
            &&& !aimed_at(ops, w.path)
            &&& ops[j].write_sidecar is Some ==> ops[j].write_sidecar->0.path != w.path
        }),
{
    let ops = planned(s, dest, buckets, existing, sizes).ops;
    lemma_op_at(s, dest, buckets, existing, sizes, i);
    lemma_op_at(s, dest, buckets, existing, sizes, j);
    if ops[j].write_sidecar is Some {
        if j < i {
            assert(fresh_sidecar(s, j, dest, ops[j]) is Some);
        } else {
            assert(fresh_sidecar(s, i, dest, ops[i]) is Some);
        }
    }
}

/// A sidecar says what was decided and no more: the tags of the shot, its rating where it
/// has a tier and none where it has not. Nothing is written for a shot without a tier and
/// without tags.
pub proof fn a_sidecar_says_what_was_decided(
    s: SessionView,
    dest: Seq<char>,
    buckets: Seq<Seq<char>>,
    existing: Seq<Seq<char>>,
    sizes: Seq<(Seq<char>, u64)>,
    i: int,
)
    requires
        0 <= i < s.shots.len(),
    ensures
        ({
            let w = planned(s, dest, buckets, existing, sizes).ops[i].write_sidecar;
            let stem = s.shots[i].stem;
            &&& !s.decisions.contains_key(stem) ==> w is None
            &&& s.decisions.contains_key(stem) ==> {
                let d = s.decisions[stem];
                &&& d.tier is None && d.tags.len() == 0 ==> w is None
                &&& w is Some ==> w->0.tags == d.tags
                &&& w is Some && d.tier is None ==> w->0.rating is None
                &&& w is Some && d.tier is Some ==> w->0.rating is Some && w->0.rating->0
                    == d.tier->0.stars()
            }
        }),
{
    lemma_op_at(s, dest, buckets, existing, sizes, i);
}

/// What was decided is written wherever it can be: a shot with a tier or tags that brings no
/// sidecar of its own gets one, unless its bucket holds a file of that name, a file is moved
/// there, or a shot before it in the same bucket has the same name.
pub proof fn what_was_decided_is_written(
    s: SessionView,
    dest: Seq<char>,
    buckets: Seq<Seq<char>>,
    existing: Seq<Seq<char>>,
    sizes: Seq<(Seq<char>, u64)>,
    i: int,
)
    requires
        0 <= i < s.shots.len(),
        s.decisions.contains_key(s.shots[i].stem),
        s.decisions[s.shots[i].stem].tier is Some || s.decisions[s.shots[i].stem].tags.len() > 0,
        s.shots[i].sidecar is None,
        s.shots[i].jpeg is Some || s.shots[i].raw is Some,
        ({
            let ops = planned(s, dest, buckets, existing, sizes).ops;
            let name = stem_with(s.shots[i].stem, ops[i].suffix) + seq!['.', 'x', 'm', 'p'];
            let place = join(join(dest, ops[i].bucket), name);
            &&& !existing.contains(ops[i].bucket + seq!['/'] + name)
            &&& !aimed_at(ops, place)
            &&& forall|j: int|
                0 <= j < i ==> join(
                    join(dest, (#[trigger] ops[j]).bucket),
                    stem_with(s.shots[j].stem, ops[j].suffix) + seq!['.', 'x', 'm', 'p'],
                ) != place
        }),
    ensures
        planned(s, dest, buckets, existing, sizes).ops[i].write_sidecar is Some,
{
    reveal_strlit(".xmp");
    reveal_strlit("/");
    assert(".xmp"@ =~= seq!['.', 'x', 'm', 'p']);
    assert("/"@ =~= seq!['/']);
    let ops = planned(s, dest, buckets, existing, sizes).ops;
    lemma_op_at(s, dest, buckets, existing, sizes, i);
    assert(s.shots[i].files().len() > 0);
    assert forall|j: int|
        0 <= j < i && fresh_sidecar(s, j, dest, #[trigger] ops[j]) is Some implies sidecar_place(
        dest,
        ops[j],
    ) != sidecar_place(dest, ops[i]) by {
        lemma_op_at(s, dest, buckets, existing, sizes, j);
    }
}

/// The places of the shots whose decisions are not written: those with a tier or tags for
/// which the plan has no sidecar.
pub open spec fn places_skipped(s: SessionView, ops: Seq<OpView>, n: int) -> Set<int> {
    Set::new(
        |k: int|
            {
                &&& 0 <= k < n
                &&& s.decisions.contains_key(s.shots[k].stem)
                &&& s.decisions[s.shots[k].stem].tier is Some
                    || s.decisions[s.shots[k].stem].tags.len() > 0
                &&& ops[k].write_sidecar is None
            },
    )
}

/// The writes that are skipped are listed one by one, and nothing else is.
pub proof fn skipped_writes_are_listed_one_by_one(s: SessionView, ops: Seq<OpView>, n: int)
    requires
        0 <= n <= s.shots.len(),
    ensures
        places_skipped(s, ops, n).finite(),
        skipped_writes(s, ops, n).len() == places_skipped(s, ops, n).len(),
        forall|stem: Seq<char>|
            skipped_writes(s, ops, n).contains(stem) ==> exists|k: int| #[trigger]
                places_skipped(s, ops, n).contains(k) && ops[k].stem == stem,
    decreases n,
{
    if n == 0 {
        assert(places_skipped(s, ops, n) =~= Set::empty());
    } else {
        skipped_writes_are_listed_one_by_one(s, ops, n - 1);
        let front = skipped_writes(s, ops, n - 1);
        let all = skipped_writes(s, ops, n);
        if wants_sidecar(s.decision_at(n - 1)) && ops[n - 1].write_sidecar is None {
            assert(places_skipped(s, ops, n) =~= places_skipped(s, ops, n - 1).insert(n - 1));
        } else {
            assert(places_skipped(s, ops, n) =~= places_skipped(s, ops, n - 1));
        }
        assert forall|stem: Seq<char>| all.contains(stem) implies exists|k: int| #[trigger]
            places_skipped(s, ops, n).contains(k) && ops[k].stem == stem by {
            let x = choose|x: int| 0 <= x < all.len() && all[x] == stem;
            if x < front.len() {
                assert(front[x] == stem);
                assert(front.contains(stem));
                let k = choose|k: int| #[trigger]
                    places_skipped(s, ops, n - 1).contains(k) && ops[k].stem == stem;
                assert(places_skipped(s, ops, n).contains(k));
            } else {
                assert(places_skipped(s, ops, n).contains(n - 1));
            }
        }
    }
}

} // verus!
