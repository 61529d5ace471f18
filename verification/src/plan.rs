//! The plan of an apply: which file goes where. It is computed from the session and from what
//! the buckets hold; nothing here touches a file.
use vstd::prelude::*;
use vstd::utf8::{encode_scalar, encode_utf8};
use crate::model::{Session, SessionView, ShotView, Tier};
use crate::naming::{
    choose_number, lemma_same_number, name_for, name_with, number_for, stem_with,
};
use crate::paths::{file_name, join, join_path};
use crate::session::{counts_are_of_places, every_shot_is_counted_once, places_with};
use crate::sidecars::{
    add_sidecars, lemma_same_sidecars, sidecar_for, skipped_writes, with_sidecars,
};
use crate::text::{chars_of, clone_texts, same_text, text_of, texts};

verus! {

/// One file and the place that it moves to.
#[derive(PartialEq, Eq, Debug)]
pub struct FileMove {
    pub from: String,
    pub to: String,
}

/// The value of a `FileMove`.
pub struct MoveView {
    pub from: Seq<char>,
    pub to: Seq<char>,
}

impl View for FileMove {
    type V = MoveView;

    open spec fn view(&self) -> MoveView {
        MoveView { from: self.from@, to: self.to@ }
    }
}

impl Clone for FileMove {
    fn clone(&self) -> (r: Self)
        ensures
            r@ == self@,
    {
        FileMove { from: self.from.clone(), to: self.to.clone() }
    }
}

/// A sidecar to be written beside the files of a shot.
#[derive(PartialEq, Eq, Debug)]
pub struct SidecarWrite {
    pub path: String,
    pub tags: Vec<String>,
    pub rating: Option<i32>,
}

/// The value of a `SidecarWrite`.
#[verifier::ext_equal]
pub struct SidecarView {
    pub path: Seq<char>,
    pub tags: Seq<Seq<char>>,
    pub rating: Option<i32>,
}

impl View for SidecarWrite {
    type V = SidecarView;

    open spec fn view(&self) -> SidecarView {
        SidecarView { path: self.path@, tags: texts(self.tags@), rating: self.rating }
    }
}

impl Clone for SidecarWrite {
    fn clone(&self) -> (r: Self)
        ensures
            r@ == self@,
    {
        SidecarWrite { path: self.path.clone(), tags: clone_texts(&self.tags), rating: self.rating }
    }
}

/// What is to be done for one shot.
#[derive(PartialEq, Eq, Debug)]
pub struct ShotOp {
    pub stem: String,
    pub bucket: String,
    pub moves: Vec<FileMove>,
    pub write_sidecar: Option<SidecarWrite>,
    /// The number that the stem was extended by, where its name was taken.
    pub suffix: Option<u32>,
}

/// The value of a `ShotOp`.
#[verifier::ext_equal]
pub struct OpView {
    pub stem: Seq<char>,
    pub bucket: Seq<char>,
    pub moves: Seq<MoveView>,
    pub write_sidecar: Option<SidecarView>,
    pub suffix: Option<u32>,
}

/// The values of a list of moves.
pub open spec fn move_views(moves: Seq<FileMove>) -> Seq<MoveView> {
    moves.map_values(|m: FileMove| m@)
}

/// The value of an optional sidecar.
pub open spec fn opt_sidecar(o: Option<SidecarWrite>) -> Option<SidecarView> {
    match o {
        Some(s) => Some(s@),
        None => None,
    }
}

impl View for ShotOp {
    type V = OpView;

    open spec fn view(&self) -> OpView {
        OpView {
            stem: self.stem@,
            bucket: self.bucket@,
            moves: move_views(self.moves@),
            write_sidecar: opt_sidecar(self.write_sidecar),
            suffix: self.suffix,
        }
    }
}

impl Clone for ShotOp {
    fn clone(&self) -> (r: Self)
        ensures
            r@ == self@,
    {
        let mut moves: Vec<FileMove> = Vec::new();
        let mut i: usize = 0;
        while i < self.moves.len()
            invariant
                0 <= i <= self.moves@.len(),
                move_views(moves@) == move_views(self.moves@).take(i as int),
            decreases self.moves@.len() - i,
        {
            let ghost before = move_views(moves@);
            moves.push(self.moves[i].clone());
            assert(move_views(moves@) =~= before.push(self.moves@[i as int]@));
            i += 1;
            assert(move_views(moves@) =~= move_views(self.moves@).take(i as int));
        }
        assert(move_views(self.moves@).take(self.moves@.len() as int) =~= move_views(self.moves@));
        ShotOp {
            stem: self.stem.clone(),
            bucket: self.bucket.clone(),
            moves,
            write_sidecar: match &self.write_sidecar {
                Some(s) => Some(s.clone()),
                None => None,
            },
            suffix: self.suffix,
        }
    }
}

/// How many shots the plan puts into each bucket.
#[derive(Clone, Copy, PartialEq, Eq, Debug, Structural)]
pub struct TierCountsPlan {
    pub rejected: usize,
    pub rest: usize,
    pub keep: usize,
    pub picks: usize,
    pub bests: usize,
}

impl Default for TierCountsPlan {
    fn default() -> (r: Self)
        ensures
            r.rejected == 0 && r.rest == 0 && r.keep == 0 && r.picks == 0 && r.bests == 0,
    {
        TierCountsPlan { rejected: 0, rest: 0, keep: 0, picks: 0, bests: 0 }
    }
}

/// The plan of an apply. The buckets stand in the order rejected, rest, keep, picks,
/// bests.
#[derive(PartialEq, Eq, Debug)]
pub struct ApplyPlan {
    pub dest: String,
    pub buckets: [String; 5],
    pub ops: Vec<ShotOp>,
    pub per_bucket_counts: TierCountsPlan,
    pub skipped_sidecar_writes: Vec<String>,
    pub stale: Vec<String>,
    pub total_bytes: u64,
}

/// The value of an `ApplyPlan`.
#[verifier::ext_equal]
pub struct PlanView {
    pub dest: Seq<char>,
    pub buckets: Seq<Seq<char>>,
    pub ops: Seq<OpView>,
    pub per_bucket_counts: TierCountsPlan,
    pub skipped_sidecar_writes: Seq<Seq<char>>,
    pub stale: Seq<Seq<char>>,
    pub total_bytes: u64,
}

/// The values of a list of operations.
pub open spec fn op_views(ops: Seq<ShotOp>) -> Seq<OpView> {
    ops.map_values(|o: ShotOp| o@)
}

impl View for ApplyPlan {
    type V = PlanView;

    open spec fn view(&self) -> PlanView {
        PlanView {
            dest: self.dest@,
            buckets: texts(self.buckets@),
            ops: op_views(self.ops@),
            per_bucket_counts: self.per_bucket_counts,
            skipped_sidecar_writes: texts(self.skipped_sidecar_writes@),
            stale: texts(self.stale@),
            total_bytes: self.total_bytes,
        }
    }
}

/// Clones the five bucket names.
pub fn clone_buckets(b: &[String; 5]) -> (r: [String; 5])
    ensures
        texts(r@) == texts(b@),
{
    let r = [b[0].clone(), b[1].clone(), b[2].clone(), b[3].clone(), b[4].clone()];
    assert(texts(r@) =~= texts(b@));
    r
}

impl Clone for ApplyPlan {
    fn clone(&self) -> (r: Self)
        ensures
            r@ == self@,
    {
        let mut ops: Vec<ShotOp> = Vec::new();
        let mut i: usize = 0;
        while i < self.ops.len()
            invariant
                0 <= i <= self.ops@.len(),
                op_views(ops@) == op_views(self.ops@).take(i as int),
            decreases self.ops@.len() - i,
        {
            let ghost before = op_views(ops@);
            ops.push(self.ops[i].clone());
            assert(op_views(ops@) =~= before.push(self.ops@[i as int]@));
            i += 1;
            assert(op_views(ops@) =~= op_views(self.ops@).take(i as int));
        }
        assert(op_views(self.ops@).take(self.ops@.len() as int) =~= op_views(self.ops@));
        ApplyPlan {
            dest: self.dest.clone(),
            buckets: clone_buckets(&self.buckets),
            ops,
            per_bucket_counts: self.per_bucket_counts,
            skipped_sidecar_writes: clone_texts(&self.skipped_sidecar_writes),
            stale: clone_texts(&self.stale),
            total_bytes: self.total_bytes,
        }
    }
}

/// The place of a tier's bucket among the five.
pub open spec fn bucket_place(tier: Option<Tier>) -> int {
    match tier {
        None => 1,
        Some(Tier::Reject) => 0,
        Some(Tier::Keep) => 2,
        Some(Tier::Pick) => 3,
        Some(Tier::Best) => 4,
    }
}

fn bucket_index(tier: Option<Tier>) -> (r: usize)
    ensures
        r == bucket_place(tier),
        r < 5,
{
    match tier {
        None => 1,
        Some(Tier::Reject) => 0,
        Some(Tier::Keep) => 2,
        Some(Tier::Pick) => 3,
        Some(Tier::Best) => 4,
    }
}

/// How many bytes a character takes in UTF-8.
pub open spec fn char_width(c: char) -> int {
    if (c as int) < 0x80 {
        1
    } else if (c as int) < 0x800 {
        2
    } else if (c as int) < 0x10000 {
        3
    } else {
        4
    }
}

/// How many bytes a text takes in UTF-8.
pub open spec fn text_width(s: Seq<char>) -> int
    decreases s.len(),
{
    if s.len() == 0 {
        0
    } else {
        text_width(s.drop_last()) + char_width(s.last())
    }
}

/// What follows the first `width` bytes of a name; empty where no character ends there.
pub open spec fn after_bytes(name: Seq<char>, width: int) -> Seq<char> {
    if exists|k: int| 0 <= k <= name.len() && text_width(#[trigger] name.take(k)) == width {
        name.skip(
            choose|k: int| 0 <= k <= name.len() && text_width(#[trigger] name.take(k)) == width,
        )
    } else {
        Seq::empty()
    }
}

proof fn lemma_width_grows(name: Seq<char>, j: int, k: int)
    requires
        0 <= j <= k <= name.len(),
    ensures
        text_width(name.take(k)) >= text_width(name.take(j)) + (k - j),
        text_width(name.take(j)) >= 0,
    decreases k - j, k,
{
    if j < k {
        assert(name.take(k).drop_last() =~= name.take(k - 1));
        lemma_width_grows(name, j, k - 1);
    } else if j > 0 {
        assert(name.take(j).drop_last() =~= name.take(j - 1));
        lemma_width_grows(name, j - 1, j - 1);
    }
}

/// Where the stem starts the name, what follows its bytes is what follows the stem.
pub proof fn after_a_prefix(stem: Seq<char>, rest: Seq<char>)
    ensures
        after_bytes(stem + rest, text_width(stem)) == rest,
{
    let name = stem + rest;
    let w = text_width(stem);
    assert(name.take(stem.len() as int) =~= stem);
    let k = choose|k: int| 0 <= k <= name.len() && text_width(#[trigger] name.take(k)) == w;
    if k < stem.len() {
        lemma_width_grows(name, k, stem.len() as int);
    } else {
        lemma_width_grows(name, stem.len() as int, k);
    }
    assert(name.skip(stem.len() as int) =~= rest);
}

fn char_width_of(c: char) -> (r: u128)
    ensures
        r == char_width(c),
        1 <= r <= 4,
{
    let n: u32 = c as u32;
    if n < 0x80 {
        1
    } else if n < 0x800 {
        2
    } else if n < 0x10000 {
        3
    } else {
        4
    }
}

fn text_width_of(v: &Vec<char>) -> (r: u128)
    ensures
        r == text_width(v@),
{
    let mut r: u128 = 0;
    let n: usize = v.len();
    let mut i: usize = 0;
    assert(v@.take(0) =~= Seq::<char>::empty());
    while i < n
        invariant
            n == v@.len(),
            0 <= i <= n,
            r == text_width(v@.take(i as int)),
            r <= 4 * i,
        decreases n - i,
    {
        assert(v@.take(i + 1).drop_last() =~= v@.take(i as int));
        r = r + char_width_of(v[i]);
        i += 1;
    }
    assert(v@.take(n as int) =~= v@);
    r
}

/// The part of a file name after the stem that it starts with.
pub fn rest_after_stem(name: &str, stem: &str) -> (r: String)
    ensures
        r@ == after_bytes(name@, text_width(stem@)),
{
    let v = chars_of(name);
    let s = chars_of(stem);
    let width: u128 = text_width_of(&s);
    let n: usize = v.len();
    let mut at: u128 = 0;
    let mut k: usize = 0;
    assert(v@.take(0) =~= Seq::<char>::empty());
    while k < n && at < width
        invariant
            n == v@.len(),
            0 <= k <= n,
            at == text_width(v@.take(k as int)),
            at <= 4 * k,
            forall|j: int| 0 <= j < k ==> text_width(#[trigger] v@.take(j)) < width,
        decreases n - k,
    {
        assert(v@.take(k + 1).drop_last() =~= v@.take(k as int));
        at = at + char_width_of(v[k]);
        k += 1;
    }
    if at == width {
        proof {
            let j = choose|j: int| 0 <= j <= v@.len() && text_width(#[trigger] v@.take(j)) == width;
            if j < k {
                assert(text_width(v@.take(j)) < width);
            } else {
                lemma_width_grows(v@, k as int, j);
            }
            assert(v@.subrange(k as int, n as int) =~= v@.skip(k as int));
        }
        text_of(&v, k, n)
    } else {
        proof {
            assert forall|j: int| 0 <= j <= v@.len() implies text_width(#[trigger] v@.take(j))
                != width by {
                if j > k {
                    lemma_width_grows(v@, k as int, j);
                }
            }
        }
        String::new()
    }
}

/// Where a file of a shot moves to: into the bucket, under the name that it has with the
/// number of the shot.
pub open spec fn planned_move(
    from: Seq<char>,
    stem: Seq<char>,
    number: Option<u32>,
    dir: Seq<char>,
) -> MoveView {
    MoveView { from, to: join(dir, name_with(from, stem, number)) }
}

/// Where the files of the shot at `i` go, after the operations for the shots before it.
pub open spec fn planned_op(
    s: SessionView,
    i: int,
    dest: Seq<char>,
    buckets: Seq<Seq<char>>,
    existing: Seq<Seq<char>>,
    before: Seq<OpView>,
) -> OpView {
    let shot = s.shots[i];
    let bucket = buckets[bucket_place(s.decision_at(i).tier)];
    let number = number_for(shot, existing, before, dest, bucket);
    OpView {
        stem: shot.stem,
        bucket,
        moves: shot.files().map_values(
            |f: Seq<char>| planned_move(f, shot.stem, number, join(dest, bucket)),
        ),
        write_sidecar: None,
        suffix: number,
    }
}

/// The operations for the first `n` shots, without the sidecars.
pub open spec fn planned_ops(
    s: SessionView,
    dest: Seq<char>,
    buckets: Seq<Seq<char>>,
    existing: Seq<Seq<char>>,
    n: int,
) -> Seq<OpView>
    decreases n,
{
    if n <= 0 {
        Seq::empty()
    } else {
        let before = planned_ops(s, dest, buckets, existing, n - 1);
        before.push(planned_op(s, n - 1, dest, buckets, existing, before))
    }
}

proof fn lemma_ops(
    s: SessionView,
    dest: Seq<char>,
    buckets: Seq<Seq<char>>,
    existing: Seq<Seq<char>>,
    n: int,
    i: int,
)
    requires
        0 <= i <= n,
    ensures
        planned_ops(s, dest, buckets, existing, n).len() == n,
        planned_ops(s, dest, buckets, existing, n).take(i) == planned_ops(
            s,
            dest,
            buckets,
            existing,
            i,
        ),
    decreases n,
{
    let all = planned_ops(s, dest, buckets, existing, n);
    if n > 0 {
        let before = planned_ops(s, dest, buckets, existing, n - 1);
        lemma_ops(s, dest, buckets, existing, n - 1, n - 1);
        if i < n {
            lemma_ops(s, dest, buckets, existing, n - 1, i);
            assert(all.take(i) =~= before.take(i));
        } else {
            assert(all.take(i) =~= all);
        }
    } else {
        assert(all.take(i) =~= all);
    }
}

/// A plan has one operation for each shot.
pub(crate) proof fn lemma_op_count(
    s: SessionView,
    dest: Seq<char>,
    buckets: Seq<Seq<char>>,
    existing: Seq<Seq<char>>,
    sizes: Seq<(Seq<char>, u64)>,
)
    ensures
        planned(s, dest, buckets, existing, sizes).ops.len() == s.shots.len(),
{
    lemma_ops(s, dest, buckets, existing, s.shots.len() as int, 0);
}

/// Each operation of a plan is that for its shot, after those before it, with its sidecar.
pub(crate) proof fn lemma_op_at(
    s: SessionView,
    dest: Seq<char>,
    buckets: Seq<Seq<char>>,
    existing: Seq<Seq<char>>,
    sizes: Seq<(Seq<char>, u64)>,
    i: int,
)
    requires
        0 <= i < s.shots.len(),
    ensures
        ({
            let ops = planned(s, dest, buckets, existing, sizes).ops;
            &&& ops.len() == s.shots.len()
            &&& ops[i] == (OpView {
                write_sidecar: sidecar_for(s, i, dest, existing, ops),
                ..planned_op(s, i, dest, buckets, existing, ops.take(i))
            })
            &&& ops[i].moves.len() == s.shots[i].files().len()
        }),
{
    let n = s.shots.len() as int;
    let ops = planned_ops(s, dest, buckets, existing, n);
    lemma_ops(s, dest, buckets, existing, n, i);
    lemma_ops(s, dest, buckets, existing, n, i + 1);
    lemma_ops(s, dest, buckets, existing, i, i);
    assert(ops.take(i + 1)[i] == ops[i]);
    let all = with_sidecars(s, dest, existing, ops);
    lemma_same_sidecars(s, dest, existing, ops, i);
    lemma_same_number(
        s.shots[i],
        existing,
        all.take(i),
        ops.take(i),
        dest,
        buckets[bucket_place(s.decision_at(i).tier)],
    );
}

/// The size that was last listed for the stem; 0 where none was.
pub open spec fn size_of(sizes: Seq<(Seq<char>, u64)>, stem: Seq<char>) -> u64
    decreases sizes.len(),
{
    if sizes.len() == 0 {
        0
    } else if sizes.last().0 == stem {
        sizes.last().1
    } else {
        size_of(sizes.drop_last(), stem)
    }
}

/// The sum of the sizes of the first `n` shots.
pub open spec fn size_sum(shots: Seq<ShotView>, sizes: Seq<(Seq<char>, u64)>, n: int) -> int
    decreases n,
{
    if n <= 0 {
        0
    } else {
        size_sum(shots, sizes, n - 1) + size_of(sizes, shots[n - 1].stem)
    }
}

/// A sum that stops at the largest number of 64 bits.
pub open spec fn saturated(n: int) -> u64 {
    if n <= u64::MAX {
        n as u64
    } else {
        u64::MAX
    }
}

/// The stems and sizes of a size list.
pub open spec fn size_views(sizes: Seq<(String, u64)>) -> Seq<(Seq<char>, u64)> {
    sizes.map_values(|e: (String, u64)| (e.0@, e.1))
}

/// The plan for a session.
pub open spec fn planned(
    s: SessionView,
    dest: Seq<char>,
    buckets: Seq<Seq<char>>,
    existing: Seq<Seq<char>>,
    sizes: Seq<(Seq<char>, u64)>,
) -> PlanView {
    let n = s.shots.len() as int;
    let ops = with_sidecars(s, dest, existing, planned_ops(s, dest, buckets, existing, n));
    PlanView {
        dest,
        buckets,
        ops,
        per_bucket_counts: TierCountsPlan {
            rejected: s.tier_count(Some(Tier::Reject), n) as usize,
            rest: s.tier_count(None, n) as usize,
            keep: s.tier_count(Some(Tier::Keep), n) as usize,
            picks: s.tier_count(Some(Tier::Pick), n) as usize,
            bests: s.tier_count(Some(Tier::Best), n) as usize,
        },
        skipped_sidecar_writes: skipped_writes(s, ops, n),
        stale: Seq::empty(),
        total_bytes: saturated(size_sum(s.shots, sizes, n)),
    }
}

/// The size that was last listed for the stem; 0 where none was.
pub fn listed_size(sizes: &Vec<(String, u64)>, stem: &str) -> (r: u64)
    ensures
        r == size_of(size_views(sizes@), stem@),
{
    let ghost all = size_views(sizes@);
    let mut i: usize = sizes.len();
    assert(all.take(i as int) =~= all);
    while i > 0
        invariant
            all == size_views(sizes@),
            0 <= i <= sizes@.len(),
            size_of(all, stem@) == size_of(all.take(i as int), stem@),
        decreases i,
    {
        assert(all.take(i as int).drop_last() =~= all.take(i - 1));
        assert(all.take(i as int).last() == (sizes@[i - 1].0@, sizes@[i - 1].1));
        if same_text(sizes[i - 1].0.as_str(), stem) {
            return sizes[i - 1].1;
        }
        i -= 1;
    }
    0
}

fn plan_shot(
    session: &Session,
    i: usize,
    dest: &str,
    buckets: &[String; 5],
    existing: &Vec<String>,
    before: &Vec<ShotOp>,
) -> (op: ShotOp)
    requires
        i < session.shots@.len(),
    ensures
        op@ == planned_op(
            session@,
            i as int,
            dest@,
            texts(buckets@),
            texts(existing@),
            op_views(before@),
        ),
{
    let shot = &session.shots[i];
    assert(session@.shots[i as int] == shot@);
    let idx: usize = bucket_index(session.decision(i).tier);
    let bucket = buckets[idx].clone();
    assert(bucket@ == texts(buckets@)[idx as int]);
    let dir = join_path(dest, bucket.as_str());
    let number = choose_number(shot, existing, before, dest, bucket.as_str());
    let files = shot.files();
    let ghost to = |f: Seq<char>| planned_move(f, shot@.stem, number, dir@);
    let mut moves: Vec<FileMove> = Vec::new();
    let mut k: usize = 0;
    while k < files.len()
        invariant
            0 <= k <= files@.len(),
            texts(files@) == shot@.files(),
            to == (|f: Seq<char>| planned_move(f, shot@.stem, number, dir@)),
            move_views(moves@) == shot@.files().map_values(to).take(k as int),
        decreases files@.len() - k,
    {
        let ghost had = move_views(moves@);
        let target = name_for(files[k].as_str(), shot.stem.as_str(), number);
        let mv = FileMove {
            from: files[k].clone(),
            to: join_path(dir.as_str(), target.as_str()),
        };
        assert(texts(files@)[k as int] == files@[k as int]@);
        assert(mv@ == to(shot@.files()[k as int]));
        let ghost m = mv@;
        moves.push(mv);
        assert(move_views(moves@) =~= had.push(m));
        k += 1;
        assert(move_views(moves@) =~= shot@.files().map_values(to).take(k as int));
    }
    assert(shot@.files().map_values(to).take(files@.len() as int) =~= shot@.files().map_values(to));
    ShotOp { stem: shot.stem.clone(), bucket, moves, write_sidecar: None, suffix: number }
}

/// Plans the apply of a session: every shot's files go to the bucket of its tier, each under
/// its own name, or under the stem with a number where the own name of one of them is taken.
/// `existing` lists what the buckets hold already, by the paths below the destination; a name
/// that another bucket holds is not taken. What was decided about a shot without a sidecar is
/// to be written into one beside its files; the writes that are skipped are listed by stem.
/// `sizes` lists the bytes of each stem.
pub fn plan(
    session: &Session,
    dest: &str,
    buckets: &[String; 5],
    existing: &Vec<String>,
    sizes: &Vec<(String, u64)>,
) -> (p: ApplyPlan)
    ensures
        p@ == planned(session@, dest@, texts(buckets@), texts(existing@), size_views(sizes@)),
{
    let n: usize = session.shots.len();
    let mut ops: Vec<ShotOp> = Vec::new();
    let mut total: u64 = 0;
    let mut i: usize = 0;
    while i < n
        invariant
            n == session.shots@.len(),
            0 <= i <= n,
            op_views(ops@) == planned_ops(
                session@,
                dest@,
                texts(buckets@),
                texts(existing@),
                i as int,
            ),
            size_sum(session@.shots, size_views(sizes@), i as int) >= 0,
            total == saturated(size_sum(session@.shots, size_views(sizes@), i as int)),
        decreases n - i,
    {
        let ghost before = op_views(ops@);
        let op = plan_shot(session, i, dest, buckets, existing, &ops);
        let ghost o = op@;
        ops.push(op);
        assert(op_views(ops@) =~= before.push(o));
        assert(session@.shots[i as int] == session.shots@[i as int]@);
        total = total.saturating_add(listed_size(sizes, session.shots[i].stem.as_str()));
        i += 1;
    }
    proof {
        lemma_ops(session@, dest@, texts(buckets@), texts(existing@), n as int, 0);
    }
    let (ops, skipped) = add_sidecars(session, dest, existing, ops);
    let c = session.counts();
    let p = ApplyPlan {
        dest: dest.to_owned(),
        buckets: clone_buckets(buckets),
        ops,
        per_bucket_counts: TierCountsPlan {
            rejected: c.rejected,
            rest: c.rest,
            keep: c.keep,
            picks: c.picks,
            bests: c.bests,
        },
        skipped_sidecar_writes: skipped,
        stale: Vec::new(),
        total_bytes: total,
    };
    proof {
        assert(texts(p.stale@) =~= Seq::<Seq<char>>::empty());
    }
    p
}

/// A file whose name starts with the stem keeps its name, but for the number of its shot
/// where it has one: it moves into the bucket of the decision about its shot, and nowhere
/// else.
pub proof fn a_file_keeps_its_name(
    s: SessionView,
    dest: Seq<char>,
    buckets: Seq<Seq<char>>,
    existing: Seq<Seq<char>>,
    sizes: Seq<(Seq<char>, u64)>,
    i: int,
    k: int,
    rest: Seq<char>,
)
    requires
        0 <= i < s.shots.len(),
        0 <= k < s.shots[i].files().len(),
        file_name(s.shots[i].files()[k]) == Some(s.shots[i].stem + rest),
    ensures
        planned(s, dest, buckets, existing, sizes).ops[i].moves[k] == (MoveView {
            from: s.shots[i].files()[k],
            to: join(
                join(dest, buckets[bucket_place(s.decision_at(i).tier)]),
                stem_with(
                    s.shots[i].stem,
                    planned(s, dest, buckets, existing, sizes).ops[i].suffix,
                ) + rest,
            ),
        }),
{
    after_a_prefix(s.shots[i].stem, rest);
    lemma_op_at(s, dest, buckets, existing, sizes, i);
}

/// Every file of every shot has one move, in the order of the shots.
pub proof fn every_file_is_planned(
    s: SessionView,
    dest: Seq<char>,
    buckets: Seq<Seq<char>>,
    existing: Seq<Seq<char>>,
    sizes: Seq<(Seq<char>, u64)>,
    i: int,
    k: int,
)
    requires
        0 <= i < s.shots.len(),
        0 <= k < s.shots[i].files().len(),
    ensures
        planned(s, dest, buckets, existing, sizes).ops.len() == s.shots.len(),
        planned(s, dest, buckets, existing, sizes).ops[i].stem == s.shots[i].stem,
        planned(s, dest, buckets, existing, sizes).ops[i].moves.len() == s.shots[i].files().len(),
        planned(s, dest, buckets, existing, sizes).ops[i].moves[k].from == s.shots[i].files()[k],
{
    lemma_op_at(s, dest, buckets, existing, sizes, i);
}

/// The counts of a plan add up to its operations.
pub proof fn the_counts_add_up(
    s: SessionView,
    dest: Seq<char>,
    buckets: Seq<Seq<char>>,
    existing: Seq<Seq<char>>,
    sizes: Seq<(Seq<char>, u64)>,
)
    requires
        s.shots.len() <= usize::MAX,
    ensures
        ({
            let p = planned(s, dest, buckets, existing, sizes);
            let c = p.per_bucket_counts;
            c.rejected + c.rest + c.keep + c.picks + c.bests == p.ops.len()
        }),
{
    every_shot_is_counted_once(s, s.shots.len() as int);
    lemma_op_count(s, dest, buckets, existing, sizes);
    lemma_count_bounds(s, Some(Tier::Reject), s.shots.len() as int);
    lemma_count_bounds(s, None, s.shots.len() as int);
    lemma_count_bounds(s, Some(Tier::Keep), s.shots.len() as int);
    lemma_count_bounds(s, Some(Tier::Pick), s.shots.len() as int);
    lemma_count_bounds(s, Some(Tier::Best), s.shots.len() as int);
}

proof fn lemma_count_bounds(s: SessionView, tier: Option<Tier>, n: int)
    requires
        0 <= n,
    ensures
        0 <= s.tier_count(tier, n) <= n,
    decreases n,
{
    if n > 0 {
        lemma_count_bounds(s, tier, n - 1);
    }
}

/// The buckets stand in the order of the ladder: the rejects first, then the rest, the
/// keepers, the picks and the best, each in a bucket of its own.
pub proof fn buckets_follow_the_ladder(a: Tier, b: Tier)
    ensures
        0 <= bucket_place(Some(a)) < 5,
        bucket_place(Some(a)) < bucket_place(Some(b)) <==> a.place() < b.place(),
        bucket_place(Some(a)) < bucket_place(None) <==> a == Tier::Reject,
        bucket_place(Some(a)) > bucket_place(None) <==> a != Tier::Reject,
        bucket_place(Some(a)) == bucket_place(Some(b)) <==> a == b,
{
}

/// By default the bucket of a tier has the name of the tier.
pub proof fn default_buckets_are_those_of_the_tiers(tier: Tier)
    ensures
        crate::startup::default_names()[bucket_place(Some(tier))] == tier.bucket_name(),
        crate::startup::default_names()[bucket_place(None)] == crate::model::BUCKET_REST@,
{
}

/// The counts of a plan are those of the tiers: each says how many shots were decided so.
pub proof fn a_plan_counts_the_tiers(
    s: SessionView,
    dest: Seq<char>,
    buckets: Seq<Seq<char>>,
    existing: Seq<Seq<char>>,
    sizes: Seq<(Seq<char>, u64)>,
)
    requires
        s.shots.len() <= usize::MAX,
    ensures
        ({
            let c = planned(s, dest, buckets, existing, sizes).per_bucket_counts;
            let n = s.shots.len() as int;
            &&& c.rejected == places_with(s, Some(Tier::Reject), n).len()
            &&& c.rest == places_with(s, None, n).len()
            &&& c.keep == places_with(s, Some(Tier::Keep), n).len()
            &&& c.picks == places_with(s, Some(Tier::Pick), n).len()
            &&& c.bests == places_with(s, Some(Tier::Best), n).len()
        }),
{
    let n = s.shots.len() as int;
    counts_are_of_places(s, Some(Tier::Reject), n);
    counts_are_of_places(s, None, n);
    counts_are_of_places(s, Some(Tier::Keep), n);
    counts_are_of_places(s, Some(Tier::Pick), n);
    counts_are_of_places(s, Some(Tier::Best), n);
    lemma_count_bounds(s, Some(Tier::Reject), n);
    lemma_count_bounds(s, None, n);
    lemma_count_bounds(s, Some(Tier::Keep), n);
    lemma_count_bounds(s, Some(Tier::Pick), n);
    lemma_count_bounds(s, Some(Tier::Best), n);
}

/// A shot goes to the bucket of its tier, one without a tier to the rest, at the destination
/// and under the names that were given.
pub proof fn a_shot_goes_where_its_tier_says(
    s: SessionView,
    dest: Seq<char>,
    buckets: Seq<Seq<char>>,
    existing: Seq<Seq<char>>,
    sizes: Seq<(Seq<char>, u64)>,
    i: int,
)
    requires
        0 <= i < s.shots.len(),
    ensures
        ({
            let p = planned(s, dest, buckets, existing, sizes);
            let stem = s.shots[i].stem;
            let bucket = p.ops[i].bucket;
            &&& p.dest == dest
            &&& p.buckets == buckets
            &&& p.stale.len() == 0
            &&& !s.decisions.contains_key(stem) ==> bucket == buckets[1]
            &&& s.decisions.contains_key(stem) ==> {
                let tier = s.decisions[stem].tier;
                &&& tier is None ==> bucket == buckets[1]
                &&& tier == Some(Tier::Reject) ==> bucket == buckets[0]
                &&& tier == Some(Tier::Keep) ==> bucket == buckets[2]
                &&& tier == Some(Tier::Pick) ==> bucket == buckets[3]
                &&& tier == Some(Tier::Best) ==> bucket == buckets[4]
            }
        }),
{
    lemma_op_at(s, dest, buckets, existing, sizes, i);
}

/// The width of a text is the number of bytes that UTF-8 takes for it, so texts put together
/// are as wide as both.
pub proof fn a_text_is_as_wide_as_its_bytes(s: Seq<char>, t: Seq<char>)
    ensures
        text_width(s) == encode_utf8(s).len(),
        text_width(s + t) == text_width(s) + text_width(t),
    decreases s.len() + t.len(),
{
    if t.len() > 0 {
        a_text_is_as_wide_as_its_bytes(s, t.drop_last());
        assert((s + t).drop_last() =~= s + t.drop_last());
    } else {
        assert(s + t =~= s);
    }
    lemma_width_from_the_front(s);
}

proof fn lemma_scalar_width(c: char)
    ensures
        encode_scalar(c as u32).len() == char_width(c),
{
    assert(c as u32 as int == c as int);
}

proof fn lemma_width_from_the_front(s: Seq<char>)
    ensures
        text_width(s) == encode_utf8(s).len(),
        s.len() > 0 ==> text_width(s) == char_width(s[0]) + text_width(s.drop_first()),
    decreases s.len(),
{
    if s.len() > 0 {
        let rest = s.drop_first();
        lemma_width_from_the_front(rest);
        if s.len() == 1 {
            assert(s.drop_last() =~= Seq::empty());
            assert(rest =~= Seq::empty());
        } else {
            let front = s.drop_last();
            lemma_width_from_the_front(front);
            assert(front.drop_first() =~= rest.drop_last());
            assert(front[0] == s[0]);
        }
        lemma_scalar_width(s[0]);
        assert(encode_utf8(s) == encode_scalar(s[0] as u32) + encode_utf8(rest));
    }
}

} // verus!
