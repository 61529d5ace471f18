//! Names in a bucket. A shot whose own names are taken gets a number, which all of its files
//! share: `IMG_1234.JPG` and `IMG_1234.CR3` become `IMG_1234-1.JPG` and `IMG_1234-1.CR3`.
use vstd::prelude::*;
use vstd::seq_lib::seq_to_set_is_finite;
use vstd::set_lib::{
    lemma_int_range, lemma_len_subset, lemma_len_union, lemma_map_size, set_int_range,
};
use crate::apply::all_moves;
use crate::model::{SessionView, Shot, ShotView};
use crate::paths::{file_name, file_name_of, join, join_path};
use crate::plan::{
    after_bytes, bucket_place, lemma_op_at, move_views, op_views, planned, rest_after_stem,
    text_width, MoveView, OpView, ShotOp,
};
use crate::safety::lemma_all_moves_contains;
use crate::text::{
    a_written_number_reads_back, contains_text, decimal, decimal_text, digit_char, number_in,
    same_text, texts,
};

verus! {

/// A name in a bucket by its path below the destination.
pub open spec fn below_bucket(bucket: Seq<char>, name: Seq<char>) -> Seq<char> {
    bucket + "/"@ + name
}

/// The stem of a shot with its number, where it has one.
pub open spec fn stem_with(stem: Seq<char>, number: Option<u32>) -> Seq<char> {
    match number {
        None => stem,
        Some(n) => stem + "-"@ + decimal(n as nat),
    }
}

/// What follows the stem in the name of a file.
pub open spec fn rest_of(file: Seq<char>, stem: Seq<char>) -> Seq<char> {
    let name = match file_name(file) {
        Some(n) => n,
        None => Seq::empty(),
    };
    after_bytes(name, text_width(stem))
}

/// The name that a file of a shot gets: the stem with the number, and what followed the stem.
pub open spec fn name_with(
    file: Seq<char>,
    stem: Seq<char>,
    number: Option<u32>,
) -> Seq<char> {
    stem_with(stem, number) + rest_of(file, stem)
}

/// Whether one of the operations moves a file to the path.
pub open spec fn aimed_at(ops: Seq<OpView>, p: Seq<char>) -> bool {
    exists|i: int, k: int|
        0 <= i < ops.len() && 0 <= k < ops[i].moves.len() && (#[trigger] ops[i].moves[k]).to == p
}

/// Whether a name in a bucket is taken: the bucket holds it already, or one of the operations
/// puts a file there.
pub open spec fn name_taken(
    existing: Seq<Seq<char>>,
    ops: Seq<OpView>,
    dest: Seq<char>,
    bucket: Seq<char>,
    name: Seq<char>,
) -> bool {
    existing.contains(below_bucket(bucket, name)) || aimed_at(ops, join(join(dest, bucket), name))
}

/// Whether the name of some file of the shot is taken when the shot has the number.
pub open spec fn clashes(
    shot: ShotView,
    number: Option<u32>,
    existing: Seq<Seq<char>>,
    ops: Seq<OpView>,
    dest: Seq<char>,
    bucket: Seq<char>,
) -> bool {
    exists|k: int|
        0 <= k < shot.files().len() && name_taken(
            existing,
            ops,
            dest,
            bucket,
            name_with(#[trigger] shot.files()[k], shot.stem, number),
        )
}

/// Whether `n` is the lowest number, from 1 up, with which no name of the shot is taken.
pub open spec fn first_free_number(
    shot: ShotView,
    existing: Seq<Seq<char>>,
    ops: Seq<OpView>,
    dest: Seq<char>,
    bucket: Seq<char>,
    n: u32,
) -> bool {
    &&& n >= 1
    &&& !clashes(shot, Some(n), existing, ops, dest, bucket)
    &&& forall|m: u32|
        1 <= m < n ==> #[trigger] clashes(shot, Some(m), existing, ops, dest, bucket)
}

/// The number of a shot: none where its own names are free, and else the lowest with which
/// all of its names are. Where there is no such number it keeps its own names, and its move
/// is refused when it is made.
pub open spec fn number_for(
    shot: ShotView,
    existing: Seq<Seq<char>>,
    ops: Seq<OpView>,
    dest: Seq<char>,
    bucket: Seq<char>,
) -> Option<u32> {
    if clashes(shot, None, existing, ops, dest, bucket) && (exists|n: u32| #[trigger]
        first_free_number(shot, existing, ops, dest, bucket, n)) {
        Some(choose|n: u32| #[trigger] first_free_number(shot, existing, ops, dest, bucket, n))
    } else {
        None
    }
}

/// The stem of a shot with its number, where it has one.
pub fn stem_text(stem: &str, number: Option<u32>) -> (r: String)
    ensures
        r@ == stem_with(stem@, number),
{
    let mut r = stem.to_owned();
    if let Some(n) = number {
        r.append("-");
        r.append(decimal_text(n as u64).as_str());
    }
    r
}

/// The name that a file of a shot gets.
pub fn name_for(file: &str, stem: &str, number: Option<u32>) -> (r: String)
    ensures
        r@ == name_with(file@, stem@, number),
{
    let name = match file_name_of(file) {
        Some(n) => n,
        None => String::new(),
    };
    let rest = rest_after_stem(name.as_str(), stem);
    let mut r = stem_text(stem, number);
    r.append(rest.as_str());
    r
}

fn is_aimed_at(ops: &Vec<ShotOp>, p: &str) -> (r: bool)
    ensures
        r == aimed_at(op_views(ops@), p@),
{
    let ghost all = op_views(ops@);
    let mut i: usize = 0;
    while i < ops.len()
        invariant
            all == op_views(ops@),
            0 <= i <= ops@.len(),
            forall|x: int, k: int|
                0 <= x < i && 0 <= k < all[x].moves.len() ==> (#[trigger] all[x].moves[k]).to
                    != p@,
        decreases ops@.len() - i,
    {
        assert(all[i as int] == ops@[i as int]@);
        let ghost mine = move_views(ops@[i as int].moves@);
        let mut j: usize = 0;
        while j < ops[i].moves.len()
            invariant
                all == op_views(ops@),
                0 <= i < ops@.len(),
                mine == move_views(ops@[i as int].moves@),
                mine == all[i as int].moves,
                0 <= j <= mine.len(),
                forall|k: int| 0 <= k < j ==> (#[trigger] mine[k]).to != p@,
            decreases mine.len() - j,
        {
            assert(mine[j as int] == ops@[i as int].moves@[j as int]@);
            if same_text(ops[i].moves[j].to.as_str(), p) {
                assert(all[i as int].moves[j as int].to == p@);
                return true;
            }
            j += 1;
        }
        i += 1;
    }
    false
}

pub(crate) fn is_taken(
    existing: &Vec<String>,
    ops: &Vec<ShotOp>,
    dest: &str,
    bucket: &str,
    name: &str,
) -> (r: bool)
    ensures
        r == name_taken(texts(existing@), op_views(ops@), dest@, bucket@, name@),
{
    let mut key = bucket.to_owned();
    key.append("/");
    key.append(name);
    if contains_text(existing, key.as_str()) {
        return true;
    }
    let dir = join_path(dest, bucket);
    is_aimed_at(ops, join_path(dir.as_str(), name).as_str())
}

fn clashing(
    shot: &Shot,
    files: &Vec<String>,
    number: Option<u32>,
    existing: &Vec<String>,
    ops: &Vec<ShotOp>,
    dest: &str,
    bucket: &str,
) -> (r: bool)
    requires
        texts(files@) == shot@.files(),
    ensures
        r == clashes(shot@, number, texts(existing@), op_views(ops@), dest@, bucket@),
{
    let mut k: usize = 0;
    while k < files.len()
        invariant
            texts(files@) == shot@.files(),
            0 <= k <= files@.len(),
            forall|x: int|
                0 <= x < k ==> !name_taken(
                    texts(existing@),
                    op_views(ops@),
                    dest@,
                    bucket@,
                    name_with(#[trigger] shot@.files()[x], shot@.stem, number),
                ),
        decreases files@.len() - k,
    {
        assert(texts(files@)[k as int] == files@[k as int]@);
        let name = name_for(files[k].as_str(), shot.stem.as_str(), number);
        if is_taken(existing, ops, dest, bucket, name.as_str()) {
            assert(name@ == name_with(shot@.files()[k as int], shot@.stem, number));
            return true;
        }
        k += 1;
    }
    false
}

/// The number of a shot that goes to a bucket, after the operations that come before it.
pub fn choose_number(
    shot: &Shot,
    existing: &Vec<String>,
    ops: &Vec<ShotOp>,
    dest: &str,
    bucket: &str,
) -> (r: Option<u32>)
    ensures
        r == number_for(shot@, texts(existing@), op_views(ops@), dest@, bucket@),
{
    let files = shot.files();
    let ghost e = texts(existing@);
    let ghost o = op_views(ops@);
    if !clashing(shot, &files, None, existing, ops, dest, bucket) {
        return None;
    }
    let mut n: u32 = 1;
    loop
        invariant
            e == texts(existing@),
            o == op_views(ops@),
            texts(files@) == shot@.files(),
            clashes(shot@, None, e, o, dest@, bucket@),
            n >= 1,
            forall|m: u32| 1 <= m < n ==> #[trigger] clashes(shot@, Some(m), e, o, dest@, bucket@),
        decreases u32::MAX - n,
    {
        if !clashing(shot, &files, Some(n), existing, ops, dest, bucket) {
            proof {
                assert(first_free_number(shot@, e, o, dest@, bucket@, n));
                let c = choose|c: u32| #[trigger]
                    first_free_number(shot@, e, o, dest@, bucket@, c);
                if c < n {
                    assert(clashes(shot@, Some(c), e, o, dest@, bucket@));
                } else if n < c {
                    assert(clashes(shot@, Some(n), e, o, dest@, bucket@));
                }
            }
            return Some(n);
        }
        if n == u32::MAX {
            assert forall|c: u32| !#[trigger]
                first_free_number(shot@, e, o, dest@, bucket@, c) by {
                if c >= 1 {
                    assert(clashes(shot@, Some(c), e, o, dest@, bucket@));
                }
            }
            return None;
        }
        n += 1;
    }
}

/// Operations that move alike aim at the same places.
pub(crate) proof fn lemma_same_targets(a: Seq<OpView>, b: Seq<OpView>, p: Seq<char>)
    requires
        a.len() == b.len(),
        forall|i: int| 0 <= i < a.len() ==> (#[trigger] a[i]).moves == b[i].moves,
    ensures
        aimed_at(a, p) == aimed_at(b, p),
{
    if aimed_at(a, p) {
        let (i, k) = choose|i: int, k: int|
            0 <= i < a.len() && 0 <= k < a[i].moves.len() && (#[trigger] a[i].moves[k]).to == p;
        assert(b[i].moves[k].to == p);
    }
    if aimed_at(b, p) {
        let (i, k) = choose|i: int, k: int|
            0 <= i < b.len() && 0 <= k < b[i].moves.len() && (#[trigger] b[i].moves[k]).to == p;
        assert(a[i].moves == b[i].moves);
        assert(a[i].moves[k].to == p);
    }
}

/// After operations that move alike a shot gets the same number.
pub(crate) proof fn lemma_same_number(
    shot: ShotView,
    existing: Seq<Seq<char>>,
    a: Seq<OpView>,
    b: Seq<OpView>,
    dest: Seq<char>,
    bucket: Seq<char>,
)
    requires
        a.len() == b.len(),
        forall|i: int| 0 <= i < a.len() ==> (#[trigger] a[i]).moves == b[i].moves,
    ensures
        number_for(shot, existing, a, dest, bucket) == number_for(shot, existing, b, dest, bucket),
{
    assert forall|number: Option<u32>|
        #![trigger clashes(shot, number, existing, a, dest, bucket)]
        #![trigger clashes(shot, number, existing, b, dest, bucket)]
        clashes(shot, number, existing, a, dest, bucket) == clashes(
            shot,
            number,
            existing,
            b,
            dest,
            bucket,
        ) by {
        assert forall|k: int| 0 <= k < shot.files().len() implies name_taken(
            existing,
            a,
            dest,
            bucket,
            name_with(#[trigger] shot.files()[k], shot.stem, number),
        ) == name_taken(
            existing,
            b,
            dest,
            bucket,
            name_with(shot.files()[k], shot.stem, number),
        ) by {
            let name = name_with(shot.files()[k], shot.stem, number);
            lemma_same_targets(a, b, join(join(dest, bucket), name));
        }
    }
    assert forall|n: u32|
        #![trigger first_free_number(shot, existing, a, dest, bucket, n)]
        #![trigger first_free_number(shot, existing, b, dest, bucket, n)]
        first_free_number(shot, existing, a, dest, bucket, n) == first_free_number(
            shot,
            existing,
            b,
            dest,
            bucket,
            n,
        ) by {
        assert forall|m: u32|
            1 <= m < n && first_free_number(shot, existing, a, dest, bucket, n) implies #[trigger] clashes(
            shot,
            Some(m),
            existing,
            b,
            dest,
            bucket,
        ) by {
            assert(clashes(shot, Some(m), existing, a, dest, bucket));
        }
        assert forall|m: u32|
            1 <= m < n && first_free_number(shot, existing, b, dest, bucket, n) implies #[trigger] clashes(
            shot,
            Some(m),
            existing,
            a,
            dest,
            bucket,
        ) by {
            assert(clashes(shot, Some(m), existing, b, dest, bucket));
        }
    }
    if number_for(shot, existing, a, dest, bucket) is Some {
        let x = choose|n: u32| #[trigger] first_free_number(shot, existing, a, dest, bucket, n);
        let y = choose|n: u32| #[trigger] first_free_number(shot, existing, b, dest, bucket, n);
        assert(first_free_number(shot, existing, b, dest, bucket, x));
        if x < y {
            assert(clashes(shot, Some(x), existing, b, dest, bucket));
        } else if y < x {
            assert(first_free_number(shot, existing, a, dest, bucket, y));
            assert(clashes(shot, Some(y), existing, a, dest, bucket));
        }
    }
}

proof fn lemma_decimal_differs(a: nat, b: nat)
    requires
        decimal(a) == decimal(b),
    ensures
        a == b,
    decreases a,
{
    let x = decimal(a);
    let y = decimal(b);
    lemma_decimal_has_digits(a / 10);
    lemma_decimal_has_digits(b / 10);
    assert(x.last() == digit_char((a % 10) as int));
    assert(y.last() == digit_char((b % 10) as int));
    if a >= 10 && b >= 10 {
        assert(x.drop_last() =~= decimal(a / 10));
        assert(y.drop_last() =~= decimal(b / 10));
        lemma_decimal_differs(a / 10, b / 10);
    } else if a >= 10 || b >= 10 {
        assert(x.len() != y.len());
    }
}

proof fn lemma_decimal_has_digits(n: nat)
    ensures
        decimal(n).len() > 0,
{
}

/// Other numbers make other names.
proof fn lemma_names_differ(file: Seq<char>, stem: Seq<char>, a: u32, b: u32)
    requires
        name_with(file, stem, Some(a)) == name_with(file, stem, Some(b)),
    ensures
        a == b,
{
    let x = name_with(file, stem, Some(a));
    let y = name_with(file, stem, Some(b));
    let rest = rest_of(file, stem);
    let p = decimal(a as nat);
    let q = decimal(b as nat);
    reveal_strlit("-");
    assert(x.len() == stem.len() + 1 + p.len() + rest.len());
    assert(y.len() == stem.len() + 1 + q.len() + rest.len());
    assert forall|i: int| 0 <= i < p.len() implies p[i] == q[i] by {
        assert(x[stem.len() + 1 + i] == p[i]);
        assert(y[stem.len() + 1 + i] == q[i]);
    }
    assert(p =~= q);
    lemma_decimal_differs(a as nat, b as nat);
}

/// The numbers up to `top` whose names a list holds.
spec fn held(list: Seq<Seq<char>>, name: spec_fn(int) -> Seq<char>, top: int) -> Set<int> {
    Set::new(|n: int| 1 <= n <= top && list.contains(name(n)))
}

proof fn lemma_held(list: Seq<Seq<char>>, name: spec_fn(int) -> Seq<char>, top: int)
    requires
        0 <= top,
        forall|a: int, b: int|
            #![trigger name(a), name(b)]
            1 <= a <= top && 1 <= b <= top && name(a) == name(b) ==> a == b,
    ensures
        held(list, name, top).finite(),
        held(list, name, top).len() <= list.len(),
{
    let x = held(list, name, top);
    lemma_int_range(1, top + 1);
    assert(x.subset_of(set_int_range(1, top + 1)));
    lemma_len_subset(x, set_int_range(1, top + 1));
    let y = x.map(name);
    lemma_map_size(x, y, name);
    assert(y.subset_of(list.to_set()));
    seq_to_set_is_finite(list);
    lemma_len_subset(y, list.to_set());
    list.lemma_cardinality_of_set();
}

/// The places that the operations move files to.
spec fn targets(ops: Seq<OpView>) -> Seq<Seq<char>> {
    all_moves(ops).map_values(|m: MoveView| m.to)
}

proof fn lemma_targets(ops: Seq<OpView>, p: Seq<char>)
    ensures
        aimed_at(ops, p) ==> targets(ops).contains(p),
{
    if aimed_at(ops, p) {
        let (i, k) = choose|i: int, k: int|
            0 <= i < ops.len() && 0 <= k < ops[i].moves.len() && (#[trigger] ops[i].moves[k]).to
                == p;
        lemma_all_moves_contains(ops, i, k);
        let moves = all_moves(ops);
        let g = choose|g: int| 0 <= g < moves.len() && moves[g] == ops[i].moves[k];
        assert(targets(ops)[g] == p);
    }
}

/// The numbers up to `top` with which one of the first `k` files of the shot has a name that
/// is taken.
spec fn barred(
    shot: ShotView,
    existing: Seq<Seq<char>>,
    ops: Seq<OpView>,
    dest: Seq<char>,
    bucket: Seq<char>,
    top: int,
    k: int,
) -> Set<int> {
    Set::new(
        |n: int|
            1 <= n <= top && exists|j: int|
                0 <= j < k && name_taken(
                    existing,
                    ops,
                    dest,
                    bucket,
                    name_with(#[trigger] shot.files()[j], shot.stem, Some(n as u32)),
                ),
    )
}

/// No more numbers are barred than there are names for each file.
proof fn lemma_barred(
    shot: ShotView,
    existing: Seq<Seq<char>>,
    ops: Seq<OpView>,
    dest: Seq<char>,
    bucket: Seq<char>,
    top: int,
    k: int,
)
    requires
        0 <= top <= u32::MAX,
        0 <= k <= shot.files().len(),
    ensures
        barred(shot, existing, ops, dest, bucket, top, k).finite(),
        barred(shot, existing, ops, dest, bucket, top, k).len() <= k * (existing.len() + all_moves(
            ops,
        ).len()),
    decreases k,
{
    let all = barred(shot, existing, ops, dest, bucket, top, k);
    let each = (existing.len() + all_moves(ops).len()) as int;
    if k == 0 {
        assert(all =~= Set::empty());
    } else {
        lemma_barred(shot, existing, ops, dest, bucket, top, k - 1);
        let before = barred(shot, existing, ops, dest, bucket, top, k - 1);
        let file = shot.files()[k - 1];
        let dir = join(dest, bucket);
        let there = |n: int|
            below_bucket(bucket, name_with(file, shot.stem, Some(n as u32)));
        let aim = |n: int| join(dir, name_with(file, shot.stem, Some(n as u32)));
        assert forall|a: int, b: int|
            #![trigger there(a), there(b)]
            1 <= a <= top && 1 <= b <= top && there(a) == there(b) implies a == b by {
            let p = name_with(file, shot.stem, Some(a as u32));
            let q = name_with(file, shot.stem, Some(b as u32));
            assert(there(a).skip((bucket + "/"@).len() as int) =~= p);
            assert(there(b).skip((bucket + "/"@).len() as int) =~= q);
            lemma_names_differ(file, shot.stem, a as u32, b as u32);
        }
        assert forall|a: int, b: int|
            #![trigger aim(a), aim(b)]
            1 <= a <= top && 1 <= b <= top && aim(a) == aim(b) implies a == b by {
            let p = name_with(file, shot.stem, Some(a as u32));
            let q = name_with(file, shot.stem, Some(b as u32));
            reveal_strlit("-");
            assert(p[0] == (shot.stem + "-"@)[0]);
            assert(q[0] == (shot.stem + "-"@)[0]);
            if p[0] != '/' {
                let front = if dir.len() == 0 || dir.last() == '/' {
                    dir
                } else {
                    dir.push('/')
                };
                assert(aim(a).skip(front.len() as int) =~= p);
                assert(aim(b).skip(front.len() as int) =~= q);
            }
            lemma_names_differ(file, shot.stem, a as u32, b as u32);
        }
        lemma_held(existing, there, top);
        lemma_held(targets(ops), aim, top);
        let mine = held(existing, there, top).union(held(targets(ops), aim, top));
        lemma_len_union(held(existing, there, top), held(targets(ops), aim, top));
        assert(all.subset_of(before.union(mine))) by {
            assert forall|n: int| all.contains(n) implies before.union(mine).contains(n) by {
                let j = choose|j: int|
                    0 <= j < k && name_taken(
                        existing,
                        ops,
                        dest,
                        bucket,
                        name_with(#[trigger] shot.files()[j], shot.stem, Some(n as u32)),
                    );
                if j < k - 1 {
                    assert(before.contains(n));
                } else {
                    lemma_targets(ops, aim(n));
                }
            }
        }
        lemma_len_union(before, mine);
        lemma_len_subset(all, before.union(mine));
        assert((k - 1) * each + each == k * each) by (nonlinear_arith);
    }
}

/// Where fewer names are taken than there are numbers, a shot finds one.
proof fn lemma_a_number_is_free(
    shot: ShotView,
    existing: Seq<Seq<char>>,
    ops: Seq<OpView>,
    dest: Seq<char>,
    bucket: Seq<char>,
)
    requires
        3 * (existing.len() + all_moves(ops).len()) < u32::MAX,
    ensures
        exists|n: u32| #[trigger] first_free_number(shot, existing, ops, dest, bucket, n),
{
    let top = u32::MAX as int;
    let k = shot.files().len() as int;
    let each = (existing.len() + all_moves(ops).len()) as int;
    lemma_barred(shot, existing, ops, dest, bucket, top, k);
    assert(k * each <= 3 * each) by (nonlinear_arith)
        requires
            0 <= k <= 3,
            each >= 0,
    ;
    let all = barred(shot, existing, ops, dest, bucket, top, k);
    lemma_int_range(1, top + 1);
    if forall|n: int|
        1 <= n <= top ==> #[trigger] clashes(
            shot,
            Some(n as u32),
            existing,
            ops,
            dest,
            bucket,
        ) {
        assert(set_int_range(1, top + 1).subset_of(all)) by {
            assert forall|n: int| set_int_range(1, top + 1).contains(n) implies all.contains(
                n,
            ) by {
                assert(clashes(shot, Some(n as u32), existing, ops, dest, bucket));
            }
        }
        lemma_len_subset(set_int_range(1, top + 1), all);
    }
    let n = choose|n: int|
        1 <= n <= top && !#[trigger] clashes(shot, Some(n as u32), existing, ops, dest, bucket);
    lemma_lowest(shot, existing, ops, dest, bucket, 1, n as u32);
}

proof fn lemma_lowest(
    shot: ShotView,
    existing: Seq<Seq<char>>,
    ops: Seq<OpView>,
    dest: Seq<char>,
    bucket: Seq<char>,
    low: u32,
    n: u32,
)
    requires
        1 <= low <= n,
        !clashes(shot, Some(n), existing, ops, dest, bucket),
        forall|m: u32|
            1 <= m < low ==> #[trigger] clashes(shot, Some(m), existing, ops, dest, bucket),
    ensures
        exists|c: u32| #[trigger] first_free_number(shot, existing, ops, dest, bucket, c),
    decreases n - low,
{
    if clashes(shot, Some(low), existing, ops, dest, bucket) {
        lemma_lowest(shot, existing, ops, dest, bucket, (low + 1) as u32, n);
    } else {
        assert(first_free_number(shot, existing, ops, dest, bucket, low));
    }
}

proof fn lemma_few_moves(
    s: SessionView,
    dest: Seq<char>,
    buckets: Seq<Seq<char>>,
    existing: Seq<Seq<char>>,
    sizes: Seq<(Seq<char>, u64)>,
    i: int,
)
    requires
        0 <= i <= s.shots.len(),
    ensures
        all_moves(planned(s, dest, buckets, existing, sizes).ops.take(i)).len() <= 3 * i,
    decreases i,
{
    let ops = planned(s, dest, buckets, existing, sizes).ops;
    if i > 0 {
        lemma_few_moves(s, dest, buckets, existing, sizes, i - 1);
        lemma_op_at(s, dest, buckets, existing, sizes, i - 1);
        assert(ops.take(i).drop_last() =~= ops.take(i - 1));
        assert(ops.take(i).last() == ops[i - 1]);
    }
}

/// A shot gets a number exactly where the own name of one of its files is taken: its bucket
/// holds it already, or a shot before it goes there. The names are fewer than the numbers.
pub proof fn a_taken_name_gets_a_number(
    s: SessionView,
    dest: Seq<char>,
    buckets: Seq<Seq<char>>,
    existing: Seq<Seq<char>>,
    sizes: Seq<(Seq<char>, u64)>,
    i: int,
)
    requires
        0 <= i < s.shots.len(),
        3 * existing.len() + 9 * s.shots.len() < u32::MAX,
    ensures
        ({
            let ops = planned(s, dest, buckets, existing, sizes).ops;
            ops[i].suffix is Some <==> clashes(
                s.shots[i],
                None,
                existing,
                ops.take(i),
                dest,
                ops[i].bucket,
            )
        }),
{
    let ops = planned(s, dest, buckets, existing, sizes).ops;
    lemma_op_at(s, dest, buckets, existing, sizes, i);
    lemma_few_moves(s, dest, buckets, existing, sizes, i);
    lemma_a_number_is_free(s.shots[i], existing, ops.take(i), dest, ops[i].bucket);
}

/// No file is planned to a place that is taken: its bucket does not hold its name, and no
/// file of a shot before it goes there. All files of a shot have the number of the shot. The
/// names are fewer than the numbers.
pub proof fn no_planned_place_is_taken(
    s: SessionView,
    dest: Seq<char>,
    buckets: Seq<Seq<char>>,
    existing: Seq<Seq<char>>,
    sizes: Seq<(Seq<char>, u64)>,
    i: int,
    k: int,
)
    requires
        0 <= i < s.shots.len(),
        0 <= k < s.shots[i].files().len(),
        3 * existing.len() + 9 * s.shots.len() < u32::MAX,
    ensures
        ({
            let ops = planned(s, dest, buckets, existing, sizes).ops;
            let name = name_with(s.shots[i].files()[k], s.shots[i].stem, ops[i].suffix);
            &&& ops[i].bucket == buckets[bucket_place(s.decision_at(i).tier)]
            &&& ops[i].moves[k].to == join(join(dest, ops[i].bucket), name)
            &&& !existing.contains(below_bucket(ops[i].bucket, name))
            &&& forall|j: int, l: int|
                0 <= j < i && 0 <= l < ops[j].moves.len() ==> (#[trigger] ops[j].moves[l]).to
                    != ops[i].moves[k].to
        }),
{
    let ops = planned(s, dest, buckets, existing, sizes).ops;
    let shot = s.shots[i];
    let bucket = buckets[bucket_place(s.decision_at(i).tier)];
    lemma_op_at(s, dest, buckets, existing, sizes, i);
    a_taken_name_gets_a_number(s, dest, buckets, existing, sizes, i);
    let number = ops[i].suffix;
    if number is Some {
        assert(first_free_number(shot, existing, ops.take(i), dest, bucket, number->0));
    }
    assert(!clashes(shot, number, existing, ops.take(i), dest, bucket));
    let name = name_with(shot.files()[k], shot.stem, number);
    assert(!name_taken(existing, ops.take(i), dest, bucket, name));
    assert forall|j: int, l: int| 0 <= j < i && 0 <= l < ops[j].moves.len() implies (
    #[trigger] ops[j].moves[l]).to != ops[i].moves[k].to by {
        assert(ops.take(i)[j].moves[l] == ops[j].moves[l]);
    }
}

/// A shot keeps its stem as the start of its name. A number stands behind it, after a dash
/// and in digits.
pub proof fn a_number_stands_behind_the_stem(stem: Seq<char>, n: u32)
    ensures
        stem_with(stem, None) == stem,
        ({
            let name = stem_with(stem, Some(n));
            &&& stem.is_prefix_of(name)
            &&& name[stem.len() as int] == '-'
            &&& number_in(name.skip(stem.len() as int + 1)) == n
        }),
{
    reveal_strlit("-");
    a_written_number_reads_back(n as nat);
    let name = stem_with(stem, Some(n));
    assert(name.skip(stem.len() as int + 1) =~= decimal(n as nat));
}

/// The number of a shot is the lowest from 1 on under which none of its files goes to a
/// name that is taken: with any lower one, the bucket holds the name of a file already or a
/// shot before goes there.
pub proof fn the_lowest_free_number_is_taken(
    s: SessionView,
    dest: Seq<char>,
    buckets: Seq<Seq<char>>,
    existing: Seq<Seq<char>>,
    sizes: Seq<(Seq<char>, u64)>,
    i: int,
    m: u32,
)
    requires
        0 <= i < s.shots.len(),
        planned(s, dest, buckets, existing, sizes).ops[i].suffix is Some,
        1 <= m < planned(s, dest, buckets, existing, sizes).ops[i].suffix->0,
    ensures
        ({
            let ops = planned(s, dest, buckets, existing, sizes).ops;
            exists|k: int|
                {
                    let name = name_with(
                        #[trigger] s.shots[i].files()[k],
                        s.shots[i].stem,
                        Some(m),
                    );
                    &&& 0 <= k < s.shots[i].files().len()
                    &&& existing.contains(ops[i].bucket + seq!['/'] + name) || aimed_at(
                        ops.take(i),
                        join(join(dest, ops[i].bucket), name),
                    )
                }
        }),
{
    reveal_strlit("/");
    assert("/"@ =~= seq!['/']);
    let ops = planned(s, dest, buckets, existing, sizes).ops;
    lemma_op_at(s, dest, buckets, existing, sizes, i);
    let n = ops[i].suffix->0;
    assert(first_free_number(s.shots[i], existing, ops.take(i), dest, ops[i].bucket, n));
    assert(clashes(s.shots[i], Some(m), existing, ops.take(i), dest, ops[i].bucket));
}

/// A number is at least 1.
pub proof fn numbers_start_at_one(
    s: SessionView,
    dest: Seq<char>,
    buckets: Seq<Seq<char>>,
    existing: Seq<Seq<char>>,
    sizes: Seq<(Seq<char>, u64)>,
    i: int,
)
    requires
        0 <= i < s.shots.len(),
    ensures
        planned(s, dest, buckets, existing, sizes).ops[i].suffix matches Some(n) ==> n >= 1,
{
    let ops = planned(s, dest, buckets, existing, sizes).ops;
    lemma_op_at(s, dest, buckets, existing, sizes, i);
    if let Some(n) = ops[i].suffix {
        assert(first_free_number(s.shots[i], existing, ops.take(i), dest, ops[i].bucket, n));
    }
}

} // verus!
