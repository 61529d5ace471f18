//! What is shown: the window of the filmstrip, the colours, the texts over the loupe, the
//! tags that are suggested, and the zoom.
use vstd::prelude::*;
use crate::decode::TargetSize;
use crate::input::{
    all_trimmed, fits, lemma_nearest, nearest, passes, tags_in, the_nearest_is_found, Filter,
};
use crate::model::{Decision, ExifSummary, Session, SessionView, Tier};
use crate::paths::file_name;
use crate::session::{count_views, counts_are_of_places, deduped, places_seen, places_with};
use crate::text::{
    a_written_number_reads_back, ascii_lowered, chars_of, count_text, decimal, join_text, joined,
    number_in, same_text, same_text_ascii, split_on, split_on_nonempty, split_text,
    starts_with_text, text_of, texts, trim_text, trimmed,
};

verus! {

/// How many bars the histogram has.
pub const HISTOGRAM_BINS: usize = 30;

/// The number of a tier's colour: 0 none, 1 keep, 2 pick, 3 best, 4 reject.
pub open spec fn colour_of(tier: Option<Tier>) -> i32 {
    match tier {
        None => 0,
        Some(Tier::Keep) => 1,
        Some(Tier::Pick) => 2,
        Some(Tier::Best) => 3,
        Some(Tier::Reject) => 4,
    }
}

/// The number of the colour of a decision.
pub fn tier_color_code(d: &Decision) -> (r: i32)
    ensures
        r == colour_of(d@.tier),
{
    match d.tier {
        None => 0,
        Some(Tier::Keep) => 1,
        Some(Tier::Pick) => 2,
        Some(Tier::Best) => 3,
        Some(Tier::Reject) => 4,
    }
}

/// Whether a shot is shown dim: it has no tier and has not been seen.
pub fn dim_flag(d: &Decision) -> (r: bool)
    ensures
        r == (d@.tier is None && !d@.visited),
{
    d.tier.is_none() && !d.visited
}

/// Those of the first `n` shots that the filter lets through.
pub open spec fn passing(s: SessionView, filter: Filter, n: int) -> Seq<int>
    decreases n,
{
    if n <= 0 {
        Seq::empty()
    } else {
        let front = passing(s, filter, n - 1);
        if fits(filter, s.decision_at(n - 1)) {
            front.push(n - 1)
        } else {
            front
        }
    }
}

/// The first place at which `v` has at least `x`, or its length.
pub open spec fn first_at_least(v: Seq<int>, x: int) -> int
    decreases v.len(),
{
    if v.len() == 0 {
        0
    } else {
        let front = first_at_least(v.drop_last(), x);
        if front < v.len() - 1 || v.last() >= x {
            front
        } else {
            v.len() as int
        }
    }
}

/// The window of the filmstrip: the shots that the filter lets through up to `buffer` on
/// either side of the current one, and where in them the current one is. Where the filter
/// does not let the current one through, the next that it does takes its part, or the
/// last.
pub open spec fn window(s: SessionView, filter: Filter, buffer: int) -> (Seq<int>, int) {
    let all = passing(s, filter, s.shots.len() as int);
    if all.len() == 0 {
        (Seq::empty(), 0)
    } else {
        let next = first_at_least(all, s.current);
        let at = if next < all.len() {
            next
        } else {
            all.len() - 1
        };
        let lo = if at < buffer {
            0
        } else {
            at - buffer
        };
        let hi = if at + buffer + 1 < all.len() {
            at + buffer + 1
        } else {
            all.len() as int
        };
        (all.subrange(lo, hi), at - lo)
    }
}

/// Numbers of the program as numbers of the specification.
pub open spec fn as_ints(v: Seq<usize>) -> Seq<int> {
    v.map_values(|i: usize| i as int)
}

fn passing_indices(session: &Session, filter: Filter) -> (out: Vec<usize>)
    ensures
        as_ints(out@) == passing(session@, filter, session@.shots.len() as int),
{
    let n: usize = session.shots.len();
    let mut out: Vec<usize> = Vec::new();
    let mut i: usize = 0;
    assert(as_ints(out@) =~= passing(session@, filter, 0));
    while i < n
        invariant
            0 <= i <= n,
            n == session@.shots.len(),
            as_ints(out@) == passing(session@, filter, i as int),
        decreases n - i,
    {
        let ghost before = as_ints(out@);
        if passes(filter, session.decision(i)) {
            out.push(i);
            assert(as_ints(out@) =~= before.push(i as int));
        }
        i += 1;
    }
    out
}

/// The window of the filmstrip, and where in it the current shot is.
pub fn build_filmstrip_window(session: &Session, filter: Filter, buffer: usize) -> (r: (
    Vec<usize>,
    usize,
))
    ensures
        as_ints(r.0@) == window(session@, filter, buffer as int).0,
        r.1 == window(session@, filter, buffer as int).1,
{
    let all = passing_indices(session, filter);
    let ghost av = as_ints(all@);
    let n: usize = all.len();
    if n == 0 {
        let none: Vec<usize> = Vec::new();
        assert(as_ints(none@) =~= Seq::empty());
        return (none, 0);
    }
    let mut at: usize = 0;
    assert(av.take(0) =~= Seq::empty());
    while at < n && all[at] < session.current
        invariant
            0 <= at <= n,
            n == all@.len(),
            av == as_ints(all@),
            forall|k: int| 0 <= k < at ==> #[trigger] av[k] < session@.current,
        decreases n - at,
    {
        assert(av[at as int] == all@[at as int]);
        at += 1;
    }
    proof {
        if at < n {
            assert(av[at as int] == all@[at as int]);
        }
        lemma_first_at_least(av, session@.current, at as int);
    }
    let at: usize = if at < n {
        at
    } else {
        n - 1
    };
    let lo: usize = if at < buffer {
        0
    } else {
        at - buffer
    };
    let hi: usize = if buffer < n - at - 1 {
        at + buffer + 1
    } else {
        n
    };
    let mut out: Vec<usize> = Vec::new();
    let mut i: usize = lo;
    assert(as_ints(out@) =~= av.subrange(lo as int, lo as int));
    while i < hi
        invariant
            lo <= i <= hi <= n,
            n == all@.len(),
            av == as_ints(all@),
            as_ints(out@) == av.subrange(lo as int, i as int),
        decreases hi - i,
    {
        let ghost before = as_ints(out@);
        out.push(all[i]);
        assert(as_ints(out@) =~= before.push(av[i as int]));
        i += 1;
        assert(as_ints(out@) =~= av.subrange(lo as int, i as int));
    }
    (out, at - lo)
}

proof fn lemma_first_at_least(v: Seq<int>, x: int, n: int)
    requires
        0 <= n <= v.len(),
        forall|k: int| 0 <= k < n ==> #[trigger] v[k] < x,
        n < v.len() ==> v[n] >= x,
    ensures
        first_at_least(v, x) == n,
    decreases v.len(),
{
    if v.len() > 0 {
        let front = v.drop_last();
        if n == v.len() {
            assert forall|k: int| 0 <= k < front.len() implies #[trigger] front[k] < x by {
                assert(v[k] < x);
            }
            lemma_first_at_least(front, x, front.len() as int);
            assert(v[v.len() - 1] < x);
        } else {
            assert forall|k: int| 0 <= k < n implies #[trigger] front[k] < x by {
                assert(v[k] < x);
            }
            lemma_first_at_least(front, x, n);
        }
    }
}

proof fn lemma_passing(s: SessionView, filter: Filter, n: int)
    requires
        0 <= n <= s.shots.len(),
    ensures
        forall|k: int|
            0 <= k < passing(s, filter, n).len() ==> 0 <= #[trigger] passing(s, filter, n)[k] < n
                && fits(filter, s.decision_at(passing(s, filter, n)[k])),
        forall|j: int, k: int|
            #![trigger passing(s, filter, n)[j], passing(s, filter, n)[k]]
            0 <= j < k < passing(s, filter, n).len() ==> passing(s, filter, n)[j] < passing(
                s,
                filter,
                n,
            )[k],
        forall|i: int|
            0 <= i < n && fits(filter, #[trigger] s.decision_at(i)) ==> passing(
                s,
                filter,
                n,
            ).contains(i),
    decreases n,
{
    if n > 0 {
        lemma_passing(s, filter, n - 1);
        let front = passing(s, filter, n - 1);
        let all = passing(s, filter, n);
        assert forall|i: int|
            0 <= i < n && fits(filter, #[trigger] s.decision_at(i)) implies all.contains(i) by {
            if i == n - 1 {
                assert(all[front.len() as int] == i);
            } else {
                assert(front.contains(i));
                let k = choose|k: int| 0 <= k < front.len() && front[k] == i;
                assert(all[k] == i);
            }
        }
    }
}

/// The window shows only what the filter lets through, in order; it is empty only where
/// the filter lets nothing through; a current shot that the filter lets through is where the
/// window says that it is; and of another the window marks the shot that the session goes to
/// when the filter changes, so that the strip and the loupe agree.
pub proof fn the_window_shows_what_passes(s: SessionView, filter: Filter, buffer: int)
    requires
        0 <= buffer,
        0 <= s.current,
    ensures
        forall|k: int|
            0 <= k < window(s, filter, buffer).0.len() ==> 0 <= #[trigger] window(
                s,
                filter,
                buffer,
            ).0[k] < s.shots.len() && fits(
                filter,
                s.decision_at(window(s, filter, buffer).0[k]),
            ),
        window(s, filter, buffer).0.len() <= 2 * buffer + 1,
        window(s, filter, buffer).0.len() == 0 ==> forall|i: int|
            0 <= i < s.shots.len() ==> !fits(filter, #[trigger] s.decision_at(i)),
        s.current < s.shots.len() && fits(filter, s.decision_at(s.current)) ==> ({
            let (shown, at) = window(s, filter, buffer);
            0 <= at < shown.len() && shown[at] == s.current
        }),
        window(s, filter, buffer).0.len() > 0 ==> ({
            let (shown, at) = window(s, filter, buffer);
            0 <= at < shown.len() && nearest(s, filter, s.current) == Some(shown[at])
        }),
{
    let n = s.shots.len() as int;
    let all = passing(s, filter, n);
    lemma_passing(s, filter, n);
    if all.len() == 0 {
        assert forall|i: int| 0 <= i < s.shots.len() implies !fits(
            filter,
            #[trigger] s.decision_at(i),
        ) by {
            if fits(filter, s.decision_at(i)) {
                assert(all.contains(i));
            }
        }
    } else {
        lemma_first_at_least_bounds(all, s.current);
        if s.current < n && fits(filter, s.decision_at(s.current)) {
            assert(all.contains(s.current));
            let k = choose|k: int| 0 <= k < all.len() && all[k] == s.current;
            assert forall|j: int| 0 <= j < k implies #[trigger] all[j] < s.current by {
                assert(all[j] < all[k]);
            }
            lemma_first_at_least(all, s.current, k);
        }
        lemma_marked_is_nearest(s, filter);
    }
}

/// The shot that a window marks is the nearest that the filter lets through.
proof fn lemma_marked_is_nearest(s: SessionView, filter: Filter)
    requires
        0 <= s.current,
        passing(s, filter, s.shots.len() as int).len() > 0,
    ensures
        ({
            let all = passing(s, filter, s.shots.len() as int);
            let next = first_at_least(all, s.current);
            nearest(s, filter, s.current) == Some(
                all[if next < all.len() {
                    next
                } else {
                    all.len() - 1
                }],
            )
        }),
{
    let n = s.shots.len() as int;
    let all = passing(s, filter, n);
    lemma_passing(s, filter, n);
    assert(0 <= all[0] < n);
    the_nearest_is_found(s, filter, s.current);
    assert(fits(filter, s.decision_at(all[0])));
    let found = nearest(s, filter, s.current)->0;
    assert(all.contains(found));
    let k = choose|k: int| 0 <= k < all.len() && all[k] == found;
    lemma_nearest(s, filter, s.current);
    if found >= s.current {
        assert forall|j: int| 0 <= j < k implies #[trigger] all[j] < s.current by {
            assert(all[j] < all[k]);
            assert(fits(filter, s.decision_at(all[j])));
        }
        lemma_first_at_least(all, s.current, k);
    } else {
        if k < all.len() - 1 {
            assert(all[k] < all[k + 1]);
            assert(fits(filter, s.decision_at(all[k + 1])));
        }
        assert forall|j: int| 0 <= j < all.len() implies #[trigger] all[j] < s.current by {
            assert(j == k || all[j] < all[k]);
        }
        lemma_first_at_least(all, s.current, all.len() as int);
    }
}

proof fn lemma_first_at_least_bounds(v: Seq<int>, x: int)
    ensures
        0 <= first_at_least(v, x) <= v.len(),
    decreases v.len(),
{
    if v.len() > 0 {
        lemma_first_at_least_bounds(v.drop_last(), x);
    }
}

/// A text in lower case, as Unicode has it.
pub uninterp spec fn lowered(s: Seq<char>) -> Seq<char>;

/// `str::to_lowercase`: what comes back is named by the text.
#[verifier::external_body]
fn lower_text(s: &str) -> (r: String)
    ensures
        r@ == lowered(s@),
{
    s.to_lowercase()
}

/// Whether a tag is among those that were entered, whatever the case of their letters.
pub open spec fn entered(tag: Seq<char>, exclude: Seq<Seq<char>>) -> bool {
    exists|i: int|
        0 <= i < exclude.len() && ascii_lowered(#[trigger] exclude[i]) == ascii_lowered(tag)
}

/// Whether a tag completes what is typed, both given in lower case: it starts with it and
/// is longer. Every tag completes nothing.
pub open spec fn completes(typed: Seq<char>, tag: Seq<char>) -> bool {
    typed.len() == 0 || (typed.is_prefix_of(tag) && tag != typed)
}

/// Whether a tag is suggested for what is typed.
pub open spec fn offered(tag: Seq<char>, typed: Seq<char>, exclude: Seq<Seq<char>>) -> bool {
    !entered(tag, exclude) && completes(lowered(trimmed(typed)), lowered(tag))
}

/// The first `n` characters of a text, or all of it.
pub open spec fn up_to(s: Seq<char>, n: int) -> Seq<char> {
    if n < s.len() {
        s.take(n)
    } else {
        s
    }
}

/// What follows the first `n` characters of a text.
pub open spec fn beyond(s: Seq<char>, n: int) -> Seq<char> {
    if n < s.len() {
        s.skip(n)
    } else {
        Seq::empty()
    }
}

/// A tag and how often it is used, as it is suggested: what is typed of it, the rest, and
/// the count.
pub open spec fn suggestion(e: (Seq<char>, usize), typed: Seq<char>) -> (
    Seq<char>,
    Seq<char>,
    i32,
) {
    let n = trimmed(typed).len() as int;
    (up_to(e.0, n), beyond(e.0, n), e.1 as i32)
}

/// How many tags are suggested at most.
pub const MAX_SUGGESTIONS: usize = 8;

/// The tags that are suggested for what is typed: the first few that complete it and were
/// not entered.
pub open spec fn suggestions(
    counts: Seq<(Seq<char>, usize)>,
    typed: Seq<char>,
    exclude: Seq<Seq<char>>,
) -> Seq<(Seq<char>, Seq<char>, i32)> {
    let all = counts.filter(|e: (Seq<char>, usize)| offered(e.0, typed, exclude));
    let first = if all.len() > MAX_SUGGESTIONS {
        all.take(MAX_SUGGESTIONS as int)
    } else {
        all
    };
    first.map_values(|e: (Seq<char>, usize)| suggestion(e, typed))
}

/// The values of suggestions.
pub open spec fn suggestion_views(v: Seq<(String, String, i32)>) -> Seq<
    (Seq<char>, Seq<char>, i32),
> {
    v.map_values(|e: (String, String, i32)| (e.0@, e.1@, e.2))
}

/// Whether a tag is among those that were entered, whatever the case of their letters.
pub fn is_entered(tag: &str, exclude: &Vec<String>) -> (r: bool)
    ensures
        r == entered(tag@, texts(exclude@)),
{
    let mut i: usize = 0;
    while i < exclude.len()
        invariant
            0 <= i <= exclude@.len(),
            forall|k: int|
                0 <= k < i ==> ascii_lowered(#[trigger] texts(exclude@)[k]) != ascii_lowered(tag@),
        decreases exclude@.len() - i,
    {
        assert(texts(exclude@)[i as int] == exclude@[i as int]@);
        if same_text_ascii(exclude[i].as_str(), tag) {
            return true;
        }
        i += 1;
    }
    false
}

/// Whether a tag completes what is typed, both given in lower case.
pub fn is_completion(typed: &str, tag: &str) -> (r: bool)
    ensures
        r == completes(typed@, tag@),
{
    let n: usize = chars_of(typed).len();
    n == 0 || (starts_with_text(tag, typed) && !same_text(tag, typed))
}

/// Suggests tags for what is typed, out of tags with how often they are used.
pub fn suggest_tags_counted(
    counts: &Vec<(String, usize)>,
    prefix: &str,
    exclude: &Vec<String>,
) -> (out: Vec<(String, String, i32)>)
    ensures
        suggestion_views(out@) == suggestions(count_views(counts@), prefix@, texts(exclude@)),
{
    let typed = trim_text(prefix);
    let low = lower_text(typed.as_str());
    let n: usize = chars_of(typed.as_str()).len();
    let ghost all = count_views(counts@);
    let ghost p = |e: (Seq<char>, usize)| offered(e.0, prefix@, texts(exclude@));
    let ghost f = |e: (Seq<char>, usize)| suggestion(e, prefix@);
    let mut out: Vec<(String, String, i32)> = Vec::new();
    let mut i: usize = 0;
    proof {
        reveal(Seq::filter);
        assert(all.take(0) =~= Seq::empty());
        assert(suggestion_views(out@) =~= all.take(0).filter(p).map_values(f));
    }
    while i < counts.len() && out.len() < MAX_SUGGESTIONS
        invariant
            0 <= i <= counts@.len(),
            out@.len() <= MAX_SUGGESTIONS,
            typed@ == trimmed(prefix@),
            low@ == lowered(typed@),
            n == typed@.len(),
            all == count_views(counts@),
            p == (|e: (Seq<char>, usize)| offered(e.0, prefix@, texts(exclude@))),
            f == (|e: (Seq<char>, usize)| suggestion(e, prefix@)),
            suggestion_views(out@) == all.take(i as int).filter(p).map_values(f),
        decreases counts@.len() - i,
    {
        let (tag, used): (&String, usize) = (&counts[i].0, counts[i].1);
        let ghost before = suggestion_views(out@);
        let ghost kept = all.take(i as int).filter(p);
        proof {
            reveal(Seq::filter);
            assert(all[i as int] == (tag@, used));
            assert(all.take(i + 1).drop_last() =~= all.take(i as int));
        }
        if !is_entered(tag.as_str(), exclude) && is_completion(
            low.as_str(),
            lower_text(tag.as_str()).as_str(),
        ) {
            let v = chars_of(tag.as_str());
            let cut: usize = if n < v.len() {
                n
            } else {
                v.len()
            };
            let front = text_of(&v, 0, cut);
            let rest = text_of(&v, cut, v.len());
            proof {
                assert(front@ =~= up_to(tag@, n as int));
                assert(rest@ =~= beyond(tag@, n as int));
                assert(all.take(i + 1).filter(p) == kept.push(all[i as int]));
            }
            let ghost row = (front@, rest@, used as i32);
            out.push((front, rest, used as i32));
            assert(suggestion_views(out@) =~= before.push(row));
            assert(kept.push(all[i as int]).map_values(f) =~= kept.map_values(f).push(row));
        } else {
            assert(all.take(i + 1).filter(p) == kept);
        }
        i += 1;
    }
    proof {
        let done = all.take(i as int).filter(p);
        assert(out@.len() == suggestion_views(out@).len() == done.len());
        lemma_filter_prefix(all, p, i as int);
        if i < counts@.len() {
            assert(done.len() == MAX_SUGGESTIONS);
            let whole = all.filter(p);
            assert(done =~= whole.take(MAX_SUGGESTIONS as int));
            if whole.len() == MAX_SUGGESTIONS {
                assert(whole =~= done);
            }
        } else {
            assert(all.take(i as int) =~= all);
        }
    }
    out
}

proof fn lemma_filter_prefix<A>(s: Seq<A>, p: spec_fn(A) -> bool, n: int)
    requires
        0 <= n <= s.len(),
    ensures
        s.take(n).filter(p).len() <= s.filter(p).len(),
        s.filter(p).take(s.take(n).filter(p).len() as int) == s.take(n).filter(p),
    decreases s.len() - n,
{
    if n == s.len() {
        assert(s.take(n) =~= s);
        assert(s.filter(p).take(s.filter(p).len() as int) =~= s.filter(p));
    } else {
        reveal(Seq::filter);
        lemma_filter_prefix(s, p, n + 1);
        assert(s.take(n + 1).drop_last() =~= s.take(n));
        let less = s.take(n).filter(p);
        let more = s.take(n + 1).filter(p);
        assert(more == less || more == less.push(s[n]));
        assert(s.filter(p).take(less.len() as int) =~= more.take(less.len() as int));
        assert(more.take(less.len() as int) =~= less);
    }
}

/// The parts of a text between commas, without the white space around each and without
/// the empty ones.
pub open spec fn filled_parts(v: Seq<Seq<char>>) -> Seq<Seq<char>> {
    v.map_values(|t: Seq<char>| trimmed(t)).filter(|t: Seq<char>| t.len() > 0)
}

/// What is being typed of a list of tags, which is its last part, and the tags before it.
pub fn tag_segments(text: &str) -> (r: (String, Vec<String>))
    ensures
        r.0@ == trimmed(split_on(text@, ',').last()),
        texts(r.1@) == filled_parts(split_on(text@, ',').drop_last()),
        tags_in(text@) == deduped(
            if r.0@.len() > 0 {
                texts(r.1@).push(r.0@)
            } else {
                texts(r.1@)
            },
        ),
{
    let parts = split_text(text, ',');
    let ghost all = texts(parts@);
    proof {
        split_on_nonempty(text@, ',');
    }
    let n: usize = parts.len() - 1;
    let ghost front = all.drop_last();
    let ghost clean = front.map_values(|t: Seq<char>| trimmed(t));
    let ghost p = |t: Seq<char>| t.len() > 0;
    let mut out: Vec<String> = Vec::new();
    let mut i: usize = 0;
    proof {
        reveal(Seq::filter);
        assert(clean.take(0) =~= Seq::empty());
        assert(texts(out@) =~= clean.take(0).filter(p));
    }
    while i < n
        invariant
            0 <= i <= n,
            n == parts@.len() - 1,
            all == texts(parts@),
            front == all.drop_last(),
            clean == front.map_values(|t: Seq<char>| trimmed(t)),
            p == (|t: Seq<char>| t.len() > 0),
            texts(out@) == clean.take(i as int).filter(p),
        decreases n - i,
    {
        let t = trim_text(parts[i].as_str());
        let ghost before = texts(out@);
        proof {
            reveal(Seq::filter);
            assert(clean[i as int] == t@);
            assert(clean.take(i + 1).drop_last() =~= clean.take(i as int));
        }
        let k: usize = chars_of(t.as_str()).len();
        if k > 0 {
            let ghost tv = t@;
            out.push(t);
            assert(texts(out@) =~= before.push(tv));
        }
        i += 1;
    }
    assert(clean.take(n as int) =~= clean);
    assert(all.last() == parts@[n as int]@);
    proof {
        reveal(Seq::filter);
        let every = all_trimmed(all);
        assert(every.drop_last() =~= clean);
        assert(every.last() == trimmed(all.last()));
    }
    (trim_text(parts[n].as_str()), out)
}

/// The texts over the loupe.
#[derive(PartialEq, Eq, Debug)]
pub struct HudText {
    pub tier: String,
    pub tags: String,
    pub counts: String,
    pub progress: String,
    pub filter_label: String,
    /// The name of the file that is shown; empty without shots.
    pub filename: String,
    pub has_raw: bool,
    /// The place of the current shot, counted from 1, and how many there are.
    pub position: String,
    /// The exposure; empty where nothing is known of it.
    pub exif: String,
}

/// The value of a `HudText`.
pub struct HudView {
    pub tier: Seq<char>,
    pub tags: Seq<char>,
    pub counts: Seq<char>,
    pub progress: Seq<char>,
    pub filter_label: Seq<char>,
    pub filename: Seq<char>,
    pub has_raw: bool,
    pub position: Seq<char>,
    pub exif: Seq<char>,
}

impl View for HudText {
    type V = HudView;

    open spec fn view(&self) -> HudView {
        HudView {
            tier: self.tier@,
            tags: self.tags@,
            counts: self.counts@,
            progress: self.progress@,
            filter_label: self.filter_label@,
            filename: self.filename@,
            has_raw: self.has_raw,
            position: self.position@,
            exif: self.exif@,
        }
    }
}

/// The name of a tier.
pub open spec fn tier_name(tier: Option<Tier>) -> Seq<char> {
    match tier {
        None => "Rest"@,
        Some(Tier::Keep) => "Keep"@,
        Some(Tier::Pick) => "Pick"@,
        Some(Tier::Best) => "Best"@,
        Some(Tier::Reject) => "Reject"@,
    }
}

/// The words for a filter.
pub open spec fn filter_words(filter: Filter) -> Seq<char> {
    match filter {
        Filter::All => "filter: All"@,
        Filter::Keep => "filter: >=Keep"@,
        Filter::Pick => "filter: >=Pick"@,
        Filter::Best => "filter: >=Best"@,
        Filter::Rejects => "filter: Rejects"@,
    }
}

/// The words for a filter.
pub fn filter_label(filter: Filter) -> (r: &'static str)
    ensures
        r@ == filter_words(filter),
{
    match filter {
        Filter::All => "filter: All",
        Filter::Keep => "filter: >=Keep",
        Filter::Pick => "filter: >=Pick",
        Filter::Best => "filter: >=Best",
        Filter::Rejects => "filter: Rejects",
    }
}

/// How many shots have the tier.
pub open spec fn tier_total(s: SessionView, tier: Option<Tier>) -> nat {
    s.tier_count(tier, s.shots.len() as int) as nat
}

/// The words for how many shots have each tier.
pub open spec fn counts_words(s: SessionView) -> Seq<char> {
    "reject "@ + decimal(tier_total(s, Some(Tier::Reject))) + "  rest "@ + decimal(
        tier_total(s, None),
    ) + "  keep "@ + decimal(tier_total(s, Some(Tier::Keep))) + "  pick "@ + decimal(
        tier_total(s, Some(Tier::Pick)),
    ) + "  best "@ + decimal(tier_total(s, Some(Tier::Best)))
}

/// The name of the file that is shown for the current shot.
pub open spec fn current_file(s: SessionView) -> Seq<char> {
    if 0 <= s.current < s.shots.len() {
        crate::scan::shown_name(s.shots[s.current])
    } else {
        Seq::empty()
    }
}

/// What is known of the exposure of the current shot.
pub open spec fn exposure_of_current(s: SessionView) -> Option<ExifSummary> {
    if 0 <= s.current < s.shots.len() {
        s.shots[s.current].exif
    } else {
        None
    }
}

/// The texts over the loupe. `exif_line` is the line for the exposure of the current
/// shot, which counts only where something is known of it.
pub open spec fn hud_of(s: SessionView, filter: Filter, exif_line: Seq<char>) -> HudView {
    let d = s.decision_at(s.current);
    HudView {
        tier: tier_name(d.tier),
        tags: joined(d.tags, ", "@),
        counts: counts_words(s),
        progress: "seen "@ + decimal(s.seen_count(s.shots.len() as int) as nat) + "/"@ + decimal(
            s.shots.len(),
        ),
        filter_label: filter_words(filter),
        filename: current_file(s),
        has_raw: 0 <= s.current < s.shots.len() && s.shots[s.current].raw is Some,
        position: if s.shots.len() == 0 {
            "0/0"@
        } else {
            decimal((s.current + 1) as nat) + "/"@ + decimal(s.shots.len())
        },
        exif: if exposure_of_current(s) is Some {
            exif_line
        } else {
            Seq::empty()
        },
    }
}

/// What is known of the exposure of the current shot.
pub fn current_exposure(session: &Session) -> (r: Option<ExifSummary>)
    ensures
        r == exposure_of_current(session@),
{
    if session.current < session.shots.len() {
        assert(session@.shots[session@.current] == session.shots@[session@.current]@);
        session.shots[session.current].exif
    } else {
        None
    }
}

fn tier_text(tier: Option<Tier>) -> (r: &'static str)
    ensures
        r@ == tier_name(tier),
{
    match tier {
        None => "Rest",
        Some(Tier::Keep) => "Keep",
        Some(Tier::Pick) => "Pick",
        Some(Tier::Best) => "Best",
        Some(Tier::Reject) => "Reject",
    }
}

fn counts_text(session: &Session) -> (r: String)
    ensures
        r@ == counts_words(session@),
{
    let c = session.counts();
    let mut s = String::from_str("reject ");
    s.append(count_text(c.rejected).as_str());
    s.append("  rest ");
    s.append(count_text(c.rest).as_str());
    s.append("  keep ");
    s.append(count_text(c.keep).as_str());
    s.append("  pick ");
    s.append(count_text(c.picks).as_str());
    s.append("  best ");
    s.append(count_text(c.bests).as_str());
    s
}

/// The texts over the loupe.
pub fn hud_text(session: &Session, filter: Filter, exif_line: &str) -> (r: HudText)
    requires
        session@.shots.len() > 0 ==> session@.current < usize::MAX,
    ensures
        r@ == hud_of(session@, filter, exif_line@),
{
    let d = session.decision(session.current);
    let counts = counts_text(session);
    let n: usize = session.shots.len();
    let mut progress = String::from_str("seen ");
    progress.append(count_text(session.visited_count()).as_str());
    progress.append("/");
    progress.append(count_text(n).as_str());
    let (filename, has_raw) = if session.current < n {
        let shot = &session.shots[session.current];
        assert(session@.shots[session@.current] == shot@);
        (crate::scan::shown_name_of(shot), shot.raw.is_some())
    } else {
        (String::new(), false)
    };
    let position = if n == 0 {
        String::from_str("0/0")
    } else {
        let mut p = count_text(session.current + 1);
        p.append("/");
        p.append(count_text(n).as_str());
        p
    };
    let exif = if current_exposure(session).is_some() {
        exif_line.to_owned()
    } else {
        String::new()
    };
    let r = HudText {
        tier: tier_text(d.tier).to_owned(),
        tags: join_text(&d.tags, ", "),
        counts,
        progress,
        filter_label: filter_label(filter).to_owned(),
        filename,
        has_raw,
        position,
        exif,
    };
    proof {
        if session@.current >= session@.shots.len() {
            assert(r@.filename =~= Seq::empty());
        }
        if exposure_of_current(session@) is None {
            assert(r@.exif =~= Seq::empty());
        }
    }
    r
}

/// The zoom of the loupe and how far it is shifted, in whatever unit that is measured.
/// Both stay from shot to shot, so that one part can be compared through a series.
#[derive(Clone, Copy, PartialEq, Debug)]
pub struct ZoomState<P> {
    pub zoomed: bool,
    pub pan_x: P,
    pub pan_y: P,
}

impl<P: Default> Default for ZoomState<P> {
    fn default() -> (r: Self)
        ensures
            !r.zoomed,
            call_ensures(P::default, (), r.pan_x),
            call_ensures(P::default, (), r.pan_y),
    {
        ZoomState { zoomed: false, pan_x: P::default(), pan_y: P::default() }
    }
}

impl<P> ZoomState<P> {
    /// Zooms in or out again. The shift stays.
    pub fn toggle(&mut self)
        ensures
            final(self).zoomed == !old(self).zoomed,
            final(self).pan_x == old(self).pan_x,
            final(self).pan_y == old(self).pan_y,
    {
        self.zoomed = !self.zoomed;
    }

    /// Goes to another shot, which leaves the zoom and the shift as they are.
    pub fn on_navigate(&mut self)
        ensures
            *final(self) == *old(self),
    {
    }

    /// The size that the loupe needs.
    pub fn target(&self, fit_w: u32, fit_h: u32) -> (r: TargetSize)
        ensures
            r == (if self.zoomed {
                TargetSize::Full
            } else {
                TargetSize::Fit(fit_w, fit_h)
            }),
    {
        if self.zoomed {
            TargetSize::Full
        } else {
            TargetSize::Fit(fit_w, fit_h)
        }
    }
}

/// What passes a filter is listed in ascending order, each shot once, and nothing else is.
pub proof fn what_passes_is_listed_in_order(s: SessionView, filter: Filter, i: int)
    ensures
        ({
            let all = passing(s, filter, s.shots.len() as int);
            &&& all.contains(i) <==> 0 <= i < s.shots.len() && fits(filter, s.decision_at(i))
            &&& forall|j: int, k: int|
                #![trigger all[j], all[k]]
                0 <= j < k < all.len() ==> all[j] < all[k]
        }),
{
    lemma_passing(s, filter, s.shots.len() as int);
}

/// The window shows a run of what passes without a gap: in order, and no shot that passes is
/// missing between two that are shown. On either side of the marked shot it shows `buffer`
/// shots, and fewer only where no more pass on that side.
pub proof fn the_window_has_no_gaps(s: SessionView, filter: Filter, buffer: int, i: int)
    requires
        0 <= buffer,
        0 <= s.current,
        0 <= i < s.shots.len(),
        fits(filter, s.decision_at(i)),
    ensures
        ({
            let (shown, at) = window(s, filter, buffer);
            &&& 0 <= at < shown.len()
            &&& at <= buffer
            &&& shown.len() - 1 - at <= buffer
            &&& forall|j: int, k: int|
                #![trigger shown[j], shown[k]]
                0 <= j < k < shown.len() ==> shown[j] < shown[k]
            &&& shown[0] <= i <= shown.last() ==> shown.contains(i)
            &&& i < shown[0] ==> at == buffer
            &&& i > shown.last() ==> shown.len() - 1 - at == buffer
        }),
{
    let n = s.shots.len() as int;
    let all = passing(s, filter, n);
    lemma_passing(s, filter, n);
    assert(all.contains(i));
    lemma_first_at_least_bounds(all, s.current);
    let next = first_at_least(all, s.current);
    let at = if next < all.len() {
        next
    } else {
        all.len() - 1
    };
    let lo = if at < buffer {
        0
    } else {
        at - buffer
    };
    let hi = if at + buffer + 1 < all.len() {
        at + buffer + 1
    } else {
        all.len() as int
    };
    let shown = all.subrange(lo, hi);
    let k = choose|k: int| 0 <= k < all.len() && all[k] == i;
    assert(shown[0] == all[lo]);
    assert(shown.last() == all[hi - 1]);
    if lo <= k < hi {
        assert(shown[k - lo] == i);
    }
    if k < lo {
        assert(all[k] < all[lo]);
    }
    if k >= hi {
        assert(all[hi - 1] < all[k]);
    }
    assert forall|j: int, l: int|
        #![trigger shown[j], shown[l]]
        0 <= j < l < shown.len() implies shown[j] < shown[l] by {
        assert(all[lo + j] < all[lo + l]);
    }
}

/// Every tier has a colour of its own, and so has having none.
pub proof fn every_tier_has_its_own_colour(a: Option<Tier>, b: Option<Tier>)
    ensures
        colour_of(a) == colour_of(b) <==> a == b,
        0 <= colour_of(a) <= 4,
        colour_of(None) == 0,
{
}

/// Every tier has a name of its own, and so has having none.
pub proof fn every_tier_has_its_own_name(a: Option<Tier>, b: Option<Tier>)
    ensures
        tier_name(a) == tier_name(b) <==> a == b,
{
    reveal_strlit("Rest");
    reveal_strlit("Keep");
    reveal_strlit("Pick");
    reveal_strlit("Best");
    reveal_strlit("Reject");
    assert("Rest"@[1] == 'e' && "Keep"@[1] == 'e' && "Best"@[1] == 'e');
    assert("Rest"@[0] == 'R' && "Keep"@[0] == 'K' && "Best"@[0] == 'B' && "Pick"@[0] == 'P');
    assert("Rest"@.len() == 4 && "Reject"@.len() == 6);
}

/// A filter is named for the tiers that it lets through.
pub proof fn a_filter_names_its_tiers(f: Filter, tier: Tier)
    ensures
        f == Filter::Keep ==> filter_words(f) == "filter: >="@ + tier_name(Some(Tier::Keep)),
        f == Filter::Pick ==> filter_words(f) == "filter: >="@ + tier_name(Some(Tier::Pick)),
        f == Filter::Best ==> filter_words(f) == "filter: >="@ + tier_name(Some(Tier::Best)),
        f == Filter::Rejects ==> filter_words(f) == "filter: "@ + tier_name(Some(Tier::Reject))
            + "s"@,
        f == Filter::All ==> filter_words(f) == "filter: "@ + "All"@,
{
    reveal_strlit("filter: >=");
    reveal_strlit("filter: ");
    reveal_strlit("filter: All");
    reveal_strlit("filter: >=Keep");
    reveal_strlit("filter: >=Pick");
    reveal_strlit("filter: >=Best");
    reveal_strlit("filter: Rejects");
    reveal_strlit("All");
    reveal_strlit("Keep");
    reveal_strlit("Pick");
    reveal_strlit("Best");
    reveal_strlit("Reject");
    reveal_strlit("s");
    assert("filter: >=Keep"@ =~= "filter: >="@ + "Keep"@);
    assert("filter: >=Pick"@ =~= "filter: >="@ + "Pick"@);
    assert("filter: >=Best"@ =~= "filter: >="@ + "Best"@);
    assert("filter: Rejects"@ =~= "filter: "@ + "Reject"@ + "s"@);
    assert("filter: All"@ =~= "filter: "@ + "All"@);
}

/// A suggestion is a tag, cut where what was typed ends: what is shown as typed and what is
/// shown as the rest make up the tag, and the cut is as far in as the text that was typed is
/// long.
pub proof fn a_suggestion_is_the_whole_tag(e: (Seq<char>, usize), typed: Seq<char>)
    ensures
        ({
            let s = suggestion(e, typed);
            &&& s.0 + s.1 == e.0
            &&& trimmed(typed).len() <= e.0.len() ==> s.0.len() == trimmed(typed).len()
            &&& e.1 <= i32::MAX ==> s.2 == e.1
        }),
{
    let s = suggestion(e, typed);
    assert(s.0 + s.1 =~= e.0);
}

/// Whether a suggestion stands for one of the counted tags that may be suggested: it is not
/// among those that were entered, whatever the case of their letters, and it goes on from
/// what was typed.
pub open spec fn may_suggest(
    counts: Seq<(Seq<char>, usize)>,
    typed: Seq<char>,
    exclude: Seq<Seq<char>>,
    i: int,
) -> bool {
    &&& 0 <= i < counts.len()
    &&& forall|k: int|
        0 <= k < exclude.len() ==> ascii_lowered(#[trigger] exclude[k]) != ascii_lowered(
            counts[i].0,
        )
    &&& lowered(trimmed(typed)).len() > 0 ==> {
        &&& lowered(trimmed(typed)).is_prefix_of(lowered(counts[i].0))
        &&& lowered(trimmed(typed)).len() < lowered(counts[i].0).len()
    }
}

proof fn lemma_may_suggest(
    counts: Seq<(Seq<char>, usize)>,
    typed: Seq<char>,
    exclude: Seq<Seq<char>>,
    i: int,
)
    requires
        0 <= i < counts.len(),
        offered(counts[i].0, typed, exclude),
    ensures
        may_suggest(counts, typed, exclude, i),
{
    let a = lowered(trimmed(typed));
    let b = lowered(counts[i].0);
    if a.len() > 0 && a.len() == b.len() {
        assert(a.is_prefix_of(b));
        assert(a =~= b);
    }
    assert forall|k: int| 0 <= k < exclude.len() implies ascii_lowered(#[trigger] exclude[k])
        != ascii_lowered(counts[i].0) by {
        if ascii_lowered(exclude[k]) == ascii_lowered(counts[i].0) {
            assert(entered(counts[i].0, exclude));
        }
    }
}

/// At most eight tags are suggested, in the order of the counts, and each of them is one that
/// may be suggested, with its count.
pub proof fn suggestions_keep_the_order_of_the_counts(
    counts: Seq<(Seq<char>, usize)>,
    typed: Seq<char>,
    exclude: Seq<Seq<char>>,
)
    ensures
        suggestions(counts, typed, exclude).len() <= 8,
        exists|at: Seq<int>|
            #[trigger] taken_in_order(counts, typed, exclude, at),
{
    let p = |e: (Seq<char>, usize)| offered(e.0, typed, exclude);
    let at = lemma_filter_places(counts, p, counts.len() as int);
    assert(counts.take(counts.len() as int) =~= counts);
    let all = counts.filter(p);
    let first = if all.len() > MAX_SUGGESTIONS {
        at.take(MAX_SUGGESTIONS as int)
    } else {
        at
    };
    let out = suggestions(counts, typed, exclude);
    assert forall|k: int| 0 <= k < first.len() implies may_suggest(
        counts,
        typed,
        exclude,
        #[trigger] first[k],
    ) && out[k] == suggestion(counts[first[k]], typed) by {
        assert(first[k] == at[k]);
        assert(p(counts[at[k]]));
        lemma_may_suggest(counts, typed, exclude, at[k]);
    }
    assert(taken_in_order(counts, typed, exclude, first));
}

/// Whether the suggestions are for the counted tags at these places, which ascend.
pub open spec fn taken_in_order(
    counts: Seq<(Seq<char>, usize)>,
    typed: Seq<char>,
    exclude: Seq<Seq<char>>,
    at: Seq<int>,
) -> bool {
    &&& at.len() == suggestions(counts, typed, exclude).len()
    &&& forall|j: int, k: int| #![trigger at[j], at[k]] 0 <= j < k < at.len() ==> at[j] < at[k]
    &&& forall|k: int|
        0 <= k < at.len() ==> may_suggest(counts, typed, exclude, #[trigger] at[k])
            && suggestions(counts, typed, exclude)[k] == suggestion(counts[at[k]], typed)
}

proof fn lemma_filter_places<A>(s: Seq<A>, p: spec_fn(A) -> bool, n: int) -> (at: Seq<int>)
    requires
        0 <= n <= s.len(),
    ensures
        at.len() == s.take(n).filter(p).len(),
        forall|j: int, k: int| #![trigger at[j], at[k]] 0 <= j < k < at.len() ==> at[j] < at[k],
        forall|k: int|
            0 <= k < at.len() ==> 0 <= #[trigger] at[k] < n && p(s[at[k]]) && s.take(n).filter(
                p,
            )[k] == s[at[k]],
    decreases n,
{
    reveal(Seq::filter);
    if n == 0 {
        Seq::empty()
    } else {
        let before = lemma_filter_places(s, p, n - 1);
        assert(s.take(n).drop_last() =~= s.take(n - 1));
        if p(s[n - 1]) {
            before.push(n - 1)
        } else {
            before
        }
    }
}

/// Whether the text is two numbers with a slash between them.
pub open spec fn is_share(text: Seq<char>, part: int, whole: int) -> bool {
    exists|a: Seq<char>, b: Seq<char>|
        text == #[trigger] (a + seq!['/'] + b) && number_in(a) == part && number_in(b) == whole
}

/// The place is shown counted from 1 and the progress by the shots that were seen, both of
/// all shots. The file, the raw mark and the tags shown are those of the current shot.
pub proof fn the_hud_counts_from_one(s: SessionView, filter: Filter, exif_line: Seq<char>)
    requires
        0 <= s.current < s.shots.len(),
    ensures
        ({
            let hud = hud_of(s, filter, exif_line);
            let n = s.shots.len() as int;
            let shot = s.shots[s.current];
            &&& is_share(hud.position, s.current + 1, n)
            &&& is_share(hud.progress.skip(5), places_seen(s, n).len() as int, n)
            &&& hud.has_raw <==> shot.raw is Some
            &&& shot.jpeg is Some && file_name(shot.jpeg->0) is Some ==> hud.filename == file_name(
                shot.jpeg->0,
            )->0
            &&& shot.jpeg is None && shot.raw is Some && file_name(shot.raw->0) is Some
                ==> hud.filename == file_name(shot.raw->0)->0
            &&& shot.exif is Some ==> hud.exif == exif_line
            &&& shot.exif is None ==> hud.exif.len() == 0
            &&& s.decisions.contains_key(shot.stem) ==> hud.tags == joined(
                s.decisions[shot.stem].tags,
                ", "@,
            )
            &&& !s.decisions.contains_key(shot.stem) ==> hud.tags.len() == 0
        }),
{
    reveal_strlit("seen ");
    reveal_strlit("/");
    assert("/"@ =~= seq!['/']);
    let hud = hud_of(s, filter, exif_line);
    let n = s.shots.len() as int;
    counts_are_of_places(s, None, n);
    let seen = s.seen_count(n) as nat;
    a_written_number_reads_back((s.current + 1) as nat);
    a_written_number_reads_back(s.shots.len());
    a_written_number_reads_back(seen);
    let a = decimal((s.current + 1) as nat);
    let b = decimal(s.shots.len());
    let c = decimal(seen);
    assert(hud.position =~= a + seq!['/'] + b);
    assert(hud.progress.skip(5) =~= c + seq!['/'] + b);
}

/// Whether the text names a count for each of the five.
pub open spec fn names_counts(
    text: Seq<char>,
    reject: Seq<char>,
    rest: Seq<char>,
    keep: Seq<char>,
    pick: Seq<char>,
    best: Seq<char>,
) -> bool {
    text == "reject "@ + reject + "  rest "@ + rest + "  keep "@ + keep + "  pick "@ + pick
        + "  best "@ + best
}

/// The counts that are shown are those of the tiers they are named for.
pub proof fn shown_counts_are_those_of_the_tiers(s: SessionView)
    ensures
        exists|reject: Seq<char>, rest: Seq<char>, keep: Seq<char>, pick: Seq<char>, best: Seq<
            char,
        >|
            {
                let n = s.shots.len() as int;
                &&& #[trigger] names_counts(counts_words(s), reject, rest, keep, pick, best)
                &&& number_in(reject) == places_with(s, Some(Tier::Reject), n).len()
                &&& number_in(rest) == places_with(s, None, n).len()
                &&& number_in(keep) == places_with(s, Some(Tier::Keep), n).len()
                &&& number_in(pick) == places_with(s, Some(Tier::Pick), n).len()
                &&& number_in(best) == places_with(s, Some(Tier::Best), n).len()
            },
{
    let n = s.shots.len() as int;
    counts_are_of_places(s, Some(Tier::Reject), n);
    counts_are_of_places(s, None, n);
    counts_are_of_places(s, Some(Tier::Keep), n);
    counts_are_of_places(s, Some(Tier::Pick), n);
    counts_are_of_places(s, Some(Tier::Best), n);
    a_written_number_reads_back(tier_total(s, Some(Tier::Reject)));
    a_written_number_reads_back(tier_total(s, None));
    a_written_number_reads_back(tier_total(s, Some(Tier::Keep)));
    a_written_number_reads_back(tier_total(s, Some(Tier::Pick)));
    a_written_number_reads_back(tier_total(s, Some(Tier::Best)));
    assert(names_counts(
        counts_words(s),
        decimal(tier_total(s, Some(Tier::Reject))),
        decimal(tier_total(s, None)),
        decimal(tier_total(s, Some(Tier::Keep))),
        decimal(tier_total(s, Some(Tier::Pick))),
        decimal(tier_total(s, Some(Tier::Best))),
    ));
}

/// As long as fewer than eight are suggested, every tag that may be suggested is.
pub proof fn what_may_be_suggested_is(
    counts: Seq<(Seq<char>, usize)>,
    typed: Seq<char>,
    exclude: Seq<Seq<char>>,
    i: int,
)
    requires
        may_suggest(counts, typed, exclude, i),
        suggestions(counts, typed, exclude).len() < 8,
    ensures
        suggestions(counts, typed, exclude).contains(suggestion(counts[i], typed)),
{
    let p = |e: (Seq<char>, usize)| offered(e.0, typed, exclude);
    assert(!entered(counts[i].0, exclude));
    assert(p(counts[i]));
    counts.lemma_filter_contains(p, i);
    let all = counts.filter(p);
    let k = choose|k: int| 0 <= k < all.len() && all[k] == counts[i];
    assert(suggestions(counts, typed, exclude)[k] == suggestion(counts[i], typed));
}

} // verus!
