//! Keys, filters and actions: what a key means where, which shots a filter lets through,
//! and what an action does to the session.
use vstd::prelude::*;
use crate::model::{Decision, DecisionView, Session, SessionView, Tier};
use crate::session::{
    a_tier_replaces_the_tier_alone, deduped, deduped_keeps_each_text_once, same_mark, same_tags,
    same_tier, seeing_a_shot_changes_its_mark_alone,
};
use crate::text::{
    chars_of, contains_text, is_space, joined, same_text, split_on, split_on_nonempty, split_text,
    texts, trim_back, trim_front, trim_text, trimmed,
};

verus! {

/// A key.
#[derive(Clone, Copy, PartialEq, Eq, Debug)]
pub enum Key {
    Left,
    Right,
    Space,
    Backspace,
    Tab,
    Escape,
    Return,
    F11,
    Char(char),
}

/// The modifiers that are held with a key.
#[derive(Clone, Copy, PartialEq, Eq, Debug, Structural)]
pub struct Modifiers {
    pub control: bool,
    pub shift: bool,
    pub alt: bool,
}

impl Default for Modifiers {
    fn default() -> (r: Self)
        ensures
            !r.control && !r.shift && !r.alt,
    {
        Modifiers { control: false, shift: false, alt: false }
    }
}

/// Which surface has the keyboard.
#[derive(Clone, Copy, PartialEq, Eq, Debug, Structural)]
pub enum InputContext {
    Loupe,
    TagEntry,
    ApplyDialog,
    Help,
}

/// What the user wants.
#[derive(Clone, Copy, PartialEq, Eq, Debug)]
pub enum Action {
    Prev,
    Next,
    NextUnvisited,
    /// `None` takes the tier away.
    SetTier(Option<Tier>),
    Undo,
    OpenTagEntry,
    ToggleZoom,
    /// Shows the JPEG or the raw file of a shot that has both.
    ToggleRawPreview,
    CycleFilter,
    OpenApply,
    ForceSave,
    ToggleHelp,
    ToggleFullscreen,
    /// Hides all panels and the filmstrip.
    ToggleFocus,
}

/// The key that a text stands for: a name of a special key, or its first character.
pub open spec fn key_of(text: Seq<char>) -> Option<Key> {
    if text == "Left"@ {
        Some(Key::Left)
    } else if text == "Right"@ {
        Some(Key::Right)
    } else if text == "Tab"@ {
        Some(Key::Tab)
    } else if text == "Backspace"@ {
        Some(Key::Backspace)
    } else if text == "Escape"@ {
        Some(Key::Escape)
    } else if text == "Return"@ {
        Some(Key::Return)
    } else if text == "F11"@ {
        Some(Key::F11)
    } else if text == " "@ {
        Some(Key::Space)
    } else if text.len() > 0 {
        Some(Key::Char(text[0]))
    } else {
        None
    }
}

/// The key that a text stands for.
pub fn to_key(text: &str) -> (r: Option<Key>)
    ensures
        r == key_of(text@),
{
    if same_text(text, "Left") {
        Some(Key::Left)
    } else if same_text(text, "Right") {
        Some(Key::Right)
    } else if same_text(text, "Tab") {
        Some(Key::Tab)
    } else if same_text(text, "Backspace") {
        Some(Key::Backspace)
    } else if same_text(text, "Escape") {
        Some(Key::Escape)
    } else if same_text(text, "Return") {
        Some(Key::Return)
    } else if same_text(text, "F11") {
        Some(Key::F11)
    } else if same_text(text, " ") {
        Some(Key::Space)
    } else {
        let v = chars_of(text);
        if v.len() > 0 {
            Some(Key::Char(v[0]))
        } else {
            None
        }
    }
}

/// What a character means in the loupe. Letters mean the same in both cases.
pub open spec fn char_action(c: char) -> Option<Action> {
    if c == '1' {
        Some(Action::SetTier(Some(Tier::Keep)))
    } else if c == '2' {
        Some(Action::SetTier(Some(Tier::Pick)))
    } else if c == '3' {
        Some(Action::SetTier(Some(Tier::Best)))
    } else if c == 'x' || c == 'X' {
        Some(Action::SetTier(Some(Tier::Reject)))
    } else if c == '`' || c == '0' {
        Some(Action::SetTier(None))
    } else if c == 'u' || c == 'U' {
        Some(Action::Undo)
    } else if c == 't' || c == 'T' {
        Some(Action::OpenTagEntry)
    } else if c == 'z' || c == 'Z' {
        Some(Action::ToggleZoom)
    } else if c == 'r' || c == 'R' {
        Some(Action::ToggleRawPreview)
    } else if c == 'f' || c == 'F' {
        Some(Action::CycleFilter)
    } else if c == 'a' || c == 'A' {
        Some(Action::OpenApply)
    } else if c == '?' {
        Some(Action::ToggleHelp)
    } else {
        None
    }
}

/// What a key means. Only the loupe has keys of its own; with Control only saving has.
pub open spec fn meaning(key: Key, mods: Modifiers, ctx: InputContext) -> Option<Action> {
    if ctx != InputContext::Loupe {
        None
    } else if mods.control {
        if key == Key::Char('s') || key == Key::Char('S') {
            Some(Action::ForceSave)
        } else {
            None
        }
    } else {
        match key {
            Key::Left => Some(Action::Prev),
            Key::Backspace => Some(Action::Prev),
            Key::Right => Some(Action::Next),
            Key::Space => Some(Action::Next),
            Key::Tab => Some(Action::NextUnvisited),
            Key::Return => Some(Action::ToggleFocus),
            Key::F11 => Some(Action::ToggleFullscreen),
            Key::Escape => None,
            Key::Char(c) => char_action(c),
        }
    }
}

fn action_of_char(c: char) -> (r: Option<Action>)
    ensures
        r == char_action(c),
{
    if c == '1' {
        Some(Action::SetTier(Some(Tier::Keep)))
    } else if c == '2' {
        Some(Action::SetTier(Some(Tier::Pick)))
    } else if c == '3' {
        Some(Action::SetTier(Some(Tier::Best)))
    } else if c == 'x' || c == 'X' {
        Some(Action::SetTier(Some(Tier::Reject)))
    } else if c == '`' || c == '0' {
        Some(Action::SetTier(None))
    } else if c == 'u' || c == 'U' {
        Some(Action::Undo)
    } else if c == 't' || c == 'T' {
        Some(Action::OpenTagEntry)
    } else if c == 'z' || c == 'Z' {
        Some(Action::ToggleZoom)
    } else if c == 'r' || c == 'R' {
        Some(Action::ToggleRawPreview)
    } else if c == 'f' || c == 'F' {
        Some(Action::CycleFilter)
    } else if c == 'a' || c == 'A' {
        Some(Action::OpenApply)
    } else if c == '?' {
        Some(Action::ToggleHelp)
    } else {
        None
    }
}

/// What a key means; `None` where it means nothing.
pub fn key_to_action(key: Key, mods: Modifiers, ctx: InputContext) -> (r: Option<Action>)
    ensures
        r == meaning(key, mods, ctx),
{
    if ctx != InputContext::Loupe {
        return None;
    }
    if mods.control {
        return match key {
            Key::Char(c) => {
                if c == 's' || c == 'S' {
                    Some(Action::ForceSave)
                } else {
                    None
                }
            },
            _ => None,
        };
    }
    match key {
        Key::Left => Some(Action::Prev),
        Key::Backspace => Some(Action::Prev),
        Key::Right => Some(Action::Next),
        Key::Space => Some(Action::Next),
        Key::Tab => Some(Action::NextUnvisited),
        Key::Return => Some(Action::ToggleFocus),
        Key::F11 => Some(Action::ToggleFullscreen),
        Key::Escape => None,
        Key::Char(c) => action_of_char(c),
    }
}

/// Which shots are shown.
#[derive(Clone, Copy, PartialEq, Eq, Debug, Structural)]
pub enum Filter {
    All,
    /// Keep and better.
    Keep,
    /// Pick and better.
    Pick,
    Best,
    Rejects,
}

/// The filter that follows in the cycle.
pub open spec fn filter_after(f: Filter) -> Filter {
    match f {
        Filter::All => Filter::Keep,
        Filter::Keep => Filter::Pick,
        Filter::Pick => Filter::Best,
        Filter::Best => Filter::Rejects,
        Filter::Rejects => Filter::All,
    }
}

/// The filter that follows in the cycle.
pub fn next_filter(f: Filter) -> (r: Filter)
    ensures
        r == filter_after(f),
{
    match f {
        Filter::All => Filter::Keep,
        Filter::Keep => Filter::Pick,
        Filter::Pick => Filter::Best,
        Filter::Best => Filter::Rejects,
        Filter::Rejects => Filter::All,
    }
}

/// The cycle of filters comes round after all of them and not before.
pub proof fn filters_come_round(f: Filter)
    ensures
        filter_after(f) != f,
        filter_after(filter_after(f)) != f,
        filter_after(filter_after(filter_after(f))) != f,
        filter_after(filter_after(filter_after(filter_after(f)))) != f,
        filter_after(filter_after(filter_after(filter_after(filter_after(f))))) == f,
{
}

/// Whether a shot with the tier is at or above the place on the ladder.
pub open spec fn at_least(tier: Option<Tier>, place: int) -> bool {
    tier is Some && tier->0.place() >= place
}

/// Whether a filter lets a decision through.
pub open spec fn fits(filter: Filter, d: DecisionView) -> bool {
    match filter {
        Filter::All => true,
        Filter::Keep => at_least(d.tier, 1),
        Filter::Pick => at_least(d.tier, 2),
        Filter::Best => at_least(d.tier, 3),
        Filter::Rejects => d.tier == Some(Tier::Reject),
    }
}

/// Whether a filter lets a decision through.
pub fn passes(filter: Filter, d: &Decision) -> (r: bool)
    ensures
        r == fits(filter, d@),
{
    match filter {
        Filter::All => true,
        Filter::Keep => match d.tier {
            Some(t) => t.rank() >= 1,
            None => false,
        },
        Filter::Pick => match d.tier {
            Some(t) => t.rank() >= 2,
            None => false,
        },
        Filter::Best => match d.tier {
            Some(t) => t.rank() >= 3,
            None => false,
        },
        Filter::Rejects => d.tier == Some(Tier::Reject),
    }
}

/// The filters of the ladder narrow: what a later one lets through, an earlier one does.
/// None of them lets a reject through.
pub proof fn the_ladder_narrows(d: DecisionView)
    ensures
        fits(Filter::Best, d) ==> fits(Filter::Pick, d),
        fits(Filter::Pick, d) ==> fits(Filter::Keep, d),
        fits(Filter::Keep, d) ==> fits(Filter::All, d) && !fits(Filter::Rejects, d),
{
}

/// The first shot from `i` on of which `p` holds.
pub open spec fn first_from(
    s: SessionView,
    p: spec_fn(DecisionView) -> bool,
    i: int,
) -> Option<int>
    decreases s.shots.len() - i,
{
    if i >= s.shots.len() {
        None
    } else if p(s.decision_at(i)) {
        Some(i)
    } else {
        first_from(s, p, i + 1)
    }
}

/// The last shot before `i` of which `p` holds.
pub open spec fn last_before(
    s: SessionView,
    p: spec_fn(DecisionView) -> bool,
    i: int,
) -> Option<int>
    decreases i,
{
    if i <= 0 {
        None
    } else if p(s.decision_at(i - 1)) {
        Some(i - 1)
    } else {
        last_before(s, p, i - 1)
    }
}

/// What a filter asks of a decision.
pub open spec fn asks(filter: Filter) -> spec_fn(DecisionView) -> bool {
    |d: DecisionView| fits(filter, d)
}

/// The next or the previous shot that the filter lets through. There is none among no
/// shots.
pub open spec fn stepped(s: SessionView, filter: Filter, forward: bool) -> Option<int> {
    if s.shots.len() == 0 {
        None
    } else if forward {
        first_from(s, asks(filter), s.current + 1)
    } else {
        last_before(s, asks(filter), s.current)
    }
}

/// A place among shots, as a number of the specification.
pub open spec fn opt_int(o: Option<usize>) -> Option<int> {
    match o {
        Some(i) => Some(i as int),
        None => None,
    }
}

/// The next or the previous shot that the filter lets through.
pub fn step_filtered(session: &Session, filter: Filter, forward: bool) -> (r: Option<usize>)
    ensures
        opt_int(r) == stepped(session@, filter, forward),
{
    let n: usize = session.shots.len();
    if n == 0 {
        return None;
    }
    let ghost s = session@;
    let ghost p = asks(filter);
    let mut i: usize = session.current;
    if forward {
        loop
            invariant
                s == session@,
                p == asks(filter),
                n == session.shots.len(),
                n > 0,
                forward,
                first_from(s, p, s.current + 1) == first_from(s, p, i + 1),
            decreases usize::MAX - i,
        {
            if i >= n - 1 {
                return None;
            }
            i += 1;
            if passes(filter, session.decision(i)) {
                return Some(i);
            }
        }
    } else {
        loop
            invariant
                s == session@,
                p == asks(filter),
                s.shots.len() > 0,
                !forward,
                last_before(s, p, s.current as int) == last_before(s, p, i as int),
            decreases i,
        {
            if i == 0 {
                return None;
            }
            i -= 1;
            if passes(filter, session.decision(i)) {
                return Some(i);
            }
        }
    }
}

/// The shot to go to when the filter changes: the first from `from` on that it lets
/// through, else the last before. `from` is kept within the shots.
pub open spec fn nearest(s: SessionView, filter: Filter, from: int) -> Option<int> {
    if s.shots.len() == 0 {
        None
    } else {
        let at = if from < s.shots.len() {
            from
        } else {
            s.shots.len() - 1
        };
        match first_from(s, asks(filter), at) {
            Some(i) => Some(i),
            None => last_before(s, asks(filter), at),
        }
    }
}

/// The shot to go to when the filter changes.
pub fn nearest_passing(session: &Session, filter: Filter, from: usize) -> (r: Option<usize>)
    ensures
        opt_int(r) == nearest(session@, filter, from as int),
{
    let n: usize = session.shots.len();
    if n == 0 {
        return None;
    }
    let at: usize = if from < n {
        from
    } else {
        n - 1
    };
    let ghost s = session@;
    let ghost p = asks(filter);
    let mut i: usize = at;
    while i < n
        invariant
            s == session@,
            p == asks(filter),
            n == session.shots.len(),
            at <= i <= n,
            first_from(s, p, at as int) == first_from(s, p, i as int),
            n > 0,
            at == if from < n {
                from as int
            } else {
                n - 1
            },
        decreases n - i,
    {
        if passes(filter, session.decision(i)) {
            return Some(i);
        }
        i += 1;
    }
    let mut j: usize = at;
    while j > 0
        invariant
            s == session@,
            p == asks(filter),
            n == session.shots.len(),
            j <= at < n,
            first_from(s, p, at as int) is None,
            last_before(s, p, at as int) == last_before(s, p, j as int),
            at == if from < n {
                from as int
            } else {
                n - 1
            },
        decreases j,
    {
        if passes(filter, session.decision(j - 1)) {
            return Some(j - 1);
        }
        j -= 1;
    }
    None
}

proof fn lemma_first_from(s: SessionView, p: spec_fn(DecisionView) -> bool, i: int)
    ensures
        match first_from(s, p, i) {
            Some(k) => i <= k < s.shots.len() && p(s.decision_at(k)) && forall|j: int|
                i <= j < k ==> !p(#[trigger] s.decision_at(j)),
            None => forall|j: int| i <= j < s.shots.len() ==> !p(#[trigger] s.decision_at(j)),
        },
    decreases s.shots.len() - i,
{
    if i < s.shots.len() && !p(s.decision_at(i)) {
        lemma_first_from(s, p, i + 1);
    }
}

proof fn lemma_last_before(s: SessionView, p: spec_fn(DecisionView) -> bool, i: int)
    ensures
        match last_before(s, p, i) {
            Some(k) => 0 <= k < i && p(s.decision_at(k)) && forall|j: int|
                k < j < i ==> !p(#[trigger] s.decision_at(j)),
            None => forall|j: int| 0 <= j < i ==> !p(#[trigger] s.decision_at(j)),
        },
    decreases i,
{
    if i > 0 && !p(s.decision_at(i - 1)) {
        lemma_last_before(s, p, i - 1);
    }
}

/// A step leads to a shot that the filter lets through, and passes over none that it does.
pub proof fn a_step_finds_the_neighbour(s: SessionView, filter: Filter, forward: bool)
    requires
        s.shots.len() > 0,
    ensures
        match stepped(s, filter, forward) {
            Some(k) => fits(filter, s.decision_at(k)) && if forward {
                s.current < k < s.shots.len() && forall|j: int|
                    s.current < j < k ==> !fits(filter, #[trigger] s.decision_at(j))
            } else {
                0 <= k < s.current && forall|j: int|
                    k < j < s.current ==> !fits(filter, #[trigger] s.decision_at(j))
            },
            None => forall|j: int|
                0 <= j < s.shots.len() && (if forward {
                    s.current < j
                } else {
                    j < s.current
                }) ==> !fits(filter, #[trigger] s.decision_at(j)),
        },
{
    lemma_first_from(s, asks(filter), s.current + 1);
    lemma_last_before(s, asks(filter), s.current);
}

/// When the filter changes, a shot that it lets through stays; otherwise one is found
/// wherever there is one, the first from there on before the last that comes before.
pub proof fn the_nearest_is_found(s: SessionView, filter: Filter, from: int)
    requires
        0 <= from,
    ensures
        nearest(s, filter, from) matches Some(k) ==> 0 <= k < s.shots.len() && fits(
            filter,
            s.decision_at(k),
        ),
        nearest(s, filter, from) is None ==> forall|j: int|
            0 <= j < s.shots.len() ==> !fits(filter, #[trigger] s.decision_at(j)),
        from < s.shots.len() && fits(filter, s.decision_at(from)) ==> nearest(s, filter, from)
            == Some(from),
        nearest(s, filter, from) matches Some(k) ==> if k >= from {
            forall|j: int| from <= j < k ==> !fits(filter, #[trigger] s.decision_at(j))
        } else {
            forall|j: int| k < j < s.shots.len() ==> !fits(filter, #[trigger] s.decision_at(j))
        },
{
    if nearest(s, filter, from) is Some {
        lemma_nearest(s, filter, from);
    }
    if s.shots.len() > 0 {
        let at = if from < s.shots.len() {
            from
        } else {
            s.shots.len() - 1
        };
        lemma_first_from(s, asks(filter), at);
        lemma_last_before(s, asks(filter), at);
    }
}

/// No shot that the filter lets through lies between the anchor and the nearest, and one
/// before the anchor is the nearest only where none is from the anchor on.
pub(crate) proof fn lemma_nearest(s: SessionView, filter: Filter, from: int)
    requires
        0 <= from,
        nearest(s, filter, from) is Some,
    ensures
        ({
            let k = nearest(s, filter, from)->0;
            if k >= from {
                forall|j: int| from <= j < k ==> !fits(filter, #[trigger] s.decision_at(j))
            } else {
                forall|j: int|
                    k < j < s.shots.len() ==> !fits(filter, #[trigger] s.decision_at(j))
            }
        }),
{
    let at = if from < s.shots.len() {
        from
    } else {
        s.shots.len() - 1
    };
    lemma_first_from(s, asks(filter), at);
    lemma_last_before(s, asks(filter), at);
    let k = nearest(s, filter, from)->0;
    if k >= from {
        assert forall|j: int| from <= j < k implies !fits(filter, #[trigger] s.decision_at(j)) by {
            assert(!asks(filter)(s.decision_at(j)));
        }
    } else {
        assert forall|j: int| k < j < s.shots.len() implies !fits(
            filter,
            #[trigger] s.decision_at(j),
        ) by {
            assert(!asks(filter)(s.decision_at(j)));
        }
    }
}

/// The texts without the white space around each.
pub open spec fn all_trimmed(v: Seq<Seq<char>>) -> Seq<Seq<char>> {
    v.map_values(|t: Seq<char>| trimmed(t))
}

/// The tags that a text lists between commas: trimmed, in order, each of them once, the
/// empty ones left out.
pub open spec fn tags_in(input: Seq<char>) -> Seq<Seq<char>> {
    deduped(all_trimmed(split_on(input, ',')).filter(|t: Seq<char>| t.len() > 0))
}

/// The tags that a text lists between commas.
pub fn parse_tags(input: &str) -> (out: Vec<String>)
    ensures
        texts(out@) == tags_in(input@),
{
    let parts = split_text(input, ',');
    let ghost all = all_trimmed(texts(parts@));
    let ghost p = |t: Seq<char>| t.len() > 0;
    let mut out: Vec<String> = Vec::new();
    let mut i: usize = 0;
    proof {
        reveal(Seq::filter);
        assert(all.take(0) =~= Seq::empty());
        assert(texts(out@) =~= deduped(all.take(0).filter(p)));
    }
    while i < parts.len()
        invariant
            0 <= i <= parts@.len(),
            all == all_trimmed(texts(parts@)),
            p == (|t: Seq<char>| t.len() > 0),
            texts(out@) == deduped(all.take(i as int).filter(p)),
        decreases parts@.len() - i,
    {
        let t = trim_text(parts[i].as_str());
        let ghost before = texts(out@);
        let ghost kept = all.take(i as int).filter(p);
        proof {
            reveal(Seq::filter);
            assert(all[i as int] == t@);
            assert(all.take(i + 1).drop_last() =~= all.take(i as int));
        }
        let n: usize = chars_of(t.as_str()).len();
        if n > 0 {
            assert(all.take(i + 1).filter(p) == kept.push(t@));
            assert(kept.push(t@).drop_last() =~= kept);
            if !contains_text(&out, t.as_str()) {
                let ghost tv = t@;
                out.push(t);
                assert(texts(out@) =~= before.push(tv));
            }
        } else {
            assert(all.take(i + 1).filter(p) == kept);
        }
        i += 1;
    }
    assert(all.take(i as int) =~= all);
    out
}

/// Whether a text can be shown as a tag and read again: it is not empty, no white space is
/// around it, and no comma is in it.
pub open spec fn plain_tag(t: Seq<char>) -> bool {
    &&& t.len() > 0
    &&& !is_space(t[0])
    &&& !is_space(t.last())
    &&& !t.contains(',')
}

proof fn lemma_split_append(a: Seq<char>, b: Seq<char>, sep: char)
    requires
        !b.contains(sep),
    ensures
        split_on(a + b, sep) == split_on(a, sep).drop_last().push(split_on(a, sep).last() + b),
    decreases b.len(),
{
    split_on_nonempty(a, sep);
    let parts = split_on(a, sep);
    if b.len() == 0 {
        assert(a + b =~= a);
        assert(parts.last() + b =~= parts.last());
        assert(parts.drop_last().push(parts.last()) =~= parts);
    } else {
        let c = b.drop_last();
        assert((a + b).drop_last() =~= a + c);
        assert(b.contains(b.last()));
        assert forall|x: char| c.contains(x) implies b.contains(x) by {
            let i = choose|i: int| 0 <= i < c.len() && c[i] == x;
            assert(b[i] == x);
        }
        lemma_split_append(a, c, sep);
        let front = split_on(a + c, sep);
        assert(front.drop_last() =~= parts.drop_last());
        assert(front.last().push(b.last()) =~= parts.last() + b);
    }
}

/// The pieces of the shown tags: each with the blank that stands before it.
proof fn lemma_split_joined(tags: Seq<Seq<char>>)
    requires
        tags.len() > 0,
        forall|i: int| 0 <= i < tags.len() ==> plain_tag(#[trigger] tags[i]),
    ensures
        split_on(joined(tags, ", "@), ',') == Seq::new(
            tags.len(),
            |i: int|
                if i == 0 {
                    tags[0]
                } else {
                    seq![' '] + tags[i]
                },
        ),
    decreases tags.len(),
{
    reveal_strlit(", ");
    let none = Seq::<char>::empty();
    let pieces = split_on(joined(tags, ", "@), ',');
    if tags.len() == 1 {
        assert(plain_tag(tags[0]));
        lemma_split_append(none, tags[0], ',');
        assert(none + tags[0] =~= tags[0]);
        assert(split_on(none, ',') == seq![none]);
        assert(split_on(none, ',').last() + tags[0] =~= tags[0]);
        assert(pieces =~= seq![tags[0]]);
    } else {
        let front = tags.drop_last();
        assert forall|i: int| 0 <= i < front.len() implies plain_tag(#[trigger] front[i]) by {
            assert(plain_tag(tags[i]));
        }
        lemma_split_joined(front);
        let text = joined(front, ", "@);
        let last = seq![' '] + tags.last();
        assert(plain_tag(tags[tags.len() - 1]));
        assert(!last.contains(',')) by {
            if last.contains(',') {
                let i = choose|i: int| 0 <= i < last.len() && last[i] == ',';
                assert(tags.last()[i - 1] == ',');
            }
        }
        let cut = text.push(',');
        assert(cut.drop_last() =~= text);
        assert(text + ", "@ + tags.last() =~= cut + last);
        lemma_split_append(cut, last, ',');
        let before = split_on(text, ',');
        assert(split_on(cut, ',') == before.push(none));
        assert(none + last =~= last);
        assert(before.push(none).drop_last() =~= before);
        assert(pieces == before.push(last));
        assert(pieces =~= Seq::new(
            tags.len(),
            |i: int|
                if i == 0 {
                    tags[0]
                } else {
                    seq![' '] + tags[i]
                },
        ));
    }
}

proof fn lemma_trim_front(t: Seq<char>)
    ensures
        exists|k: int| 0 <= k <= t.len() && trim_front(t) == #[trigger] t.skip(k),
        trim_front(t).len() > 0 ==> !is_space(trim_front(t)[0]),
    decreases t.len(),
{
    if t.len() > 0 && is_space(t[0]) {
        let u = t.drop_first();
        lemma_trim_front(u);
        let k = choose|k: int| 0 <= k <= u.len() && trim_front(u) == #[trigger] u.skip(k);
        assert(u.skip(k) =~= t.skip(k + 1));
    } else {
        assert(t.skip(0) =~= t);
    }
}

proof fn lemma_trim_back(t: Seq<char>)
    ensures
        exists|k: int| 0 <= k <= t.len() && trim_back(t) == #[trigger] t.take(k),
        trim_back(t).len() > 0 ==> !is_space(trim_back(t).last()),
    decreases t.len(),
{
    if t.len() > 0 && is_space(t.last()) {
        let u = t.drop_last();
        lemma_trim_back(u);
        let k = choose|k: int| 0 <= k <= u.len() && trim_back(u) == #[trigger] u.take(k);
        assert(u.take(k) =~= t.take(k));
    } else {
        assert(t.take(t.len() as int) =~= t);
    }
}

/// What is left of a text without commas is a plain tag, or nothing.
proof fn lemma_trimmed_is_plain(t: Seq<char>)
    requires
        !t.contains(','),
        trimmed(t).len() > 0,
    ensures
        plain_tag(trimmed(t)),
{
    let f = trim_front(t);
    lemma_trim_front(t);
    lemma_trim_back(f);
    let k = choose|k: int| 0 <= k <= t.len() && f == #[trigger] t.skip(k);
    let m = choose|m: int| 0 <= m <= f.len() && trim_back(f) == #[trigger] f.take(m);
    let r = trimmed(t);
    assert(r[0] == f[0]);
    if r.contains(',') {
        let i = choose|i: int| 0 <= i < r.len() && r[i] == ',';
        assert(t[i + k] == ',');
    }
}

proof fn lemma_pieces_have_no_separator(t: Seq<char>, sep: char, i: int)
    requires
        0 <= i < split_on(t, sep).len(),
    ensures
        !split_on(t, sep)[i].contains(sep),
    decreases t.len(),
{
    if t.len() > 0 {
        let front = split_on(t.drop_last(), sep);
        let all = split_on(t, sep);
        split_on_nonempty(t.drop_last(), sep);
        if i < all.len() - 1 {
            lemma_pieces_have_no_separator(t.drop_last(), sep, i);
        } else if t.last() != sep {
            lemma_pieces_have_no_separator(t.drop_last(), sep, front.len() - 1);
            let last = front.last().push(t.last());
            if last.contains(sep) {
                let k = choose|k: int| 0 <= k < last.len() && last[k] == sep;
                assert(front.last()[k] == sep);
            }
        }
    }
}

/// The tags that a text lists are plain, and each of them is there once.
pub proof fn listed_tags_are_plain(input: Seq<char>)
    ensures
        tags_in(input).no_duplicates(),
        forall|i: int| 0 <= i < tags_in(input).len() ==> plain_tag(#[trigger] tags_in(input)[i]),
{
    let p = |t: Seq<char>| t.len() > 0;
    let pieces = split_on(input, ',');
    let all = all_trimmed(pieces);
    let kept = all.filter(p);
    deduped_keeps_each_text_once(kept);
    let tags = tags_in(input);
    assert forall|i: int| 0 <= i < tags.len() implies plain_tag(#[trigger] tags[i]) by {
        assert(deduped(kept).contains(tags[i]));
        assert(kept.contains(tags[i]));
        all.lemma_filter_contains_rev(p, tags[i]);
        let j = choose|j: int| 0 <= j < all.len() && all[j] == tags[i];
        lemma_pieces_have_no_separator(input, ',', j);
        let x = choose|x: int| 0 <= x < kept.len() && kept[x] == tags[i];
        lemma_kept_passes(all, x);
        lemma_trimmed_is_plain(pieces[j]);
    }
}

proof fn lemma_kept_passes(all: Seq<Seq<char>>, x: int)
    requires
        0 <= x < all.filter(|t: Seq<char>| t.len() > 0).len(),
    ensures
        all.filter(|t: Seq<char>| t.len() > 0)[x].len() > 0,
    decreases all.len(),
{
    reveal(Seq::filter);
    let p = |t: Seq<char>| t.len() > 0;
    if all.len() > 0 {
        let front = all.drop_last().filter(p);
        if x < front.len() {
            lemma_kept_passes(all.drop_last(), x);
        }
    }
}

proof fn lemma_all_pass(v: Seq<Seq<char>>)
    requires
        forall|i: int| 0 <= i < v.len() ==> (#[trigger] v[i]).len() > 0,
    ensures
        v.filter(|t: Seq<char>| t.len() > 0) == v,
    decreases v.len(),
{
    reveal(Seq::filter);
    if v.len() > 0 {
        let front = v.drop_last();
        assert forall|i: int| 0 <= i < front.len() implies (#[trigger] front[i]).len() > 0 by {
            assert(v[i].len() > 0);
        }
        lemma_all_pass(front);
        assert(v[v.len() - 1].len() > 0);
        assert(front.push(v.last()) =~= v);
    } else {
        assert(v.filter(|t: Seq<char>| t.len() > 0) =~= v);
    }
}

proof fn lemma_deduped_is_same(v: Seq<Seq<char>>)
    requires
        v.no_duplicates(),
    ensures
        deduped(v) == v,
    decreases v.len(),
{
    if v.len() > 0 {
        let front = v.drop_last();
        lemma_deduped_is_same(front);
        if front.contains(v.last()) {
            let i = choose|i: int| 0 <= i < front.len() && front[i] == v.last();
            assert(v[i] == v[v.len() - 1]);
        }
        assert(front.push(v.last()) =~= v);
    } else {
        assert(deduped(v) =~= v);
    }
}

/// Plain tags that are shown in one line are read again as they are.
pub proof fn shown_tags_are_read_again(tags: Seq<Seq<char>>)
    requires
        tags.no_duplicates(),
        forall|i: int| 0 <= i < tags.len() ==> plain_tag(#[trigger] tags[i]),
    ensures
        tags_in(joined(tags, ", "@)) == tags,
{
    let text = joined(tags, ", "@);
    let pieces = split_on(text, ',');
    if tags.len() == 0 {
        let none = Seq::<char>::empty();
        assert(pieces == seq![none]);
        assert(trimmed(none) == none);
        let all = all_trimmed(pieces);
        assert(all =~= seq![none]);
        let p = |t: Seq<char>| t.len() > 0;
        reveal_with_fuel(Seq::filter, 2);
        assert(all.drop_last() =~= Seq::<Seq<char>>::empty());
        assert(all.last() == none);
        assert(all.drop_last().filter(p) =~= Seq::<Seq<char>>::empty());
        assert(all.filter(p) =~= Seq::<Seq<char>>::empty());
        assert(tags_in(text) =~= tags);
    } else {
        lemma_split_joined(tags);
        let all = all_trimmed(pieces);
        assert forall|i: int| 0 <= i < tags.len() implies #[trigger] all[i] == tags[i] by {
            assert(plain_tag(tags[i]));
            let t = tags[i];
            assert(trim_front(t) == t);
            assert(trim_back(t) == t);
            if i > 0 {
                let u = seq![' '] + t;
                assert(u.drop_first() =~= t);
                assert(trim_front(u) == trim_front(t));
            }
        }
        assert(all =~= tags);
        assert forall|i: int| 0 <= i < tags.len() implies (#[trigger] tags[i]).len() > 0 by {
            assert(plain_tag(tags[i]));
        }
        lemma_all_pass(tags);
        lemma_deduped_is_same(tags);
    }
}

/// Committing the tags that are shown changes nothing: what a text lists, shown in one line
/// and committed again, is the same list.
pub proof fn committing_the_shown_tags_changes_nothing(input: Seq<char>)
    ensures
        tags_in(joined(tags_in(input), ", "@)) == tags_in(input),
        deduped(tags_in(input)) == tags_in(input),
{
    listed_tags_are_plain(input);
    shown_tags_are_read_again(tags_in(input));
    lemma_deduped_is_same(tags_in(input));
}

/// The session at the shot, which is thereby seen.
pub open spec fn gone_to(s: SessionView, to: Option<int>) -> SessionView {
    match to {
        Some(i) => SessionView { current: i, ..s }.seen(i),
        None => s,
    }
}

/// What an action does to the session. A tier that is set goes on to the next shot if
/// `auto_advance`; one that is taken away does not.
pub open spec fn acted(
    s: SessionView,
    action: Action,
    auto_advance: bool,
    filter: Filter,
) -> SessionView {
    match action {
        Action::Prev => gone_to(s, stepped(s, filter, false)),
        Action::Next => gone_to(s, stepped(s, filter, true)),
        Action::NextUnvisited => gone_to(
            s,
            first_from(s, |d: DecisionView| !d.visited, s.current),
        ),
        Action::SetTier(tier) => {
            let set = s.tier_set(s.current, tier);
            if tier is Some && auto_advance {
                gone_to(set, stepped(set, filter, true))
            } else {
                set
            }
        },
        Action::Undo => s.undone(),
        _ => s,
    }
}

fn go_to(session: &mut Session, to: Option<usize>)
    ensures
        final(session)@ == gone_to(old(session)@, opt_int(to)),
{
    let ghost before = session@;
    if let Some(i) = to {
        session.current = i;
        assert(session@ == SessionView { current: i as int, ..before });
        session.mark_visited(i);
    }
}

fn next_unseen(session: &Session) -> (r: Option<usize>)
    ensures
        opt_int(r) == first_from(session@, |d: DecisionView| !d.visited, session@.current),
{
    let r = session.next_unvisited(session.current);
    proof {
        lemma_first_from(session@, |d: DecisionView| !d.visited, session@.current);
        if let Some(i) = r {
            assert(!session@.decision_at(i as int).visited);
            let k = first_from(session@, |d: DecisionView| !d.visited, session@.current);
            if k is Some {
                assert(!session@.decision_at(k->0).visited);
            }
        }
    }
    r
}

/// Does an action to the session. Those that concern only what is shown change nothing.
pub fn apply_action(action: Action, session: &mut Session, auto_advance: bool, filter: Filter)
    ensures
        final(session)@ == acted(old(session)@, action, auto_advance, filter),
{
    match action {
        Action::Prev => {
            let to = step_filtered(session, filter, false);
            go_to(session, to);
        },
        Action::Next => {
            let to = step_filtered(session, filter, true);
            go_to(session, to);
        },
        Action::NextUnvisited => {
            let to = next_unseen(session);
            go_to(session, to);
        },
        Action::SetTier(tier) => {
            let at: usize = session.current;
            session.set_tier(at, tier);
            if tier.is_some() && auto_advance {
                let to = step_filtered(session, filter, true);
                go_to(session, to);
            }
        },
        Action::Undo => {
            let _ = session.undo();
        },
        _ => {},
    }
}

/// Whether an action is one on the session; the others concern only what is shown.
pub open spec fn concerns_the_session(action: Action) -> bool {
    action is Prev || action is Next || action is NextUnvisited || action is SetTier
        || action is Undo
}

/// No action changes the shots, and those that concern only what is shown change nothing.
/// A place within the shots stays within them.
pub proof fn actions_keep_the_shots(
    s: SessionView,
    action: Action,
    auto_advance: bool,
    filter: Filter,
)
    ensures
        acted(s, action, auto_advance, filter).shots == s.shots,
        acted(s, action, auto_advance, filter).source_dir == s.source_dir,
        !concerns_the_session(action) ==> acted(s, action, auto_advance, filter) == s,
        0 <= s.current < s.shots.len() ==> 0 <= acted(
            s,
            action,
            auto_advance,
            filter,
        ).current < s.shots.len(),
{
    let set = match action {
        Action::SetTier(tier) => s.tier_set(s.current, tier),
        _ => s,
    };
    lemma_first_from(set, asks(filter), set.current + 1);
    lemma_last_before(s, asks(filter), s.current);
    lemma_first_from(s, |d: DecisionView| !d.visited, s.current);
    lemma_first_from(s, asks(filter), s.current + 1);
}

/// Which tiers a filter lets through: everything, the keepers and better, the picks and
/// better, the best alone, the rejects alone. A shot without a tier passes the first only.
pub proof fn a_filter_goes_by_the_tier(d: DecisionView)
    ensures
        fits(Filter::All, d),
        fits(Filter::Keep, d) <==> d.tier == Some(Tier::Keep) || d.tier == Some(Tier::Pick)
            || d.tier == Some(Tier::Best),
        fits(Filter::Pick, d) <==> d.tier == Some(Tier::Pick) || d.tier == Some(Tier::Best),
        fits(Filter::Best, d) <==> d.tier == Some(Tier::Best),
        fits(Filter::Rejects, d) <==> d.tier == Some(Tier::Reject),
{
    match d.tier {
        Some(Tier::Reject) => {},
        Some(Tier::Keep) => {},
        Some(Tier::Pick) => {},
        Some(Tier::Best) => {},
        None => {},
    }
}

/// Whether every stem has the tier and the tags in the one session that it has in the other.
pub open spec fn decided_alike(s: SessionView, t: SessionView) -> bool {
    &&& forall|stem: Seq<char>| #[trigger] same_tier(s, t, stem)
    &&& forall|stem: Seq<char>| #[trigger] same_tags(s, t, stem)
}

/// Going to a shot makes it the current one and marks it as seen. No tier and no tag
/// changes, nothing is to be undone that was not before, and the shots stay.
pub proof fn going_to_a_shot_decides_nothing(s: SessionView, to: Option<int>)
    ensures
        decided_alike(s, gone_to(s, to)),
        gone_to(s, to).undo == s.undo,
        gone_to(s, to).shots == s.shots,
        gone_to(s, to).source_dir == s.source_dir,
        gone_to(s, to).pending_apply == s.pending_apply,
        to matches Some(i) ==> {
            let t = gone_to(s, to);
            &&& t.current == i
            &&& 0 <= i < s.shots.len() ==> {
                let stem = s.shots[i].stem;
                &&& t.decisions.contains_key(stem) && t.decisions[stem].visited
                &&& forall|other: Seq<char>| other != stem ==> #[trigger] same_mark(s, t, other)
            }
        },
        to is None ==> gone_to(s, to) == s,
{
    if let Some(i) = to {
        let m = SessionView { current: i, ..s };
        seeing_a_shot_changes_its_mark_alone(m, i);
        assert forall|stem: Seq<char>| #[trigger] same_tier(s, gone_to(s, to), stem) by {
            assert(same_tier(m, m.seen(i), stem));
        }
        assert forall|stem: Seq<char>| #[trigger] same_tags(s, gone_to(s, to), stem) by {
            assert(same_tags(m, m.seen(i), stem));
        }
    }
}

/// Whether the action only goes to another shot.
pub open spec fn only_moves(action: Action) -> bool {
    action == Action::Prev || action == Action::Next || action == Action::NextUnvisited
}

/// Moving never changes a tier or a tag, leaves nothing new to undo, and where it moves, the
/// shot it comes to is seen.
pub proof fn moving_decides_nothing(
    s: SessionView,
    action: Action,
    auto_advance: bool,
    filter: Filter,
)
    requires
        only_moves(action),
        0 <= s.current,
    ensures
        ({
            let t = acted(s, action, auto_advance, filter);
            &&& decided_alike(s, t)
            &&& t.undo == s.undo
            &&& t.shots == s.shots
            &&& t.source_dir == s.source_dir
            &&& t.pending_apply == s.pending_apply
            &&& t != s && s.current <= s.shots.len() ==> {
                &&& 0 <= t.current < s.shots.len()
                &&& t.decisions.contains_key(s.shots[t.current].stem)
                &&& t.decisions[s.shots[t.current].stem].visited
            }
        }),
{
    let unseen = first_from(s, |d: DecisionView| !d.visited, s.current);
    lemma_first_from(s, |d: DecisionView| !d.visited, s.current);
    lemma_last_before(s, asks(filter), s.current);
    lemma_first_from(s, asks(filter), s.current + 1);
    let t = acted(s, action, auto_advance, filter);
    if action == Action::Prev {
        going_to_a_shot_decides_nothing(s, stepped(s, filter, false));
    } else if action == Action::Next {
        going_to_a_shot_decides_nothing(s, stepped(s, filter, true));
    } else {
        assert(t == gone_to(s, unseen));
        going_to_a_shot_decides_nothing(s, unseen);
    }
}

/// Back and forward go to the nearest shot on that side that the filter lets through; where
/// there is none, the session stays as it is.
pub proof fn moving_goes_to_the_neighbour(
    s: SessionView,
    auto_advance: bool,
    filter: Filter,
    j: int,
)
    requires
        0 <= s.current < s.shots.len(),
        0 <= j < s.shots.len(),
        fits(filter, s.decision_at(j)),
    ensures
        ({
            let t = acted(s, Action::Next, auto_advance, filter);
            &&& s.current < j ==> s.current < t.current <= j
            &&& t != s ==> s.current < t.current && fits(filter, s.decision_at(t.current))
        }),
        ({
            let t = acted(s, Action::Prev, auto_advance, filter);
            &&& j < s.current ==> j <= t.current < s.current
            &&& t != s ==> t.current < s.current && fits(filter, s.decision_at(t.current))
        }),
{
    a_step_finds_the_neighbour(s, filter, true);
    a_step_finds_the_neighbour(s, filter, false);
    going_to_a_shot_decides_nothing(s, stepped(s, filter, true));
    going_to_a_shot_decides_nothing(s, stepped(s, filter, false));
}

/// The next shot that was not seen is the first from the current one on; where all of them
/// were seen, the session stays as it is.
pub proof fn the_next_unseen_is_the_first(
    s: SessionView,
    auto_advance: bool,
    filter: Filter,
    j: int,
)
    requires
        0 <= s.current <= j < s.shots.len(),
        !s.decision_at(j).visited,
    ensures
        ({
            let t = acted(s, Action::NextUnvisited, auto_advance, filter);
            &&& s.current <= t.current <= j
            &&& !s.decision_at(t.current).visited
            &&& t.decision_at(t.current).visited
        }),
{
    let unseen = |d: DecisionView| !d.visited;
    lemma_first_from(s, unseen, s.current);
    assert(unseen(s.decision_at(j)));
    going_to_a_shot_decides_nothing(s, first_from(s, unseen, s.current));
}

/// A tier that is set is that of the shot that was current, and no other tier changes; no
/// tag changes; the change can be undone. The place moves only where a tier was given and
/// the loupe advances, and then forward.
pub proof fn a_tier_goes_to_the_current_shot(
    s: SessionView,
    tier: Option<Tier>,
    auto_advance: bool,
    filter: Filter,
)
    requires
        0 <= s.current < s.shots.len(),
    ensures
        ({
            let t = acted(s, Action::SetTier(tier), auto_advance, filter);
            let stem = s.shots[s.current].stem;
            &&& t.decisions.contains_key(stem)
            &&& t.decisions[stem].tier == tier
            &&& forall|other: Seq<char>| other != stem ==> #[trigger] same_tier(s, t, other)
            &&& forall|any: Seq<char>| #[trigger] same_tags(s, t, any)
            &&& t.shots == s.shots
            &&& t.undo.len() > 0 && t.undo.last().stem == stem
            &&& tier is None || !auto_advance ==> t.current == s.current
            &&& s.current <= t.current
            &&& t.current != s.current ==> {
                &&& t.current < s.shots.len()
                &&& t.decisions.contains_key(s.shots[t.current].stem)
                &&& t.decisions[s.shots[t.current].stem].visited
            }
        }),
{
    let stem = s.shots[s.current].stem;
    let set = s.tier_set(s.current, tier);
    let t = acted(s, Action::SetTier(tier), auto_advance, filter);
    a_tier_replaces_the_tier_alone(s, s.current, tier);
    let to = stepped(set, filter, true);
    going_to_a_shot_decides_nothing(set, to);
    a_step_finds_the_neighbour(set, filter, true);
    assert(same_tier(set, t, stem));
    assert forall|other: Seq<char>| other != stem implies #[trigger] same_tier(s, t, other) by {
        assert(set.decisions.contains_key(other) == s.decisions.contains_key(other));
        assert(same_tier(set, t, other));
    }
    assert forall|any: Seq<char>| #[trigger] same_tags(s, t, any) by {
        assert(set.decisions.contains_key(any) == s.decisions.contains_key(any) || any == stem);
        assert(same_tags(set, t, any));
    }
}

/// With all shots shown, a tier goes on to the very next shot, and stays on the last.
pub proof fn a_tier_goes_on_to_the_next(s: SessionView, tier: Tier)
    requires
        0 <= s.current < s.shots.len(),
    ensures
        acted(s, Action::SetTier(Some(tier)), true, Filter::All).current == if s.current + 1
            < s.shots.len() {
            s.current + 1
        } else {
            s.current
        },
{
    let set = s.tier_set(s.current, Some(tier));
    a_step_finds_the_neighbour(set, Filter::All, true);
    let to = stepped(set, Filter::All, true);
    if s.current + 1 < s.shots.len() {
        assert(fits(Filter::All, set.decision_at(s.current + 1)));
    }
    going_to_a_shot_decides_nothing(set, to);
}

/// A letter means the same in both cases, whatever is held and whichever surface is open.
pub proof fn letters_mean_the_same_in_both_cases(c: char, mods: Modifiers, ctx: InputContext)
    requires
        'a' <= c <= 'z',
    ensures
        meaning(Key::Char(c), mods, ctx) == meaning(
            Key::Char((c as int - 32) as char),
            mods,
            ctx,
        ),
{
}

/// The number keys climb the ladder: a higher number gives a higher tier, and 0 takes the
/// tier away.
pub proof fn number_keys_climb_the_ladder(c: char, d: char, mods: Modifiers)
    requires
        '0' <= c < d <= '3',
        !mods.control,
    ensures
        ({
            let low = meaning(Key::Char(c), mods, InputContext::Loupe);
            let high = meaning(Key::Char(d), mods, InputContext::Loupe);
            &&& low is Some && low->0 is SetTier
            &&& high is Some && high->0 is SetTier && high->0->SetTier_0 is Some
            &&& c == '0' ==> low->0->SetTier_0 is None
            &&& c != '0' ==> low->0->SetTier_0 is Some && low->0->SetTier_0->0.place()
                < high->0->SetTier_0->0.place()
            &&& high->0->SetTier_0->0 != Tier::Reject
        }),
{
}

/// Shift and Alt change nothing of what a key means.
pub proof fn shift_and_alt_change_no_meaning(
    key: Key,
    a: Modifiers,
    b: Modifiers,
    ctx: InputContext,
)
    requires
        a.control == b.control,
    ensures
        meaning(key, a, ctx) == meaning(key, b, ctx),
{
}

/// A text of one character is that key, but for the blank, which has a name.
pub proof fn a_character_is_its_own_key(c: char)
    ensures
        c != ' ' ==> key_of(seq![c]) == Some(Key::Char(c)),
        key_of(seq![' ']) == Some(Key::Space),
        key_of(Seq::empty()) is None,
{
    reveal_strlit("Left");
    reveal_strlit("Right");
    reveal_strlit("Tab");
    reveal_strlit("Backspace");
    reveal_strlit("Escape");
    reveal_strlit("Return");
    reveal_strlit("F11");
    reveal_strlit(" ");
    let text = seq![c];
    assert(text.len() == 1 && text[0] == c);
    assert("Left"@.len() == 4 && "Right"@.len() == 5 && "Tab"@.len() == 3);
    assert("Backspace"@.len() == 9 && "Escape"@.len() == 6 && "Return"@.len() == 6);
    assert("F11"@.len() == 3);
    assert(" "@[0] == ' ');
    assert(" "@ =~= seq![' ']);
}

/// With Control held only saving means something.
pub proof fn control_means_saving_alone(key: Key, mods: Modifiers)
    requires
        mods.control,
    ensures
        key == Key::Char('s') || key == Key::Char('S') <==> meaning(key, mods, InputContext::Loupe)
            is Some,
        meaning(key, mods, InputContext::Loupe) matches Some(a) ==> a == Action::ForceSave,
{
}

/// Only the loupe has keys of its own.
pub proof fn only_the_loupe_has_keys(key: Key, mods: Modifiers, ctx: InputContext)
    requires
        ctx != InputContext::Loupe,
    ensures
        meaning(key, mods, ctx) is None,
{
}

/// Every tier can be given and taken away by a key, and there are keys to go back, to go on,
/// to go on to what was not seen, and to undo.
pub proof fn every_wish_has_a_key(tier: Option<Tier>, mods: Modifiers)
    requires
        !mods.control,
    ensures
        exists|c: char| #[trigger]
            meaning(Key::Char(c), mods, InputContext::Loupe) == Some(Action::SetTier(tier)),
        exists|key: Key| #[trigger]
            meaning(key, mods, InputContext::Loupe) == Some(Action::Prev),
        exists|key: Key| #[trigger]
            meaning(key, mods, InputContext::Loupe) == Some(Action::Next),
        exists|key: Key| #[trigger]
            meaning(key, mods, InputContext::Loupe) == Some(Action::NextUnvisited),
        exists|key: Key| #[trigger]
            meaning(key, mods, InputContext::Loupe) == Some(Action::Undo),
{
    let loupe = InputContext::Loupe;
    assert(meaning(Key::Char('x'), mods, loupe) == Some(Action::SetTier(Some(Tier::Reject))));
    assert(meaning(Key::Char('1'), mods, loupe) == Some(Action::SetTier(Some(Tier::Keep))));
    assert(meaning(Key::Char('2'), mods, loupe) == Some(Action::SetTier(Some(Tier::Pick))));
    assert(meaning(Key::Char('3'), mods, loupe) == Some(Action::SetTier(Some(Tier::Best))));
    assert(meaning(Key::Char('0'), mods, loupe) == Some(Action::SetTier(None)));
    assert(meaning(Key::Left, mods, loupe) == Some(Action::Prev));
    assert(meaning(Key::Right, mods, loupe) == Some(Action::Next));
    assert(meaning(Key::Tab, mods, loupe) == Some(Action::NextUnvisited));
    assert(meaning(Key::Char('u'), mods, loupe) == Some(Action::Undo));
    match tier {
        Some(Tier::Reject) => {},
        Some(Tier::Keep) => {},
        Some(Tier::Pick) => {},
        Some(Tier::Best) => {},
        None => {},
    }
}

/// The filters cycle from all shots up the ladder, each step letting through less, then to
/// the rejects, which no step of the ladder lets through, and round again.
pub proof fn the_filters_climb_the_ladder(d: DecisionView)
    ensures
        ({
            let one = filter_after(Filter::All);
            let two = filter_after(one);
            let three = filter_after(two);
            let four = filter_after(three);
            &&& fits(one, d) ==> fits(Filter::All, d)
            &&& fits(two, d) ==> fits(one, d)
            &&& fits(three, d) ==> fits(two, d)
            &&& fits(four, d) ==> !fits(one, d)
            &&& d.tier == Some(Tier::Keep) ==> fits(one, d) && !fits(two, d)
            &&& d.tier == Some(Tier::Pick) ==> fits(two, d) && !fits(three, d)
            &&& d.tier == Some(Tier::Best) ==> fits(three, d)
            &&& d.tier == Some(Tier::Reject) ==> fits(four, d)
        }),
{
}

/// A key that has a name is that key.
pub proof fn a_named_key_is_that_key()
    ensures
        key_of("Left"@) == Some(Key::Left),
        key_of("Right"@) == Some(Key::Right),
        key_of("Tab"@) == Some(Key::Tab),
        key_of("Backspace"@) == Some(Key::Backspace),
        key_of("Escape"@) == Some(Key::Escape),
        key_of("Return"@) == Some(Key::Return),
        key_of("F11"@) == Some(Key::F11),
{
    reveal_strlit("Left");
    reveal_strlit("Right");
    reveal_strlit("Tab");
    reveal_strlit("Backspace");
    reveal_strlit("Escape");
    reveal_strlit("Return");
    reveal_strlit("F11");
    assert("Left"@[0] == 'L' && "Right"@[0] == 'R' && "Tab"@[0] == 'T');
    assert("Backspace"@[0] == 'B' && "Escape"@[0] == 'E' && "F11"@[0] == 'F');
    assert("Return"@[0] == 'R' && "Return"@.len() == 6 && "Right"@.len() == 5);
}

} // verus!
