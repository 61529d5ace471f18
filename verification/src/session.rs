//! The state engine: decisions, tags, visits, undo, and what is counted over them.
use vstd::prelude::*;
use crate::decisions::DecisionMap;
use crate::model::{
    shot_views, undo_views, Decision, DecisionView, Session, SessionView, Shot, ShotView, Tier,
    UndoEntry, UndoView, UNDO_LIMIT,
};
use crate::text::{at_or_before, contains_text, text_le, texts};

verus! {

/// The undo stack after one more change: the oldest entry leaves once there are more
/// than `UNDO_LIMIT`.
pub open spec fn noted(undo: Seq<UndoView>, entry: UndoView) -> Seq<UndoView> {
    let all = undo.push(entry);
    if all.len() > UNDO_LIMIT {
        all.drop_first()
    } else {
        all
    }
}

/// The first occurrence of each text, in order.
pub open spec fn deduped(tags: Seq<Seq<char>>) -> Seq<Seq<char>>
    decreases tags.len(),
{
    if tags.len() == 0 {
        Seq::empty()
    } else {
        let front = deduped(tags.drop_last());
        if front.contains(tags.last()) {
            front
        } else {
            front.push(tags.last())
        }
    }
}

impl SessionView {
    /// What was decided about the stem; undecided where nothing was.
    pub open spec fn decision_of(self, stem: Seq<char>) -> DecisionView {
        if self.decisions.contains_key(stem) {
            self.decisions[stem]
        } else {
            DecisionView::undecided()
        }
    }

    /// What was decided about the shot at `i`; undecided where there is no such shot.
    pub open spec fn decision_at(self, i: int) -> DecisionView {
        if 0 <= i < self.shots.len() {
            self.decision_of(self.shots[i].stem)
        } else {
            DecisionView::undecided()
        }
    }

    /// The session with `d` decided about `stem`.
    pub open spec fn decided(self, stem: Seq<char>, d: DecisionView) -> SessionView {
        SessionView { decisions: self.decisions.insert(stem, d), ..self }
    }

    /// The session with `d` decided about the shot at `i`, and the previous decision
    /// on the undo stack. Nothing changes where there is no such shot.
    pub open spec fn changed(self, i: int, d: DecisionView) -> SessionView {
        if 0 <= i < self.shots.len() {
            let stem = self.shots[i].stem;
            SessionView {
                undo: noted(self.undo, UndoView { stem, previous: self.decision_of(stem) }),
                ..self.decided(stem, d)
            }
        } else {
            self
        }
    }

    /// The session with the tier of the shot at `i` set or cleared.
    pub open spec fn tier_set(self, i: int, tier: Option<Tier>) -> SessionView {
        self.changed(i, DecisionView { tier, ..self.decision_at(i) })
    }

    /// The session with one more tag on the shot at `i`, unless it has that tag.
    pub open spec fn tag_added(self, i: int, tag: Seq<char>) -> SessionView {
        let d = self.decision_at(i);
        self.changed(
            i,
            DecisionView {
                tags: if d.tags.contains(tag) {
                    d.tags
                } else {
                    d.tags.push(tag)
                },
                ..d
            },
        )
    }

    /// The session with the tags of the shot at `i` replaced.
    pub open spec fn tags_set(self, i: int, tags: Seq<Seq<char>>) -> SessionView {
        self.changed(i, DecisionView { tags: deduped(tags), ..self.decision_at(i) })
    }

    /// The session with the shot at `i` marked as seen.
    pub open spec fn seen(self, i: int) -> SessionView {
        if 0 <= i < self.shots.len() {
            self.decided(
                self.shots[i].stem,
                DecisionView { visited: true, ..self.decision_at(i) },
            )
        } else {
            self
        }
    }

    /// The session with the most recent change taken back.
    pub open spec fn undone(self) -> SessionView {
        if self.undo.len() > 0 {
            SessionView {
                undo: self.undo.drop_last(),
                ..self.decided(self.undo.last().stem, self.undo.last().previous)
            }
        } else {
            self
        }
    }

    /// How many of the first `n` shots have the tier; `None` counts the undecided.
    pub open spec fn tier_count(self, tier: Option<Tier>, n: int) -> int
        decreases n,
    {
        if n <= 0 {
            0
        } else {
            self.tier_count(tier, n - 1) + if self.decision_at(n - 1).tier == tier {
                1int
            } else {
                0
            }
        }
    }

    /// How many of the first `n` shots have been seen.
    pub open spec fn seen_count(self, n: int) -> int
        decreases n,
    {
        if n <= 0 {
            0
        } else {
            self.seen_count(n - 1) + if self.decision_at(n - 1).visited {
                1int
            } else {
                0
            }
        }
    }

    /// Whether some decision of the session has the tag.
    pub open spec fn has_tag(self, tag: Seq<char>) -> bool {
        exists|stem: Seq<char>| #[trigger]
            self.decisions.contains_key(stem) && self.decisions[stem].tags.contains(tag)
    }

    /// What is asked of a stem for its decision to have the tag.
    pub open spec fn uses_tag(self, tag: Seq<char>) -> spec_fn(Seq<char>) -> bool {
        |stem: Seq<char>| self.decisions[stem].tags.contains(tag)
    }

    /// How many decisions of the session have the tag.
    pub open spec fn tag_uses(self, tag: Seq<char>) -> nat {
        self.decisions.dom().filter(self.uses_tag(tag)).len()
    }
}

/// Whether one tag comes before another in a list by use: it is used more often, or as
/// often and is first in order.
pub open spec fn used_before(a: (Seq<char>, usize), b: (Seq<char>, usize)) -> bool {
    a.1 > b.1 || (a.1 == b.1 && text_le(a.0, b.0) && a.0 != b.0)
}

/// Whether the tags are listed by use.
pub open spec fn by_use(v: Seq<(Seq<char>, usize)>) -> bool {
    forall|i: int, j: int| #![trigger v[i], v[j]] 0 <= i < j < v.len() ==> used_before(v[i], v[j])
}

/// The values of tags and how often they are used.
pub open spec fn count_views(v: Seq<(String, usize)>) -> Seq<(Seq<char>, usize)> {
    v.map_values(|e: (String, usize)| (e.0@, e.1))
}

/// Whether the list has the tag.
pub open spec fn lists_tag(v: Seq<(Seq<char>, usize)>, tag: Seq<char>) -> bool {
    exists|i: int| 0 <= i < v.len() && (#[trigger] v[i]).0 == tag
}

/// Per-bucket counts over all shots of a session.
#[derive(Clone, Copy, PartialEq, Eq, Debug, Structural)]
pub struct TierCounts {
    pub rejected: usize,
    pub rest: usize,
    pub keep: usize,
    pub picks: usize,
    pub bests: usize,
}

impl Default for TierCounts {
    fn default() -> (r: Self)
        ensures
            r.rejected == 0 && r.rest == 0 && r.keep == 0 && r.picks == 0 && r.bests == 0,
    {
        TierCounts { rejected: 0, rest: 0, keep: 0, picks: 0, bests: 0 }
    }
}

impl Default for Session {
    fn default() -> (s: Self)
        ensures
            s@.source_dir == Seq::<char>::empty(),
            s@.shots == Seq::<ShotView>::empty(),
            s@.decisions == Map::<Seq<char>, DecisionView>::empty(),
            s@.current == 0,
            s@.pending_apply is None,
            s@.undo == Seq::<UndoView>::empty(),
    {
        let s = Session {
            source_dir: String::new(),
            shots: Vec::new(),
            decisions: DecisionMap::new(),
            current: 0,
            pending_apply: None,
            undo: Vec::new(),
        };
        proof {
            assert(s@.shots =~= Seq::<ShotView>::empty());
            assert(s@.undo =~= Seq::<UndoView>::empty());
        }
        s
    }
}

/// Clones a list of shots.
pub fn clone_shots(shots: &Vec<Shot>) -> (out: Vec<Shot>)
    ensures
        shot_views(out@) == shot_views(shots@),
{
    let mut out: Vec<Shot> = Vec::new();
    let mut i: usize = 0;
    while i < shots.len()
        invariant
            0 <= i <= shots@.len(),
            shot_views(out@) == shot_views(shots@).take(i as int),
        decreases shots@.len() - i,
    {
        let ghost before = shot_views(out@);
        out.push(shots[i].clone());
        assert(shot_views(out@) =~= before.push(shots@[i as int]@));
        i += 1;
        assert(shot_views(out@) =~= shot_views(shots@).take(i as int));
    }
    assert(shot_views(shots@).take(shots@.len() as int) =~= shot_views(shots@));
    out
}

fn clone_undo(undo: &Vec<UndoEntry>) -> (out: Vec<UndoEntry>)
    ensures
        undo_views(out@) == undo_views(undo@),
{
    let mut out: Vec<UndoEntry> = Vec::new();
    let mut i: usize = 0;
    while i < undo.len()
        invariant
            0 <= i <= undo@.len(),
            undo_views(out@) == undo_views(undo@).take(i as int),
        decreases undo@.len() - i,
    {
        let ghost before = undo_views(out@);
        out.push(undo[i].clone());
        assert(undo_views(out@) =~= before.push(undo@[i as int]@));
        i += 1;
        assert(undo_views(out@) =~= undo_views(undo@).take(i as int));
    }
    assert(undo_views(undo@).take(undo@.len() as int) =~= undo_views(undo@));
    out
}

impl Clone for Session {
    fn clone(&self) -> (r: Self)
        ensures
            r@ == self@,
    {
        Session {
            source_dir: self.source_dir.clone(),
            shots: clone_shots(&self.shots),
            decisions: self.decisions.clone(),
            current: self.current,
            pending_apply: crate::model::clone_opt(&self.pending_apply),
            undo: clone_undo(&self.undo),
        }
    }
}

/// Drops repeated texts and keeps the order of first occurrence.
pub fn dedupe(tags: Vec<String>) -> (out: Vec<String>)
    ensures
        texts(out@) == deduped(texts(tags@)),
{
    let mut out: Vec<String> = Vec::new();
    let mut i: usize = 0;
    let ghost all = texts(tags@);
    assert(all.take(0) =~= Seq::<Seq<char>>::empty());
    assert(texts(out@) =~= Seq::<Seq<char>>::empty());
    while i < tags.len()
        invariant
            0 <= i <= tags@.len(),
            all == texts(tags@),
            texts(out@) == deduped(all.take(i as int)),
        decreases tags@.len() - i,
    {
        let ghost before = texts(out@);
        assert(all.take(i + 1).drop_last() =~= all.take(i as int));
        if !contains_text(&out, tags[i].as_str()) {
            out.push(tags[i].clone());
            assert(texts(out@) =~= before.push(all[i as int]));
        }
        i += 1;
    }
    assert(all.take(all.len() as int) =~= all);
    out
}

impl Session {
    /// The decision about the shot at `index`; the undecided one where there is none.
    pub fn decision(&self, index: usize) -> (d: &Decision)
        ensures
            d@ == self@.decision_at(index as int),
    {
        if index < self.shots.len() {
            assert(self@.shots[index as int] == self.shots@[index as int]@);
            match self.decisions.get(self.shots[index].stem.as_str()) {
                Some(d) => d,
                None => self.decisions.undecided(),
            }
        } else {
            self.decisions.undecided()
        }
    }

    fn record_undo(&mut self, stem: String, previous: Decision)
        ensures
            final(self)@ == (SessionView {
                undo: noted(old(self)@.undo, UndoView { stem: stem@, previous: previous@ }),
                ..old(self)@
            }),
    {
        let ghost before = self@.undo;
        let entry = UndoEntry { stem, previous };
        let ghost e = entry@;
        self.undo.push(entry);
        assert(undo_views(self.undo@) =~= before.push(e));
        if self.undo.len() > UNDO_LIMIT {
            self.undo.remove(0);
            assert(undo_views(self.undo@) =~= before.push(e).drop_first());
        }
    }

    fn change(&mut self, index: usize, d: Decision)
        requires
            index < old(self).shots@.len(),
        ensures
            final(self)@ == old(self)@.changed(index as int, d@),
    {
        let stem = self.shots[index].stem.clone();
        assert(self@.shots[index as int].stem == stem@);
        let previous = self.decision(index).clone();
        self.record_undo(stem.clone(), previous);
        self.decisions.insert(stem, d);
    }

    /// Sets the tier of the shot at `index`, or clears it with `None`. The previous
    /// decision can be undone. Nothing happens where there is no such shot.
    pub fn set_tier(&mut self, index: usize, tier: Option<Tier>)
        ensures
            final(self)@ == old(self)@.tier_set(index as int, tier),
    {
        if index < self.shots.len() {
            let mut d = self.decision(index).clone();
            d.tier = tier;
            self.change(index, d);
        }
    }

    /// Puts a tag on the shot at `index`, unless it has it. The previous decision can be
    /// undone. Nothing happens where there is no such shot.
    pub fn add_tag(&mut self, index: usize, tag: String)
        ensures
            final(self)@ == old(self)@.tag_added(index as int, tag@),
    {
        if index < self.shots.len() {
            let mut d = self.decision(index).clone();
            let ghost before = texts(d.tags@);
            if !contains_text(&d.tags, tag.as_str()) {
                let ghost t = tag@;
                d.tags.push(tag);
                assert(texts(d.tags@) =~= before.push(t));
            }
            self.change(index, d);
        }
    }

    /// Replaces the tags of the shot at `index`; repeated tags are dropped. The previous
    /// decision can be undone. Nothing happens where there is no such shot.
    pub fn set_tags(&mut self, index: usize, tags: Vec<String>)
        ensures
            final(self)@ == old(self)@.tags_set(index as int, texts(tags@)),
    {
        if index < self.shots.len() {
            let mut d = self.decision(index).clone();
            d.tags = dedupe(tags);
            self.change(index, d);
        }
    }

    /// Marks the shot at `index` as seen. This is nothing to undo.
    pub fn mark_visited(&mut self, index: usize)
        ensures
            final(self)@ == old(self)@.seen(index as int),
    {
        if index < self.shots.len() {
            let mut d = self.decision(index).clone();
            d.visited = true;
            let stem = self.shots[index].stem.clone();
            assert(self@.shots[index as int].stem == stem@);
            self.decisions.insert(stem, d);
        }
    }

    /// Takes back the most recent change; `false` where there is none.
    pub fn undo(&mut self) -> (r: bool)
        ensures
            r == (old(self)@.undo.len() > 0),
            final(self)@ == old(self)@.undone(),
    {
        let ghost before = self@.undo;
        match self.undo.pop() {
            Some(entry) => {
                proof {
                    assert(undo_views(self.undo@) =~= before.drop_last());
                    assert(before.last() == entry@);
                }
                self.decisions.insert(entry.stem, entry.previous);
                true
            },
            None => false,
        }
    }

    /// How many shots go to each bucket.
    pub fn counts(&self) -> (c: TierCounts)
        ensures
            c.rejected == self@.tier_count(Some(Tier::Reject), self@.shots.len() as int),
            c.rest == self@.tier_count(None, self@.shots.len() as int),
            c.keep == self@.tier_count(Some(Tier::Keep), self@.shots.len() as int),
            c.picks == self@.tier_count(Some(Tier::Pick), self@.shots.len() as int),
            c.bests == self@.tier_count(Some(Tier::Best), self@.shots.len() as int),
    {
        let mut c = TierCounts::default();
        let n: usize = self.shots.len();
        let mut i: usize = 0;
        while i < n
            invariant
                0 <= i <= n,
                n == self@.shots.len(),
                c.rejected == self@.tier_count(Some(Tier::Reject), i as int),
                c.rest == self@.tier_count(None, i as int),
                c.keep == self@.tier_count(Some(Tier::Keep), i as int),
                c.picks == self@.tier_count(Some(Tier::Pick), i as int),
                c.bests == self@.tier_count(Some(Tier::Best), i as int),
                c.rejected <= i,
                c.rest <= i,
                c.keep <= i,
                c.picks <= i,
                c.bests <= i,
            decreases n - i,
        {
            match self.decision(i).tier {
                Some(Tier::Reject) => {
                    c.rejected = c.rejected + 1;
                },
                Some(Tier::Keep) => {
                    c.keep = c.keep + 1;
                },
                Some(Tier::Pick) => {
                    c.picks = c.picks + 1;
                },
                Some(Tier::Best) => {
                    c.bests = c.bests + 1;
                },
                None => {
                    c.rest = c.rest + 1;
                },
            }
            i += 1;
        }
        c
    }

    /// How many shots have been seen.
    pub fn visited_count(&self) -> (r: usize)
        ensures
            r == self@.seen_count(self@.shots.len() as int),
    {
        let n: usize = self.shots.len();
        let mut r: usize = 0;
        let mut i: usize = 0;
        while i < n
            invariant
                0 <= i <= n,
                n == self@.shots.len(),
                r == self@.seen_count(i as int),
                r <= i,
            decreases n - i,
        {
            if self.decision(i).visited {
                r += 1;
            }
            i += 1;
        }
        r
    }

    /// The first shot at or after `from` that has not been seen.
    pub fn next_unvisited(&self, from: usize) -> (r: Option<usize>)
        ensures
            match r {
                Some(i) => from <= i < self@.shots.len() && !self@.decision_at(i as int).visited
                    && forall|k: int| from <= k < i ==> (#[trigger] self@.decision_at(k)).visited,
                None => forall|k: int|
                    from <= k < self@.shots.len() ==> (#[trigger] self@.decision_at(k)).visited,
            },
    {
        let n: usize = self.shots.len();
        let mut i: usize = from;
        while i < n
            invariant
                from <= i,
                n == self@.shots.len(),
                forall|k: int| from <= k < i ==> (#[trigger] self@.decision_at(k)).visited,
            decreases n - i,
        {
            if !self.decision(i).visited {
                return Some(i);
            }
            i += 1;
        }
        None
    }

    /// All tags of the session, in order and each once.
    pub fn all_tags(&self) -> (out: Vec<String>)
        ensures
            ascending(texts(out@)),
            forall|t: Seq<char>| texts(out@).contains(t) <==> self@.has_tag(t),
    {
        let mut out: Vec<String> = Vec::new();
        let mut i: usize = 0;
        let n: usize = self.decisions.len();
        let ghost keys = self.decisions.keys();
        let ghost found = |t: Seq<char>, k: int|
            exists|j: int|
                0 <= j < k && #[trigger] self@.decisions[keys[j]].tags.contains(t);
        while i < n
            invariant
                0 <= i <= n,
                keys == self.decisions.keys(),
                n == keys.len(),
                ascending(texts(out@)),
                forall|t: Seq<char>| #[trigger] texts(out@).contains(t) <==> found(t, i as int),
                found == (|t: Seq<char>, k: int|
                    exists|j: int|
                        0 <= j < k && #[trigger] self@.decisions[keys[j]].tags.contains(t)),
            decreases n - i,
        {
            let (key, d) = self.decisions.entry(i);
            let ghost before = texts(out@);
            let mut j: usize = 0;
            while j < d.tags.len()
                invariant
                    0 <= j <= d.tags@.len(),
                    ascending(texts(out@)),
                    forall|t: Seq<char>| #[trigger]
                        texts(out@).contains(t) <==> before.contains(t) || texts(d.tags@).take(
                            j as int,
                        ).contains(t),
                decreases d.tags@.len() - j,
            {
                let ghost now = texts(out@);
                insert_sorted(&mut out, d.tags[j].clone());
                proof {
                    let all = texts(d.tags@);
                    let front = all.take(j as int);
                    let longer = all.take(j + 1);
                    assert forall|t: Seq<char>| #[trigger]
                        texts(out@).contains(t) <==> before.contains(t) || longer.contains(t) by {
                        assert(texts(out@).contains(t) <==> now.contains(t) || t == all[j as int]);
                        assert(now.contains(t) <==> before.contains(t) || front.contains(t));
                        if front.contains(t) {
                            let x = choose|x: int| 0 <= x < front.len() && front[x] == t;
                            assert(longer[x] == t);
                        }
                        if t == all[j as int] {
                            assert(longer[j as int] == t);
                        }
                        if longer.contains(t) {
                            let x = choose|x: int| 0 <= x < longer.len() && longer[x] == t;
                            if x < j {
                                assert(front[x] == t);
                            }
                        }
                    }
                }
                j += 1;
            }
            proof {
                let tags = self@.decisions[keys[i as int]].tags;
                assert(texts(d.tags@).take(d.tags@.len() as int) =~= tags);
                assert forall|t: Seq<char>| #[trigger] texts(out@).contains(t) <==> found(
                    t,
                    i + 1,
                ) by {
                    assert(before.contains(t) <==> found(t, i as int));
                    if tags.contains(t) {
                        assert(self@.decisions[keys[i as int]].tags.contains(t));
                    }
                }
            }
            i += 1;
        }
        proof {
            use_type_invariant(&self.decisions);
            self.decisions.keys_are_the_domain();
            assert forall|t: Seq<char>| texts(out@).contains(t) <==> self@.has_tag(t) by {
                assert(texts(out@).contains(t) <==> found(t, n as int));
                if found(t, n as int) {
                    let j = choose|j: int|
                        0 <= j < n && #[trigger] self@.decisions[keys[j]].tags.contains(t);
                    assert(keys.contains(keys[j]));
                    assert(self@.decisions.contains_key(keys[j]));
                }
                if self@.has_tag(t) {
                    let stem = choose|stem: Seq<char>| #[trigger]
                        self@.decisions.contains_key(stem) && self@.decisions[stem].tags.contains(
                            t,
                        );
                    assert(keys.contains(stem));
                    let j = choose|j: int| 0 <= j < keys.len() && keys[j] == stem;
                    assert(self@.decisions[keys[j]].tags.contains(t));
                }
            }
        }
        out
    }
}

/// The texts stand in order and none occurs twice.
pub open spec fn ascending(list: Seq<Seq<char>>) -> bool {
    forall|i: int, j: int|
        #![trigger list[i], list[j]]
        0 <= i < j < list.len() ==> text_le(list[i], list[j]) && list[i] != list[j]
}

impl Session {
    fn count_tag(&self, tag: &str) -> (r: usize)
        ensures
            r == self@.tag_uses(tag@),
    {
        let n: usize = self.decisions.len();
        let ghost keys = self.decisions.keys();
        let ghost p = self@.uses_tag(tag@);
        proof {
            use_type_invariant(&self.decisions);
            self.decisions.keys_are_the_domain();
            assert(keys.take(0).to_set().filter(p) =~= Set::<Seq<char>>::empty());
        }
        let mut r: usize = 0;
        let mut i: usize = 0;
        while i < n
            invariant
                0 <= i <= n,
                keys == self.decisions.keys(),
                n == keys.len(),
                keys.no_duplicates(),
                p == self@.uses_tag(tag@),
                r <= i,
                keys.take(i as int).to_set().filter(p).finite(),
                r == keys.take(i as int).to_set().filter(p).len(),
            decreases n - i,
        {
            let (key, d) = self.decisions.entry(i);
            proof {
                let front = keys.take(i as int);
                let k = keys[i as int];
                assert(keys.take(i + 1) =~= front.push(k));
                if front.contains(k) {
                    let j = choose|j: int| 0 <= j < front.len() && front[j] == k;
                    assert(keys[j] == keys[i as int]);
                }
                let longer = keys.take(i + 1);
                assert forall|x: Seq<char>| #[trigger]
                    longer.to_set().contains(x) <==> front.to_set().insert(k).contains(x) by {
                    if front.contains(x) {
                        let j = choose|j: int| 0 <= j < front.len() && front[j] == x;
                        assert(longer[j] == x);
                    }
                    if x == k {
                        assert(longer[i as int] == x);
                    }
                    if longer.contains(x) {
                        let j = choose|j: int| 0 <= j < longer.len() && longer[j] == x;
                        if j < i {
                            assert(front[j] == x);
                        }
                    }
                }
                assert(longer.to_set() =~= front.to_set().insert(k));
                if p(k) {
                    assert(longer.to_set().filter(p) =~= front.to_set().filter(p).insert(k));
                } else {
                    assert(longer.to_set().filter(p) =~= front.to_set().filter(p));
                }
            }
            if contains_text(&d.tags, tag) {
                r += 1;
            }
            i += 1;
        }
        proof {
            assert(keys.take(n as int) =~= keys);
            assert(keys.to_set() =~= self@.decisions.dom()) by {
                assert forall|x: Seq<char>| keys.to_set().contains(
                    x,
                ) <==> self@.decisions.dom().contains(x) by {
                    assert(self@.decisions.contains_key(x) <==> keys.contains(x));
                }
            }
        }
        r
    }

    /// All tags that were given and how many decisions have each, the most used first.
    pub fn tag_counts(&self) -> (out: Vec<(String, usize)>)
        ensures
            by_use(count_views(out@)),
            forall|t: Seq<char>| #[trigger]
                lists_tag(count_views(out@), t) <==> self@.has_tag(t),
            forall|i: int|
                0 <= i < out@.len() ==> (#[trigger] count_views(out@)[i]).1 == self@.tag_uses(
                    count_views(out@)[i].0,
                ),
    {
        let tags = self.all_tags();
        let ghost all = texts(tags@);
        let mut out: Vec<(String, usize)> = Vec::new();
        let mut i: usize = 0;
        while i < tags.len()
            invariant
                0 <= i <= tags@.len(),
                all == texts(tags@),
                ascending(all),
                by_use(count_views(out@)),
                forall|t: Seq<char>| #[trigger]
                    lists_tag(count_views(out@), t) <==> all.take(i as int).contains(t),
                forall|k: int|
                    0 <= k < out@.len() ==> (#[trigger] count_views(out@)[k]).1 == self@.tag_uses(
                        count_views(out@)[k].0,
                    ),
            decreases tags@.len() - i,
        {
            let used: usize = self.count_tag(tags[i].as_str());
            let ghost before = count_views(out@);
            let ghost new = (all[i as int], used);
            let mut j: usize = out.len();
            while j > 0 && out[j - 1].1 < used
                invariant
                    0 <= j <= out@.len(),
                    before == count_views(out@),
                    forall|k: int| j <= k < before.len() ==> (#[trigger] before[k]).1 < used,
                decreases j,
            {
                assert(before[j - 1].1 == out@[j - 1].1);
                j -= 1;
            }
            proof {
                if j > 0 {
                    assert(before[j - 1].1 == out@[j - 1].1);
                }
            }
            out.insert(j, (tags[i].clone(), used));
            proof {
                let after = count_views(out@);
                assert(after =~= before.insert(j as int, new));
                assert forall|k: int| 0 <= k < before.len() implies text_le(
                    (#[trigger] before[k]).0,
                    new.0,
                ) && before[k].0 != new.0 by {
                    assert(lists_tag(before, before[k].0));
                    let x = choose|x: int|
                        0 <= x < all.take(i as int).len() && all.take(i as int)[x] == before[k].0;
                    assert(text_le(all[x], all[i as int]) && all[x] != all[i as int]);
                }
                assert forall|a: int, b: int|
                    #![trigger after[a], after[b]]
                    0 <= a < b < after.len() implies used_before(after[a], after[b]) by {
                    let x = if a < j { a } else { a - 1 };
                    let y = if b < j { b } else { b - 1 };
                    if a == j {
                        assert(after[b] == before[y]);
                    } else if b == j {
                        assert(after[a] == before[x]);
                        if x < j - 1 {
                            assert(used_before(before[x], before[j - 1]));
                        }
                    } else {
                        assert(after[a] == before[x] && after[b] == before[y]);
                    }
                }
                assert forall|t: Seq<char>| #[trigger]
                    lists_tag(after, t) <==> all.take(i + 1).contains(t) by {
                    let longer = all.take(i + 1);
                    if lists_tag(after, t) {
                        let k = choose|k: int| 0 <= k < after.len() && (#[trigger] after[k]).0 == t;
                        if k == j {
                            assert(longer[i as int] == t);
                        } else {
                            let x = if k < j { k } else { k - 1 };
                            assert(before[x].0 == t);
                            assert(lists_tag(before, t));
                            let y = choose|y: int|
                                0 <= y < all.take(i as int).len() && all.take(i as int)[y] == t;
                            assert(longer[y] == t);
                        }
                    }
                    if longer.contains(t) {
                        let y = choose|y: int| 0 <= y < longer.len() && longer[y] == t;
                        if y == i {
                            assert(after[j as int].0 == t);
                        } else {
                            assert(all.take(i as int)[y] == t);
                            assert(lists_tag(before, t));
                            let x = choose|x: int|
                                0 <= x < before.len() && (#[trigger] before[x]).0 == t;
                            let k = if x < j { x } else { x + 1 };
                            assert(after[k].0 == t);
                        }
                    }
                }
                assert forall|k: int| 0 <= k < after.len() implies (#[trigger] after[k]).1
                    == self@.tag_uses(after[k].0) by {
                    if k != j {
                        let x = if k < j { k } else { k - 1 };
                        assert(after[k] == before[x]);
                    }
                }
            }
            i += 1;
        }
        assert(all.take(i as int) =~= all);
        out
    }
}

/// Puts a text in its place in an ascending list, unless it is there.
pub fn insert_sorted(list: &mut Vec<String>, t: String)
    requires
        ascending(texts(old(list)@)),
    ensures
        ascending(texts(final(list)@)),
        forall|x: Seq<char>| #[trigger]
            texts(final(list)@).contains(x) <==> texts(old(list)@).contains(x) || x == t@,
{
    let ghost before = texts(list@);
    let ghost tv = t@;
    let mut i: usize = 0;
    while i < list.len() && !at_or_before(t.as_str(), list[i].as_str())
        invariant
            0 <= i <= list@.len(),
            tv == t@,
            before == texts(list@),
            forall|k: int| 0 <= k < i ==> !text_le(tv, #[trigger] before[k]),
        decreases list@.len() - i,
    {
        assert(before[i as int] == list@[i as int]@);
        i += 1;
    }
    if i < list.len() && list[i] == t {
        proof {
            assert(before[i as int] == tv);
            assert forall|x: Seq<char>| before.contains(x) || x == tv implies before.contains(x) by {
                assert(before.contains(before[i as int]));
            }
        }
        return ;
    }
    list.insert(i, t);
    proof {
        let after = texts(list@);
        assert(after =~= before.insert(i as int, tv));
        assert forall|a: int, b: int|
            #![trigger after[a], after[b]]
            0 <= a < b < after.len() implies text_le(after[a], after[b]) && after[a] != after[b] by {
            let pa = if a < i { a } else { a - 1 };
            let pb = if b < i { b } else { b - 1 };
            if a != i && b != i {
                assert(after[a] == before[pa] && after[b] == before[pb]);
                assert(text_le(before[pa], before[pb]) && before[pa] != before[pb]);
            } else if b == i {
                assert(after[a] == before[a]);
                crate::text::text_le_total(before[a], tv);
                assert(!text_le(tv, before[a]));
                crate::text::text_le_reflexive(tv);
            } else {
                assert(after[b] == before[b - 1]);
                assert(text_le(tv, before[i as int]) && tv != before[i as int]);
                if b - 1 > i {
                    assert(text_le(before[i as int], before[b - 1]));
                    crate::text::text_le_transitive(tv, before[i as int], before[b - 1]);
                    if tv == before[b - 1] {
                        crate::text::text_le_antisymmetric(tv, before[i as int]);
                    }
                }
            }
        }
        assert forall|x: Seq<char>| #[trigger] after.contains(x) <==> before.contains(x) || x == tv by {
            if before.contains(x) {
                let k = choose|k: int| 0 <= k < before.len() && before[k] == x;
                assert(after[if k < i { k } else { k + 1 }] == x);
            }
            if x == tv {
                assert(after[i as int] == x);
            }
            if after.contains(x) {
                let k = choose|k: int| 0 <= k < after.len() && after[k] == x;
                if k != i {
                    assert(before[if k < i { k } else { k - 1 }] == x);
                }
            }
        }
    }
}

/// Undo takes back a change: every decision reads as before the change, nothing else of
/// the session has moved, and the stack is as it was (less its oldest entry, if the
/// change had pushed that out).
pub proof fn undo_takes_back_a_change(s: SessionView, i: int, d: DecisionView)
    requires
        0 <= i < s.shots.len(),
    ensures
        ({
            let back = s.changed(i, d).undone();
            &&& forall|stem: Seq<char>| #[trigger] back.decision_of(stem) == s.decision_of(stem)
            &&& back.shots == s.shots
            &&& back.current == s.current
            &&& back.source_dir == s.source_dir
            &&& back.pending_apply == s.pending_apply
            &&& back.undo == if s.undo.len() < UNDO_LIMIT {
                s.undo
            } else {
                s.undo.drop_first()
            }
        }),
{
    let stem = s.shots[i].stem;
    let entry = UndoView { stem, previous: s.decision_of(stem) };
    let changed = s.changed(i, d);
    let all = s.undo.push(entry);
    if s.undo.len() < UNDO_LIMIT {
        assert(all.drop_last() =~= s.undo);
    } else {
        assert(all.drop_first().drop_last() =~= s.undo.drop_first());
    }
    assert(changed.undo.last() == entry);
}

/// Setting a tier, adding a tag and replacing the tags are each taken back by undo.
pub proof fn undo_takes_back_every_edit(
    s: SessionView,
    i: int,
    tier: Option<Tier>,
    tag: Seq<char>,
    tags: Seq<Seq<char>>,
)
    requires
        0 <= i < s.shots.len(),
    ensures
        forall|stem: Seq<char>| #[trigger]
            s.tier_set(i, tier).undone().decision_of(stem) == s.decision_of(stem),
        forall|stem: Seq<char>| #[trigger]
            s.tag_added(i, tag).undone().decision_of(stem) == s.decision_of(stem),
        forall|stem: Seq<char>| #[trigger]
            s.tags_set(i, tags).undone().decision_of(stem) == s.decision_of(stem),
{
    let d = s.decision_at(i);
    undo_takes_back_a_change(s, i, DecisionView { tier, ..d });
    undo_takes_back_a_change(
        s,
        i,
        DecisionView {
            tags: if d.tags.contains(tag) {
                d.tags
            } else {
                d.tags.push(tag)
            },
            ..d
        },
    );
    undo_takes_back_a_change(s, i, DecisionView { tags: deduped(tags), ..d });
}

/// The undo stack never grows past its limit.
pub proof fn undo_stack_stays_bounded(s: SessionView, i: int, d: DecisionView)
    requires
        s.undo.len() <= UNDO_LIMIT,
    ensures
        s.changed(i, d).undo.len() <= UNDO_LIMIT,
        s.seen(i).undo == s.undo,
        s.undone().undo.len() <= UNDO_LIMIT,
{
}

/// A change concerns one stem only.
pub proof fn a_change_concerns_one_stem(s: SessionView, i: int, d: DecisionView, other: Seq<char>)
    requires
        0 <= i < s.shots.len(),
        other != s.shots[i].stem,
    ensures
        s.changed(i, d).decision_of(other) == s.decision_of(other),
        s.changed(i, d).decision_at(i) == d,
        s.seen(i).decision_of(other) == s.decision_of(other),
{
}

/// Marking a shot as seen a second time changes nothing.
pub proof fn seen_is_idempotent(s: SessionView, i: int)
    ensures
        s.seen(i).seen(i) == s.seen(i),
{
    if 0 <= i < s.shots.len() {
        assert(s.seen(i).seen(i).decisions =~= s.seen(i).decisions);
    }
}

/// A stem that was never decided and one that holds the undecided decision read alike.
pub proof fn absent_is_undecided(s: SessionView, stem: Seq<char>, other: Seq<char>)
    requires
        !s.decisions.contains_key(stem),
    ensures
        s.decided(stem, DecisionView::undecided()).decision_of(other) == s.decision_of(other),
{
}

/// Every shot is counted in exactly one bucket.
pub proof fn every_shot_is_counted_once(s: SessionView, n: int)
    requires
        0 <= n <= s.shots.len(),
    ensures
        s.tier_count(Some(Tier::Reject), n) + s.tier_count(None, n) + s.tier_count(
            Some(Tier::Keep),
            n,
        ) + s.tier_count(Some(Tier::Pick), n) + s.tier_count(Some(Tier::Best), n) == n,
        0 <= s.seen_count(n) <= n,
    decreases n,
{
    if n > 0 {
        every_shot_is_counted_once(s, n - 1);
        match s.decision_at(n - 1).tier {
            Some(Tier::Reject) => {},
            Some(Tier::Keep) => {},
            Some(Tier::Pick) => {},
            Some(Tier::Best) => {},
            None => {},
        }
    }
}

/// Dropping repeats keeps every text, keeps none twice, and does nothing the second time.
pub proof fn deduped_keeps_each_text_once(tags: Seq<Seq<char>>)
    ensures
        deduped(tags).no_duplicates(),
        forall|t: Seq<char>| #[trigger] deduped(tags).contains(t) <==> tags.contains(t),
        deduped(deduped(tags)) == deduped(tags),
    decreases tags.len(),
{
    if tags.len() > 0 {
        let front = tags.drop_last();
        let d = deduped(front);
        deduped_keeps_each_text_once(front);
        assert forall|t: Seq<char>| #[trigger] deduped(tags).contains(t) <==> tags.contains(t) by {
            if tags.contains(t) {
                let i = choose|i: int| 0 <= i < tags.len() && tags[i] == t;
                if i < front.len() {
                    assert(front[i] == t);
                    assert(d.contains(t));
                    let j = choose|j: int| 0 <= j < d.len() && d[j] == t;
                    assert(deduped(tags)[j] == t);
                } else if !d.contains(t) {
                    assert(deduped(tags)[d.len() as int] == t);
                }
            }
            if deduped(tags).contains(t) {
                let j = choose|j: int| 0 <= j < deduped(tags).len() && deduped(tags)[j] == t;
                if j < d.len() {
                    assert(d[j] == t);
                    assert(d.contains(t));
                    assert(front.contains(t));
                    let i = choose|i: int| 0 <= i < front.len() && front[i] == t;
                    assert(tags[i] == t);
                } else {
                    assert(tags[tags.len() - 1] == t);
                }
            }
        }
        if !d.contains(tags.last()) {
            assert(d.push(tags.last()).drop_last() =~= d);
        }
    }
}

/// Whether the two sessions have the same shots, place, folder and started apply, and the
/// same decisions about every stem but one.
pub open spec fn alike_but_for(s: SessionView, t: SessionView, stem: Seq<char>) -> bool {
    &&& t.shots == s.shots
    &&& t.current == s.current
    &&& t.source_dir == s.source_dir
    &&& t.pending_apply == s.pending_apply
    &&& forall|other: Seq<char>|
        #![trigger t.decisions.contains_key(other)]
        other != stem ==> t.decisions.contains_key(other) == s.decisions.contains_key(other)
            && t.decisions[other] == s.decisions[other]
}

/// Whether the stem has the same tags in both sessions; without a decision it has none.
pub open spec fn same_tags(s: SessionView, t: SessionView, stem: Seq<char>) -> bool {
    if s.decisions.contains_key(stem) {
        t.decisions.contains_key(stem) && t.decisions[stem].tags == s.decisions[stem].tags
    } else {
        t.decisions.contains_key(stem) ==> t.decisions[stem].tags.len() == 0
    }
}

/// Whether the stem has the same tier in both sessions; without a decision it has none.
pub open spec fn same_tier(s: SessionView, t: SessionView, stem: Seq<char>) -> bool {
    if s.decisions.contains_key(stem) {
        t.decisions.contains_key(stem) && t.decisions[stem].tier == s.decisions[stem].tier
    } else {
        t.decisions.contains_key(stem) ==> t.decisions[stem].tier is None
    }
}

/// Whether the stem has been seen in both sessions or in neither.
pub open spec fn same_mark(s: SessionView, t: SessionView, stem: Seq<char>) -> bool {
    if s.decisions.contains_key(stem) {
        t.decisions.contains_key(stem) && t.decisions[stem].visited == s.decisions[stem].visited
    } else {
        t.decisions.contains_key(stem) ==> !t.decisions[stem].visited
    }
}

/// Setting a tier gives the shot that tier and changes nothing else: its tags and its mark
/// stay, and so does every other decision.
pub proof fn a_tier_replaces_the_tier_alone(s: SessionView, i: int, tier: Option<Tier>)
    ensures
        0 <= i < s.shots.len() ==> {
            let t = s.tier_set(i, tier);
            let stem = s.shots[i].stem;
            &&& alike_but_for(s, t, stem)
            &&& t.decisions.contains_key(stem)
            &&& t.decisions[stem].tier == tier
            &&& same_tags(s, t, stem)
            &&& same_mark(s, t, stem)
        },
        !(0 <= i < s.shots.len()) ==> s.tier_set(i, tier) == s,
{
}

/// Replacing the tags gives the shot those tags and changes nothing else: its tier and its
/// mark stay, and so does every other decision.
pub proof fn tags_replace_the_tags_alone(s: SessionView, i: int, tags: Seq<Seq<char>>)
    ensures
        0 <= i < s.shots.len() ==> {
            let t = s.tags_set(i, tags);
            let stem = s.shots[i].stem;
            &&& alike_but_for(s, t, stem)
            &&& t.decisions.contains_key(stem)
            &&& same_tier(s, t, stem)
            &&& same_mark(s, t, stem)
            &&& t.decisions[stem].tags.no_duplicates()
            &&& forall|tag: Seq<char>| #[trigger]
                t.decisions[stem].tags.contains(tag) <==> tags.contains(tag)
            &&& tags.no_duplicates() ==> t.decisions[stem].tags == tags
        },
        !(0 <= i < s.shots.len()) ==> s.tags_set(i, tags) == s,
{
    deduped_keeps_each_text_once(tags);
    if tags.no_duplicates() {
        deduped_keeps_distinct_texts(tags);
    }
}

/// Adding a tag puts it behind the tags that the shot has, once, and changes nothing else.
pub proof fn a_tag_joins_the_tags_alone(s: SessionView, i: int, tag: Seq<char>)
    ensures
        0 <= i < s.shots.len() ==> {
            let t = s.tag_added(i, tag);
            let stem = s.shots[i].stem;
            &&& alike_but_for(s, t, stem)
            &&& t.decisions.contains_key(stem)
            &&& same_tier(s, t, stem)
            &&& same_mark(s, t, stem)
            &&& t.decisions[stem].tags.contains(tag)
            &&& s.decisions.contains_key(stem) ==> {
                let had = s.decisions[stem].tags;
                &&& had.is_prefix_of(t.decisions[stem].tags)
                &&& t.decisions[stem].tags.len() == had.len() + if had.contains(tag) {
                    0int
                } else {
                    1
                }
            }
            &&& !s.decisions.contains_key(stem) ==> t.decisions[stem].tags == seq![tag]
        },
        !(0 <= i < s.shots.len()) ==> s.tag_added(i, tag) == s,
{
    if 0 <= i < s.shots.len() {
        let stem = s.shots[i].stem;
        let had = s.decision_of(stem).tags;
        let has = s.tag_added(i, tag).decisions[stem].tags;
        if !had.contains(tag) {
            assert(has[had.len() as int] == tag);
        }
        assert(Seq::<Seq<char>>::empty().push(tag) =~= seq![tag]);
    }
}

/// Marking a shot as seen changes that mark alone: for every stem the tier and the tags are
/// the same before and after, no other mark changes, and there is nothing new to undo.
pub proof fn seeing_a_shot_changes_its_mark_alone(s: SessionView, i: int)
    ensures
        forall|stem: Seq<char>| #[trigger] same_tier(s, s.seen(i), stem),
        forall|stem: Seq<char>| #[trigger] same_tags(s, s.seen(i), stem),
        s.seen(i).undo == s.undo,
        0 <= i < s.shots.len() ==> {
            let stem = s.shots[i].stem;
            &&& alike_but_for(s, s.seen(i), stem)
            &&& s.seen(i).decisions.contains_key(stem)
            &&& s.seen(i).decisions[stem].visited
        },
        !(0 <= i < s.shots.len()) ==> s.seen(i) == s,
{
}

/// What was just changed can be undone: the stack grows by the shot that was changed and
/// what had been decided about it, and loses its oldest entry past two hundred.
pub proof fn a_change_is_noted_on_top(s: SessionView, i: int, d: DecisionView)
    requires
        0 <= i < s.shots.len(),
        s.undo.len() <= 200,
    ensures
        ({
            let t = s.changed(i, d);
            let stem = s.shots[i].stem;
            &&& t.undo.len() == if s.undo.len() < 200 {
                s.undo.len() + 1
            } else {
                200
            }
            &&& t.undo.last().stem == stem
            &&& s.decisions.contains_key(stem) ==> t.undo.last().previous == s.decisions[stem]
            &&& !s.decisions.contains_key(stem) ==> {
                &&& t.undo.last().previous.tier is None
                &&& t.undo.last().previous.tags.len() == 0
                &&& !t.undo.last().previous.visited
            }
            &&& forall|k: int|
                1 <= k < t.undo.len() ==> #[trigger] t.undo[t.undo.len() - 1 - k]
                    == s.undo[s.undo.len() - k]
        }),
{
}

/// Undo gives the stem of the newest entry the decision that the entry holds, takes that
/// entry off the stack and changes nothing else. On an empty stack it does nothing.
pub proof fn undo_restores_the_newest_entry(s: SessionView)
    ensures
        s.undo.len() > 0 ==> {
            let stem = s.undo[s.undo.len() - 1].stem;
            &&& alike_but_for(s, s.undone(), stem)
            &&& s.undone().decisions.contains_key(stem)
            &&& s.undone().decisions[stem] == s.undo[s.undo.len() - 1].previous
            &&& s.undone().undo == s.undo.take(s.undo.len() - 1)
        },
        s.undo.len() == 0 ==> s.undone() == s,
{
    if s.undo.len() > 0 {
        assert(s.undo.drop_last() =~= s.undo.take(s.undo.len() - 1));
    }
}

/// Texts that are all different are kept as they are.
pub proof fn deduped_keeps_distinct_texts(tags: Seq<Seq<char>>)
    requires
        tags.no_duplicates(),
    ensures
        deduped(tags) == tags,
    decreases tags.len(),
{
    if tags.len() > 0 {
        let front = tags.drop_last();
        assert forall|a: int, b: int|
            0 <= a < front.len() && 0 <= b < front.len() && a != b implies front[a] != front[b] by {
            assert(tags[a] != tags[b]);
        }
        deduped_keeps_distinct_texts(front);
        assert(!front.contains(tags.last())) by {
            if front.contains(tags.last()) {
                let k = choose|k: int| 0 <= k < front.len() && front[k] == tags.last();
                assert(tags[k] == tags[tags.len() - 1]);
            }
        }
        assert(front.push(tags.last()) =~= tags);
    }
}

/// The order is that of first occurrence: what is kept of a list comes first in what is kept
/// of any longer one.
pub proof fn deduped_keeps_the_order(tags: Seq<Seq<char>>, more: Seq<Seq<char>>)
    ensures
        deduped(tags).is_prefix_of(deduped(tags + more)),
    decreases more.len(),
{
    if more.len() == 0 {
        assert(tags + more =~= tags);
    } else {
        deduped_keeps_the_order(tags, more.drop_last());
        assert((tags + more).drop_last() =~= tags + more.drop_last());
    }
}

/// The places of the first `n` shots that have the tier.
pub open spec fn places_with(s: SessionView, tier: Option<Tier>, n: int) -> Set<int> {
    Set::new(
        |k: int|
            0 <= k < n && if s.decisions.contains_key(s.shots[k].stem) {
                s.decisions[s.shots[k].stem].tier == tier
            } else {
                tier is None
            },
    )
}

/// The places of the first `n` shots that have been seen.
pub open spec fn places_seen(s: SessionView, n: int) -> Set<int> {
    Set::new(
        |k: int|
            0 <= k < n && s.decisions.contains_key(s.shots[k].stem)
                && s.decisions[s.shots[k].stem].visited,
    )
}

/// A count is the number of places that have what is counted.
pub proof fn counts_are_of_places(s: SessionView, tier: Option<Tier>, n: int)
    requires
        0 <= n <= s.shots.len(),
    ensures
        places_with(s, tier, n).finite(),
        s.tier_count(tier, n) == places_with(s, tier, n).len(),
        places_seen(s, n).finite(),
        s.seen_count(n) == places_seen(s, n).len(),
    decreases n,
{
    if n == 0 {
        assert(places_with(s, tier, n) =~= Set::empty());
        assert(places_seen(s, n) =~= Set::empty());
    } else {
        counts_are_of_places(s, tier, n - 1);
        if s.decision_at(n - 1).tier == tier {
            assert(places_with(s, tier, n) =~= places_with(s, tier, n - 1).insert(n - 1));
        } else {
            assert(places_with(s, tier, n) =~= places_with(s, tier, n - 1));
        }
        if s.decision_at(n - 1).visited {
            assert(places_seen(s, n) =~= places_seen(s, n - 1).insert(n - 1));
        } else {
            assert(places_seen(s, n) =~= places_seen(s, n - 1));
        }
    }
}

/// What is read of a decision is what was decided about the stem of the shot; where nothing
/// was, and where there is no such shot, it has no tier, no tags and no mark.
pub proof fn a_decision_reads_as_it_was_made(s: SessionView, i: int, stem: Seq<char>)
    ensures
        s.decisions.contains_key(stem) ==> s.decision_of(stem) == s.decisions[stem],
        !s.decisions.contains_key(stem) ==> {
            &&& s.decision_of(stem).tier is None
            &&& s.decision_of(stem).tags.len() == 0
            &&& !s.decision_of(stem).visited
        },
        0 <= i < s.shots.len() && s.shots[i].stem == stem ==> s.decision_at(i) == s.decision_of(
            stem,
        ),
        !(0 <= i < s.shots.len()) ==> {
            &&& s.decision_at(i).tier is None
            &&& s.decision_at(i).tags.len() == 0
            &&& !s.decision_at(i).visited
        },
{
}

/// A tag that a shot did not have is used once more when it is added, and every other tag is
/// used as often as before.
pub proof fn an_added_tag_is_used_once_more(
    s: SessionView,
    i: int,
    tag: Seq<char>,
    other: Seq<char>,
)
    requires
        0 <= i < s.shots.len(),
        s.decisions.dom().finite(),
        other != tag,
    ensures
        ({
            let t = s.tag_added(i, tag);
            let had = s.decisions.contains_key(s.shots[i].stem)
                && s.decisions[s.shots[i].stem].tags.contains(tag);
            &&& t.has_tag(tag)
            &&& t.tag_uses(tag) == s.tag_uses(tag) + if had {
                0int
            } else {
                1
            }
            &&& t.tag_uses(other) == s.tag_uses(other)
        }),
{
    let stem = s.shots[i].stem;
    let t = s.tag_added(i, tag);
    a_tag_joins_the_tags_alone(s, i, tag);
    assert(t.decisions.contains_key(stem) && t.decisions[stem].tags.contains(tag));
    assert(t.has_tag(tag));
    let before = s.decisions.dom().filter(s.uses_tag(tag));
    let after = t.decisions.dom().filter(t.uses_tag(tag));
    let had = s.decisions.contains_key(stem) && s.decisions[stem].tags.contains(tag);
    assert forall|k: Seq<char>| #[trigger] after.contains(k) <==> before.insert(stem).contains(
        k,
    ) by {
        assert(t.decisions.contains_key(k) == s.decisions.contains_key(k) || k == stem);
    }
    assert(after =~= before.insert(stem));
    assert(before.contains(stem) == had);
    let b = s.decisions.dom().filter(s.uses_tag(other));
    let a = t.decisions.dom().filter(t.uses_tag(other));
    assert forall|k: Seq<char>| #[trigger] a.contains(k) <==> b.contains(k) by {
        assert(t.decisions.contains_key(k) == s.decisions.contains_key(k) || k == stem);
        if k == stem {
            let old_tags = s.decision_of(stem).tags;
            let new_tags = t.decisions[stem].tags;
            if old_tags.contains(other) {
                let x = choose|x: int| 0 <= x < old_tags.len() && old_tags[x] == other;
                assert(new_tags[x] == other);
            }
            if new_tags.contains(other) {
                let x = choose|x: int| 0 <= x < new_tags.len() && new_tags[x] == other;
                assert(x < old_tags.len());
                assert(old_tags[x] == other);
            }
        }
    }
    assert(a =~= b);
}

/// A session has a tag exactly where some shot or stem was given it.
pub proof fn a_tag_is_there_where_it_was_given(s: SessionView, stem: Seq<char>, tag: Seq<char>)
    requires
        s.decisions.dom().finite(),
    ensures
        s.decisions.contains_key(stem) && s.decisions[stem].tags.contains(tag) ==> s.has_tag(tag),
        s.has_tag(tag) <==> s.tag_uses(tag) > 0,
{
    let users = s.decisions.dom().filter(s.uses_tag(tag));
    if s.has_tag(tag) {
        let k = choose|k: Seq<char>| #[trigger]
            s.decisions.contains_key(k) && s.decisions[k].tags.contains(tag);
        assert(users.contains(k));
    }
    if s.tag_uses(tag) > 0 {
        let k = users.choose();
        assert(users.contains(k));
        assert(s.decisions.contains_key(k) && s.decisions[k].tags.contains(tag));
    }
}

/// A list by use has the tag that is used more often first, and of those that are used as
/// often the one that comes first in order; no tag is in it twice.
pub proof fn a_list_by_use_starts_with_the_most_used(v: Seq<(Seq<char>, usize)>, i: int, j: int)
    requires
        by_use(v),
        0 <= i < j < v.len(),
    ensures
        v[i].1 >= v[j].1,
        v[i].1 == v[j].1 ==> text_le(v[i].0, v[j].0) && v[i].0 != v[j].0,
{
}

/// An ascending list has its texts in order and none of them twice.
pub proof fn an_ascending_list_has_no_text_twice(list: Seq<Seq<char>>, i: int, j: int)
    requires
        ascending(list),
        0 <= i < j < list.len(),
    ensures
        text_le(list[i], list[j]),
        !text_le(list[j], list[i]),
        list.no_duplicates(),
{
    if text_le(list[j], list[i]) {
        crate::text::text_le_antisymmetric(list[i], list[j]);
    }
    assert forall|a: int, b: int|
        0 <= a < list.len() && 0 <= b < list.len() && a != b implies list[a] != list[b] by {
        if a < b {
            assert(list[a] != list[b]);
        } else {
            assert(list[b] != list[a]);
        }
    }
}

} // verus!
