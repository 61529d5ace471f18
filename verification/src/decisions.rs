//! The decisions of a session, one per shot stem.
use vstd::prelude::*;
use crate::model::{Decision, DecisionView};
use crate::text::{
    at_or_before, same_text, text_le, text_le_antisymmetric, text_le_reflexive, text_le_total,
    text_le_transitive,
};

verus! {

/// What a list of keyed decisions maps each key to.
pub open spec fn keyed(entries: Seq<(Seq<char>, DecisionView)>) -> Map<Seq<char>, DecisionView>
    decreases entries.len(),
{
    if entries.len() == 0 {
        Map::empty()
    } else {
        keyed(entries.drop_last()).insert(entries.last().0, entries.last().1)
    }
}

/// No key occurs twice.
pub open spec fn distinct_keys(entries: Seq<(Seq<char>, DecisionView)>) -> bool {
    forall|i: int, j: int|
        #![trigger entries[i], entries[j]]
        0 <= i < j < entries.len() ==> entries[i].0 != entries[j].0
}

/// The keys ascend, each of them once.
pub open spec fn ascending_keys(entries: Seq<(Seq<char>, DecisionView)>) -> bool {
    forall|i: int, j: int|
        #![trigger entries[i], entries[j]]
        0 <= i < j < entries.len() ==> text_le(entries[i].0, entries[j].0) && entries[i].0
            != entries[j].0
}

proof fn lemma_keyed_domain(entries: Seq<(Seq<char>, DecisionView)>, k: Seq<char>)
    ensures
        keyed(entries).contains_key(k) <==> exists|i: int|
            0 <= i < entries.len() && (#[trigger] entries[i]).0 == k,
    decreases entries.len(),
{
    if entries.len() > 0 {
        let front = entries.drop_last();
        lemma_keyed_domain(front, k);
        if keyed(front).contains_key(k) {
            let i = choose|i: int| 0 <= i < front.len() && (#[trigger] front[i]).0 == k;
            assert(entries[i].0 == k);
        }
        if exists|i: int| 0 <= i < entries.len() && (#[trigger] entries[i]).0 == k {
            let i = choose|i: int| 0 <= i < entries.len() && (#[trigger] entries[i]).0 == k;
            if i < front.len() {
                assert(front[i].0 == k);
            }
        }
    }
}

proof fn lemma_keyed_value(entries: Seq<(Seq<char>, DecisionView)>, i: int)
    requires
        distinct_keys(entries),
        0 <= i < entries.len(),
    ensures
        keyed(entries).contains_key(entries[i].0),
        keyed(entries)[entries[i].0] == entries[i].1,
    decreases entries.len(),
{
    let front = entries.drop_last();
    if i < front.len() {
        assert(distinct_keys(front)) by {
            assert forall|a: int, b: int| 0 <= a < b < front.len() implies front[a].0
                != front[b].0 by {
                assert(entries[a].0 != entries[b].0);
            }
        }
        lemma_keyed_value(front, i);
        assert(entries[i].0 != entries[entries.len() - 1].0);
    }
}

proof fn lemma_keyed_update(entries: Seq<(Seq<char>, DecisionView)>, i: int, d: DecisionView)
    requires
        distinct_keys(entries),
        0 <= i < entries.len(),
    ensures
        distinct_keys(entries.update(i, (entries[i].0, d))),
        ascending_keys(entries) ==> ascending_keys(entries.update(i, (entries[i].0, d))),
        keyed(entries.update(i, (entries[i].0, d))) == keyed(entries).insert(entries[i].0, d),
{
    let after = entries.update(i, (entries[i].0, d));
    assert(forall|a: int| 0 <= a < after.len() ==> (#[trigger] after[a]).0 == entries[a].0);
    assert(distinct_keys(after)) by {
        assert forall|a: int, b: int| 0 <= a < b < after.len() implies after[a].0 != after[b].0 by {
            assert(entries[a].0 != entries[b].0);
        }
    }
    if ascending_keys(entries) {
        assert forall|a: int, b: int|
            #![trigger after[a], after[b]]
            0 <= a < b < after.len() implies text_le(after[a].0, after[b].0) && after[a].0
            != after[b].0 by {
            assert(text_le(entries[a].0, entries[b].0));
        }
    }
    let x = keyed(after);
    let y = keyed(entries).insert(entries[i].0, d);
    assert forall|k: Seq<char>|
        #![trigger x.dom().contains(k)]
        #![trigger y.dom().contains(k)]
        x.dom().contains(k) == y.dom().contains(k) && (x.dom().contains(k) ==> x[k] == y[k]) by {
        lemma_keyed_domain(after, k);
        lemma_keyed_domain(entries, k);
        if exists|a: int| 0 <= a < entries.len() && (#[trigger] entries[a]).0 == k {
            let a = choose|a: int| 0 <= a < entries.len() && (#[trigger] entries[a]).0 == k;
            assert(after[a].0 == k);
            lemma_keyed_value(after, a);
            lemma_keyed_value(entries, a);
            if a != i {
                assert(entries[i].0 != k) by {
                    if a < i {
                        assert(entries[a].0 != entries[i].0);
                    } else {
                        assert(entries[i].0 != entries[a].0);
                    }
                }
            }
        } else {
            if exists|a: int| 0 <= a < after.len() && (#[trigger] after[a]).0 == k {
                let a = choose|a: int| 0 <= a < after.len() && (#[trigger] after[a]).0 == k;
                assert(entries[a].0 == k);
            }
            assert(entries[i].0 != k);
        }
    }
    assert(x =~= y);
}

proof fn lemma_keyed_insert(
    entries: Seq<(Seq<char>, DecisionView)>,
    i: int,
    key: Seq<char>,
    d: DecisionView,
)
    requires
        ascending_keys(entries),
        0 <= i <= entries.len(),
        forall|k: int| 0 <= k < i ==> !text_le(key, (#[trigger] entries[k]).0),
        forall|k: int| i <= k < entries.len() ==> text_le(key, (#[trigger] entries[k]).0),
        i < entries.len() ==> entries[i].0 != key,
    ensures
        ascending_keys(entries.insert(i, (key, d))),
        keyed(entries.insert(i, (key, d))) == keyed(entries).insert(key, d),
{
    let after = entries.insert(i, (key, d));
    text_le_reflexive(key);
    assert forall|k: int| 0 <= k < entries.len() implies (#[trigger] entries[k]).0 != key by {
        if k > i && entries[k].0 == key {
            assert(text_le(entries[i].0, entries[k].0));
            assert(text_le(key, entries[i].0));
            text_le_antisymmetric(key, entries[i].0);
        }
    }
    assert forall|a: int, b: int|
        #![trigger after[a], after[b]]
        0 <= a < b < after.len() implies text_le(after[a].0, after[b].0) && after[a].0
        != after[b].0 by {
        let x = if a < i { a } else { a - 1 };
        let y = if b < i { b } else { b - 1 };
        if a == i {
            assert(after[b] == entries[y]);
        } else if b == i {
            assert(after[a] == entries[x]);
            text_le_total(entries[x].0, key);
        } else {
            assert(after[a] == entries[x] && after[b] == entries[y]);
        }
    }
    assert(distinct_keys(after)) by {
        assert forall|a: int, b: int|
            #![trigger after[a], after[b]]
            0 <= a < b < after.len() implies after[a].0 != after[b].0 by {
            assert(text_le(after[a].0, after[b].0));
        }
    }
    assert(distinct_keys(entries));
    let m = keyed(after);
    let n = keyed(entries).insert(key, d);
    assert forall|k: Seq<char>|
        #![trigger m.dom().contains(k)]
        #![trigger n.dom().contains(k)]
        m.dom().contains(k) == n.dom().contains(k) && (m.dom().contains(k) ==> m[k] == n[k]) by {
        lemma_keyed_domain(after, k);
        lemma_keyed_domain(entries, k);
        if k == key {
            assert(after[i].0 == k);
            lemma_keyed_value(after, i);
        } else {
            if keyed(entries).contains_key(k) {
                let a = choose|a: int| 0 <= a < entries.len() && (#[trigger] entries[a]).0 == k;
                let b = if a < i { a } else { a + 1 };
                assert(after[b] == entries[a]);
                lemma_keyed_value(entries, a);
                lemma_keyed_value(after, b);
            }
            if keyed(after).contains_key(k) {
                let b = choose|b: int| 0 <= b < after.len() && (#[trigger] after[b]).0 == k;
                let a = if b < i { b } else { b - 1 };
                assert(after[b] == entries[a]);
            }
        }
    }
    assert(m =~= n);
}

/// The decisions of a session by shot stem. A stem occurs at most once.
#[derive(Debug)]
pub struct DecisionMap {
    entries: Vec<(String, Decision)>,
    blank: Decision,
}

/// The keys and decisions of a list of entries.
pub closed spec fn entry_views(entries: Seq<(String, Decision)>) -> Seq<
    (Seq<char>, DecisionView),
> {
    entries.map_values(|e: (String, Decision)| (e.0@, e.1@))
}

impl View for DecisionMap {
    type V = Map<Seq<char>, DecisionView>;

    closed spec fn view(&self) -> Map<Seq<char>, DecisionView> {
        keyed(entry_views(self.entries@))
    }
}

impl DecisionMap {
    #[verifier::type_invariant]
    pub closed spec fn well_formed(self) -> bool {
        &&& ascending_keys(entry_views(self.entries@))
        &&& self.blank@ == DecisionView::undecided()
    }

    /// The keys in ascending order.
    pub closed spec fn keys(self) -> Seq<Seq<char>> {
        self.entries@.map_values(|e: (String, Decision)| e.0@)
    }

    /// A map without decisions.
    pub fn new() -> (m: Self)
        ensures
            m@ == Map::<Seq<char>, DecisionView>::empty(),
            m.keys() == Seq::<Seq<char>>::empty(),
    {
        let m = DecisionMap { entries: Vec::new(), blank: Decision::default() };
        proof {
            assert(entry_views(m.entries@).len() == 0);
            assert(m.keys() =~= Seq::<Seq<char>>::empty());
        }
        m
    }

    /// The stems that have a decision are the keys, each of which occurs once.
    pub proof fn keys_are_the_domain(&self)
        requires
            self.well_formed(),
        ensures
            forall|k: Seq<char>| self@.contains_key(k) <==> self.keys().contains(k),
            self.keys().no_duplicates(),
    {
        let es = entry_views(self.entries@);
        assert forall|k: Seq<char>| self@.contains_key(k) <==> self.keys().contains(k) by {
            lemma_keyed_domain(es, k);
            if self@.contains_key(k) {
                let i = choose|i: int| 0 <= i < es.len() && (#[trigger] es[i]).0 == k;
                assert(self.keys()[i] == k);
            }
            if self.keys().contains(k) {
                let i = choose|i: int| 0 <= i < self.keys().len() && self.keys()[i] == k;
                assert(es[i].0 == k);
            }
        }
        assert forall|i: int, j: int|
            0 <= i < self.keys().len() && 0 <= j < self.keys().len() && i
                != j implies self.keys()[i] != self.keys()[j] by {
            if i < j {
                assert(es[i].0 != es[j].0);
            } else {
                assert(es[j].0 != es[i].0);
            }
        }
    }

    fn place(&self, key: &str) -> (r: usize)
        ensures
            r <= self.entries@.len(),
            forall|k: int|
                0 <= k < r ==> !text_le(key@, (#[trigger] entry_views(self.entries@)[k]).0),
            forall|k: int|
                r <= k < self.entries@.len() ==> text_le(
                    key@,
                    (#[trigger] entry_views(self.entries@)[k]).0,
                ),
    {
        proof {
            use_type_invariant(self);
        }
        let ghost es = entry_views(self.entries@);
        let mut lo: usize = 0;
        let mut hi: usize = self.entries.len();
        while lo < hi
            invariant
                0 <= lo <= hi <= self.entries@.len(),
                es == entry_views(self.entries@),
                ascending_keys(es),
                forall|k: int| 0 <= k < lo ==> !text_le(key@, (#[trigger] es[k]).0),
                forall|k: int|
                    hi <= k < self.entries@.len() ==> text_le(key@, (#[trigger] es[k]).0),
            decreases hi - lo,
        {
            let mid: usize = lo + (hi - lo) / 2;
            assert(es[mid as int].0 == self.entries@[mid as int].0@);
            if at_or_before(key, self.entries[mid].0.as_str()) {
                proof {
                    assert forall|k: int| mid <= k < self.entries@.len() implies text_le(
                        key@,
                        (#[trigger] es[k]).0,
                    ) by {
                        if k > mid {
                            text_le_transitive(key@, es[mid as int].0, es[k].0);
                        }
                    }
                }
                hi = mid;
            } else {
                proof {
                    assert forall|k: int| 0 <= k <= mid implies !text_le(
                        key@,
                        (#[trigger] es[k]).0,
                    ) by {
                        if k < mid && text_le(key@, es[k].0) {
                            text_le_transitive(key@, es[k].0, es[mid as int].0);
                        }
                    }
                }
                lo = mid + 1;
            }
        }
        lo
    }

    fn position(&self, key: &str) -> (r: Option<usize>)
        ensures
            r is Some == self@.contains_key(key@),
            r is Some ==> r->0 < self.entries@.len() && self.entries@[r->0 as int].0@ == key@
                && self.entries@[r->0 as int].1@ == self@[key@],
    {
        proof {
            use_type_invariant(self);
        }
        let ghost es = entry_views(self.entries@);
        let i: usize = self.place(key);
        if i < self.entries.len() && same_text(self.entries[i].0.as_str(), key) {
            proof {
                assert(es[i as int].0 == key@);
                lemma_keyed_value(es, i as int);
            }
            return Some(i);
        }
        proof {
            lemma_keyed_domain(es, key@);
            if exists|k: int| 0 <= k < es.len() && (#[trigger] es[k]).0 == key@ {
                let k = choose|k: int| 0 <= k < es.len() && (#[trigger] es[k]).0 == key@;
                text_le_reflexive(key@);
                assert(es[i as int].0 == self.entries@[i as int].0@);
                if k > i {
                    assert(text_le(es[i as int].0, es[k].0));
                    text_le_antisymmetric(key@, es[i as int].0);
                }
            }
        }
        None
    }

    /// The decision stored for `key`, if there is one.
    pub fn get(&self, key: &str) -> (r: Option<&Decision>)
        ensures
            r is Some == self@.contains_key(key@),
            r is Some ==> r->0@ == self@[key@],
    {
        match self.position(key) {
            Some(i) => Some(&self.entries[i].1),
            None => None,
        }
    }

    /// The decision of a stem that has none.
    pub fn undecided(&self) -> (r: &Decision)
        ensures
            r@ == DecisionView::undecided(),
    {
        proof {
            use_type_invariant(self);
        }
        &self.blank
    }

    /// Stores `d` for `key` in place of what was stored there.
    pub fn insert(&mut self, key: String, d: Decision)
        ensures
            final(self)@ == old(self)@.insert(key@, d@),
    {
        proof {
            use_type_invariant(&*self);
        }
        let i: usize = self.place(key.as_str());
        let there = i < self.entries.len() && same_text(self.entries[i].0.as_str(), key.as_str());
        let ghost before = entry_views(self.entries@);
        proof {
            if i < self.entries@.len() {
                assert(before[i as int].0 == self.entries@[i as int].0@);
            }
        }
        let mut entries: Vec<(String, Decision)> = Vec::new();
        std::mem::swap(&mut entries, &mut self.entries);
        let ghost pair = (key@, d@);
        if there {
            proof {
                lemma_keyed_update(before, i as int, d@);
            }
            entries.set(i, (key, d));
            assert(entry_views(entries@) =~= before.update(i as int, pair));
        } else {
            proof {
                lemma_keyed_insert(before, i as int, key@, d@);
            }
            entries.insert(i, (key, d));
            assert(entry_views(entries@) =~= before.insert(i as int, pair));
        }
        self.entries = entries;
    }

    /// How many stems have a decision.
    pub fn len(&self) -> (n: usize)
        ensures
            n == self.keys().len(),
    {
        self.entries.len()
    }

    /// Whether no stem has a decision.
    pub fn is_empty(&self) -> (r: bool)
        ensures
            r == (self.keys().len() == 0),
    {
        self.entries.len() == 0
    }

    /// The key at position `i` and its decision.
    pub fn entry(&self, i: usize) -> (r: (&String, &Decision))
        requires
            i < self.keys().len(),
        ensures
            r.0@ == self.keys()[i as int],
            self@.contains_key(r.0@),
            r.1@ == self@[r.0@],
    {
        proof {
            use_type_invariant(self);
            let es = entry_views(self.entries@);
            assert(es[i as int].0 == self.keys()[i as int]);
            lemma_keyed_value(es, i as int);
        }
        let e = &self.entries[i];
        (&e.0, &e.1)
    }
}

impl Clone for DecisionMap {
    fn clone(&self) -> (r: Self)
        ensures
            r@ == self@,
            r.keys() == self.keys(),
    {
        proof {
            use_type_invariant(self);
        }
        let mut entries: Vec<(String, Decision)> = Vec::new();
        let mut i: usize = 0;
        let ghost all = entry_views(self.entries@);
        while i < self.entries.len()
            invariant
                0 <= i <= self.entries@.len(),
                all == entry_views(self.entries@),
                entry_views(entries@) == all.take(i as int),
            decreases self.entries@.len() - i,
        {
            let ghost before = entry_views(entries@);
            entries.push((self.entries[i].0.clone(), self.entries[i].1.clone()));
            assert(entry_views(entries@) =~= before.push(all[i as int]));
            i += 1;
            assert(entry_views(entries@) =~= all.take(i as int));
        }
        assert(all.take(all.len() as int) =~= all);
        let r = DecisionMap { entries, blank: Decision::default() };
        proof {
            assert forall|k: int| 0 <= k < r.keys().len() implies r.keys()[k] == self.keys()[k] by {
                assert(entry_views(r.entries@)[k] == all[k]);
            }
            assert(r.keys() =~= self.keys());
        }
        r
    }
}

impl Default for DecisionMap {
    fn default() -> (m: Self)
        ensures
            m@ == Map::<Seq<char>, DecisionView>::empty(),
            m.keys() == Seq::<Seq<char>>::empty(),
    {
        DecisionMap::new()
    }
}

} // verus!
