//! Which files belong together: files are told apart by their extension and grouped by
//! stem, and of several candidates for one place the first in order is taken.
use vstd::prelude::*;
use crate::model::{opt_text, JPEG_EXTS, RAW_EXTS};
use crate::paths::{
    a_name_is_split_at_its_last_dot, extension, extension_of, file_stem, file_stem_of, join,
};
use crate::text::{
    ascii_lower_text, ascii_lowered, at_or_before, same_text, text_le, text_le_antisymmetric,
    text_le_reflexive, text_le_total, text_le_transitive, texts,
};

verus! {

/// What a file is, as its extension tells.
#[derive(Clone, Copy, PartialEq, Eq, Debug, Structural)]
pub enum FileKind {
    Jpeg,
    Raw,
    Sidecar,
    Other,
}

/// Whether an extension, in lower case, is that of a raw file.
pub open spec fn raw_ext(e: Seq<char>) -> bool {
    exists|i: int| 0 <= i < 10 && (#[trigger] RAW_EXTS@[i])@ == e
}

/// Whether an extension, in lower case, is that of a JPEG file.
pub open spec fn jpeg_ext(e: Seq<char>) -> bool {
    exists|i: int| 0 <= i < 2 && (#[trigger] JPEG_EXTS@[i])@ == e
}

/// Whether an extension, in lower case, is that of a raw file.
pub fn is_raw_ext(e: &str) -> (r: bool)
    ensures
        r == raw_ext(e@),
{
    let exts: [&'static str; 10] = RAW_EXTS;
    let mut i: usize = 0;
    while i < 10
        invariant
            0 <= i <= 10,
            exts == RAW_EXTS,
            forall|k: int| 0 <= k < i ==> (#[trigger] RAW_EXTS@[k])@ != e@,
        decreases 10 - i,
    {
        if same_text(exts[i], e) {
            assert(RAW_EXTS@[i as int]@ == e@);
            return true;
        }
        i += 1;
    }
    false
}

/// Whether an extension, in lower case, is that of a JPEG file.
pub fn is_jpeg_ext(e: &str) -> (r: bool)
    ensures
        r == jpeg_ext(e@),
{
    let exts: [&'static str; 2] = JPEG_EXTS;
    let mut i: usize = 0;
    while i < 2
        invariant
            0 <= i <= 2,
            exts == JPEG_EXTS,
            forall|k: int| 0 <= k < i ==> (#[trigger] JPEG_EXTS@[k])@ != e@,
        decreases 2 - i,
    {
        if same_text(exts[i], e) {
            assert(JPEG_EXTS@[i as int]@ == e@);
            return true;
        }
        i += 1;
    }
    false
}

/// The extension of a path in lower case, where it has one.
pub open spec fn lower_ext(p: Seq<char>) -> Option<Seq<char>> {
    match extension(p) {
        Some(e) => Some(ascii_lowered(e)),
        None => None,
    }
}

/// The extension of a path in lower case, where it has one.
pub fn ext_lower(p: &str) -> (r: Option<String>)
    ensures
        opt_text(r) == lower_ext(p@),
{
    match extension_of(p) {
        Some(e) => Some(ascii_lower_text(e.as_str())),
        None => None,
    }
}

/// The stem of a path, empty where it has none.
pub open spec fn stem_or_empty(p: Seq<char>) -> Seq<char> {
    match file_stem(p) {
        Some(s) => s,
        None => Seq::empty(),
    }
}

/// The stem of a path, empty where it has none.
pub fn file_stem_string(p: &str) -> (r: String)
    ensures
        r@ == stem_or_empty(p@),
{
    match file_stem_of(p) {
        Some(s) => s,
        None => {
            let s = String::new();
            assert(s@ =~= Seq::<char>::empty());
            s
        },
    }
}

/// The stem of the shot that a sidecar belongs to: its own, without the extension of an
/// image where it ends in one. Both `A.xmp` and `A.CR3.xmp` belong to `A`.
pub open spec fn sidecar_owner(p: Seq<char>) -> Seq<char> {
    let inner = stem_or_empty(p);
    match lower_ext(inner) {
        Some(e) => if raw_ext(e) || jpeg_ext(e) {
            stem_or_empty(inner)
        } else {
            inner
        },
        None => inner,
    }
}

/// The stem of the shot that a sidecar belongs to.
pub fn sidecar_stem(p: &str) -> (r: String)
    ensures
        r@ == sidecar_owner(p@),
{
    let inner = file_stem_string(p);
    match ext_lower(inner.as_str()) {
        Some(e) => {
            if is_raw_ext(e.as_str()) || is_jpeg_ext(e.as_str()) {
                file_stem_string(inner.as_str())
            } else {
                inner
            }
        },
        None => inner,
    }
}

/// What a file is.
pub open spec fn kind_of(name: Seq<char>) -> FileKind {
    match lower_ext(name) {
        Some(e) => if jpeg_ext(e) {
            FileKind::Jpeg
        } else if raw_ext(e) {
            FileKind::Raw
        } else if e == "xmp"@ {
            FileKind::Sidecar
        } else {
            FileKind::Other
        },
        None => FileKind::Other,
    }
}

/// The stem of the shot that a file belongs to.
pub open spec fn owner(name: Seq<char>) -> Seq<char> {
    if kind_of(name) == FileKind::Sidecar {
        sidecar_owner(name)
    } else {
        stem_or_empty(name)
    }
}

/// What a file is.
pub fn file_kind(name: &str) -> (r: FileKind)
    ensures
        r == kind_of(name@),
{
    match ext_lower(name) {
        Some(e) => {
            if is_jpeg_ext(e.as_str()) {
                FileKind::Jpeg
            } else if is_raw_ext(e.as_str()) {
                FileKind::Raw
            } else if same_text(e.as_str(), "xmp") {
                FileKind::Sidecar
            } else {
                FileKind::Other
            }
        },
        None => FileKind::Other,
    }
}

/// The names of the files of one stem.
#[derive(PartialEq, Eq, Debug)]
pub struct Group {
    pub stem: String,
    pub jpeg: Option<String>,
    pub raw: Option<String>,
    pub sidecar: Option<String>,
}

/// The value of a `Group`.
#[verifier::ext_equal]
pub struct GroupView {
    pub stem: Seq<char>,
    pub jpeg: Option<Seq<char>>,
    pub raw: Option<Seq<char>>,
    pub sidecar: Option<Seq<char>>,
}

impl View for Group {
    type V = GroupView;

    open spec fn view(&self) -> GroupView {
        GroupView {
            stem: self.stem@,
            jpeg: opt_text(self.jpeg),
            raw: opt_text(self.raw),
            sidecar: opt_text(self.sidecar),
        }
    }
}

/// The values of a list of groups.
pub open spec fn group_views(v: Seq<Group>) -> Seq<GroupView> {
    v.map_values(|g: Group| g@)
}

impl GroupView {
    /// The name that the group holds for a kind.
    pub open spec fn slot(self, kind: FileKind) -> Option<Seq<char>> {
        match kind {
            FileKind::Jpeg => self.jpeg,
            FileKind::Raw => self.raw,
            FileKind::Sidecar => self.sidecar,
            FileKind::Other => None,
        }
    }
}

/// Whether a file is a candidate for the place of a kind with a stem.
pub open spec fn stands_for(name: Seq<char>, stem: Seq<char>, kind: FileKind) -> bool {
    kind_of(name) == kind && owner(name) == stem
}

/// Whether `slot` holds, of all candidates, the one that is first in order.
pub open spec fn won(
    names: Seq<Seq<char>>,
    stem: Seq<char>,
    kind: FileKind,
    slot: Option<Seq<char>>,
) -> bool {
    match slot {
        None => forall|m: Seq<char>| #[trigger] names.contains(m) ==> !stands_for(m, stem, kind),
        Some(n) => {
            &&& names.contains(n)
            &&& stands_for(n, stem, kind)
            &&& forall|m: Seq<char>| #[trigger]
                names.contains(m) && stands_for(m, stem, kind) ==> text_le(n, m)
        },
    }
}

/// Whether the stems of the groups ascend, each of them once.
pub open spec fn stems_ascend(groups: Seq<GroupView>) -> bool {
    forall|i: int, j: int|
        #![trigger groups[i], groups[j]]
        0 <= i < j < groups.len() ==> text_le(groups[i].stem, groups[j].stem) && groups[i].stem
            != groups[j].stem
}

/// Whether every place of a group holds the first of its candidates.
pub open spec fn rightly_filled(names: Seq<Seq<char>>, g: GroupView) -> bool {
    &&& won(names, g.stem, FileKind::Jpeg, g.jpeg)
    &&& won(names, g.stem, FileKind::Raw, g.raw)
    &&& won(names, g.stem, FileKind::Sidecar, g.sidecar)
}

/// Whether some group has the stem.
pub open spec fn has_stem(groups: Seq<GroupView>, stem: Seq<char>) -> bool {
    exists|i: int| 0 <= i < groups.len() && (#[trigger] groups[i]).stem == stem
}

/// Whether the groups are those of the names: one for each stem of an image or a sidecar
/// and no others, in ascending order, each place filled by the first of its candidates.
pub open spec fn grouped(names: Seq<Seq<char>>, groups: Seq<GroupView>) -> bool {
    &&& stems_ascend(groups)
    &&& forall|i: int| 0 <= i < groups.len() ==> rightly_filled(names, #[trigger] groups[i])
    &&& forall|i: int|
        0 <= i < groups.len() ==> (#[trigger] groups[i]).jpeg is Some || groups[i].raw is Some
            || groups[i].sidecar is Some
    &&& forall|m: Seq<char>| #[trigger]
        names.contains(m) && kind_of(m) != FileKind::Other ==> has_stem(groups, owner(m))
}

/// The first of two candidates for one place.
pub open spec fn better(slot: Option<Seq<char>>, name: Seq<char>) -> Option<Seq<char>> {
    match slot {
        Some(n) => if text_le(n, name) {
            Some(n)
        } else {
            Some(name)
        },
        None => Some(name),
    }
}

fn offer(slot: &mut Option<String>, name: &String)
    ensures
        opt_text(*final(slot)) == better(opt_text(*old(slot)), name@),
{
    let keep = match &*slot {
        Some(n) => at_or_before(n.as_str(), name.as_str()),
        None => false,
    };
    if !keep {
        *slot = Some(name.clone());
    }
}

/// The group with one more name offered for its place.
pub open spec fn offered(g: GroupView, kind: FileKind, name: Seq<char>) -> GroupView {
    match kind {
        FileKind::Jpeg => GroupView { jpeg: better(g.jpeg, name), ..g },
        FileKind::Raw => GroupView { raw: better(g.raw, name), ..g },
        FileKind::Sidecar => GroupView { sidecar: better(g.sidecar, name), ..g },
        FileKind::Other => g,
    }
}

fn offer_to(g: &mut Group, kind: FileKind, name: &String)
    ensures
        final(g)@ == offered(old(g)@, kind, name@),
{
    match kind {
        FileKind::Jpeg => offer(&mut g.jpeg, name),
        FileKind::Raw => offer(&mut g.raw, name),
        FileKind::Sidecar => offer(&mut g.sidecar, name),
        FileKind::Other => {},
    }
}

/// A group of which no place is filled.
pub open spec fn blank(stem: Seq<char>) -> GroupView {
    GroupView { stem, jpeg: None, raw: None, sidecar: None }
}

/// The place of a stem among groups with ascending stems: where it is or belongs.
fn place_of(groups: &Vec<Group>, stem: &str) -> (r: usize)
    requires
        stems_ascend(group_views(groups@)),
    ensures
        0 <= r <= groups@.len(),
        forall|k: int| 0 <= k < r ==> !text_le(stem@, (#[trigger] group_views(groups@)[k]).stem),
        forall|k: int|
            r <= k < groups@.len() ==> text_le(stem@, (#[trigger] group_views(groups@)[k]).stem),
{
    let ghost gv = group_views(groups@);
    let mut lo: usize = 0;
    let mut hi: usize = groups.len();
    while lo < hi
        invariant
            0 <= lo <= hi <= groups@.len(),
            gv == group_views(groups@),
            stems_ascend(gv),
            forall|k: int| 0 <= k < lo ==> !text_le(stem@, (#[trigger] gv[k]).stem),
            forall|k: int| hi <= k < groups@.len() ==> text_le(stem@, (#[trigger] gv[k]).stem),
        decreases hi - lo,
    {
        let mid: usize = lo + (hi - lo) / 2;
        assert(gv[mid as int].stem == groups@[mid as int].stem@);
        if at_or_before(stem, groups[mid].stem.as_str()) {
            proof {
                assert forall|k: int| mid <= k < groups@.len() implies text_le(
                    stem@,
                    (#[trigger] gv[k]).stem,
                ) by {
                    if k > mid {
                        text_le_transitive(stem@, gv[mid as int].stem, gv[k].stem);
                    }
                }
            }
            hi = mid;
        } else {
            proof {
                assert forall|k: int| 0 <= k <= mid implies !text_le(
                    stem@,
                    (#[trigger] gv[k]).stem,
                ) by {
                    if k < mid && text_le(stem@, gv[k].stem) {
                        text_le_transitive(stem@, gv[k].stem, gv[mid as int].stem);
                    }
                }
            }
            lo = mid + 1;
        }
    }
    lo
}

/// The groups with one more name taken in at the place of its stem.
spec fn taken_in(
    groups: Seq<GroupView>,
    at: int,
    present: bool,
    kind: FileKind,
    stem: Seq<char>,
    name: Seq<char>,
) -> Seq<GroupView> {
    if present {
        groups.update(at, offered(groups[at], kind, name))
    } else {
        groups.insert(at, offered(blank(stem), kind, name))
    }
}

proof fn lemma_won(
    names: Seq<Seq<char>>,
    name: Seq<char>,
    stem: Seq<char>,
    kind: FileKind,
    slot: Option<Seq<char>>,
)
    requires
        won(names, stem, kind, slot),
    ensures
        stands_for(name, stem, kind) ==> won(names.push(name), stem, kind, better(slot, name)),
        !stands_for(name, stem, kind) ==> won(names.push(name), stem, kind, slot),
{
    let more = names.push(name);
    assert forall|m: Seq<char>| #[trigger] more.contains(m) implies names.contains(m) || m
        == name by {
        let i = choose|i: int| 0 <= i < more.len() && more[i] == m;
        if i < names.len() {
            assert(names[i] == m);
        }
    }
    assert(more[names.len() as int] == name);
    assert(more.contains(name));
    assert forall|m: Seq<char>| names.contains(m) implies #[trigger] more.contains(m) by {
        let i = choose|i: int| 0 <= i < names.len() && names[i] == m;
        assert(more[i] == m);
    }
    text_le_reflexive(name);
    if let Some(n) = slot {
        text_le_total(n, name);
        if !text_le(n, name) {
            assert forall|m: Seq<char>| #[trigger]
                more.contains(m) && stands_for(m, stem, kind) implies text_le(name, m) by {
                if m != name {
                    text_le_transitive(name, n, m);
                }
            }
        }
    }
}

proof fn lemma_filled(names: Seq<Seq<char>>, name: Seq<char>, g: GroupView)
    requires
        rightly_filled(names, g),
    ensures
        owner(name) == g.stem ==> rightly_filled(
            names.push(name),
            offered(g, kind_of(name), name),
        ),
        owner(name) != g.stem || kind_of(name) == FileKind::Other ==> rightly_filled(
            names.push(name),
            g,
        ),
{
    lemma_won(names, name, g.stem, FileKind::Jpeg, g.jpeg);
    lemma_won(names, name, g.stem, FileKind::Raw, g.raw);
    lemma_won(names, name, g.stem, FileKind::Sidecar, g.sidecar);
}

proof fn lemma_unnamed(names: Seq<Seq<char>>, groups: Seq<GroupView>, stem: Seq<char>)
    requires
        grouped(names, groups),
        !has_stem(groups, stem),
    ensures
        rightly_filled(names, blank(stem)),
{
    assert forall|m: Seq<char>| #[trigger] names.contains(m) implies kind_of(m) == FileKind::Other
        || owner(m) != stem by {
        if kind_of(m) != FileKind::Other {
            assert(has_stem(groups, owner(m)));
        }
    }
}

proof fn lemma_known_names(names: Seq<Seq<char>>, name: Seq<char>, m: Seq<char>)
    requires
        names.push(name).contains(m),
    ensures
        names.contains(m) || m == name,
{
    let more = names.push(name);
    let i = choose|i: int| 0 <= i < more.len() && more[i] == m;
    if i < names.len() {
        assert(names[i] == m);
    }
}

proof fn lemma_other(names: Seq<Seq<char>>, groups: Seq<GroupView>, name: Seq<char>)
    requires
        grouped(names, groups),
        kind_of(name) == FileKind::Other,
    ensures
        grouped(names.push(name), groups),
{
    assert forall|i: int| 0 <= i < groups.len() implies rightly_filled(
        names.push(name),
        #[trigger] groups[i],
    ) by {
        lemma_filled(names, name, groups[i]);
    }
    assert forall|m: Seq<char>| #[trigger]
        names.push(name).contains(m) && kind_of(m) != FileKind::Other implies has_stem(
        groups,
        owner(m),
    ) by {
        lemma_known_names(names, name, m);
    }
}

proof fn lemma_taken_in(
    names: Seq<Seq<char>>,
    groups: Seq<GroupView>,
    name: Seq<char>,
    at: int,
    present: bool,
)
    requires
        grouped(names, groups),
        kind_of(name) != FileKind::Other,
        0 <= at <= groups.len(),
        forall|k: int| 0 <= k < at ==> !text_le(owner(name), (#[trigger] groups[k]).stem),
        forall|k: int| at <= k < groups.len() ==> text_le(owner(name), (#[trigger] groups[k]).stem),
        present == (at < groups.len() && groups[at].stem == owner(name)),
    ensures
        grouped(
            names.push(name),
            taken_in(groups, at, present, kind_of(name), owner(name), name),
        ),
{
    let stem = owner(name);
    let kind = kind_of(name);
    let more = names.push(name);
    let after = taken_in(groups, at, present, kind, stem, name);
    if present {
        assert forall|i: int| 0 <= i < after.len() implies (#[trigger] after[i]).stem
            == groups[i].stem by {}
        assert forall|i: int| 0 <= i < after.len() implies rightly_filled(
            more,
            #[trigger] after[i],
        ) by {
            lemma_filled(names, name, groups[i]);
            if i != at {
                if i < at {
                    assert(groups[i].stem != groups[at].stem);
                } else {
                    assert(groups[at].stem != groups[i].stem);
                }
            }
        }
        assert forall|m: Seq<char>| #[trigger]
            more.contains(m) && kind_of(m) != FileKind::Other implies has_stem(
            after,
            owner(m),
        ) by {
            lemma_known_names(names, name, m);
            let k = if m == name {
                at
            } else {
                assert(has_stem(groups, owner(m)));
                choose|k: int| 0 <= k < groups.len() && (#[trigger] groups[k]).stem == owner(m)
            };
            assert(after[k].stem == owner(m));
        }
        assert(stems_ascend(after)) by {
            assert forall|i: int, j: int|
                #![trigger after[i], after[j]]
                0 <= i < j < after.len() implies text_le(after[i].stem, after[j].stem)
                && after[i].stem != after[j].stem by {
                assert(text_le(groups[i].stem, groups[j].stem));
            }
        }
        assert forall|i: int| 0 <= i < after.len() implies (#[trigger] after[i]).jpeg is Some
            || after[i].raw is Some || after[i].sidecar is Some by {
            assert(groups[i].jpeg is Some || groups[i].raw is Some || groups[i].sidecar is Some);
        }
    } else {
        assert forall|k: int| 0 <= k < groups.len() implies (#[trigger] groups[k]).stem
            != stem by {
            text_le_reflexive(stem);
            if k > at && groups[k].stem == stem {
                assert(text_le(groups[at].stem, groups[k].stem));
                assert(text_le(stem, groups[at].stem));
                text_le_antisymmetric(stem, groups[at].stem);
            }
        }
        assert(!has_stem(groups, stem));
        lemma_unnamed(names, groups, stem);
        lemma_filled(names, name, blank(stem));
        assert forall|i: int| 0 <= i < after.len() implies rightly_filled(
            more,
            #[trigger] after[i],
        ) by {
            if i < at {
                assert(after[i] == groups[i]);
                lemma_filled(names, name, groups[i]);
            } else if i > at {
                assert(after[i] == groups[i - 1]);
                lemma_filled(names, name, groups[i - 1]);
            }
        }
        assert forall|i: int, j: int|
            #![trigger after[i], after[j]]
            0 <= i < j < after.len() implies text_le(after[i].stem, after[j].stem)
            && after[i].stem != after[j].stem by {
            let a = if i < at { i } else { i - 1 };
            let b = if j < at { j } else { j - 1 };
            if i == at {
                assert(after[j] == groups[b]);
            } else if j == at {
                assert(after[i] == groups[a]);
                text_le_total(groups[a].stem, stem);
            } else {
                assert(after[i] == groups[a] && after[j] == groups[b]);
            }
        }
        assert forall|m: Seq<char>| #[trigger]
            more.contains(m) && kind_of(m) != FileKind::Other implies has_stem(
            after,
            owner(m),
        ) by {
            lemma_known_names(names, name, m);
            if m == name {
                assert(after[at].stem == stem);
            } else {
                assert(has_stem(groups, owner(m)));
                let k = choose|k: int|
                    0 <= k < groups.len() && (#[trigger] groups[k]).stem == owner(m);
                let l = if k < at { k } else { k + 1 };
                assert(after[l] == groups[k]);
            }
        }
        assert forall|i: int| 0 <= i < after.len() implies (#[trigger] after[i]).jpeg is Some
            || after[i].raw is Some || after[i].sidecar is Some by {
            if i < at {
                assert(after[i] == groups[i]);
            } else if i > at {
                assert(after[i] == groups[i - 1]);
            }
        }
    }
}

/// Groups the names of files by stem.
pub fn group_files(names: &Vec<String>) -> (out: Vec<Group>)
    ensures
        grouped(texts(names@), group_views(out@)),
{
    let mut out: Vec<Group> = Vec::new();
    let mut i: usize = 0;
    let ghost all = texts(names@);
    assert(grouped(all.take(0), group_views(out@)));
    while i < names.len()
        invariant
            0 <= i <= names@.len(),
            all == texts(names@),
            grouped(all.take(i as int), group_views(out@)),
        decreases names@.len() - i,
    {
        let name: &String = &names[i];
        let ghost before = group_views(out@);
        let kind = file_kind(name.as_str());
        assert(all.take(i + 1) =~= all.take(i as int).push(name@));
        match kind {
            FileKind::Other => {
                proof {
                    lemma_other(all.take(i as int), before, name@);
                }
            },
            _ => {
                let stem = match kind {
                    FileKind::Sidecar => sidecar_stem(name.as_str()),
                    _ => file_stem_string(name.as_str()),
                };
                let at: usize = place_of(&out, stem.as_str());
                let present = at < out.len() && same_text(out[at].stem.as_str(), stem.as_str());
                proof {
                    if at < out@.len() {
                        assert(before[at as int].stem == out@[at as int].stem@);
                    }
                    lemma_taken_in(all.take(i as int), before, name@, at as int, present);
                }
                if present {
                    let mut g = Group { stem: String::new(), jpeg: None, raw: None, sidecar: None };
                    std::mem::swap(&mut g, &mut out[at]);
                    offer_to(&mut g, kind, name);
                    out.set(at, g);
                } else {
                    let mut g = Group { stem, jpeg: None, raw: None, sidecar: None };
                    offer_to(&mut g, kind, name);
                    out.insert(at, g);
                }
                assert(group_views(out@) =~= taken_in(
                    before,
                    at as int,
                    present,
                    kind,
                    owner(name@),
                    name@,
                ));
            },
        }
        i += 1;
    }
    assert(all.take(i as int) =~= all);
    out
}

/// The groups do not depend on the order in which a directory is listed.
pub proof fn groups_are_determined(
    a: Seq<Seq<char>>,
    b: Seq<Seq<char>>,
    x: Seq<GroupView>,
    y: Seq<GroupView>,
)
    requires
        forall|m: Seq<char>| #[trigger] a.contains(m) <==> b.contains(m),
        grouped(a, x),
        grouped(b, y),
    ensures
        x == y,
{
    lemma_same_stems(a, b, x, y);
    lemma_same_stems(b, a, y, x);
    lemma_same_groups(a, b, x, y, 0);
}

proof fn lemma_same_slot(
    a: Seq<Seq<char>>,
    b: Seq<Seq<char>>,
    stem: Seq<char>,
    kind: FileKind,
    x: Option<Seq<char>>,
    y: Option<Seq<char>>,
)
    requires
        forall|m: Seq<char>| #[trigger] a.contains(m) <==> b.contains(m),
        won(a, stem, kind, x),
        won(b, stem, kind, y),
    ensures
        x == y,
{
    if x is Some {
        assert(b.contains(x->0));
        assert(stands_for(x->0, stem, kind));
    }
    if y is Some {
        assert(a.contains(y->0));
        assert(stands_for(y->0, stem, kind));
    }
    if x is Some && y is Some {
        text_le_antisymmetric(x->0, y->0);
    }
}

proof fn lemma_same_stems(
    a: Seq<Seq<char>>,
    b: Seq<Seq<char>>,
    x: Seq<GroupView>,
    y: Seq<GroupView>,
)
    requires
        forall|m: Seq<char>| #[trigger] a.contains(m) <==> b.contains(m),
        grouped(a, x),
        grouped(b, y),
    ensures
        forall|i: int| 0 <= i < x.len() ==> has_stem(y, (#[trigger] x[i]).stem),
{
    assert forall|i: int| 0 <= i < x.len() implies has_stem(y, (#[trigger] x[i]).stem) by {
        let g = x[i];
        assert(rightly_filled(a, g));
        assert(g.jpeg is Some || g.raw is Some || g.sidecar is Some);
        let m = if g.jpeg is Some {
            g.jpeg->0
        } else if g.raw is Some {
            g.raw->0
        } else {
            g.sidecar->0
        };
        assert(a.contains(m));
        assert(b.contains(m));
        assert(owner(m) == g.stem && kind_of(m) != FileKind::Other);
    }
}

proof fn lemma_same_groups(
    a: Seq<Seq<char>>,
    b: Seq<Seq<char>>,
    x: Seq<GroupView>,
    y: Seq<GroupView>,
    n: int,
)
    requires
        forall|m: Seq<char>| #[trigger] a.contains(m) <==> b.contains(m),
        grouped(a, x),
        grouped(b, y),
        forall|i: int| 0 <= i < x.len() ==> has_stem(y, (#[trigger] x[i]).stem),
        forall|i: int| 0 <= i < y.len() ==> has_stem(x, (#[trigger] y[i]).stem),
        0 <= n <= x.len(),
        n <= y.len(),
        forall|k: int| 0 <= k < n ==> #[trigger] x[k] == y[k],
    ensures
        x == y,
    decreases x.len() - n,
{
    if n < x.len() && n < y.len() {
        assert(has_stem(y, x[n].stem));
        assert(has_stem(x, y[n].stem));
        let j = choose|j: int| 0 <= j < y.len() && (#[trigger] y[j]).stem == x[n].stem;
        let i = choose|i: int| 0 <= i < x.len() && (#[trigger] x[i]).stem == y[n].stem;
        if j < n {
            assert(x[j] == y[j]);
            assert(x[j].stem != x[n].stem);
        }
        if i < n {
            assert(x[i] == y[i]);
            assert(y[i].stem != y[n].stem);
        }
        text_le_reflexive(x[n].stem);
        if j > n {
            assert(text_le(y[n].stem, y[j].stem));
        }
        if i > n {
            assert(text_le(x[n].stem, x[i].stem));
        }
        text_le_antisymmetric(x[n].stem, y[n].stem);
        assert(rightly_filled(a, x[n]) && rightly_filled(b, y[n]));
        lemma_same_slot(a, b, x[n].stem, FileKind::Jpeg, x[n].jpeg, y[n].jpeg);
        lemma_same_slot(a, b, x[n].stem, FileKind::Raw, x[n].raw, y[n].raw);
        lemma_same_slot(a, b, x[n].stem, FileKind::Sidecar, x[n].sidecar, y[n].sidecar);
        assert(x[n] == y[n]);
        lemma_same_groups(a, b, x, y, n + 1);
    } else {
        if n < x.len() {
            assert(has_stem(y, x[n].stem));
            let j = choose|j: int| 0 <= j < y.len() && (#[trigger] y[j]).stem == x[n].stem;
            assert(x[j] == y[j]);
            assert(x[j].stem != x[n].stem);
        }
        if n < y.len() {
            assert(has_stem(x, y[n].stem));
            let i = choose|i: int| 0 <= i < x.len() && (#[trigger] x[i]).stem == y[n].stem;
            assert(x[i] == y[i]);
            assert(y[i].stem != y[n].stem);
        }
        assert(x =~= y);
    }
}

/// Whether the text can stand behind a dot as an extension.
pub open spec fn is_plain_ext(e: Seq<char>) -> bool {
    e.len() > 0 && !e.contains('.') && !e.contains('/')
}

/// A name of a stem and an extension.
pub open spec fn named(s: Seq<char>, e: Seq<char>) -> Seq<char> {
    s + seq!['.'] + e
}

proof fn lemma_named(s: Seq<char>, e: Seq<char>)
    requires
        s.len() > 0,
        !s.contains('/'),
        is_plain_ext(e),
    ensures
        stem_or_empty(named(s, e)) == s,
        lower_ext(named(s, e)) == Some(ascii_lowered(e)),
{
    a_name_is_split_at_its_last_dot(Seq::empty(), s, e);
    let n = named(s, e);
    assert(n[0] == s[0]);
    assert(s.contains(s[0]));
    assert(join(Seq::empty(), n) =~= n);
}

/// What a file is goes by its extension, in whatever case it is written.
pub proof fn a_file_goes_by_its_extension(s: Seq<char>, e: Seq<char>)
    requires
        s.len() > 0,
        !s.contains('/'),
        is_plain_ext(e),
    ensures
        ({
            let low = ascii_lowered(e);
            let kind = kind_of(named(s, e));
            &&& low == "jpg"@ || low == "jpeg"@ <==> kind == FileKind::Jpeg
            &&& low == "xmp"@ ==> kind == FileKind::Sidecar
            &&& low == "cr3"@ || low == "cr2"@ || low == "nef"@ || low == "arw"@ || low == "raf"@
                || low == "rw2"@ || low == "orf"@ || low == "dng"@ || low == "pef"@ || low
                == "srw"@ <==> kind == FileKind::Raw
            &&& kind == FileKind::Sidecar ==> low == "xmp"@
        }),
{
    reveal_strlit("jpg");
    reveal_strlit("jpeg");
    reveal_strlit("xmp");
    reveal_strlit("cr3");
    reveal_strlit("cr2");
    reveal_strlit("nef");
    reveal_strlit("arw");
    reveal_strlit("raf");
    reveal_strlit("rw2");
    reveal_strlit("orf");
    reveal_strlit("dng");
    reveal_strlit("pef");
    reveal_strlit("srw");
    lemma_named(s, e);
    let low = ascii_lowered(e);
    assert(JPEG_EXTS@[0]@ == "jpg"@ && JPEG_EXTS@[1]@ == "jpeg"@);
    assert(jpeg_ext(low) <==> low == "jpg"@ || low == "jpeg"@);
    assert(RAW_EXTS@[0]@ == "cr3"@ && RAW_EXTS@[1]@ == "cr2"@ && RAW_EXTS@[2]@ == "nef"@);
    assert(RAW_EXTS@[3]@ == "arw"@ && RAW_EXTS@[4]@ == "raf"@ && RAW_EXTS@[5]@ == "rw2"@);
    assert(RAW_EXTS@[6]@ == "orf"@ && RAW_EXTS@[7]@ == "dng"@ && RAW_EXTS@[8]@ == "pef"@);
    assert(RAW_EXTS@[9]@ == "srw"@);
    assert(raw_ext(low) ==> low == "cr3"@ || low == "cr2"@ || low == "nef"@ || low == "arw"@
        || low == "raf"@ || low == "rw2"@ || low == "orf"@ || low == "dng"@ || low == "pef"@
        || low == "srw"@);
    assert("jpg"@[0] == 'j' && "jpeg"@[0] == 'j' && "xmp"@[0] == 'x');
    assert("cr3"@[0] == 'c' && "cr2"@[0] == 'c' && "nef"@[0] == 'n' && "arw"@[0] == 'a');
    assert("raf"@[0] == 'r' && "rw2"@[0] == 'r' && "orf"@[0] == 'o' && "dng"@[0] == 'd');
    assert("pef"@[0] == 'p' && "srw"@[0] == 's');
}

/// An image belongs to the shot of its stem. So does a sidecar, whether it is named for the
/// stem alone or for the whole name of the image.
pub proof fn files_belong_to_the_shot_of_their_stem(s: Seq<char>, e: Seq<char>, x: Seq<char>)
    requires
        s.len() > 0,
        !s.contains('/'),
        is_plain_ext(e),
        is_plain_ext(x),
        ascii_lowered(x) == "xmp"@,
        kind_of(named(s, e)) == FileKind::Jpeg || kind_of(named(s, e)) == FileKind::Raw,
    ensures
        owner(named(s, e)) == s,
        owner(named(named(s, e), x)) == s,
        !s.contains('.') ==> owner(named(s, x)) == s,
{
    a_file_goes_by_its_extension(s, x);
    lemma_named(s, e);
    lemma_named(s, x);
    let n = named(s, e);
    assert(!n.contains('/')) by {
        if n.contains('/') {
            let i = choose|i: int| 0 <= i < n.len() && n[i] == '/';
            if i < s.len() {
                assert(s[i] == '/');
            } else if i > s.len() {
                assert(e[i - s.len() - 1] == '/');
            }
        }
    }
    a_file_goes_by_its_extension(n, x);
    lemma_named(n, x);
    if !s.contains('.') {
        a_name_is_split_at_its_last_dot(Seq::empty(), s, s);
        assert(s.contains(s[0]));
        assert(join(Seq::empty(), s) =~= s);
        assert(lower_ext(s) is None);
    }
}

/// A file that belongs to a stem is in the group of that stem, in the place of its kind; of
/// several for one place the first in order is taken.
pub proof fn a_file_is_in_the_group_of_its_stem(
    names: Seq<Seq<char>>,
    groups: Seq<GroupView>,
    m: Seq<char>,
)
    requires
        grouped(names, groups),
        names.contains(m),
        kind_of(m) != FileKind::Other,
    ensures
        exists|i: int|
            0 <= i < groups.len() && (#[trigger] groups[i]).stem == owner(m) && {
                &&& kind_of(m) == FileKind::Jpeg ==> groups[i].jpeg is Some && text_le(
                    groups[i].jpeg->0,
                    m,
                )
                &&& kind_of(m) == FileKind::Raw ==> groups[i].raw is Some && text_le(
                    groups[i].raw->0,
                    m,
                )
                &&& kind_of(m) == FileKind::Sidecar ==> groups[i].sidecar is Some && text_le(
                    groups[i].sidecar->0,
                    m,
                )
            },
{
    assert(has_stem(groups, owner(m)));
    let i = choose|i: int| 0 <= i < groups.len() && (#[trigger] groups[i]).stem == owner(m);
    assert(rightly_filled(names, groups[i]));
    assert(stands_for(m, owner(m), kind_of(m)));
}

/// Nothing is in a group that was not found, and each file is in the group of its stem and
/// in the place of its kind.
pub proof fn a_group_holds_what_was_found(
    names: Seq<Seq<char>>,
    groups: Seq<GroupView>,
    i: int,
)
    requires
        grouped(names, groups),
        0 <= i < groups.len(),
    ensures
        groups[i].jpeg matches Some(n) ==> names.contains(n) && kind_of(n) == FileKind::Jpeg
            && owner(n) == groups[i].stem,
        groups[i].raw matches Some(n) ==> names.contains(n) && kind_of(n) == FileKind::Raw
            && owner(n) == groups[i].stem,
        groups[i].sidecar matches Some(n) ==> names.contains(n) && kind_of(n)
            == FileKind::Sidecar && owner(n) == groups[i].stem,
        groups[i].jpeg is Some || groups[i].raw is Some || groups[i].sidecar is Some,
{
    assert(rightly_filled(names, groups[i]));
}

} // verus!
