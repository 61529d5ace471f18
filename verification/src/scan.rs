//! Folder scan: a flat walk that groups files by stem into shots, in a stable filmstrip
//! order by capture time. A shot needs a JPEG, or a raw file with a preview that can be
//! read; any other raw file without a JPEG is reported apart.
use vstd::prelude::*;
use crate::exif_data::{capture_in, read_exif_data, read_exif_data_raf, summary_in};
use crate::fsops::{
    listing_view, bytes_reply, DirEntry, EntryView, FsError, FsErrorView, FsEvent, FsLog, FsOps,
};
use crate::grouping::{
    ext_lower, group_files, group_views, grouped, has_stem, kind_of, lower_ext, owner,
    rightly_filled, stands_for, FileKind, Group, GroupView,
};
use crate::model::{shot_views, CaptureTime, CaptureView, ExifSummary, Shot, ShotView};
use crate::paths::{file_name, file_name_of, join, join_path};
use crate::raw::{preview_supported, raf_preview};
use crate::records::{extends, since, since_adds_up, since_grows, since_starts_empty};
use crate::text::{
    at_or_before, same_text, text_le, text_le_antisymmetric, text_le_total, text_le_transitive,
    texts,
};

verus! {

/// Why a folder could not be scanned.
#[derive(PartialEq, Eq, Debug)]
pub enum ScanError {
    Io(FsError),
    NotADir(String),
}

/// The value of a `ScanError`.
pub enum ScanErrorView {
    Io(FsErrorView),
    NotADir(Seq<char>),
}

impl View for ScanError {
    type V = ScanErrorView;

    open spec fn view(&self) -> ScanErrorView {
        match *self {
            ScanError::Io(e) => ScanErrorView::Io(e@),
            ScanError::NotADir(p) => ScanErrorView::NotADir(p@),
        }
    }
}

/// The words for an error.
pub open spec fn scan_error_words(e: ScanErrorView) -> Seq<char> {
    match e {
        ScanErrorView::Io(e) => "scan I/O error: "@ + e.message,
        ScanErrorView::NotADir(p) => "not a directory: "@ + p,
    }
}

impl ScanError {
    /// The words for the error.
    pub fn describe(&self) -> (r: String)
        ensures
            r@ == scan_error_words(self@),
    {
        match self {
            ScanError::Io(e) => {
                let mut s = String::from_str("scan I/O error: ");
                s.append(e.message.as_str());
                s
            },
            ScanError::NotADir(p) => {
                let mut s = String::from_str("not a directory: ");
                s.append(p.as_str());
                s
            },
        }
    }
}

/// The name of the file that is shown, empty where there is none.
pub open spec fn shown_name(s: ShotView) -> Seq<char> {
    match s.display_path() {
        Some(p) => match file_name(p) {
            Some(n) => n,
            None => Seq::empty(),
        },
        None => Seq::empty(),
    }
}

/// Whether a fraction comes at or before another; none comes first.
pub open spec fn subsec_le(a: Option<u32>, b: Option<u32>) -> bool {
    match (a, b) {
        (None, _) => true,
        (Some(_), None) => false,
        (Some(x), Some(y)) => x <= y,
    }
}

/// The filmstrip order: by date and time, then by the fraction of the second, then by the
/// name of the file that is shown. What has no date comes last.
pub open spec fn shot_le(a: ShotView, b: ShotView) -> bool {
    if (a.capture.datetime is None) != (b.capture.datetime is None) {
        b.capture.datetime is None
    } else if a.capture.datetime != b.capture.datetime {
        text_le(a.capture.datetime->0, b.capture.datetime->0)
    } else if a.capture.subsec != b.capture.subsec {
        subsec_le(a.capture.subsec, b.capture.subsec)
    } else {
        text_le(shown_name(a), shown_name(b))
    }
}

/// Of two shots, one comes at or before the other.
pub proof fn shot_le_total(a: ShotView, b: ShotView)
    ensures
        shot_le(a, b) || shot_le(b, a),
{
    text_le_total(shown_name(a), shown_name(b));
    if a.capture.datetime is Some && b.capture.datetime is Some {
        text_le_total(a.capture.datetime->0, b.capture.datetime->0);
    }
}

/// The filmstrip order is transitive.
pub proof fn shot_le_transitive(a: ShotView, b: ShotView, c: ShotView)
    requires
        shot_le(a, b),
        shot_le(b, c),
    ensures
        shot_le(a, c),
{
    if a.capture.datetime is Some && b.capture.datetime is Some && c.capture.datetime is Some {
        let x = a.capture.datetime->0;
        let y = b.capture.datetime->0;
        let z = c.capture.datetime->0;
        if text_le(x, y) && text_le(y, z) {
            text_le_transitive(x, y, z);
            if x == z {
                text_le_antisymmetric(x, y);
            }
        }
    }
    if text_le(shown_name(a), shown_name(b)) && text_le(shown_name(b), shown_name(c)) {
        text_le_transitive(shown_name(a), shown_name(b), shown_name(c));
    }
}

fn file_name_string(p: &str) -> (r: String)
    ensures
        r@ == (match file_name(p@) {
            Some(n) => n,
            None => Seq::empty(),
        }),
{
    match file_name_of(p) {
        Some(n) => n,
        None => {
            let s = String::new();
            assert(s@ =~= Seq::<char>::empty());
            s
        },
    }
}

pub(crate) fn shown_name_of(s: &Shot) -> (r: String)
    ensures
        r@ == shown_name(s@),
{
    match s.display_path() {
        Some(p) => file_name_string(p.as_str()),
        None => {
            let s = String::new();
            assert(s@ =~= Seq::<char>::empty());
            s
        },
    }
}

/// Whether `a` comes at or before `b` in the filmstrip.
pub fn shot_at_or_before(a: &Shot, b: &Shot) -> (r: bool)
    ensures
        r == shot_le(a@, b@),
{
    match (&a.capture.datetime, &b.capture.datetime) {
        (None, Some(_)) => {
            return false;
        },
        (Some(_), None) => {
            return true;
        },
        (Some(x), Some(y)) => {
            if !same_text(x.as_str(), y.as_str()) {
                return at_or_before(x.as_str(), y.as_str());
            }
        },
        (None, None) => {},
    }
    match (a.capture.subsec, b.capture.subsec) {
        (None, Some(_)) => {
            return true;
        },
        (Some(_), None) => {
            return false;
        },
        (Some(x), Some(y)) => {
            if x != y {
                return x <= y;
            }
        },
        (None, None) => {},
    }
    at_or_before(shown_name_of(a).as_str(), shown_name_of(b).as_str())
}

/// How many shots of a filmstrip stay before one more shot: all but those at its end that
/// come strictly after it.
pub open spec fn place_for(s: Seq<ShotView>, x: ShotView) -> int
    decreases s.len(),
{
    if s.len() == 0 || shot_le(s.last(), x) {
        s.len() as int
    } else {
        place_for(s.drop_last(), x)
    }
}

/// The filmstrip with one more shot in its place, behind those that are its equals.
pub open spec fn placed(s: Seq<ShotView>, x: ShotView) -> Seq<ShotView> {
    s.insert(place_for(s, x), x)
}

/// The shots in the order of the filmstrip; equals stay as they were.
pub open spec fn in_order(s: Seq<ShotView>) -> Seq<ShotView>
    decreases s.len(),
{
    if s.len() == 0 {
        Seq::empty()
    } else {
        placed(in_order(s.drop_last()), s.last())
    }
}

proof fn lemma_place(s: Seq<ShotView>, x: ShotView)
    ensures
        0 <= place_for(s, x) <= s.len(),
        forall|k: int| place_for(s, x) <= k < s.len() ==> !shot_le(#[trigger] s[k], x),
        place_for(s, x) > 0 ==> shot_le(s[place_for(s, x) - 1], x),
    decreases s.len(),
{
    if s.len() > 0 && !shot_le(s.last(), x) {
        lemma_place(s.drop_last(), x);
        assert forall|k: int| place_for(s, x) <= k < s.len() implies !shot_le(
            #[trigger] s[k],
            x,
        ) by {
            if k < s.len() - 1 {
                assert(s.drop_last()[k] == s[k]);
            }
        }
    }
}

/// Whether the shots stand in the order of the filmstrip.
pub open spec fn is_ordered(s: Seq<ShotView>) -> bool {
    forall|i: int, j: int|
        #![trigger s[i], s[j]]
        0 <= i < j < s.len() ==> shot_le(s[i], s[j])
}

/// Sorting orders the shots, and neither loses one nor adds one.
pub proof fn sorting_orders_the_same_shots(s: Seq<ShotView>)
    ensures
        is_ordered(in_order(s)),
        in_order(s).to_multiset() == s.to_multiset(),
        in_order(s).len() == s.len(),
    decreases s.len(),
{
    broadcast use vstd::seq_lib::group_to_multiset_ensures;

    if s.len() > 0 {
        let front = in_order(s.drop_last());
        let x = s.last();
        sorting_orders_the_same_shots(s.drop_last());
        lemma_place(front, x);
        let at = place_for(front, x);
        let out = placed(front, x);
        assert(s =~= s.drop_last().push(x));
        assert(out.to_multiset() == front.to_multiset().insert(x)) by {
            vstd::seq_lib::to_multiset_insert(front, at, x);
        }
        assert forall|i: int, j: int|
            #![trigger out[i], out[j]]
            0 <= i < j < out.len() implies shot_le(out[i], out[j]) by {
            let a = if i < at { i } else { i - 1 };
            let b = if j < at { j } else { j - 1 };
            if i == at {
                assert(out[j] == front[b]);
                shot_le_total(x, front[b]);
            } else if j == at {
                assert(out[i] == front[a]);
                if a < at - 1 {
                    shot_le_transitive(front[a], front[at - 1], x);
                }
            } else {
                assert(out[i] == front[a] && out[j] == front[b]);
            }
        }
    } else {
        assert(in_order(s) =~= s);
    }
}

/// Every shot with a date comes before every shot without one.
pub proof fn undated_shots_come_last(s: Seq<ShotView>, i: int, j: int)
    requires
        0 <= i < j < s.len(),
        in_order(s)[i].capture.datetime is None,
    ensures
        in_order(s)[j].capture.datetime is None,
{
    sorting_orders_the_same_shots(s);
    assert(shot_le(in_order(s)[i], in_order(s)[j]));
}

/// Shots that show different files stand in one order only: the filmstrip is the same
/// whatever order the shots are found in.
pub proof fn the_filmstrip_is_determined(a: Seq<ShotView>, b: Seq<ShotView>)
    requires
        is_ordered(a),
        is_ordered(b),
        a.to_multiset() == b.to_multiset(),
        forall|i: int, j: int|
            #![trigger a[i], a[j]]
            0 <= i < j < a.len() ==> shown_name(a[i]) != shown_name(a[j]),
    ensures
        a == b,
    decreases a.len(),
{
    broadcast use vstd::seq_lib::group_to_multiset_ensures;

    assert(a.to_multiset().len() == a.len());
    assert(b.to_multiset().len() == b.len());
    if a.len() > 0 {
        assert(a.contains(a.last()));
        assert(b.to_multiset().contains(a.last()));
        assert(b.contains(a.last()));
        assert(b.contains(b.last()));
        assert(a.to_multiset().contains(b.last()));
        assert(a.contains(b.last()));
        let i = choose|i: int| 0 <= i < a.len() && a[i] == b.last();
        let j = choose|j: int| 0 <= j < b.len() && b[j] == a.last();
        if i < a.len() - 1 && j < b.len() - 1 {
            assert(shot_le(a[i], a[a.len() - 1]));
            assert(shot_le(b[j], b[b.len() - 1]));
            lemma_equals_share_a_name(a.last(), b.last());
            assert(shown_name(a[i]) != shown_name(a[a.len() - 1]));
        }
        assert(a.last() == b.last());
        let x = a.last();
        assert(a =~= a.drop_last().push(x));
        assert(b =~= b.drop_last().push(x));
        assert(a.drop_last().to_multiset() =~= a.to_multiset().remove(x));
        assert(b.drop_last().to_multiset() =~= b.to_multiset().remove(x));
        the_filmstrip_is_determined(a.drop_last(), b.drop_last());
    } else {
        assert(a =~= b);
    }
}

proof fn lemma_equals_share_a_name(a: ShotView, b: ShotView)
    requires
        shot_le(a, b),
        shot_le(b, a),
    ensures
        shown_name(a) == shown_name(b),
{
    if a.capture.datetime is Some && b.capture.datetime is Some && a.capture.datetime
        != b.capture.datetime {
        text_le_antisymmetric(a.capture.datetime->0, b.capture.datetime->0);
    } else if a.capture.datetime == b.capture.datetime && a.capture.subsec == b.capture.subsec {
        text_le_antisymmetric(shown_name(a), shown_name(b));
    }
}

/// Puts a shot in its place in a filmstrip, behind those that are its equals.
pub fn insert_shot(shots: &mut Vec<Shot>, shot: Shot)
    ensures
        shot_views(final(shots)@) == placed(shot_views(old(shots)@), shot@),
{
    let ghost before = shot_views(shots@);
    let ghost x = shot@;
    let mut i: usize = shots.len();
    assert(before.take(i as int) =~= before);
    while i > 0 && !shot_at_or_before(&shots[i - 1], &shot)
        invariant
            0 <= i <= shots@.len(),
            before == shot_views(shots@),
            x == shot@,
            place_for(before, x) == place_for(before.take(i as int), x),
        decreases i,
    {
        assert(before.take(i as int).last() == shots@[i - 1]@);
        assert(before.take(i as int).drop_last() =~= before.take(i - 1));
        i -= 1;
    }
    proof {
        if i > 0 {
            assert(before.take(i as int).last() == shots@[i - 1]@);
        }
    }
    shots.insert(i, shot);
    assert(shot_views(shots@) =~= before.insert(i as int, x));
}

/// The first error among the entries of a listing.
pub open spec fn first_error(v: Seq<Result<EntryView, FsErrorView>>) -> Option<FsErrorView>
    decreases v.len(),
{
    if v.len() == 0 {
        None
    } else {
        match v[0] {
            Err(e) => Some(e),
            Ok(_) => first_error(v.drop_first()),
        }
    }
}

/// The name of an entry that takes part in the scan: a regular file with a name in UTF-8.
pub open spec fn kept_name(r: Result<EntryView, FsErrorView>) -> Option<Seq<char>> {
    match r {
        Ok(e) => if e.is_file {
            e.name
        } else {
            None
        },
        Err(_) => None,
    }
}

/// The names of the entries that take part in the scan.
pub open spec fn kept_names(v: Seq<Result<EntryView, FsErrorView>>) -> Seq<Seq<char>>
    decreases v.len(),
{
    if v.len() == 0 {
        Seq::empty()
    } else {
        let front = kept_names(v.drop_last());
        match kept_name(v.last()) {
            Some(n) => front.push(n),
            None => front,
        }
    }
}

proof fn lemma_first_error(v: Seq<Result<EntryView, FsErrorView>>, n: int)
    requires
        0 <= n <= v.len(),
        forall|k: int| 0 <= k < n ==> (#[trigger] v[k]) is Ok,
    ensures
        n == v.len() ==> first_error(v) is None,
        n < v.len() && v[n] is Err ==> first_error(v) == Some(v[n]->Err_0),
    decreases v.len(),
{
    if n > 0 {
        let rest = v.drop_first();
        assert forall|k: int| 0 <= k < n - 1 implies (#[trigger] rest[k]) is Ok by {
            assert(rest[k] == v[k + 1]);
        }
        lemma_first_error(rest, n - 1);
        assert(v[0] is Ok);
        if n < v.len() {
            assert(rest[n - 1] == v[n]);
        }
    }
}

fn names_of(v: &Vec<Result<DirEntry, FsError>>) -> (r: Result<Vec<String>, FsError>)
    ensures
        match r {
            Ok(names) => first_error(listing_view(v@)) is None && texts(names@) == kept_names(
                listing_view(v@),
            ),
            Err(e) => first_error(listing_view(v@)) == Some(e@),
        },
{
    let ghost all = listing_view(v@);
    let mut names: Vec<String> = Vec::new();
    let mut i: usize = 0;
    assert(texts(names@) =~= kept_names(all.take(0)));
    while i < v.len()
        invariant
            0 <= i <= v@.len(),
            all == listing_view(v@),
            forall|k: int| 0 <= k < i ==> (#[trigger] all[k]) is Ok,
            texts(names@) == kept_names(all.take(i as int)),
        decreases v@.len() - i,
    {
        assert(all.take(i + 1).drop_last() =~= all.take(i as int));
        assert(all[i as int] == crate::fsops::entry_reply(v@[i as int]));
        match &v[i] {
            Ok(e) => {
                if e.is_file {
                    if let Some(n) = &e.name {
                        let ghost before = texts(names@);
                        names.push(n.clone());
                        assert(texts(names@) =~= before.push(n@));
                    }
                }
            },
            Err(e) => {
                proof {
                    lemma_first_error(all, i as int);
                }
                return Err(e.clone());
            },
        }
        i += 1;
    }
    proof {
        lemma_first_error(all, i as int);
        assert(all.take(i as int) =~= all);
    }
    Ok(names)
}

/// Whether a raw file has a preview that can be read.
pub open spec fn previewable(name: Seq<char>) -> bool {
    lower_ext(name) == Some("raf"@)
}

/// Whether a raw file has a preview that can be read.
pub fn raw_ext_supported(name: &str) -> (r: bool)
    ensures
        r == previewable(name@),
{
    match ext_lower(name) {
        Some(e) => preview_supported(e.as_str()),
        None => false,
    }
}

/// Whether a group makes a shot: it has a JPEG, or a raw file with a preview.
pub open spec fn is_shown(g: GroupView) -> bool {
    g.jpeg is Some || (g.raw is Some && previewable(g.raw->0))
}

/// Whether a group is reported for having a raw file and nothing to show.
pub open spec fn is_raw_only(g: GroupView) -> bool {
    g.jpeg is None && g.raw is Some && !previewable(g.raw->0)
}

/// The name of the file that a group shows.
pub open spec fn shown_file(g: GroupView) -> Seq<char> {
    if g.jpeg is Some {
        g.jpeg->0
    } else {
        g.raw->0
    }
}

/// A name below the folder.
pub open spec fn below(dir: Seq<char>, name: Option<Seq<char>>) -> Option<Seq<char>> {
    match name {
        Some(n) => Some(join(dir, n)),
        None => None,
    }
}

/// The image within the bytes of the file that a group shows: all of a JPEG file, the
/// preview within a raw file.
pub open spec fn image_within(g: GroupView, data: Seq<u8>) -> Option<Seq<u8>> {
    if g.jpeg is Some {
        Some(data)
    } else {
        raf_preview(data)
    }
}

/// What the reading of the file that a group shows tells of the time of capture. What
/// cannot be read tells nothing.
pub open spec fn capture_from(
    g: GroupView,
    reply: Result<Seq<u8>, FsErrorView>,
) -> CaptureView {
    match reply {
        Ok(data) => match image_within(g, data) {
            Some(image) => capture_in(image),
            None => CaptureView::unknown(),
        },
        Err(_) => CaptureView::unknown(),
    }
}

/// What the reading of the file that a group shows tells of the exposure.
pub open spec fn summary_from(
    g: GroupView,
    reply: Result<Seq<u8>, FsErrorView>,
) -> Option<ExifSummary> {
    match reply {
        Ok(data) => match image_within(g, data) {
            Some(image) => summary_in(image),
            None => None,
        },
        Err(_) => None,
    }
}

/// The shot that a group makes, with what the reading of its file told.
pub open spec fn shot_from(
    dir: Seq<char>,
    g: GroupView,
    reply: Result<Seq<u8>, FsErrorView>,
) -> ShotView {
    ShotView {
        stem: g.stem,
        jpeg: below(dir, g.jpeg),
        raw: below(dir, g.raw),
        sidecar: below(dir, g.sidecar),
        capture: capture_from(g, reply),
        exif: summary_from(g, reply),
    }
}

/// The groups that make a shot.
pub open spec fn shown_groups(groups: Seq<GroupView>) -> Seq<GroupView> {
    groups.filter(|g: GroupView| is_shown(g))
}

/// The raw files that have nothing to show.
pub open spec fn raw_only_files(dir: Seq<char>, groups: Seq<GroupView>) -> Seq<Seq<char>> {
    groups.filter(|g: GroupView| is_raw_only(g)).map_values(|g: GroupView| join(dir, g.raw->0))
}

/// Whether an event is the reading of a file.
pub open spec fn reads(e: FsEvent, path: Seq<char>) -> bool {
    e matches FsEvent::Read { path: p, .. } && p == path
}

/// Whether the events read, in turn, the file of every group that makes a shot.
pub open spec fn all_read(dir: Seq<char>, shown: Seq<GroupView>, ran: Seq<FsEvent>) -> bool {
    &&& ran.len() == shown.len()
    &&& forall|i: int|
        0 <= i < shown.len() ==> reads(#[trigger] ran[i], join(dir, shown_file(shown[i])))
}

/// The shots that the groups make.
pub open spec fn shots_from(
    dir: Seq<char>,
    shown: Seq<GroupView>,
    ran: Seq<FsEvent>,
) -> Seq<ShotView> {
    Seq::new(shown.len(), |i: int| shot_from(dir, shown[i], ran[i]->Read_reply))
}

/// What a scan gives.
pub type Scanned = Result<(Seq<ShotView>, Seq<Seq<char>>), ScanErrorView>;

/// Whether the files of the groups were read and their shots and raw files given.
pub open spec fn gathered(
    dir: Seq<char>,
    names: Seq<Seq<char>>,
    groups: Seq<GroupView>,
    ran: Seq<FsEvent>,
    out: Scanned,
) -> bool {
    &&& grouped(names, groups)
    &&& all_read(dir, shown_groups(groups), ran)
    &&& out == Scanned::Ok(
        (
            in_order(shots_from(dir, shown_groups(groups), ran)),
            raw_only_files(dir, groups),
        ),
    )
}

/// Whether the files with these names were scanned.
pub open spec fn names_scanned(
    dir: Seq<char>,
    names: Seq<Seq<char>>,
    ran: Seq<FsEvent>,
    out: Scanned,
) -> bool {
    exists|groups: Seq<GroupView>| #[trigger] gathered(dir, names, groups, ran, out)
}

/// Whether the entries of a listing were scanned: the first of them that could not be
/// read, if any, ends the scan.
pub open spec fn entries_scanned(
    dir: Seq<char>,
    reply: Result<Seq<Result<EntryView, FsErrorView>>, FsErrorView>,
    ran: Seq<FsEvent>,
    out: Scanned,
) -> bool {
    match reply {
        Err(e) => ran.len() == 0 && out == Scanned::Err(ScanErrorView::Io(e)),
        Ok(entries) => match first_error(entries) {
            Some(e) => ran.len() == 0 && out == Scanned::Err(ScanErrorView::Io(e)),
            None => names_scanned(dir, kept_names(entries), ran, out),
        },
    }
}

/// Whether a folder was scanned: it is a directory, its entries are listed, and of each
/// shot the file that is shown is read once.
pub open spec fn scan_ran(dir: Seq<char>, ran: Seq<FsEvent>, out: Scanned) -> bool {
    &&& ran.len() >= 1
    &&& ran[0] matches FsEvent::IsDir { path, reply } && path == dir && if reply {
        &&& ran.len() >= 2
        &&& ran[1] matches FsEvent::ListDir { path, reply } && path == dir && entries_scanned(
            dir,
            reply,
            ran.skip(2),
            out,
        )
    } else {
        ran.len() == 1 && out == Scanned::Err(ScanErrorView::NotADir(dir))
    }
}

/// The value of what a scan gives.
pub open spec fn scanned(r: Result<(Vec<Shot>, Vec<String>), ScanError>) -> Scanned {
    match r {
        Ok((shots, raw_only)) => Scanned::Ok((shot_views(shots@), texts(raw_only@))),
        Err(e) => Scanned::Err(e@),
    }
}

fn below_dir(dir: &str, name: &Option<String>) -> (r: Option<String>)
    ensures
        crate::model::opt_text(r) == below(dir@, crate::model::opt_text(*name)),
{
    match name {
        Some(n) => Some(join_path(dir, n.as_str())),
        None => None,
    }
}

/// The shot that a group makes, with what the reading of its file told.
pub fn make_shot(dir: &str, g: &Group, read: &Result<Vec<u8>, FsError>) -> (r: Shot)
    requires
        is_shown(g@),
    ensures
        r@ == shot_from(dir@, g@, bytes_reply(*read)),
{
    let (capture, exif) = match read {
        Ok(data) => {
            if g.jpeg.is_some() {
                read_exif_data(data.as_slice())
            } else {
                read_exif_data_raf(data.as_slice())
            }
        },
        Err(_) => (CaptureTime::default(), None),
    };
    Shot {
        stem: g.stem.clone(),
        jpeg: below_dir(dir, &g.jpeg),
        raw: below_dir(dir, &g.raw),
        sidecar: below_dir(dir, &g.sidecar),
        capture,
        exif,
    }
}

proof fn lemma_filter_step(groups: Seq<GroupView>, i: int, p: spec_fn(GroupView) -> bool)
    requires
        0 <= i < groups.len(),
    ensures
        groups.take(i + 1).filter(p) == if p(groups[i]) {
            groups.take(i).filter(p).push(groups[i])
        } else {
            groups.take(i).filter(p)
        },
{
    reveal(Seq::filter);
    assert(groups.take(i + 1).drop_last() =~= groups.take(i));
}

fn gather<'a, F: FsOps>(dir: &str, groups: &Vec<Group>, fs: &mut FsLog<'a, F>) -> (r: (
    Vec<Shot>,
    Vec<String>,
))
    ensures
        extends(final(fs).log(), old(fs).log()),
        all_read(
            dir@,
            shown_groups(group_views(groups@)),
            since(final(fs).log(), old(fs).log()),
        ),
        shot_views(r.0@) == in_order(
            shots_from(
                dir@,
                shown_groups(group_views(groups@)),
                since(final(fs).log(), old(fs).log()),
            ),
        ),
        texts(r.1@) == raw_only_files(dir@, group_views(groups@)),
{
    let ghost start = fs.log();
    let ghost gv = group_views(groups@);
    let mut shots: Vec<Shot> = Vec::new();
    let mut raw_only: Vec<String> = Vec::new();
    let mut i: usize = 0;
    proof {
        since_starts_empty(start);
        reveal(Seq::filter);
        assert(shown_groups(gv.take(0)) =~= Seq::empty());
        assert(shots_from(dir@, shown_groups(gv.take(0)), since(start, start)) =~= Seq::empty());
        assert(texts(raw_only@) =~= raw_only_files(dir@, gv.take(0)));
        assert(shot_views(shots@) =~= in_order(Seq::empty()));
    }
    while i < groups.len()
        invariant
            0 <= i <= groups@.len(),
            gv == group_views(groups@),
            extends(fs.log(), start),
            all_read(dir@, shown_groups(gv.take(i as int)), since(fs.log(), start)),
            shot_views(shots@) == in_order(
                shots_from(dir@, shown_groups(gv.take(i as int)), since(fs.log(), start)),
            ),
            texts(raw_only@) == raw_only_files(dir@, gv.take(i as int)),
        decreases groups@.len() - i,
    {
        let g: &Group = &groups[i];
        let ghost before = fs.log();
        let ghost ran = since(before, start);
        let ghost shown = shown_groups(gv.take(i as int));
        let ghost left = raw_only_files(dir@, gv.take(i as int));
        proof {
            assert(gv[i as int] == g@);
            lemma_filter_step(gv, i as int, |g: GroupView| is_shown(g));
            lemma_filter_step(gv, i as int, |g: GroupView| is_raw_only(g));
        }
        let name: Option<&String> = match &g.jpeg {
            Some(n) => Some(n),
            None => match &g.raw {
                Some(n) => {
                    if raw_ext_supported(n.as_str()) {
                        Some(n)
                    } else {
                        None
                    }
                },
                None => None,
            },
        };
        match name {
            Some(n) => {
                let path = join_path(dir, n.as_str());
                let read = fs.read(path.as_str());
                let shot = make_shot(dir, g, &read);
                proof {
                    since_grows(start, before, fs.log());
                    let now = since(fs.log(), start);
                    let more = shown_groups(gv.take(i + 1));
                    assert(more == shown.push(g@));
                    assert(now == ran.push(fs.log().last()));
                    assert forall|k: int| 0 <= k < more.len() implies reads(
                        #[trigger] now[k],
                        join(dir@, shown_file(more[k])),
                    ) by {
                        if k < shown.len() {
                            assert(now[k] == ran[k]);
                        }
                    }
                    let s = shots_from(dir@, more, now);
                    assert(s.drop_last() =~= shots_from(dir@, shown, ran));
                    assert(s.last() == shot@);
                }
                insert_shot(&mut shots, shot);
            },
            None => {
                if let Some(n) = &g.raw {
                    raw_only.push(join_path(dir, n.as_str()));
                    assert(texts(raw_only@) =~= left.push(join(dir@, n@)));
                }
            },
        }
        assert(texts(raw_only@) =~= raw_only_files(dir@, gv.take(i + 1)));
        i += 1;
    }
    assert(gv.take(i as int) =~= gv);
    (shots, raw_only)
}

/// Scans a folder. Gives the shots in the order of the filmstrip, and apart from them the
/// raw files that have neither a JPEG nor a preview, so that none is dropped in silence.
/// Entries whose names are not valid UTF-8 are left out.
pub fn scan_report<'a, F: FsOps>(dir: &str, fs: &mut FsLog<'a, F>) -> (r: Result<
    (Vec<Shot>, Vec<String>),
    ScanError,
>)
    ensures
        extends(final(fs).log(), old(fs).log()),
        scan_ran(dir@, since(final(fs).log(), old(fs).log()), scanned(r)),
{
    let ghost start = fs.log();
    proof {
        since_starts_empty(start);
    }
    let there = fs.is_dir(dir);
    let ghost first = fs.log();
    proof {
        since_grows(start, start, first);
    }
    if !there {
        return Err(ScanError::NotADir(dir.to_owned()));
    }
    let listed = fs.list_dir(dir);
    let ghost second = fs.log();
    proof {
        since_grows(start, first, second);
        assert(since(second, start).skip(2) =~= Seq::empty());
    }
    match listed {
        Err(e) => Err(ScanError::Io(e)),
        Ok(entries) => match names_of(&entries) {
            Err(e) => Err(ScanError::Io(e)),
            Ok(names) => {
                let groups = group_files(&names);
                let out = gather(dir, &groups, fs);
                proof {
                    since_adds_up(start, second, fs.log());
                    let ran = since(fs.log(), start);
                    assert(ran.skip(2) =~= since(fs.log(), second));
                    assert(gathered(
                        dir@,
                        kept_names(listing_view(entries@)),
                        group_views(groups@),
                        ran.skip(2),
                        scanned(Ok(out)),
                    ));
                }
                Ok(out)
            },
        },
    }
}

/// The shots alone of what a scan gives.
pub open spec fn shots_alone(r: Result<Vec<Shot>, ScanError>, out: Scanned) -> bool {
    match (r, out) {
        (Ok(shots), Ok((all, _))) => shot_views(shots@) == all,
        (Err(e), Err(f)) => e@ == f,
        _ => false,
    }
}

/// Scans a folder for its shots.
pub fn scan<'a, F: FsOps>(dir: &str, fs: &mut FsLog<'a, F>) -> (r: Result<Vec<Shot>, ScanError>)
    ensures
        extends(final(fs).log(), old(fs).log()),
        exists|out: Scanned| #[trigger]
            scan_ran(dir@, since(final(fs).log(), old(fs).log()), out) && shots_alone(r, out),
{
    let ghost start = fs.log();
    let r = scan_report(dir, fs);
    let ghost out = scanned(r);
    assert(scan_ran(dir@, since(fs.log(), start), out));
    match r {
        Ok((shots, _)) => {
            let s: Result<Vec<Shot>, ScanError> = Ok(shots);
            assert(shots_alone(s, out));
            s
        },
        Err(e) => {
            let s: Result<Vec<Shot>, ScanError> = Err(e);
            assert(shots_alone(s, out));
            s
        },
    }
}

/// Whether the shots hold one with the stem.
pub open spec fn has_shot(shots: Seq<ShotView>, stem: Seq<char>) -> bool {
    exists|i: int| 0 <= i < shots.len() && (#[trigger] shots[i]).stem == stem
}

/// Whether the raw files that are reported apart hold one with the stem.
pub open spec fn has_raw_only(
    dir: Seq<char>,
    names: Seq<Seq<char>>,
    raw_only: Seq<Seq<char>>,
    stem: Seq<char>,
) -> bool {
    exists|n: Seq<char>| #[trigger]
        names.contains(n) && owner(n) == stem && raw_only.contains(join(dir, n))
}

/// No image is dropped in silence: for every JPEG and raw file, its stem has a shot or a
/// raw file that is reported apart.
pub proof fn every_image_is_accounted_for(
    dir: Seq<char>,
    names: Seq<Seq<char>>,
    ran: Seq<FsEvent>,
    shots: Seq<ShotView>,
    raw_only: Seq<Seq<char>>,
    m: Seq<char>,
)
    requires
        names_scanned(dir, names, ran, Scanned::Ok((shots, raw_only))),
        names.contains(m),
        kind_of(m) == FileKind::Jpeg || kind_of(m) == FileKind::Raw,
    ensures
        has_shot(shots, owner(m)) || has_raw_only(dir, names, raw_only, owner(m)),
{
    broadcast use vstd::seq_lib::group_to_multiset_ensures;

    let groups = choose|groups: Seq<GroupView>| #[trigger]
        gathered(dir, names, groups, ran, Scanned::Ok((shots, raw_only)));
    assert(has_stem(groups, owner(m)));
    let k = choose|k: int| 0 <= k < groups.len() && (#[trigger] groups[k]).stem == owner(m);
    let g = groups[k];
    assert(rightly_filled(names, g));
    assert(stands_for(m, g.stem, kind_of(m)));
    assert(g.jpeg is Some || g.raw is Some);
    assert(groups.contains(g));
    if is_shown(g) {
        let shown = shown_groups(groups);
        groups.lemma_filter_contains(|g: GroupView| is_shown(g), k);
        let i = choose|i: int| 0 <= i < shown.len() && shown[i] == g;
        let all = shots_from(dir, shown, ran);
        assert(all[i].stem == owner(m));
        sorting_orders_the_same_shots(all);
        assert(all.contains(all[i]));
        assert(all.to_multiset().contains(all[i]));
        assert(shots.contains(all[i]));
    } else {
        let kept = groups.filter(|g: GroupView| is_raw_only(g));
        groups.lemma_filter_contains(|g: GroupView| is_raw_only(g), k);
        let i = choose|i: int| 0 <= i < kept.len() && kept[i] == g;
        assert(raw_only[i] == join(dir, g.raw->0));
        assert(names.contains(g.raw->0));
    }
}

/// Shots stand in the order in which they were taken: the earlier date first, within one
/// second the smaller fraction first and none before any, and what was taken at the same
/// time by the name of the file. A shot without a date comes behind all that have one.
pub proof fn shots_stand_in_the_order_they_were_taken(a: ShotView, b: ShotView)
    ensures
        ({
            let p = a.capture;
            let q = b.capture;
            let dated = p.datetime is Some && q.datetime is Some;
            &&& p.datetime is Some && q.datetime is None ==> shot_le(a, b) && !shot_le(b, a)
            &&& dated && p.datetime->0 != q.datetime->0 ==> (shot_le(a, b) <==> text_le(
                p.datetime->0,
                q.datetime->0,
            ))
            &&& p.datetime == q.datetime && p.subsec is Some && q.subsec is Some && p.subsec->0
                < q.subsec->0 ==> shot_le(a, b) && !shot_le(b, a)
            &&& p.datetime == q.datetime && p.subsec is None && q.subsec is Some ==> shot_le(a, b)
                && !shot_le(b, a)
            &&& p.datetime == q.datetime && p.subsec == q.subsec ==> (shot_le(a, b) <==> text_le(
                shown_name(a),
                shown_name(b),
            ))
        }),
{
}

/// The name of a shot in the order is that of the file that is shown.
pub proof fn a_shot_is_ordered_by_the_shown_file(s: ShotView, n: Seq<char>)
    ensures
        s.jpeg is Some && file_name(s.jpeg->0) == Some(n) ==> shown_name(s) == n,
        s.jpeg is None && s.raw is Some && file_name(s.raw->0) == Some(n) ==> shown_name(s) == n,
{
}

/// The first error of a listing is what a scan fails with: there is none exactly where every
/// entry could be read.
pub proof fn the_first_error_is_the_first(v: Seq<Result<EntryView, FsErrorView>>, k: int)
    requires
        0 <= k <= v.len(),
        forall|i: int| 0 <= i < k ==> (#[trigger] v[i]) is Ok,
    ensures
        k == v.len() ==> first_error(v) is None,
        k < v.len() && v[k] is Err ==> first_error(v) == Some(v[k]->Err_0),
    decreases k,
{
    if k > 0 {
        assert(v[0] is Ok);
        let rest = v.drop_first();
        assert forall|i: int| 0 <= i < k - 1 implies (#[trigger] rest[i]) is Ok by {
            assert(v[i + 1] is Ok);
        }
        the_first_error_is_the_first(rest, k - 1);
    }
}

/// The names that are kept are those of the files, in the order of the listing; whatever is
/// no file, or has no name that can be read, is passed over.
pub proof fn the_names_of_files_are_kept(
    a: Seq<Result<EntryView, FsErrorView>>,
    b: Seq<Result<EntryView, FsErrorView>>,
    e: EntryView,
    f: FsErrorView,
)
    ensures
        kept_names(a + b) == kept_names(a) + kept_names(b),
        e.is_file && e.name is Some ==> kept_names(a.push(Ok(e))) == kept_names(a).push(
            e.name->0,
        ),
        !e.is_file || e.name is None ==> kept_names(a.push(Ok(e))) == kept_names(a),
        kept_names(a.push(Err(f))) == kept_names(a),
        kept_names(Seq::empty()).len() == 0,
    decreases b.len(),
{
    assert(a.push(Ok(e)).drop_last() =~= a);
    assert(a.push(Err(f)).drop_last() =~= a);
    if b.len() == 0 {
        assert(a + b =~= a);
        assert(kept_names(a) + kept_names(b) =~= kept_names(a));
    } else {
        the_names_of_files_are_kept(a, b.drop_last(), e, f);
        assert((a + b).drop_last() =~= a + b.drop_last());
        assert(kept_names(a + b) =~= kept_names(a) + kept_names(b));
    }
}

/// A group is shown where it has a JPEG or a raw file whose preview can be read; a raw file
/// that has neither is listed by itself; a sidecar alone is neither.
pub proof fn a_group_is_shown_or_listed(g: GroupView)
    ensures
        g.jpeg is Some ==> is_shown(g) && !is_raw_only(g),
        g.jpeg is None && g.raw is Some ==> (is_shown(g) <==> lower_ext(g.raw->0) == Some(
            "raf"@,
        )) && is_raw_only(g) == !is_shown(g),
        g.jpeg is None && g.raw is None ==> !is_shown(g) && !is_raw_only(g),
        g.jpeg is Some ==> shown_file(g) == g.jpeg->0,
        g.jpeg is None ==> shown_file(g) == g.raw->0,
{
}

/// A shot has the stem and the files of its group, each below the folder that was scanned.
pub proof fn a_shot_has_the_files_of_its_group(
    dir: Seq<char>,
    g: GroupView,
    reply: Result<Seq<u8>, FsErrorView>,
)
    ensures
        ({
            let s = shot_from(dir, g, reply);
            &&& s.stem == g.stem
            &&& s.jpeg is Some <==> g.jpeg is Some
            &&& s.raw is Some <==> g.raw is Some
            &&& s.sidecar is Some <==> g.sidecar is Some
            &&& g.jpeg is Some ==> s.jpeg->0 == join(dir, g.jpeg->0)
            &&& g.raw is Some ==> s.raw->0 == join(dir, g.raw->0)
            &&& g.sidecar is Some ==> s.sidecar->0 == join(dir, g.sidecar->0)
        }),
{
}

/// When and how a shot was taken is read from its JPEG, and from the preview of its raw file
/// where it has none; of a file that cannot be read nothing is known.
pub proof fn a_shot_is_dated_by_what_is_shown(
    dir: Seq<char>,
    g: GroupView,
    data: Seq<u8>,
    jpeg: Seq<u8>,
    e: FsErrorView,
)
    ensures
        g.jpeg is Some ==> shot_from(dir, g, Ok(data)).capture == capture_in(data)
            && shot_from(dir, g, Ok(data)).exif == summary_in(data),
        g.jpeg is None && raf_preview(data) == Some(jpeg) ==> shot_from(dir, g, Ok(data)).capture
            == capture_in(jpeg) && shot_from(dir, g, Ok(data)).exif == summary_in(jpeg),
        shot_from(dir, g, Err(e)).capture.datetime is None,
        shot_from(dir, g, Err(e)).capture.subsec is None,
        shot_from(dir, g, Err(e)).exif is None,
{
}

/// What is no directory is refused by its path; a directory that cannot be listed, or an
/// entry of it that cannot be read, fails the scan with that error and nothing is read.
pub proof fn a_scan_fails_by_what_it_met(dir: Seq<char>, ran: Seq<FsEvent>, out: Scanned, k: int)
    requires
        scan_ran(dir, ran, out),
    ensures
        ran[0] is IsDir && ran[0]->IsDir_path == dir,
        !ran[0]->IsDir_reply ==> ran.len() == 1 && out == Scanned::Err(
            ScanErrorView::NotADir(dir),
        ),
        ran[0]->IsDir_reply ==> {
            &&& ran[1] is ListDir && ran[1]->ListDir_path == dir
            &&& ran[1]->ListDir_reply matches Err(e) ==> ran.len() == 2 && out == Scanned::Err(
                ScanErrorView::Io(e),
            )
            &&& ran[1]->ListDir_reply matches Ok(v) ==> (0 <= k < v.len() && v[k] is Err && (forall|
                i: int,
            |
                0 <= i < k ==> (#[trigger] v[i]) is Ok) ==> ran.len() == 2 && out == Scanned::Err(
                ScanErrorView::Io(v[k]->Err_0),
            ))
        },
        out is Ok ==> ran[0]->IsDir_reply && ran[1]->ListDir_reply is Ok,
{
    if ran[0]->IsDir_reply {
        if let Ok(v) = ran[1]->ListDir_reply {
            if 0 <= k < v.len() && v[k] is Err && (forall|i: int|
                0 <= i < k ==> (#[trigger] v[i]) is Ok) {
                the_first_error_is_the_first(v, k);
            }
        }
    }
}

/// A scan shows every group that can be shown, once and in the order in which they were
/// taken, and lists every raw file that cannot.
pub proof fn a_scan_shows_what_can_be_shown(
    dir: Seq<char>,
    names: Seq<Seq<char>>,
    groups: Seq<GroupView>,
    ran: Seq<FsEvent>,
    shots: Seq<ShotView>,
    raw_only: Seq<Seq<char>>,
    i: int,
)
    requires
        gathered(dir, names, groups, ran, Scanned::Ok((shots, raw_only))),
        0 <= i < groups.len(),
    ensures
        is_ordered(shots),
        groups[i].jpeg is Some ==> has_shot(shots, groups[i].stem),
        groups[i].jpeg is None && groups[i].raw is Some && lower_ext(groups[i].raw->0) == Some(
            "raf"@,
        ) ==> has_shot(shots, groups[i].stem),
        groups[i].jpeg is None && groups[i].raw is Some && lower_ext(groups[i].raw->0) != Some(
            "raf"@,
        ) ==> raw_only.contains(join(dir, groups[i].raw->0)),
{
    let g = groups[i];
    let shown = shown_groups(groups);
    let made = shots_from(dir, shown, ran);
    sorting_orders_the_same_shots(made);
    if is_shown(g) {
        let p = |g: GroupView| is_shown(g);
        groups.lemma_filter_contains(p, i);
        let k = choose|k: int| 0 <= k < shown.len() && shown[k] == g;
        assert(made[k].stem == g.stem);
        broadcast use vstd::seq_lib::group_to_multiset_ensures;

        assert(made.to_multiset().count(made[k]) > 0) by {
            assert(made.contains(made[k]));
        }
        assert(in_order(made).to_multiset().count(made[k]) > 0);
        assert(in_order(made).contains(made[k]));
        let x = choose|x: int| 0 <= x < shots.len() && shots[x] == made[k];
        assert(shots[x].stem == g.stem);
    }
    if is_raw_only(g) {
        let p = |g: GroupView| is_raw_only(g);
        groups.lemma_filter_contains(p, i);
        let only = groups.filter(p);
        let k = choose|k: int| 0 <= k < only.len() && only[k] == g;
        assert(raw_only[k] == join(dir, g.raw->0));
    }
}

/// Shots that stand in order stay as they are, those that nothing tells apart too.
pub proof fn ordered_shots_stay_as_they_are(s: Seq<ShotView>)
    requires
        is_ordered(s),
    ensures
        in_order(s) == s,
    decreases s.len(),
{
    if s.len() > 0 {
        let front = s.drop_last();
        assert forall|i: int, j: int|
            #![trigger front[i], front[j]]
            0 <= i < j < front.len() implies shot_le(front[i], front[j]) by {
            assert(shot_le(s[i], s[j]));
        }
        ordered_shots_stay_as_they_are(front);
        if front.len() > 0 {
            assert(shot_le(s[front.len() - 1], s[s.len() - 1]));
        }
        assert(front.insert(front.len() as int, s.last()) =~= s);
    } else {
        assert(in_order(s) =~= s);
    }
}

} // verus!
