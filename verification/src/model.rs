//! The domain: tiers, decisions, shots, and the session that a cull works on.
use vstd::prelude::*;
use crate::decisions::DecisionMap;
use crate::text::{clone_texts, texts};

verus! {

/// The destination directory of rejected shots.
pub const BUCKET_REJECTED: &'static str = "00_rejected";

/// The destination directory of undecided shots.
pub const BUCKET_REST: &'static str = "01_rest";

/// The destination directory of keepers.
pub const BUCKET_KEEP: &'static str = "02_keep";

/// The destination directory of picks.
pub const BUCKET_PICKS: &'static str = "03_picks";

/// The destination directory of the best shots.
pub const BUCKET_BESTS: &'static str = "04_bests";

/// The session record in the source directory.
pub const SESSION_FILE: &'static str = ".fastcull.json";

/// Where a session record that does not parse is moved to.
pub const SESSION_BAD_FILE: &'static str = ".fastcull.json.bad";

/// The journal of a running apply in the destination directory.
pub const JOURNAL_FILE: &'static str = ".fastcull-apply.json";

/// The extensions of raw files, in lower case.
pub const RAW_EXTS: [&'static str; 10] = [
    "cr3",
    "cr2",
    "nef",
    "arw",
    "raf",
    "rw2",
    "orf",
    "dng",
    "pef",
    "srw",
];

/// The extensions of JPEG files, in lower case.
pub const JPEG_EXTS: [&'static str; 2] = ["jpg", "jpeg"];

/// How many changes can be undone.
pub const UNDO_LIMIT: usize = 200;

/// The quality ladder. A shot without a tier stands between `Reject` and `Keep`.
#[derive(Clone, Copy, PartialEq, Eq, Debug, Structural)]
pub enum Tier {
    Reject,
    Keep,
    Pick,
    Best,
}

impl Tier {
    /// The place on the ladder, on which a shot without a tier has place 0.
    pub open spec fn place(self) -> int {
        match self {
            Tier::Reject => -1,
            Tier::Keep => 1,
            Tier::Pick => 2,
            Tier::Best => 3,
        }
    }

    /// The rating that goes into the sidecar.
    pub open spec fn stars(self) -> int {
        match self {
            Tier::Reject => -1,
            Tier::Keep => 3,
            Tier::Pick => 4,
            Tier::Best => 5,
        }
    }

    /// The destination directory.
    pub open spec fn bucket_name(self) -> Seq<char> {
        match self {
            Tier::Reject => BUCKET_REJECTED@,
            Tier::Keep => BUCKET_KEEP@,
            Tier::Pick => BUCKET_PICKS@,
            Tier::Best => BUCKET_BESTS@,
        }
    }

    /// The place on the ladder.
    pub fn rank(self) -> (r: i8)
        ensures
            r == self.place(),
    {
        match self {
            Tier::Reject => -1,
            Tier::Keep => 1,
            Tier::Pick => 2,
            Tier::Best => 3,
        }
    }

    /// The destination directory.
    pub fn bucket(self) -> (r: &'static str)
        ensures
            r@ == self.bucket_name(),
    {
        match self {
            Tier::Reject => BUCKET_REJECTED,
            Tier::Keep => BUCKET_KEEP,
            Tier::Pick => BUCKET_PICKS,
            Tier::Best => BUCKET_BESTS,
        }
    }

    /// The rating that goes into the sidecar.
    pub fn xmp_rating(self) -> (r: i32)
        ensures
            r == self.stars(),
    {
        match self {
            Tier::Reject => -1,
            Tier::Keep => 3,
            Tier::Pick => 4,
            Tier::Best => 5,
        }
    }
}

/// What was decided about a shot. Without a tier it is undecided.
#[derive(PartialEq, Eq, Debug)]
pub struct Decision {
    pub tier: Option<Tier>,
    pub tags: Vec<String>,
    /// Whether the shot has been shown.
    pub visited: bool,
}

/// The value of a `Decision`.
#[verifier::ext_equal]
pub struct DecisionView {
    pub tier: Option<Tier>,
    pub tags: Seq<Seq<char>>,
    pub visited: bool,
}

impl DecisionView {
    /// The decision of a shot that was never touched.
    pub open spec fn undecided() -> DecisionView {
        DecisionView { tier: None, tags: Seq::empty(), visited: false }
    }
}

impl View for Decision {
    type V = DecisionView;

    open spec fn view(&self) -> DecisionView {
        DecisionView { tier: self.tier, tags: texts(self.tags@), visited: self.visited }
    }
}

impl Clone for Decision {
    fn clone(&self) -> (r: Self)
        ensures
            r@ == self@,
    {
        Decision { tier: self.tier, tags: clone_texts(&self.tags), visited: self.visited }
    }
}

impl Default for Decision {
    fn default() -> (r: Self)
        ensures
            r@ == DecisionView::undecided(),
    {
        let r = Decision { tier: None, tags: Vec::new(), visited: false };
        assert(texts(r.tags@) =~= Seq::<Seq<char>>::empty());
        r
    }
}

impl Decision {
    /// The destination directory; undecided shots go to the rest.
    pub fn bucket(&self) -> (r: &'static str)
        ensures
            r@ == match self@.tier {
                Some(t) => t.bucket_name(),
                None => BUCKET_REST@,
            },
    {
        match self.tier {
            Some(t) => t.bucket(),
            None => BUCKET_REST,
        }
    }

    /// The rating that goes into the sidecar, unless undecided.
    pub fn xmp_rating(&self) -> (r: Option<i32>)
        ensures
            r is Some == self@.tier is Some,
            r is Some ==> r->0 == self@.tier->0.stars(),
    {
        match self.tier {
            Some(t) => Some(t.xmp_rating()),
            None => None,
        }
    }

    /// Whether no tier was assigned.
    pub fn is_undecided(&self) -> (r: bool)
        ensures
            r == self@.tier is None,
    {
        self.tier.is_none()
    }
}

/// The text of an optional string.
pub open spec fn opt_text(o: Option<String>) -> Option<Seq<char>> {
    match o {
        Some(s) => Some(s@),
        None => None,
    }
}

/// Clones an optional string.
pub fn clone_opt(o: &Option<String>) -> (r: Option<String>)
    ensures
        opt_text(r) == opt_text(*o),
{
    match o {
        Some(s) => Some(s.clone()),
        None => None,
    }
}

/// When a shot was taken. The date and time stand as EXIF writes them,
/// `YYYY:MM:DD HH:MM:SS`, which sorts as text; the fraction is in milliseconds.
#[derive(PartialEq, Eq, Debug)]
pub struct CaptureTime {
    pub datetime: Option<String>,
    pub subsec: Option<u32>,
}

/// The value of a `CaptureTime`.
pub struct CaptureView {
    pub datetime: Option<Seq<char>>,
    pub subsec: Option<u32>,
}

impl View for CaptureTime {
    type V = CaptureView;

    open spec fn view(&self) -> CaptureView {
        CaptureView { datetime: opt_text(self.datetime), subsec: self.subsec }
    }
}

impl CaptureView {
    /// A shot of which the time is not known.
    pub open spec fn unknown() -> CaptureView {
        CaptureView { datetime: None, subsec: None }
    }
}

impl Clone for CaptureTime {
    fn clone(&self) -> (r: Self)
        ensures
            r@ == self@,
    {
        CaptureTime { datetime: clone_opt(&self.datetime), subsec: self.subsec }
    }
}

impl Default for CaptureTime {
    fn default() -> (r: Self)
        ensures
            r@ == CaptureView::unknown(),
    {
        CaptureTime { datetime: None, subsec: None }
    }
}

/// The exposure data of a shot. Each rational is a numerator and a denominator; that
/// of the aperture and of the focal length is never zero below.
#[derive(Clone, Copy, PartialEq, Eq, Debug)]
pub struct ExifSummary {
    pub exposure: Option<(u32, u32)>,
    pub f_number: Option<(u32, u32)>,
    pub iso: Option<u32>,
    pub focal_length_mm: Option<(u32, u32)>,
}

/// All files of one stem. The display file is the JPEG, or the preview within the raw
/// file where there is no JPEG.
#[derive(PartialEq, Eq, Debug)]
pub struct Shot {
    pub stem: String,
    pub jpeg: Option<String>,
    pub raw: Option<String>,
    pub sidecar: Option<String>,
    pub capture: CaptureTime,
    pub exif: Option<ExifSummary>,
}

/// The value of a `Shot`.
pub struct ShotView {
    pub stem: Seq<char>,
    pub jpeg: Option<Seq<char>>,
    pub raw: Option<Seq<char>>,
    pub sidecar: Option<Seq<char>>,
    pub capture: CaptureView,
    pub exif: Option<ExifSummary>,
}

impl View for Shot {
    type V = ShotView;

    open spec fn view(&self) -> ShotView {
        ShotView {
            stem: self.stem@,
            jpeg: opt_text(self.jpeg),
            raw: opt_text(self.raw),
            sidecar: opt_text(self.sidecar),
            capture: self.capture@,
            exif: self.exif,
        }
    }
}

/// One element for `Some`, none for `None`.
pub open spec fn listed<T>(o: Option<T>) -> Seq<T> {
    match o {
        Some(x) => seq![x],
        None => Seq::empty(),
    }
}

impl ShotView {
    /// The files of the shot in the order in which they move.
    pub open spec fn files(self) -> Seq<Seq<char>> {
        listed(self.jpeg) + listed(self.raw) + listed(self.sidecar)
    }

    /// The file that is shown.
    pub open spec fn display_path(self) -> Option<Seq<char>> {
        if self.jpeg is Some {
            self.jpeg
        } else {
            self.raw
        }
    }
}

impl Clone for Shot {
    fn clone(&self) -> (r: Self)
        ensures
            r@ == self@,
    {
        Shot {
            stem: self.stem.clone(),
            jpeg: clone_opt(&self.jpeg),
            raw: clone_opt(&self.raw),
            sidecar: clone_opt(&self.sidecar),
            capture: self.capture.clone(),
            exif: self.exif,
        }
    }
}

impl Shot {
    /// The files of the shot in the order in which they move.
    pub fn files(&self) -> (out: Vec<String>)
        ensures
            texts(out@) == self@.files(),
    {
        let mut out: Vec<String> = Vec::new();
        if let Some(p) = &self.jpeg {
            out.push(p.clone());
        }
        assert(texts(out@) =~= listed(self@.jpeg));
        if let Some(p) = &self.raw {
            out.push(p.clone());
        }
        assert(texts(out@) =~= listed(self@.jpeg) + listed(self@.raw));
        if let Some(p) = &self.sidecar {
            out.push(p.clone());
        }
        assert(texts(out@) =~= self@.files());
        out
    }

    /// The file that is shown.
    pub fn display_path(&self) -> (r: Option<&String>)
        ensures
            r is Some == self@.display_path() is Some,
            r is Some ==> r->0@ == self@.display_path()->0,
    {
        match &self.jpeg {
            Some(p) => Some(p),
            None => match &self.raw {
                Some(p) => Some(p),
                None => None,
            },
        }
    }
}

/// A decision as it was before a change.
#[derive(PartialEq, Eq, Debug)]
pub struct UndoEntry {
    pub stem: String,
    pub previous: Decision,
}

/// The value of an `UndoEntry`.
#[verifier::ext_equal]
pub struct UndoView {
    pub stem: Seq<char>,
    pub previous: DecisionView,
}

impl View for UndoEntry {
    type V = UndoView;

    open spec fn view(&self) -> UndoView {
        UndoView { stem: self.stem@, previous: self.previous@ }
    }
}

impl Clone for UndoEntry {
    fn clone(&self) -> (r: Self)
        ensures
            r@ == self@,
    {
        UndoEntry { stem: self.stem.clone(), previous: self.previous.clone() }
    }
}

/// A cull in progress.
#[derive(Debug)]
pub struct Session {
    pub source_dir: String,
    pub shots: Vec<Shot>,
    /// Keyed by stem, so that decisions outlive a new scan of the folder.
    pub decisions: DecisionMap,
    pub current: usize,
    /// The destination of an apply that was started and has not been seen to end.
    pub pending_apply: Option<String>,
    /// The most recent change is last.
    pub undo: Vec<UndoEntry>,
}

/// The value of a `Session`.
#[verifier::ext_equal]
pub struct SessionView {
    pub source_dir: Seq<char>,
    pub shots: Seq<ShotView>,
    pub decisions: Map<Seq<char>, DecisionView>,
    pub current: int,
    pub pending_apply: Option<Seq<char>>,
    pub undo: Seq<UndoView>,
}

/// The values of a list of shots.
pub open spec fn shot_views(shots: Seq<Shot>) -> Seq<ShotView> {
    shots.map_values(|s: Shot| s@)
}

/// The values of an undo stack.
pub open spec fn undo_views(undo: Seq<UndoEntry>) -> Seq<UndoView> {
    undo.map_values(|u: UndoEntry| u@)
}

impl View for Session {
    type V = SessionView;

    open spec fn view(&self) -> SessionView {
        SessionView {
            source_dir: self.source_dir@,
            shots: shot_views(self.shots@),
            decisions: self.decisions@,
            current: self.current as int,
            pending_apply: opt_text(self.pending_apply),
            undo: undo_views(self.undo@),
        }
    }
}

/// The ladder goes from rejects, which are below a shot without a tier, to the best; a
/// higher tier has a higher rating. Rejects are rated -1, and every step from the keepers
/// up to five stars is one star.
pub proof fn the_ladder_and_the_stars_agree(a: Tier, b: Tier)
    ensures
        a.place() < b.place() <==> a.stars() < b.stars(),
        a.place() == b.place() <==> a == b,
        Tier::Reject.place() < 0,
        a != Tier::Reject ==> a.place() > 0,
        a != Tier::Best ==> a.place() < Tier::Best.place(),
        Tier::Keep.place() < Tier::Pick.place(),
        Tier::Reject.stars() == -1,
        Tier::Best.stars() == 5,
        a != Tier::Reject && b != Tier::Reject ==> a.stars() - b.stars() == a.place() - b.place(),
        Tier::Best.place() - Tier::Keep.place() == 2,
{
}

/// The names of the buckets stand in the order of the ladder, with the rest between the
/// rejects and the keepers: the second character counts up.
pub proof fn buckets_sort_by_the_ladder(a: Tier, b: Tier)
    ensures
        a.bucket_name() == b.bucket_name() <==> a == b,
        a.place() < b.place() <==> a.bucket_name()[1] < b.bucket_name()[1],
        a.place() < 0 <==> a.bucket_name()[1] < BUCKET_REST@[1],
        a.place() > 0 <==> BUCKET_REST@[1] < a.bucket_name()[1],
{
    reveal_strlit("00_rejected");
    reveal_strlit("01_rest");
    reveal_strlit("02_keep");
    reveal_strlit("03_picks");
    reveal_strlit("04_bests");
    assert(BUCKET_REJECTED@[1] == '0');
    assert(BUCKET_REST@[1] == '1');
    assert(BUCKET_KEEP@[1] == '2');
    assert(BUCKET_PICKS@[1] == '3');
    assert(BUCKET_BESTS@[1] == '4');
}

/// A shot lists the files that it has, each of them once: the JPEG, then the raw file, then
/// the sidecar.
pub proof fn a_shot_lists_the_files_it_has(shot: ShotView, f: Seq<char>)
    ensures
        shot.files().contains(f) <==> shot.jpeg == Some(f) || shot.raw == Some(f) || shot.sidecar
            == Some(f),
        shot.files().len() == (if shot.jpeg is Some {
            1int
        } else {
            0
        }) + (if shot.raw is Some {
            1int
        } else {
            0
        }) + (if shot.sidecar is Some {
            1int
        } else {
            0
        }),
        shot.jpeg is Some ==> shot.files()[0] == shot.jpeg->0,
        shot.raw is Some && shot.jpeg is None ==> shot.files()[0] == shot.raw->0,
        shot.raw is Some && shot.jpeg is Some ==> shot.files()[1] == shot.raw->0,
        shot.sidecar is Some ==> shot.files().last() == shot.sidecar->0,
{
    let all = shot.files();
    if shot.jpeg == Some(f) {
        assert(all[0] == f);
    }
    if shot.raw == Some(f) {
        assert(all[listed(shot.jpeg).len() as int] == f);
    }
    if shot.sidecar == Some(f) {
        assert(all[all.len() - 1] == f);
    }
}

/// What is shown of a shot is its JPEG, and the raw file where there is none.
pub proof fn a_shot_is_shown_by_its_jpeg_first(shot: ShotView)
    ensures
        shot.jpeg is Some ==> shot.display_path() == shot.jpeg,
        shot.jpeg is None ==> shot.display_path() == shot.raw,
{
}

} // verus!
