//! Opening a folder: its record is loaded, the folder is scanned, and an apply that was
//! interrupted is found.
use vstd::prelude::*;
use crate::fsops::{FsErrorKind, FsErrorView, FsEvent, FsLog, FsOps};
use crate::model::{Session, SessionView, SESSION_FILE};
use crate::paths::{join, join_path};
use crate::persist::{
    load_or_fresh, load_or_fresh_ran, loaded_or_fresh, persist_error_words, save, save_ran, saved,
    PersistError, PersistErrorView,
};
use crate::records::{extends, since, since_adds_up, since_starts_empty};
use crate::scan::{
    scan, scan_error_words, scan_ran, shots_alone, ScanError, ScanErrorView, Scanned,
};
use crate::startup::{
    find_startup_crash, journal_report, opt_crash, reattach, reattached, report_ran, startup_ran,
    told, CrashInfo, CrashView, StartupView,
};
use crate::text::texts;

verus! {

/// Why a folder could not be opened.
#[derive(PartialEq, Eq, Debug)]
pub enum OpenError {
    Record(PersistError),
    Folder(ScanError),
}

/// The value of an `OpenError`.
pub enum OpenErrorView {
    Record(PersistErrorView),
    Folder(ScanErrorView),
}

impl View for OpenError {
    type V = OpenErrorView;

    open spec fn view(&self) -> OpenErrorView {
        match *self {
            OpenError::Record(e) => OpenErrorView::Record(e@),
            OpenError::Folder(e) => OpenErrorView::Folder(e@),
        }
    }
}

impl OpenError {
    /// The words for the failure.
    pub fn describe(&self) -> (r: String)
        ensures
            r@ == match self@ {
                OpenErrorView::Record(e) => persist_error_words(e),
                OpenErrorView::Folder(e) => scan_error_words(e),
            },
    {
        match self {
            OpenError::Record(e) => e.describe(),
            OpenError::Folder(e) => e.describe(),
        }
    }
}

/// The session that opening a folder gives, or the value of why there is none.
pub type Opened = Result<SessionView, OpenErrorView>;

/// The value of what opening a folder gives.
pub open spec fn opened(r: Result<Session, OpenError>) -> Opened {
    match r {
        Ok(s) => Opened::Ok(s@),
        Err(e) => Opened::Err(e@),
    }
}

/// The session that a scan and a record make, or why there is none.
pub open spec fn joined_up(
    source: Seq<char>,
    prev: Option<SessionView>,
    found: Scanned,
) -> Opened {
    match found {
        Ok((shots, _)) => Opened::Ok(reattached(source, shots, prev)),
        Err(e) => Opened::Err(OpenErrorView::Folder(e)),
    }
}

/// The history of opening a folder once its record was loaded. Without it, the folder is
/// not scanned.
pub open spec fn scanned_after(
    source: Seq<char>,
    prev: Result<Option<SessionView>, PersistErrorView>,
    t: Seq<FsEvent>,
    out: Opened,
) -> bool {
    match prev {
        Err(e) => t.len() == 0 && out == Opened::Err(OpenErrorView::Record(e)),
        Ok(p) => exists|found: Scanned| #[trigger]
            scan_ran(source, t, found) && out == joined_up(source, p, found),
    }
}

/// The history of opening a folder: its record is loaded, then it is scanned.
pub open spec fn open_ran(source: Seq<char>, t: Seq<FsEvent>, out: Opened) -> bool {
    exists|a: Seq<FsEvent>, b: Seq<FsEvent>, prev: Result<Option<SessionView>, PersistErrorView>|
        {
            &&& t == a + b
            &&& #[trigger] load_or_fresh_ran(source, a, prev)
            &&& #[trigger] scanned_after(source, prev, b, out)
        }
}

/// Opens a folder. What was decided about its shots before is taken up again.
pub fn open_session<F: FsOps>(source: &str, fs: &mut FsLog<F>) -> (r: Result<Session, OpenError>)
    ensures
        extends(final(fs).log(), old(fs).log()),
        open_ran(source@, since(final(fs).log(), old(fs).log()), opened(r)),
{
    let ghost start = fs.log();
    let loaded = load_or_fresh(source, fs);
    let ghost l1 = fs.log();
    let ghost prev = loaded_or_fresh(loaded);
    let r = match loaded {
        Err(e) => {
            proof {
                since_starts_empty(l1);
            }
            Err(OpenError::Record(e))
        },
        Ok(p) => {
            let found = scan(source, fs);
            let ghost out = choose|out: Scanned| #[trigger]
                scan_ran(source@, since(fs.log(), l1), out) && shots_alone(found, out);
            let r = match found {
                Ok(shots) => Ok(reattach(source, shots, p)),
                Err(e) => Err(OpenError::Folder(e)),
            };
            assert(scan_ran(source@, since(fs.log(), l1), out));
            assert(opened(r) == joined_up(source@, prev->Ok_0, out));
            r
        },
    };
    proof {
        since_adds_up(start, l1, fs.log());
        assert(load_or_fresh_ran(source@, since(l1, start), prev));
        assert(scanned_after(source@, prev, since(fs.log(), l1), opened(r)));
    }
    r
}

/// A folder that was opened: its session, the apply that was interrupted, if any, and what
/// is to be told.
#[derive(Debug)]
pub struct Launch {
    pub session: Session,
    pub crash: Option<CrashInfo>,
    pub notes: Vec<String>,
}

/// The value of a `Launch`.
#[verifier::ext_equal]
pub struct LaunchView {
    pub session: SessionView,
    pub crash: Option<CrashView>,
    pub notes: Seq<Seq<char>>,
}

impl View for Launch {
    type V = LaunchView;

    open spec fn view(&self) -> LaunchView {
        LaunchView {
            session: self.session@,
            crash: opt_crash(self.crash),
            notes: texts(self.notes@),
        }
    }
}

/// What a launch gives, or the value of why there is none.
pub type Launched = Result<LaunchView, OpenErrorView>;

/// The value of what a launch gives.
pub open spec fn launched(r: Result<Launch, OpenError>) -> Launched {
    match r {
        Ok(l) => Launched::Ok(l@),
        Err(e) => Launched::Err(e@),
    }
}

/// The words for a note on an apply that leads to no journal.
pub open spec fn stale_words(dest: Seq<char>) -> Seq<char> {
    "stale pending_apply breadcrumb cleared (no journal at "@ + dest + "); proceeding"@
}

/// The words for an apply that was interrupted: the report on its journal, or why there is
/// none.
pub open spec fn crash_words(
    journal: Seq<char>,
    report: Result<Seq<char>, FsErrorView>,
) -> Seq<char> {
    match report {
        Ok(words) => words,
        Err(e) => "Interrupted apply found at "@ + journal
            + " but the journal could not be read: "@ + e.message,
    }
}

/// The history of clearing a note on an apply that leads to no journal: the record without
/// it is saved at once, so that the note does not come back.
pub open spec fn stale_handled(
    s: SessionView,
    source: Seq<char>,
    stale: Option<Seq<char>>,
    t: Seq<FsEvent>,
    notes: Seq<Seq<char>>,
) -> bool {
    match stale {
        None => t.len() == 0 && notes.len() == 0,
        Some(dest) => notes == seq![stale_words(dest)] && exists|w: Result<(), PersistErrorView>|
            #[trigger] save_ran(s, join(source, SESSION_FILE@), t, w),
    }
}

/// The history of telling of the journal of an apply that was interrupted.
pub open spec fn journal_told(
    journal: Seq<char>,
    t: Seq<FsEvent>,
    notes: Seq<Seq<char>>,
) -> bool {
    exists|report: Result<Seq<char>, FsErrorView>|
        {
            &&& #[trigger] report_ran(journal, t, report)
            &&& notes == seq![crash_words(journal, report)]
        }
}

/// The history of telling of an apply that was interrupted, if any was.
pub open spec fn crash_told(
    crash: Option<CrashView>,
    t: Seq<FsEvent>,
    notes: Seq<Seq<char>>,
) -> bool {
    match crash {
        None => t.len() == 0 && notes.len() == 0,
        Some(c) => journal_told(c.journal, t, notes),
    }
}

/// The history of what follows the search for an apply that was interrupted.
pub open spec fn notes_ran(
    s: SessionView,
    source: Seq<char>,
    found: StartupView,
    t: Seq<FsEvent>,
    notes: Seq<Seq<char>>,
) -> bool {
    exists|a: Seq<FsEvent>, b: Seq<FsEvent>, m: Seq<Seq<char>>, n: Seq<Seq<char>>|
        {
            &&& t == a + b
            &&& notes == m + n
            &&& #[trigger] stale_handled(s, source, found.stale_cleared, a, m)
            &&& #[trigger] crash_told(found.crash, b, n)
        }
}

/// The history of the search for an apply that was interrupted, and of what follows it.
pub open spec fn searched(
    source: Seq<char>,
    s: SessionView,
    t: Seq<FsEvent>,
    l: LaunchView,
) -> bool {
    exists|a: Seq<FsEvent>, b: Seq<FsEvent>, found: StartupView|
        {
            &&& t == a + b
            &&& l.crash == found.crash
            &&& #[trigger] startup_ran(s, source, a, l.session, found)
            &&& #[trigger] notes_ran(l.session, source, found, b, l.notes)
        }
}

/// The history of what follows the opening of a folder.
pub open spec fn after_opening(
    source: Seq<char>,
    s: Opened,
    t: Seq<FsEvent>,
    out: Launched,
) -> bool {
    match s {
        Err(e) => t.len() == 0 && out == Launched::Err(e),
        Ok(s) => out matches Ok(l) && searched(source, s, t, l),
    }
}

/// The history of a launch: the folder is opened, and an apply that was interrupted is
/// looked for.
pub open spec fn launch_ran(source: Seq<char>, t: Seq<FsEvent>, out: Launched) -> bool {
    exists|a: Seq<FsEvent>, b: Seq<FsEvent>, s: Opened|
        {
            &&& t == a + b
            &&& #[trigger] open_ran(source, a, s)
            &&& #[trigger] after_opening(source, s, b, out)
        }
}

fn handle_stale<F: FsOps>(
    session: &Session,
    source: &str,
    stale: &Option<String>,
    fs: &mut FsLog<F>,
) -> (notes: Vec<String>)
    ensures
        extends(final(fs).log(), old(fs).log()),
        stale_handled(
            session@,
            source@,
            crate::model::opt_text(*stale),
            since(final(fs).log(), old(fs).log()),
            texts(notes@),
        ),
{
    let ghost start = fs.log();
    proof {
        since_starts_empty(start);
    }
    let mut notes: Vec<String> = Vec::new();
    if let Some(dest) = stale {
        let file = join_path(source, SESSION_FILE);
        let w = save(session, file.as_str(), fs);
        assert(save_ran(
            session@,
            join(source@, SESSION_FILE@),
            since(fs.log(), start),
            saved(w),
        ));
        let mut s = String::from_str("stale pending_apply breadcrumb cleared (no journal at ");
        s.append(dest.as_str());
        s.append("); proceeding");
        notes.push(s);
        assert(texts(notes@) =~= seq![stale_words(dest@)]);
    }
    notes
}

fn tell_crash<F: FsOps>(crash: &Option<CrashInfo>, fs: &mut FsLog<F>) -> (notes: Vec<String>)
    ensures
        extends(final(fs).log(), old(fs).log()),
        crash_told(opt_crash(*crash), since(final(fs).log(), old(fs).log()), texts(notes@)),
{
    let ghost start = fs.log();
    proof {
        since_starts_empty(start);
    }
    let mut notes: Vec<String> = Vec::new();
    if let Some(c) = crash {
        let report = journal_report(c.journal.as_str(), fs);
        let ghost seen = told(report);
        assert(report_ran(c@.journal, since(fs.log(), start), seen));
        let words = match report {
            Ok(w) => w,
            Err(e) => {
                let mut s = String::from_str("Interrupted apply found at ");
                s.append(c.journal.as_str());
                s.append(" but the journal could not be read: ");
                s.append(e.message.as_str());
                s
            },
        };
        notes.push(words);
        assert(texts(notes@) =~= seq![crash_words(c@.journal, seen)]);
        assert(journal_told(c@.journal, since(fs.log(), start), texts(notes@)));
    }
    notes
}

/// Opens a folder and looks for an apply that was interrupted.
pub fn launch<F: FsOps>(source: &str, fs: &mut FsLog<F>) -> (r: Result<Launch, OpenError>)
    ensures
        extends(final(fs).log(), old(fs).log()),
        launch_ran(source@, since(final(fs).log(), old(fs).log()), launched(r)),
{
    let ghost start = fs.log();
    let first = open_session(source, fs);
    let ghost s = opened(first);
    let ghost l1 = fs.log();
    let r: Result<Launch, OpenError> = match first {
        Err(e) => {
            proof {
                since_starts_empty(l1);
            }
            Err(e)
        },
        Ok(mut session) => {
            let found = find_startup_crash(&mut session, source, fs);
            let ghost l2 = fs.log();
            let mut notes = handle_stale(&session, source, &found.stale_cleared, fs);
            let ghost l3 = fs.log();
            let ghost m = texts(notes@);
            let mut more = tell_crash(&found.crash, fs);
            let ghost n = texts(more@);
            notes.append(&mut more);
            proof {
                assert(texts(notes@) =~= m + n);
                since_adds_up(l2, l3, fs.log());
                since_adds_up(l1, l2, fs.log());
                assert(stale_handled(
                    session@,
                    source@,
                    found@.stale_cleared,
                    since(l3, l2),
                    m,
                ));
                assert(crash_told(found@.crash, since(fs.log(), l3), n));
                assert(notes_ran(session@, source@, found@, since(fs.log(), l2), texts(notes@)));
            }
            let ghost fv = found@;
            let l = Launch { session, crash: found.crash, notes };
            proof {
                assert(l@.crash == fv.crash);
                assert(startup_ran(s->Ok_0, source@, since(l2, l1), l@.session, fv));
                assert(notes_ran(l@.session, source@, fv, since(fs.log(), l2), l@.notes));
                assert(searched(source@, s->Ok_0, since(fs.log(), l1), l@));
            }
            Ok(l)
        },
    };
    proof {
        since_adds_up(start, l1, fs.log());
        assert(open_ran(source@, since(l1, start), s));
        assert(after_opening(source@, s, since(fs.log(), l1), launched(r)));
    }
    r
}

/// After a launch the session notes an apply only where its journal was found: one that
/// leads to none is gone.
pub proof fn a_stale_note_is_gone(source: Seq<char>, t: Seq<FsEvent>, l: LaunchView)
    requires
        launch_ran(source, t, Launched::Ok(l)),
    ensures
        match l.session.pending_apply {
            Some(dest) => l.crash is Some && l.crash->0.from_breadcrumb && l.crash->0.dest == dest,
            None => l.crash is Some ==> !l.crash->0.from_breadcrumb,
        },
{
    let out = Launched::Ok(l);
    let (a, b, s) = choose|a: Seq<FsEvent>, b: Seq<FsEvent>, s: Opened|
        {
            &&& t == a + b
            &&& #[trigger] open_ran(source, a, s)
            &&& #[trigger] after_opening(source, s, b, out)
        };
    assert(searched(source, s->Ok_0, b, l));
}

/// A folder opens as it was left: with the decisions, the place and the started apply of its
/// record, and afresh where there is no record. Whatever was there, there is nothing to undo.
pub proof fn a_folder_opens_as_it_was_left(source: Seq<char>, t: Seq<FsEvent>, s: SessionView)
    requires
        open_ran(source, t, Opened::Ok(s)),
    ensures
        t.len() >= 1,
        t[0] is Read && t[0]->Read_path == join(source, ".fastcull.json"@),
        s.source_dir == source,
        s.undo.len() == 0,
        t[0]->Read_reply is Err ==> {
            &&& t[0]->Read_reply->Err_0.kind == FsErrorKind::NotFound
            &&& s.current == 0
            &&& s.pending_apply is None
            &&& forall|stem: Seq<char>| !s.decisions.contains_key(stem)
        },
        t[0]->Read_reply is Ok ==> t.len() >= 2 && t[1] is DecodeSession,
        t[0]->Read_reply is Ok && t[1]->DecodeSession_reply is Ok ==> {
            let p = t[1]->DecodeSession_reply->Ok_0;
            &&& s.decisions == p.decisions
            &&& s.pending_apply == p.pending_apply
            &&& 0 <= p.current < s.shots.len() ==> s.current == p.current
        },
{
    let (a, b, prev) = choose|
        a: Seq<FsEvent>,
        b: Seq<FsEvent>,
        prev: Result<Option<SessionView>, PersistErrorView>,
    |
        {
            &&& t == a + b
            &&& #[trigger] load_or_fresh_ran(source, a, prev)
            &&& #[trigger] scanned_after(source, prev, b, Opened::Ok(s))
        };
    crate::persist::a_cull_starts_afresh_only_without_a_record(source, a, prev);
    assert(t[0] == a[0]);
    if a.len() >= 2 {
        assert(t[1] == a[1]);
    }
    let p = prev->Ok_0;
    let found = choose|found: Scanned| #[trigger]
        scan_ran(source, b, found) && Opened::Ok(s) == joined_up(source, p, found);
    let shots = found->Ok_0.0;
    if let Some(q) = p {
        crate::startup::a_cull_goes_on_where_it_was_left(source, shots, q);
    } else {
        crate::startup::a_first_cull_starts_afresh(source, shots);
    }
}

/// What is noted at the start is what was found: a note for an apply whose journal is gone,
/// naming its destination, and a note for one that was interrupted. Where neither was found
/// nothing is noted and nothing is written.
pub proof fn what_was_found_is_noted(
    s: SessionView,
    source: Seq<char>,
    found: StartupView,
    t: Seq<FsEvent>,
    notes: Seq<Seq<char>>,
)
    requires
        notes_ran(s, source, found, t, notes),
    ensures
        notes.len() == (if found.stale_cleared is Some {
            1int
        } else {
            0
        }) + (if found.crash is Some {
            1int
        } else {
            0
        }),
        found.stale_cleared is None && found.crash is None ==> t.len() == 0,
        found.stale_cleared matches Some(dest) ==> {
            &&& crate::applyflow::holds_words(notes[0], dest)
            &&& t[0] is EncodeSession && t[0]->EncodeSession_session == s
        },
        found.stale_cleared is None ==> forall|k: int|
            0 <= k < t.len() ==> !((#[trigger] t[k]) is WriteFile) && !(t[k] is Rename),
{
    let (a, b, m, n) = choose|
        a: Seq<FsEvent>,
        b: Seq<FsEvent>,
        m: Seq<Seq<char>>,
        n: Seq<Seq<char>>,
    |
        {
            &&& t == a + b
            &&& notes == m + n
            &&& #[trigger] stale_handled(s, source, found.stale_cleared, a, m)
            &&& #[trigger] crash_told(found.crash, b, n)
        };
    if let Some(dest) = found.stale_cleared {
        let w = choose|w: Result<(), PersistErrorView>| #[trigger]
            save_ran(s, join(source, SESSION_FILE@), a, w);
        assert(t[0] == a[0]);
        assert(notes[0] == m[0]);
        assert(stale_words(dest)
            == ("stale pending_apply breadcrumb cleared (no journal at "@ + dest)
            + "); proceeding"@);
        assert(crate::applyflow::holds_words(stale_words(dest), dest));
    } else {
        assert(t =~= b);
    }
}

} // verus!
