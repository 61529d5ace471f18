//! The apply dialog and the recovery panel: what each step asks of the disk, what it does
//! to the session, and what is shown after it.
use vstd::prelude::*;
use crate::applyflow::{
    applied_view, apply_success_message, breadcrumb_recorded, crash_success_message, done_words,
    failure, finish_ran, holds_words, marked, not_noted, record_breadcrumb, resume_on_worker, resume_ran,
    run_apply, run_apply_ran, Applied,
};
use crate::controls::{opt_toast, Toast, ToastView};
use crate::fsops::{FsErrorView, FsEvent, FsLog, FsOps};
use crate::model::{opt_text, Session, SessionView, ShotView, SESSION_FILE};
use crate::paths::{join, join_path};
use crate::persist::{save_ran, PersistErrorView};
use crate::preview::{compute_preview, preview_ran, ApplyPreview};
use crate::records::{extends, since, since_adds_up, since_starts_empty};
use crate::startup::{
    crash_probed, dest_is_source_root, find_crashed_apply, journal_of, journal_report,
    reattached, report_ran, root_probed, startup_ran, told, unmarked, CrashInfo, CrashView,
    StartupView,
};
use crate::text::{same_text, texts};

verus! {

/// What is shown for a destination that was typed.
#[derive(PartialEq, Eq, Debug)]
pub struct DestCheck {
    pub error: String,
    /// Whether confirming resumes an apply that was interrupted.
    pub resume_mode: bool,
}

/// The words where the destination is the source folder itself.
pub open spec fn same_folder() -> Seq<char> {
    "Destination cannot be the source folder itself (a subfolder is fine)."@
}

/// The words where an apply into the destination was interrupted.
pub open spec fn resume_words(report: Result<Seq<char>, FsErrorView>) -> Seq<char> {
    (match report {
        Ok(words) => words,
        Err(_) => Seq::empty(),
    }) + "\nConfirm to RESUME this interrupted apply."@
}

/// The history of reporting on the journal that was found, if any.
pub open spec fn found_reported(
    journal: Option<Seq<char>>,
    t: Seq<FsEvent>,
    error: Seq<char>,
    resume_mode: bool,
) -> bool {
    match journal {
        None => t.len() == 0 && error == Seq::<char>::empty() && !resume_mode,
        Some(j) => resume_mode && exists|report: Result<Seq<char>, FsErrorView>|
            #[trigger] report_ran(j, t, report) && error == resume_words(report),
    }
}

/// The history of looking at a destination that is not the source folder.
pub open spec fn journal_looked_for(
    dest: Seq<char>,
    t: Seq<FsEvent>,
    error: Seq<char>,
    resume_mode: bool,
) -> bool {
    exists|a: Seq<FsEvent>, b: Seq<FsEvent>, journal: Option<Seq<char>>|
        {
            &&& t == a + b
            &&& #[trigger] crash_probed(dest, a, journal)
            &&& #[trigger] found_reported(journal, b, error, resume_mode)
        }
}

/// The history of looking at a destination, of which it is known whether it is the source
/// folder.
pub open spec fn dest_looked_at(
    dest: Seq<char>,
    is_source: bool,
    t: Seq<FsEvent>,
    error: Seq<char>,
    resume_mode: bool,
) -> bool {
    if is_source {
        t.len() == 0 && error == same_folder() && !resume_mode
    } else {
        journal_looked_for(dest, t, error, resume_mode)
    }
}

/// The history of checking a destination that was typed. An empty one is no error.
pub open spec fn dest_checked(
    source: Seq<char>,
    dest: Seq<char>,
    t: Seq<FsEvent>,
    error: Seq<char>,
    resume_mode: bool,
) -> bool {
    if dest.len() == 0 {
        t.len() == 0 && error == Seq::<char>::empty() && !resume_mode
    } else {
        exists|a: Seq<FsEvent>, b: Seq<FsEvent>, is_source: bool|
            {
                &&& t == a + b
                &&& #[trigger] root_probed(source, dest, a, is_source)
                &&& #[trigger] dest_looked_at(dest, is_source, b, error, resume_mode)
            }
    }
}

fn is_blank(s: &str) -> (r: bool)
    ensures
        r == (s@.len() == 0),
{
    proof {
        reveal_strlit("");
        if s@.len() == 0 {
            assert(s@ =~= ""@);
        }
    }
    same_text(s, "")
}

fn no_words() -> (r: String)
    ensures
        r@ == Seq::<char>::empty(),
{
    let s = String::new();
    assert(s@ =~= Seq::<char>::empty());
    s
}

fn look_for_journal<F: FsOps>(dest: &str, fs: &mut FsLog<F>) -> (r: DestCheck)
    ensures
        extends(final(fs).log(), old(fs).log()),
        journal_looked_for(
            dest@,
            since(final(fs).log(), old(fs).log()),
            r.error@,
            r.resume_mode,
        ),
{
    let ghost start = fs.log();
    let found = find_crashed_apply(dest, fs);
    let ghost l1 = fs.log();
    let ghost journal = opt_text(found);
    let r = match found {
        None => {
            proof {
                since_starts_empty(l1);
            }
            DestCheck { error: no_words(), resume_mode: false }
        },
        Some(j) => {
            let report = journal_report(j.as_str(), fs);
            assert(report_ran(j@, since(fs.log(), l1), told(report)));
            let ghost tr = told(report);
            let mut words = match report {
                Ok(w) => w,
                Err(_) => no_words(),
            };
            words.append("\nConfirm to RESUME this interrupted apply.");
            assert(words@ == resume_words(tr));
            DestCheck { error: words, resume_mode: true }
        },
    };
    proof {
        since_adds_up(start, l1, fs.log());
        assert(crash_probed(dest@, since(l1, start), journal));
        assert(found_reported(journal, since(fs.log(), l1), r.error@, r.resume_mode));
    }
    r
}

/// Checks a destination that was typed: the source folder itself is refused, and an apply
/// into it that was interrupted is offered to be resumed.
pub fn check_dest<F: FsOps>(source: &str, dest: &str, fs: &mut FsLog<F>) -> (r: DestCheck)
    ensures
        extends(final(fs).log(), old(fs).log()),
        dest_checked(
            source@,
            dest@,
            since(final(fs).log(), old(fs).log()),
            r.error@,
            r.resume_mode,
        ),
{
    let ghost start = fs.log();
    if is_blank(dest) {
        proof {
            since_starts_empty(start);
        }
        return DestCheck { error: no_words(), resume_mode: false };
    }
    let is_source = dest_is_source_root(source, dest, fs);
    let ghost l1 = fs.log();
    let r = if is_source {
        proof {
            since_starts_empty(l1);
        }
        DestCheck {
            error: String::from_str(
                "Destination cannot be the source folder itself (a subfolder is fine).",
            ),
            resume_mode: false,
        }
    } else {
        look_for_journal(dest, fs)
    };
    proof {
        since_adds_up(start, l1, fs.log());
        assert(root_probed(source@, dest@, since(l1, start), is_source));
        assert(dest_looked_at(dest@, is_source, since(fs.log(), l1), r.error@, r.resume_mode));
    }
    r
}

/// The history of previewing an apply into a destination of which it is known whether it
/// is the source folder.
pub open spec fn previewed_unless(
    s: SessionView,
    dest: Seq<char>,
    buckets: Seq<Seq<char>>,
    is_source: bool,
    t: Seq<FsEvent>,
    r: Option<ApplyPreview>,
) -> bool {
    match r {
        None => is_source && t.len() == 0,
        Some(p) => !is_source && exists|plan: crate::plan::PlanView| #[trigger]
            preview_ran(s, dest, buckets, t, plan, p),
    }
}

/// The history of previewing an apply. There is none into an empty destination or the
/// source folder itself.
pub open spec fn refreshed(
    s: SessionView,
    dest: Seq<char>,
    buckets: Seq<Seq<char>>,
    t: Seq<FsEvent>,
    r: Option<ApplyPreview>,
) -> bool {
    if dest.len() == 0 {
        t.len() == 0 && r is None
    } else {
        exists|a: Seq<FsEvent>, b: Seq<FsEvent>, is_source: bool|
            {
                &&& t == a + b
                &&& #[trigger] root_probed(s.source_dir, dest, a, is_source)
                &&& #[trigger] previewed_unless(s, dest, buckets, is_source, b, r)
            }
    }
}

/// Previews an apply for the dialog.
pub fn refresh_preview<F: FsOps>(
    session: &Session,
    dest: &str,
    buckets: &[String; 5],
    fs: &mut FsLog<F>,
) -> (r: Option<ApplyPreview>)
    ensures
        extends(final(fs).log(), old(fs).log()),
        refreshed(
            session@,
            dest@,
            texts(buckets@),
            since(final(fs).log(), old(fs).log()),
            r,
        ),
{
    let ghost start = fs.log();
    if is_blank(dest) {
        proof {
            since_starts_empty(start);
        }
        return None;
    }
    let is_source = dest_is_source_root(session.source_dir.as_str(), dest, fs);
    let ghost l1 = fs.log();
    let r = if is_source {
        proof {
            since_starts_empty(l1);
        }
        None
    } else {
        let (plan, preview) = compute_preview(session, dest, buckets, fs);
        assert(preview_ran(
            session@,
            dest@,
            texts(buckets@),
            since(fs.log(), l1),
            plan@,
            preview,
        ));
        Some(preview)
    };
    proof {
        since_adds_up(start, l1, fs.log());
        assert(root_probed(session@.source_dir, dest@, since(l1, start), is_source));
        assert(previewed_unless(
            session@,
            dest@,
            texts(buckets@),
            is_source,
            since(fs.log(), l1),
            r,
        ));
    }
    r
}

/// What confirming an apply leads to.
#[derive(PartialEq, Eq, Debug)]
pub enum Confirmed {
    /// Nothing: the destination is the source folder itself.
    Ignored,
    /// Nothing moves: the apply could not be noted.
    Refused(String),
    /// The apply runs, or resumes from this journal.
    Start(Option<String>),
}

/// The value of a `Confirmed`.
pub enum ConfirmedView {
    Ignored,
    Refused(Seq<char>),
    Start(Option<Seq<char>>),
}

impl View for Confirmed {
    type V = ConfirmedView;

    open spec fn view(&self) -> ConfirmedView {
        match *self {
            Confirmed::Ignored => ConfirmedView::Ignored,
            Confirmed::Refused(w) => ConfirmedView::Refused(w@),
            Confirmed::Start(j) => ConfirmedView::Start(opt_text(j)),
        }
    }
}

/// The history after the note on the apply was made, or was not.
pub open spec fn noted_then(
    dest: Seq<char>,
    failed: Option<Seq<char>>,
    t: Seq<FsEvent>,
    r: ConfirmedView,
) -> bool {
    match failed {
        Some(words) => t.len() == 0 && r == ConfirmedView::Refused(words),
        None => r matches ConfirmedView::Start(j) && crash_probed(dest, t, j),
    }
}

/// The history of confirming an apply into a destination of which it is known whether it
/// is the source folder.
pub open spec fn confirmed_unless(
    before: SessionView,
    dest: Seq<char>,
    is_source: bool,
    t: Seq<FsEvent>,
    after: SessionView,
    r: ConfirmedView,
) -> bool {
    if is_source {
        t.len() == 0 && after == before && r == ConfirmedView::Ignored
    } else {
        exists|a: Seq<FsEvent>, b: Seq<FsEvent>, failed: Option<Seq<char>>|
            {
                &&& t == a + b
                &&& #[trigger] breadcrumb_recorded(
                    before,
                    dest,
                    join(before.source_dir, SESSION_FILE@),
                    a,
                    after,
                    failed,
                )
                &&& #[trigger] noted_then(dest, failed, b, r)
            }
    }
}

/// The history of confirming an apply: the destination is checked once more, the apply is
/// noted in the record, and only then it starts.
pub open spec fn confirm_ran(
    before: SessionView,
    dest: Seq<char>,
    t: Seq<FsEvent>,
    after: SessionView,
    r: ConfirmedView,
) -> bool {
    exists|a: Seq<FsEvent>, b: Seq<FsEvent>, is_source: bool|
        {
            &&& t == a + b
            &&& #[trigger] root_probed(before.source_dir, dest, a, is_source)
            &&& #[trigger] confirmed_unless(before, dest, is_source, b, after, r)
        }
}

/// Confirms an apply. It starts only once the record of the session says where it goes, so
/// that a crash is found at the next start.
pub fn confirm_apply<F: FsOps>(session: &mut Session, dest: &str, fs: &mut FsLog<F>) -> (r:
    Confirmed)
    ensures
        extends(final(fs).log(), old(fs).log()),
        confirm_ran(
            old(session)@,
            dest@,
            since(final(fs).log(), old(fs).log()),
            final(session)@,
            r@,
        ),
{
    let ghost start = fs.log();
    let ghost before = session@;
    let is_source = dest_is_source_root(session.source_dir.as_str(), dest, fs);
    let ghost l1 = fs.log();
    assert(root_probed(before.source_dir, dest@, since(l1, start), is_source));
    proof {
        since_starts_empty(l1);
    }
    if is_source {
        proof {
            let none = Seq::<FsEvent>::empty();
            assert(since(l1, start) + none =~= since(l1, start));
            assert(confirmed_unless(
                before,
                dest@,
                is_source,
                none,
                before,
                ConfirmedView::Ignored,
            ));
        }
        return Confirmed::Ignored;
    }
    let file = join_path(session.source_dir.as_str(), SESSION_FILE);
    let noted = record_breadcrumb(session, dest, file.as_str(), fs);
    let ghost l2 = fs.log();
    let ghost failed = failure(noted);
    proof {
        since_starts_empty(l2);
        assert(breadcrumb_recorded(
            before,
            dest@,
            join(before.source_dir, SESSION_FILE@),
            since(l2, l1),
            session@,
            failed,
        ));
    }
    let r = match noted {
        Err(words) => Confirmed::Refused(words),
        Ok(()) => Confirmed::Start(find_crashed_apply(dest, fs)),
    };
    proof {
        since_adds_up(l1, l2, fs.log());
        since_adds_up(start, l1, fs.log());
        assert(noted_then(dest@, failed, since(fs.log(), l2), r@));
        assert(confirmed_unless(before, dest@, is_source, since(fs.log(), l1), session@, r@));
    }
    r
}

/// What an apply that ran on its own says when it ends: whether it ended well, and in what
/// words.
pub open spec fn final_words(verb: Seq<char>, out: Applied) -> (bool, Seq<char>) {
    match out {
        Ok((report, warning)) => (true, done_words(verb, report, warning)),
        Err(words) => (false, words),
    }
}

/// The history of an apply that was confirmed: it resumes from a journal that was found,
/// and runs from the start otherwise.
pub open spec fn worker_ran(
    journal: Option<Seq<char>>,
    dest: Seq<char>,
    s: SessionView,
    buckets: Seq<Seq<char>>,
    t: Seq<FsEvent>,
    out: Applied,
) -> bool {
    match journal {
        Some(j) => resume_ran(j, dest, s, true, t, out),
        None => run_apply_ran(s, dest, buckets, t, out),
    }
}

/// Carries out an apply that was confirmed.
pub fn apply_on_worker<F: FsOps>(
    journal: &Option<String>,
    dest: &str,
    session: Session,
    buckets: &[String; 5],
    fs: &mut FsLog<F>,
) -> (r: (bool, String))
    ensures
        extends(final(fs).log(), old(fs).log()),
        exists|out: Applied|
            #[trigger] worker_ran(
                opt_text(*journal),
                dest@,
                session@,
                texts(buckets@),
                since(final(fs).log(), old(fs).log()),
                out,
            ) && (r.0, r.1@) == final_words("Applied: "@, out),
{
    let ghost start = fs.log();
    let ghost s = session@;
    let result = match journal {
        Some(j) => resume_on_worker(j.as_str(), dest, session, true, fs),
        None => run_apply(session, dest, buckets, fs),
    };
    assert(worker_ran(
        opt_text(*journal),
        dest@,
        s,
        texts(buckets@),
        since(fs.log(), start),
        applied_view(result),
    ));
    match result {
        Ok((report, warning)) => (true, apply_success_message(&report, &warning)),
        Err(words) => (false, words),
    }
}

/// Resumes the apply that was found at startup. The record is moved only where the session
/// itself noted the apply.
pub fn recover_on_worker<F: FsOps>(crash: &CrashInfo, session: Session, fs: &mut FsLog<F>) -> (r: (
    bool,
    String,
))
    ensures
        extends(final(fs).log(), old(fs).log()),
        exists|out: Applied|
            #[trigger] resume_ran(
                crash@.journal,
                crash@.dest,
                session@,
                crash@.from_breadcrumb,
                since(final(fs).log(), old(fs).log()),
                out,
            ) && (r.0, r.1@) == final_words("Recovered: "@, out),
{
    let ghost start = fs.log();
    let ghost s = session@;
    let result = resume_on_worker(
        crash.journal.as_str(),
        crash.dest.as_str(),
        session,
        crash.from_breadcrumb,
        fs,
    );
    assert(resume_ran(
        crash@.journal,
        crash@.dest,
        s,
        crash@.from_breadcrumb,
        since(fs.log(), start),
        applied_view(result),
    ));
    match result {
        Ok((report, warning)) => (true, crash_success_message(&report, &warning)),
        Err(words) => (false, words),
    }
}

/// What the apply dialog shows.
#[derive(PartialEq, Eq, Debug)]
pub struct ApplyDialog {
    pub open: bool,
    pub running: bool,
    pub resume_mode: bool,
    pub error: String,
}

/// The value of an `ApplyDialog`.
pub struct DialogView {
    pub open: bool,
    pub running: bool,
    pub resume_mode: bool,
    pub error: Seq<char>,
}

impl View for ApplyDialog {
    type V = DialogView;

    open spec fn view(&self) -> DialogView {
        DialogView {
            open: self.open,
            running: self.running,
            resume_mode: self.resume_mode,
            error: self.error@,
        }
    }
}

/// Takes in the end of an apply. If it ended well the dialog closes, the note on the apply
/// is taken away, and the session counts as applied; otherwise the dialog stays open with
/// the words of the failure.
pub fn apply_finished(
    dialog: &mut ApplyDialog,
    session: &mut Session,
    applied: &mut bool,
    ok: bool,
    words: String,
) -> (r: Option<Toast>)
    ensures
        final(dialog)@ == (if ok {
            DialogView { open: false, running: false, resume_mode: false, error: words@ }
        } else {
            DialogView { running: false, error: words@, ..old(dialog)@ }
        }),
        final(session)@ == (if ok {
            unmarked(old(session)@)
        } else {
            old(session)@
        }),
        *final(applied) == (*old(applied) || ok),
        opt_toast(r) == (if ok {
            Some(ToastView { text: "\u{2713} apply complete"@, code: 1 })
        } else {
            None
        }),
        !final(dialog)@.running,
        final(dialog)@.error == words@,
        final(dialog)@.open == (old(dialog)@.open && !ok),
        *old(applied) ==> *final(applied),
        *final(applied) && !*old(applied) ==> ok && final(session)@.pending_apply is None,
        !ok ==> final(session)@.pending_apply == old(session)@.pending_apply,
        final(session)@.decisions == old(session)@.decisions,
        final(session)@.shots == old(session)@.shots,
        final(session)@.current == old(session)@.current,
        final(session)@.undo == old(session)@.undo,
        final(session)@.source_dir == old(session)@.source_dir,
{
    let ghost before = session@;
    dialog.running = false;
    dialog.error = words;
    if !ok {
        return None;
    }
    session.pending_apply = None;
    assert(session@ == unmarked(before));
    dialog.open = false;
    dialog.resume_mode = false;
    *applied = true;
    Some(Toast { text: String::from_str("\u{2713} apply complete"), code: 1 })
}

/// What the recovery panel shows.
#[derive(PartialEq, Eq, Debug)]
pub struct CrashPanel {
    pub open: bool,
    pub resuming: bool,
    pub report: String,
    pub report_open: bool,
}

/// The value of a `CrashPanel`.
pub struct PanelView {
    pub open: bool,
    pub resuming: bool,
    pub report: Seq<char>,
    pub report_open: bool,
}

impl View for CrashPanel {
    type V = PanelView;

    open spec fn view(&self) -> PanelView {
        PanelView {
            open: self.open,
            resuming: self.resuming,
            report: self.report@,
            report_open: self.report_open,
        }
    }
}

/// Takes in the end of a recovery. If it ended well the panel closes, and where the session
/// itself noted the apply, the note is taken away and the session counts as applied. If
/// not, the panel stays open with the words of the failure.
pub fn crash_finished(
    panel: &mut CrashPanel,
    session: &mut Session,
    applied: &mut bool,
    crash: &CrashInfo,
    ok: bool,
    words: String,
) -> (r: Option<Toast>)
    ensures
        final(panel)@ == (if ok {
            PanelView { open: false, resuming: false, ..old(panel)@ }
        } else {
            PanelView { resuming: false, report: words@, report_open: true, ..old(panel)@ }
        }),
        final(session)@ == (if ok && crash@.from_breadcrumb {
            unmarked(old(session)@)
        } else {
            old(session)@
        }),
        *final(applied) == (*old(applied) || (ok && crash@.from_breadcrumb)),
        opt_toast(r) == (if ok {
            Some(ToastView { text: "\u{2713} recovery complete"@, code: 1 })
        } else {
            None
        }),
        !final(panel)@.resuming,
        final(panel)@.open == (old(panel)@.open && !ok),
        !ok ==> final(panel)@.report == words@ && final(panel)@.report_open,
        *old(applied) ==> *final(applied),
        *final(applied) && !*old(applied) ==> ok && final(session)@.pending_apply is None,
        !ok || !crash@.from_breadcrumb ==> final(session)@.pending_apply
            == old(session)@.pending_apply,
        final(session)@.decisions == old(session)@.decisions,
        final(session)@.shots == old(session)@.shots,
        final(session)@.current == old(session)@.current,
        final(session)@.undo == old(session)@.undo,
        final(session)@.source_dir == old(session)@.source_dir,
{
    let ghost before = session@;
    panel.resuming = false;
    if !ok {
        panel.report = words;
        panel.report_open = true;
        return None;
    }
    panel.open = false;
    if crash.from_breadcrumb {
        session.pending_apply = None;
        assert(session@ == unmarked(before));
        *applied = true;
    }
    Some(Toast { text: String::from_str("\u{2713} recovery complete"), code: 1 })
}

/// The words for a journal that the recovery panel shows.
pub open spec fn panel_words(report: Result<Seq<char>, FsErrorView>) -> Seq<char> {
    match report {
        Ok(words) => words,
        Err(e) => "could not read journal: "@ + e.message,
    }
}

/// Reports on the journal for the recovery panel.
pub fn panel_report<F: FsOps>(crash: &CrashInfo, fs: &mut FsLog<F>) -> (r: String)
    ensures
        extends(final(fs).log(), old(fs).log()),
        exists|report: Result<Seq<char>, FsErrorView>|
            #[trigger] report_ran(
                crash@.journal,
                since(final(fs).log(), old(fs).log()),
                report,
            ) && r@ == panel_words(report),
{
    let ghost start = fs.log();
    let report = journal_report(crash.journal.as_str(), fs);
    assert(report_ran(crash@.journal, since(fs.log(), start), told(report)));
    match report {
        Ok(words) => words,
        Err(e) => {
            let mut s = String::from_str("could not read journal: ");
            s.append(e.message.as_str());
            s
        },
    }
}

/// Whether the history holds a saving of the session that ended well.
pub open spec fn saved_within(t: Seq<FsEvent>, s: SessionView, file: Seq<char>) -> bool {
    exists|i: int|
        0 <= i && i + 3 <= t.len() && #[trigger] save_ran(s, file, t.subrange(i, i + 3), Ok(()))
}

/// No apply starts before it is noted: when it starts, the session says where it goes, and
/// a record that says so has taken its place on the disk.
pub proof fn no_apply_starts_unnoted(
    before: SessionView,
    dest: Seq<char>,
    t: Seq<FsEvent>,
    after: SessionView,
    journal: Option<Seq<char>>,
)
    requires
        confirm_ran(before, dest, t, after, ConfirmedView::Start(journal)),
    ensures
        after == marked(before, dest),
        saved_within(t, marked(before, dest), join(before.source_dir, SESSION_FILE@)),
{
    let file = join(before.source_dir, SESSION_FILE@);
    let r = ConfirmedView::Start(journal);
    let (a, b, is_source) = choose|a: Seq<FsEvent>, b: Seq<FsEvent>, is_source: bool|
        {
            &&& t == a + b
            &&& #[trigger] root_probed(before.source_dir, dest, a, is_source)
            &&& #[trigger] confirmed_unless(before, dest, is_source, b, after, r)
        };
    let (c, d, failed) = choose|c: Seq<FsEvent>, d: Seq<FsEvent>, failed: Option<Seq<char>>|
        {
            &&& b == c + d
            &&& #[trigger] breadcrumb_recorded(before, dest, file, c, after, failed)
            &&& #[trigger] noted_then(dest, failed, d, r)
        };
    let w = choose|w: Result<(), PersistErrorView>|
        #[trigger] save_ran(marked(before, dest), file, c, w) && match w {
            Ok(_) => after == marked(before, dest) && failed is None,
            Err(e) => after == unmarked(before) && failed == Some(not_noted(file, e)),
        };
    assert(w is Ok);
    assert(c.len() == 3);
    let i = a.len() as int;
    assert(t.subrange(i, i + 3) =~= c);
    assert(save_ran(marked(before, dest), file, t.subrange(i, i + 3), Ok(())));
}

/// Whether an event changes the disk anywhere but in the record of the session.
pub open spec fn touches_photos(e: FsEvent) -> bool {
    e is MkdirP || e is RenameNoreplace || e is CopyCreateNew || e is RemoveFile
}

/// Confirming alone moves nothing, whatever comes of it.
pub proof fn confirming_moves_nothing(
    before: SessionView,
    dest: Seq<char>,
    t: Seq<FsEvent>,
    after: SessionView,
    r: ConfirmedView,
    k: int,
)
    requires
        confirm_ran(before, dest, t, after, r),
        0 <= k < t.len(),
    ensures
        !touches_photos(t[k]),
{
    let file = join(before.source_dir, SESSION_FILE@);
    let (a, b, is_source) = choose|a: Seq<FsEvent>, b: Seq<FsEvent>, is_source: bool|
        {
            &&& t == a + b
            &&& #[trigger] root_probed(before.source_dir, dest, a, is_source)
            &&& #[trigger] confirmed_unless(before, dest, is_source, b, after, r)
        };
    if k < a.len() {
        assert(t[k] == a[k]);
    } else if !is_source {
        let (c, d, failed) = choose|c: Seq<FsEvent>, d: Seq<FsEvent>, failed: Option<Seq<char>>|
            {
                &&& b == c + d
                &&& #[trigger] breadcrumb_recorded(before, dest, file, c, after, failed)
                &&& #[trigger] noted_then(dest, failed, d, r)
            };
        let w = choose|w: Result<(), PersistErrorView>|
            #[trigger] save_ran(marked(before, dest), file, c, w) && match w {
                Ok(_) => after == marked(before, dest) && failed is None,
                Err(e) => after == unmarked(before) && failed == Some(not_noted(file, e)),
            };
        assert(t[k] == b[k - a.len()]);
        let j = k - a.len();
        if j < c.len() {
            assert(b[j] == c[j]);
            assert(j == 0 || j == 1 || j == 2);
        } else {
            assert(b[j] == d[j - c.len()]);
        }
    }
}

/// An apply that was noted is found at the next start: whatever is scanned then, if its
/// journal is at the destination, it is the one that is offered to be resumed.
pub proof fn a_noted_apply_is_found_again(
    s: SessionView,
    dest: Seq<char>,
    source: Seq<char>,
    shots: Seq<ShotView>,
    t: Seq<FsEvent>,
    after: SessionView,
    r: StartupView,
)
    requires
        startup_ran(reattached(source, shots, Some(marked(s, dest))), source, t, after, r),
        t[0] == (FsEvent::IsFile { path: journal_of(dest), reply: true }),
    ensures
        r.crash == Some(
            CrashView { journal: journal_of(dest), dest, from_breadcrumb: true },
        ),
        after.pending_apply == Some(dest),
{
    assert(t.take(1)[0] == t[0]);
}

/// A destination that was typed is not judged while it is empty and refused where it is the
/// source folder; otherwise confirming resumes exactly where the journal of an interrupted
/// apply was seen in it, and nothing is wrong with it where none was.
pub proof fn a_destination_is_judged_by_its_journal(
    source: Seq<char>,
    dest: Seq<char>,
    t: Seq<FsEvent>,
    error: Seq<char>,
    resume_mode: bool,
)
    requires
        dest_checked(source, dest, t, error, resume_mode),
    ensures
        dest.len() == 0 ==> t.len() == 0 && error.len() == 0 && !resume_mode,
        resume_mode ==> t.len() >= 3 && t[2] == (FsEvent::IsFile {
            path: join(dest, ".fastcull-apply.json"@),
            reply: true,
        }),
        dest.len() > 0 && !resume_mode ==> error == same_folder() || error.len() == 0,
        dest.len() > 0 && t.len() >= 3 && t[2] is IsFile ==> (resume_mode
            <==> t[2]->IsFile_reply),
        forall|k: int| 0 <= k < t.len() ==> !touches_photos(#[trigger] t[k]),
{
    if dest.len() > 0 {
        let (a, b, is_source) = choose|a: Seq<FsEvent>, b: Seq<FsEvent>, is_source: bool|
            {
                &&& t == a + b
                &&& #[trigger] root_probed(source, dest, a, is_source)
                &&& #[trigger] dest_looked_at(dest, is_source, b, error, resume_mode)
            };
        if !is_source {
            let (c, d, journal) = choose|
                c: Seq<FsEvent>,
                d: Seq<FsEvent>,
                journal: Option<Seq<char>>,
            |
                {
                    &&& b == c + d
                    &&& #[trigger] crash_probed(dest, c, journal)
                    &&& #[trigger] found_reported(journal, d, error, resume_mode)
                };
            assert(t[2] == b[0]);
            assert(b[0] == c[0]);
            assert forall|k: int| 0 <= k < t.len() implies !touches_photos(#[trigger] t[k]) by {
                if k < 2 {
                    assert(t[k] == a[k]);
                } else {
                    assert(t[k] == b[k - 2]);
                    if k > 2 {
                        assert(b[k - 2] == d[k - 3]);
                    }
                }
            }
        } else {
            assert forall|k: int| 0 <= k < t.len() implies !touches_photos(#[trigger] t[k]) by {
                assert(t[k] == a[k]);
            }
        }
    }
}

/// What is shown at the end tells success from failure: an apply that went through is told in
/// its numbers, and one that did not by the words of its failure.
pub proof fn the_end_tells_success_from_failure(verb: Seq<char>, out: Applied)
    ensures
        final_words(verb, out).0 <==> out is Ok,
        out matches Err(words) ==> final_words(verb, out).1 == words,
        out matches Ok((report, warning)) ==> verb.is_prefix_of(final_words(verb, out).1),
{
    if let Ok((report, warning)) = out {
        let words = final_words(verb, out).1;
        assert(verb =~= words.take(verb.len() as int));
    }
}

/// A preview is shown for every destination but an empty one and the source folder itself.
pub proof fn a_preview_is_shown_for_every_other_folder(
    s: SessionView,
    dest: Seq<char>,
    buckets: Seq<Seq<char>>,
    t: Seq<FsEvent>,
    r: Option<ApplyPreview>,
)
    requires
        refreshed(s, dest, buckets, t, r),
    ensures
        dest.len() == 0 ==> t.len() == 0 && r is None,
        dest.len() > 0 ==> t.len() >= 2 && root_probed(s.source_dir, dest, t.take(2), r is None),
        r is None ==> t.len() <= 2,
{
    if dest.len() > 0 {
        let (a, b, is_source) = choose|a: Seq<FsEvent>, b: Seq<FsEvent>, is_source: bool|
            {
                &&& t == a + b
                &&& #[trigger] root_probed(s.source_dir, dest, a, is_source)
                &&& #[trigger] previewed_unless(s, dest, buckets, is_source, b, r)
            };
        assert(t.take(2) =~= a);
    }
}

/// An apply that is confirmed where a journal was found is resumed from that journal, and its
/// record is brought along; otherwise it is run afresh.
pub proof fn a_found_journal_is_resumed(
    j: Seq<char>,
    dest: Seq<char>,
    s: SessionView,
    buckets: Seq<Seq<char>>,
    t: Seq<FsEvent>,
    out: Applied,
)
    ensures
        worker_ran(Some(j), dest, s, buckets, t, out) ==> t.len() >= 1 && t[0] is Read
            && t[0]->Read_path == j,
        worker_ran(Some(j), dest, s, buckets, t, out) && out is Ok ==> exists|k: int|
            0 <= k <= t.len() && finish_ran(
                SessionView { pending_apply: None, ..s },
                dest,
                #[trigger] t.skip(k),
                out->Ok_0.1,
            ),
        worker_ran(None, dest, s, buckets, t, out) <==> run_apply_ran(s, dest, buckets, t, out),
{
    if worker_ran(Some(j), dest, s, buckets, t, out) {
        let (a, b, o) = choose|
            a: Seq<FsEvent>,
            b: Seq<FsEvent>,
            o: Result<crate::journal::ReportView, crate::journal::ApplyErrorView>,
        |
            {
                &&& t == a + b
                &&& #[trigger] crate::apply::resumed(j, a, o)
                &&& #[trigger] crate::applyflow::resume_ended(j, dest, s, true, b, o, out)
            };
        assert(t[0] == a[0]);
        crate::applyflow::a_resumed_apply_brings_its_own_record(j, dest, s, true, b, o, out);
        if out is Ok {
            let k = a.len() as int;
            assert(t.skip(k) =~= b);
            assert(finish_ran(
                SessionView { pending_apply: None, ..s },
                dest,
                t.skip(k),
                out->Ok_0.1,
            ));
        }
    }
}

/// What is shown of a journal starts with the report on it; where there is none the recovery
/// panel tells why, and the dialog asks for the resume all the same.
pub proof fn a_report_is_shown_as_it_is(words: Seq<char>, e: FsErrorView)
    ensures
        words.is_prefix_of(resume_words(Ok(words))),
        resume_words(Ok(words)).skip(words.len() as int) == resume_words(Err(e)),
        resume_words(Err(e)).len() > 0,
        panel_words(Ok(words)) == words,
        panel_words(Err(e)) != panel_words(Ok(e.message)),
        holds_words(panel_words(Err(e)), e.message),
{
    reveal_strlit("\nConfirm to RESUME this interrupted apply.");
    reveal_strlit("could not read journal: ");
    let all = resume_words(Ok(words));
    assert(words =~= all.take(words.len() as int));
    assert(all.skip(words.len() as int) =~= resume_words(Err(e)));
    let none = Seq::<char>::empty();
    assert(panel_words(Err(e)) =~= ("could not read journal: "@ + e.message) + none);
    assert(panel_words(Err(e)).len() > e.message.len());
}

} // verus!
