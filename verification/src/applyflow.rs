//! The course of an apply as the user sees it: it is noted in the session before anything
//! moves, runs or resumes, and leaves the session record at the destination; and the words
//! that are shown for each outcome.
use vstd::prelude::*;
use crate::apply::{applied, apply, resume, resumed, run_outcome};
use crate::fsops::{FsErrorView, FsEvent, FsLog, FsOps};
use crate::journal::{ApplyError, ApplyErrorView, ApplyReport, ReportView};
use crate::model::{opt_text, Session, SessionView, JOURNAL_FILE, SESSION_FILE};
use crate::paths::{
    a_joined_name_is_found_again, components_are_those_of_the_folder_and_the_name, file_name,
    file_name_of, is_one_name, join, join_path, same_path, same_place,
};
use crate::persist::{
    a_record_is_replaced_whole_or_not_at_all, first_free, first_free_ran, persist_error_debug,
    persist_error_words, save, save_ran, saved, PersistError, PersistErrorView,
};
use crate::plan::{plan, planned, size_views};
use crate::preview::{gather_apply_inputs, gather_ran, partition_ran, partition_stale};
use crate::records::{extends, since, since_adds_up, since_grows, since_starts_empty};
use crate::startup::{journal_of, told, unmarked};
use crate::text::{
    a_written_number_reads_back, count_text, decimal, number_in, starts_with_text, texts,
};

verus! {

/// Whether an error on `path` concerns the journal and not a photo.
pub open spec fn is_bookkeeping(path: Seq<char>, journal_path: Seq<char>) -> bool {
    same_place(path, journal_path) || (file_name(path) is Some && ".fastcull-apply"@.is_prefix_of(
        file_name(path)->0,
    ))
}

/// The words that are shown for an error.
pub open spec fn shown_error(e: ApplyErrorView, journal_path: Seq<char>) -> Seq<char> {
    match e {
        ApplyErrorView::Preflight(m) => "Apply refused: "@ + m,
        ApplyErrorView::Fs { path, source } => if is_bookkeeping(path, journal_path) {
            "Apply bookkeeping (journal) write failed at "@ + path + ": "@ + source.message
                + ". No photo move failed; the plan can be re-run."@
        } else {
            "Move failed at "@ + path + ": "@ + source.message
        },
        ApplyErrorView::Collision(p) => "Collision: "@ + p
            + " already exists and was not overwritten."@,
    }
}

/// The words that are shown for an error. Those of a refusal are shown as they are; an
/// error on the journal does not read as that of a photo.
pub fn format_apply_error(e: &ApplyError, journal_path: &str) -> (r: String)
    ensures
        r@ == shown_error(e@, journal_path@),
{
    match e {
        ApplyError::Preflight(m) => {
            let mut s = String::from_str("Apply refused: ");
            s.append(m.as_str());
            s
        },
        ApplyError::Fs { path, source } => {
            let own_name = match file_name_of(path.as_str()) {
                Some(n) => starts_with_text(n.as_str(), ".fastcull-apply"),
                None => false,
            };
            if same_path(path.as_str(), journal_path) || own_name {
                let mut s = String::from_str("Apply bookkeeping (journal) write failed at ");
                s.append(path.as_str());
                s.append(": ");
                s.append(source.message.as_str());
                s.append(". No photo move failed; the plan can be re-run.");
                s
            } else {
                let mut s = String::from_str("Move failed at ");
                s.append(path.as_str());
                s.append(": ");
                s.append(source.message.as_str());
                s
            }
        },
        ApplyError::Collision(p) => {
            let mut s = String::from_str("Collision: ");
            s.append(p.as_str());
            s.append(" already exists and was not overwritten.");
            s
        },
    }
}

/// The words of a failure, where there was one.
pub open spec fn failure(r: Result<(), String>) -> Option<Seq<char>> {
    match r {
        Ok(_) => None,
        Err(w) => Some(w@),
    }
}

/// The words for want of a free name at the destination.
pub open spec fn no_room_for_record() -> Seq<char> {
    "no free name for the session record"@
}

/// What is said of a failure to save, where there was one: the `Debug` text of the error.
pub open spec fn save_failure(r: Result<(), PersistErrorView>) -> Option<Seq<char>> {
    match r {
        Ok(_) => None,
        Err(e) => Some(persist_error_debug(e)),
    }
}

/// The history of bringing the record to `to`: the old record is renamed there, never over
/// a file that is there, and rewritten. Where it cannot be renamed the record is written
/// there, and only then the old one is removed.
pub open spec fn record_brought(
    s: SessionView,
    to: Seq<char>,
    t: Seq<FsEvent>,
    r: Option<Seq<char>>,
) -> bool {
    let from = join(s.source_dir, SESSION_FILE@);
    &&& t.len() >= 1
    &&& t[0] matches FsEvent::RenameNoreplace { from: f, to: d, reply }
    &&& f == from
    &&& d == to
    &&& match reply {
        Ok(_) => saved_with(s, to, t.skip(1), r),
        Err(_) => {
            ||| r is Some && saved_with(s, to, t.skip(1), r)
            ||| {
                &&& r is None
                &&& t.len() >= 2
                &&& t.last() matches FsEvent::RemoveFile { path, .. }
                &&& path == from
                &&& saved_with(s, to, t.skip(1).drop_last(), r)
            }
        },
    }
}

/// The history of saving the record, with the words of a failure.
pub open spec fn saved_with(
    s: SessionView,
    to: Seq<char>,
    t: Seq<FsEvent>,
    r: Option<Seq<char>>,
) -> bool {
    exists|w: Result<(), PersistErrorView>|
        #[trigger] save_ran(s, to, t, w) && r == save_failure(w)
}

/// The history of moving the session record to the destination, under the first name that
/// is free there.
pub open spec fn relocate_ran(
    s: SessionView,
    dest: Seq<char>,
    t: Seq<FsEvent>,
    r: Option<Seq<char>>,
) -> bool {
    exists|a: Seq<FsEvent>, b: Seq<FsEvent>, to: Option<Seq<char>>|
        {
            &&& t == a + b
            &&& #[trigger] first_free_ran(dest, SESSION_FILE@, a, to)
            &&& #[trigger] record_at(s, to, b, r)
        }
}

/// The history of bringing the record to a free name, if there is one.
pub open spec fn record_at(
    s: SessionView,
    to: Option<Seq<char>>,
    t: Seq<FsEvent>,
    r: Option<Seq<char>>,
) -> bool {
    match to {
        None => t.len() == 0 && r == Some(no_room_for_record()),
        Some(p) => record_brought(s, p, t, r),
    }
}

fn words_of(r: Result<(), PersistError>) -> (w: Result<(), String>)
    ensures
        failure(w) == save_failure(saved(r)),
{
    match r {
        Ok(()) => Ok(()),
        Err(e) => Err(e.debug_text()),
    }
}

fn bring_record<F: FsOps>(session: &Session, to: &str, fs: &mut FsLog<F>) -> (r: Result<
    (),
    String,
>)
    ensures
        extends(final(fs).log(), old(fs).log()),
        record_brought(
            session@,
            to@,
            since(final(fs).log(), old(fs).log()),
            failure(r),
        ),
{
    let ghost start = fs.log();
    proof {
        since_starts_empty(start);
    }
    let from = join_path(session.source_dir.as_str(), SESSION_FILE);
    let renamed = fs.rename_noreplace(from.as_str(), to);
    let ghost l1 = fs.log();
    proof {
        since_grows(start, start, l1);
    }
    let wrote = save(session, to, fs);
    let ghost l2 = fs.log();
    let ghost w = saved(wrote);
    proof {
        since_adds_up(start, l1, l2);
        assert(since(l2, start).skip(1) =~= since(l2, l1));
        assert(save_ran(session@, to@, since(l2, l1), w));
        assert(saved_with(session@, to@, since(l2, l1), save_failure(w)));
    }
    let r = words_of(wrote);
    if renamed.is_err() && r.is_ok() {
        let _ = fs.remove_file(from.as_str());
        proof {
            since_grows(start, l2, fs.log());
            let t = since(fs.log(), start);
            assert(t.skip(1).drop_last() =~= since(l2, l1));
        }
    }
    r
}

/// Moves the session record to the destination, where it stays as the account of what was
/// done. It never takes the place of one that is there. What is written is the session as
/// it is given.
pub fn relocate_session<F: FsOps>(session: &Session, dest: &str, fs: &mut FsLog<F>) -> (r: Result<
    (),
    String,
>)
    ensures
        extends(final(fs).log(), old(fs).log()),
        relocate_ran(
            session@,
            dest@,
            since(final(fs).log(), old(fs).log()),
            failure(r),
        ),
{
    let ghost start = fs.log();
    let free = first_free(dest, SESSION_FILE, fs);
    let ghost l1 = fs.log();
    let ghost to = opt_text(free);
    match free {
        None => {
            let r: Result<(), String> = Err(
                String::from_str("no free name for the session record"),
            );
            proof {
                let none = Seq::<FsEvent>::empty();
                assert(since(l1, start) + none =~= since(l1, start));
                assert(record_at(session@, to, none, failure(r)));
            }
            r
        },
        Some(p) => {
            let r = bring_record(session, p.as_str(), fs);
            proof {
                since_adds_up(start, l1, fs.log());
                assert(record_at(session@, to, since(fs.log(), l1), failure(r)));
            }
            r
        },
    }
}

/// The warning that the photos moved and the record did not.
pub open spec fn record_warning(words: Seq<char>) -> Seq<char> {
    "Photos moved successfully, but the session audit copy could not be written to the destination: "@
        + words
        + ". Your photos are safe in the destination; only the .fastcull.json record is missing."@
}

/// The warning for a record that could not be moved, where there is one.
pub open spec fn warning_for(failed: Option<Seq<char>>) -> Option<Seq<char>> {
    match failed {
        None => None,
        Some(w) => Some(record_warning(w)),
    }
}

/// The history of ending an apply: the record is moved, and a failure to do so is only a
/// warning.
pub open spec fn finish_ran(
    s: SessionView,
    dest: Seq<char>,
    t: Seq<FsEvent>,
    warning: Option<Seq<char>>,
) -> bool {
    exists|failed: Option<Seq<char>>|
        #[trigger] relocate_ran(s, dest, t, failed) && warning == warning_for(failed)
}

/// Ends an apply of which the photos have moved. The report stays as it is: a record that
/// could not be moved is a warning, not a failure.
pub fn finish_apply<F: FsOps>(
    report: ApplyReport,
    session: Session,
    dest: &str,
    fs: &mut FsLog<F>,
) -> (r: (ApplyReport, Option<String>))
    ensures
        extends(final(fs).log(), old(fs).log()),
        r.0@ == report@,
        finish_ran(
            session@,
            dest@,
            since(final(fs).log(), old(fs).log()),
            opt_text(r.1),
        ),
{
    let ghost start = fs.log();
    let moved = relocate_session(&session, dest, fs);
    assert(relocate_ran(session@, dest@, since(fs.log(), start), failure(moved)));
    match moved {
        Ok(()) => (report, None),
        Err(e) => {
            let mut s = String::from_str(
                "Photos moved successfully, but the session audit copy could not be written to the destination: ",
            );
            s.append(e.as_str());
            s.append(
                ". Your photos are safe in the destination; only the .fastcull.json record is missing.",
            );
            (report, Some(s))
        },
    }
}

/// What an apply gives: a report and perhaps a warning, or the words of a failure.
pub type Applied = Result<(ReportView, Option<Seq<char>>), Seq<char>>;

/// The value of what an apply gives.
pub open spec fn applied_view(r: Result<(ApplyReport, Option<String>), String>) -> Applied {
    match r {
        Ok((report, warning)) => Applied::Ok((report@, opt_text(warning))),
        Err(w) => Applied::Err(w@),
    }
}

/// The words where every shot has lost a file.
pub open spec fn nothing_left(stale: nat) -> Seq<char> {
    "Apply refused: nothing left to apply, "@ + decimal(stale) + " shot"@ + (if stale == 1 {
        ""@
    } else {
        "s"@
    }) + " stale (source files vanished since scan)."@
}

/// The words where the destination could not be made.
pub open spec fn no_destination(dest: Seq<char>, e: FsErrorView) -> Seq<char> {
    "Could not create destination "@ + dest + ": "@ + e.message
}

/// The history of an apply after the shots that are there were told from the others.
pub open spec fn run_of_kept(
    s: SessionView,
    kept: SessionView,
    stale: nat,
    dest: Seq<char>,
    buckets: Seq<Seq<char>>,
    t: Seq<FsEvent>,
    r: Applied,
) -> bool {
    if s.shots.len() > 0 && kept.shots.len() == 0 {
        t.len() == 0 && r == Applied::Err(nothing_left(stale))
    } else {
        &&& t.len() >= 1
        &&& t[0] matches FsEvent::MkdirP { path, reply }
        &&& path == dest
        &&& match reply {
            Err(e) => t.len() == 1 && r == Applied::Err(no_destination(dest, e)),
            Ok(_) => run_at_destination(s, kept, dest, buckets, t.skip(1), r),
        }
    }
}

/// The history of an apply once its destination is there.
pub open spec fn run_at_destination(
    s: SessionView,
    kept: SessionView,
    dest: Seq<char>,
    buckets: Seq<Seq<char>>,
    t: Seq<FsEvent>,
    r: Applied,
) -> bool {
    exists|
        a: Seq<FsEvent>,
        b: Seq<FsEvent>,
        c: Seq<FsEvent>,
        existing: Seq<Seq<char>>,
        sizes: Seq<(Seq<char>, u64)>,
        leftovers: int,
        out: Result<ReportView, ApplyErrorView>,
    |
        {
            &&& t == a + b + c
            &&& #[trigger] gather_ran(kept, dest, buckets, a, existing, sizes, leftovers)
            &&& #[trigger] applied(planned(kept, dest, buckets, existing, sizes), journal_of(dest), b, out)
            &&& #[trigger] run_ended(s, dest, journal_of(dest), c, out, r)
        }
}

/// The history of an apply after its moves.
pub open spec fn run_ended(
    s: SessionView,
    dest: Seq<char>,
    journal_path: Seq<char>,
    t: Seq<FsEvent>,
    out: Result<ReportView, ApplyErrorView>,
    r: Applied,
) -> bool {
    match out {
        Err(e) => t.len() == 0 && r == Applied::Err(shown_error(e, journal_path)),
        Ok(report) => {
            &&& r matches Ok((given, warning))
            &&& given == report
            &&& finish_ran(unmarked(s), dest, t, warning)
        },
    }
}

/// The history of an apply from the start.
pub open spec fn run_apply_ran(
    s: SessionView,
    dest: Seq<char>,
    buckets: Seq<Seq<char>>,
    t: Seq<FsEvent>,
    r: Applied,
) -> bool {
    exists|a: Seq<FsEvent>, b: Seq<FsEvent>, kept: SessionView, stale: Seq<Seq<char>>|
        {
            &&& t == a + b
            &&& #[trigger] partition_ran(s, a, kept, stale)
            &&& #[trigger] run_of_kept(s, kept, stale.len(), dest, buckets, b, r)
        }
}

fn nothing_left_words(stale: usize) -> (r: String)
    ensures
        r@ == nothing_left(stale as nat),
{
    let mut s = String::from_str("Apply refused: nothing left to apply, ");
    s.append(count_text(stale).as_str());
    s.append(" shot");
    if stale != 1 {
        s.append("s");
    } else {
        s.append("");
    }
    s.append(" stale (source files vanished since scan).");
    s
}

fn no_destination_words(dest: &str, e: &crate::fsops::FsError) -> (r: String)
    ensures
        r@ == no_destination(dest@, e@),
{
    let mut s = String::from_str("Could not create destination ");
    s.append(dest);
    s.append(": ");
    s.append(e.message.as_str());
    s
}

fn run_kept<F: FsOps>(
    session: Session,
    kept: &Session,
    dest: &str,
    buckets: &[String; 5],
    fs: &mut FsLog<F>,
) -> (r: Result<(ApplyReport, Option<String>), String>)
    ensures
        extends(final(fs).log(), old(fs).log()),
        run_at_destination(
            session@,
            kept@,
            dest@,
            texts(buckets@),
            since(final(fs).log(), old(fs).log()),
            applied_view(r),
        ),
{
    let ghost start = fs.log();
    let ghost s = session@;
    let (existing, sizes, leftovers) = gather_apply_inputs(kept, dest, buckets, fs);
    let ghost l1 = fs.log();
    let made = plan(kept, dest, buckets, &existing, &sizes);
    let journal_path = join_path(dest, JOURNAL_FILE);
    let ran = apply(&made, fs, journal_path.as_str());
    let ghost l2 = fs.log();
    let ghost out = run_outcome(ran);
    proof {
        since_adds_up(start, l1, l2);
        assert(gather_ran(
            kept@,
            dest@,
            texts(buckets@),
            since(l1, start),
            texts(existing@),
            size_views(sizes@),
            leftovers as int,
        ));
        assert(applied(
            planned(kept@, dest@, texts(buckets@), texts(existing@), size_views(sizes@)),
            journal_of(dest@),
            since(l2, l1),
            out,
        ));
    }
    let r: Result<(ApplyReport, Option<String>), String> = match ran {
        Err(e) => {
            proof {
                since_starts_empty(l2);
            }
            Err(format_apply_error(&e, journal_path.as_str()))
        },
        Ok(report) => {
            let mut done = session;
            done.pending_apply = None;
            assert(done@ == unmarked(s));
            Ok(finish_apply(report, done, dest, fs))
        },
    };
    proof {
        since_adds_up(start, l2, fs.log());
        assert(run_ended(s, dest@, journal_of(dest@), since(fs.log(), l2), out, applied_view(r)));
    }
    r
}

/// Applies a session: shots that have lost a file are left out, the destination is made,
/// the plan is made and carried out, and the record is moved there without the note of the
/// apply. Where every shot has lost a file nothing is touched.
pub fn run_apply<F: FsOps>(
    session: Session,
    dest: &str,
    buckets: &[String; 5],
    fs: &mut FsLog<F>,
) -> (r: Result<(ApplyReport, Option<String>), String>)
    ensures
        extends(final(fs).log(), old(fs).log()),
        run_apply_ran(
            session@,
            dest@,
            texts(buckets@),
            since(final(fs).log(), old(fs).log()),
            applied_view(r),
        ),
{
    let ghost start = fs.log();
    let ghost s = session@;
    let (kept, stale) = partition_stale(&session, fs);
    let ghost l1 = fs.log();
    let ghost kv = kept@;
    proof {
        since_starts_empty(l1);
        assert(partition_ran(s, since(l1, start), kv, texts(stale@)));
    }
    if session.shots.len() > 0 && kept.shots.len() == 0 {
        let r: Result<(ApplyReport, Option<String>), String> = Err(
            nothing_left_words(stale.len()),
        );
        proof {
            let none = Seq::<FsEvent>::empty();
            assert(since(l1, start) + none =~= since(l1, start));
            assert(run_of_kept(
                s,
                kv,
                texts(stale@).len(),
                dest@,
                texts(buckets@),
                none,
                applied_view(r),
            ));
        }
        return r;
    }
    let made = fs.mkdir_p(dest);
    let ghost l2 = fs.log();
    proof {
        since_grows(l1, l1, l2);
    }
    let r = match made {
        Err(e) => {
            let r: Result<(ApplyReport, Option<String>), String> = Err(
                no_destination_words(dest, &e),
            );
            r
        },
        Ok(()) => {
            let r = run_kept(session, &kept, dest, buckets, fs);
            proof {
                since_adds_up(l1, l2, fs.log());
                assert(since(fs.log(), l1).skip(1) =~= since(fs.log(), l2));
            }
            r
        },
    };
    proof {
        since_adds_up(start, l1, fs.log());
        assert(run_of_kept(
            s,
            kv,
            texts(stale@).len(),
            dest@,
            texts(buckets@),
            since(fs.log(), l1),
            applied_view(r),
        ));
    }
    r
}

/// The history of resuming an apply. The record is moved only where the session noted the
/// apply.
pub open spec fn resume_ran(
    journal: Seq<char>,
    dest: Seq<char>,
    s: SessionView,
    relocate: bool,
    t: Seq<FsEvent>,
    r: Applied,
) -> bool {
    exists|a: Seq<FsEvent>, b: Seq<FsEvent>, out: Result<ReportView, ApplyErrorView>|
        {
            &&& t == a + b
            &&& #[trigger] resumed(journal, a, out)
            &&& #[trigger] resume_ended(journal, dest, s, relocate, b, out, r)
        }
}

/// The history of resuming an apply after its moves.
pub open spec fn resume_ended(
    journal: Seq<char>,
    dest: Seq<char>,
    s: SessionView,
    relocate: bool,
    t: Seq<FsEvent>,
    out: Result<ReportView, ApplyErrorView>,
    r: Applied,
) -> bool {
    match out {
        Ok(report) if !relocate => t.len() == 0 && r == Applied::Ok((report, None)),
        _ => run_ended(s, dest, journal, t, out, r),
    }
}

/// Resumes an apply from its journal. Where the session noted the apply (`relocate`) its
/// record is moved to the destination, as at the end of any apply.
pub fn resume_on_worker<F: FsOps>(
    journal: &str,
    dest: &str,
    session: Session,
    relocate: bool,
    fs: &mut FsLog<F>,
) -> (r: Result<(ApplyReport, Option<String>), String>)
    ensures
        extends(final(fs).log(), old(fs).log()),
        resume_ran(
            journal@,
            dest@,
            session@,
            relocate,
            since(final(fs).log(), old(fs).log()),
            applied_view(r),
        ),
{
    let ghost start = fs.log();
    let ghost s = session@;
    let ran = resume(journal, fs);
    let ghost l1 = fs.log();
    let ghost out = run_outcome(ran);
    proof {
        since_starts_empty(l1);
        assert(resumed(journal@, since(l1, start), out));
    }
    let r: Result<(ApplyReport, Option<String>), String> = match ran {
        Err(e) => Err(format_apply_error(&e, journal)),
        Ok(report) => {
            if relocate {
                let mut done = session;
                done.pending_apply = None;
                assert(done@ == unmarked(s));
                Ok(finish_apply(report, done, dest, fs))
            } else {
                Ok((report, None))
            }
        },
    };
    proof {
        since_adds_up(start, l1, fs.log());
        assert(resume_ended(
            journal@,
            dest@,
            s,
            relocate,
            since(fs.log(), l1),
            out,
            applied_view(r),
        ));
    }
    r
}

/// The session with the note that an apply was started.
pub open spec fn marked(s: SessionView, dest: Seq<char>) -> SessionView {
    SessionView { pending_apply: Some(dest), ..s }
}

/// The words where the note could not be saved.
pub open spec fn not_noted(file: Seq<char>, e: PersistErrorView) -> Seq<char> {
    "Cannot start apply: failed to record the crash-recovery breadcrumb in "@ + file + ": "@
        + persist_error_words(e) + " \u{2014} the apply was NOT started. Fix the source volume (read-only/full?) and retry."@
}

/// The history of noting in the session that an apply is started: the session is saved
/// with the note. Where that fails the note is taken away again.
pub open spec fn breadcrumb_recorded(
    before: SessionView,
    dest: Seq<char>,
    file: Seq<char>,
    t: Seq<FsEvent>,
    after: SessionView,
    r: Option<Seq<char>>,
) -> bool {
    exists|w: Result<(), PersistErrorView>|
        #[trigger] save_ran(marked(before, dest), file, t, w) && match w {
            Ok(_) => after == marked(before, dest) && r is None,
            Err(e) => after == unmarked(before) && r == Some(not_noted(file, e)),
        }
}

/// Notes in the session, and in its record, that an apply is started. An apply that could
/// not be noted must not start.
pub fn record_breadcrumb<F: FsOps>(
    session: &mut Session,
    dest: &str,
    session_file: &str,
    fs: &mut FsLog<F>,
) -> (r: Result<(), String>)
    ensures
        extends(final(fs).log(), old(fs).log()),
        breadcrumb_recorded(
            old(session)@,
            dest@,
            session_file@,
            since(final(fs).log(), old(fs).log()),
            final(session)@,
            failure(r),
        ),
{
    let ghost start = fs.log();
    let ghost before = session@;
    session.pending_apply = Some(dest.to_owned());
    assert(session@ == marked(before, dest@));
    let wrote = save(session, session_file, fs);
    assert(save_ran(marked(before, dest@), session_file@, since(fs.log(), start), saved(wrote)));
    match wrote {
        Ok(()) => Ok(()),
        Err(e) => {
            session.pending_apply = None;
            assert(session@ == unmarked(before));
            let mut s = String::from_str(
                "Cannot start apply: failed to record the crash-recovery breadcrumb in ",
            );
            s.append(session_file);
            s.append(": ");
            s.append(e.describe().as_str());
            s.append(
                " \u{2014} the apply was NOT started. Fix the source volume (read-only/full?) and retry.",
            );
            Err(s)
        },
    }
}

/// The words for what an apply did, after `verb`.
pub open spec fn done_words(
    verb: Seq<char>,
    report: ReportView,
    warning: Option<Seq<char>>,
) -> Seq<char> {
    let s = verb + decimal(report.moved_shots as nat) + " shots, "@ + decimal(
        report.moved_files as nat,
    ) + " files moved, "@ + decimal(report.sidecars_written as nat) + " sidecars written."@;
    match warning {
        Some(w) => s + "\n\nWarning: "@ + w,
        None => s,
    }
}

fn done_message(verb: &str, report: &ApplyReport, warning: &Option<String>) -> (r: String)
    ensures
        r@ == done_words(verb@, report@, opt_text(*warning)),
{
    let mut s = verb.to_owned();
    s.append(count_text(report.moved_shots).as_str());
    s.append(" shots, ");
    s.append(count_text(report.moved_files).as_str());
    s.append(" files moved, ");
    s.append(count_text(report.sidecars_written).as_str());
    s.append(" sidecars written.");
    if let Some(w) = warning {
        s.append("\n\nWarning: ");
        s.append(w.as_str());
    }
    s
}

/// The words for an apply that was resumed and ended well.
pub fn crash_success_message(report: &ApplyReport, warning: &Option<String>) -> (r: String)
    ensures
        r@ == done_words("Recovered: "@, report@, opt_text(*warning)),
{
    done_message("Recovered: ", report, warning)
}

/// The words for an apply that ended well.
pub fn apply_success_message(report: &ApplyReport, warning: &Option<String>) -> (r: String)
    ensures
        r@ == done_words("Applied: "@, report@, opt_text(*warning)),
{
    done_message("Applied: ", report, warning)
}

/// A failure at the journal or at what is written beside it is told as one of bookkeeping,
/// and a failure at any other file as one of its move; both name the file and the reason.
pub proof fn a_failure_is_told_by_where_it_was(
    base: Seq<char>,
    name: Seq<char>,
    e: FsErrorView,
    journal_path: Seq<char>,
)
    requires
        is_one_name(name),
    ensures
        ({
            let path = join(base, name);
            let words = shown_error(ApplyErrorView::Fs { path, source: e }, journal_path);
            let own = path == journal_path || ".fastcull-apply"@.is_prefix_of(name);
            &&& own ==> ("Apply bookkeeping (journal) write failed at "@ + path + ": "@
                + e.message).is_prefix_of(words)
            &&& !".fastcull-apply"@.is_prefix_of(name) && !same_place(path, journal_path)
                ==> words == "Move failed at "@ + path + ": "@ + e.message
        }),
{
    a_joined_name_is_found_again(base, name, name);
}

/// A failure at a photo is not told as one of bookkeeping, even in the folder of the journal:
/// a file that is not named as the journal is told by its move.
pub proof fn a_photo_is_not_bookkeeping(
    base: Seq<char>,
    name: Seq<char>,
    e: FsErrorView,
)
    requires
        base.len() > 0,
        base.last() != '/',
        is_one_name(name),
        !".fastcull-apply"@.is_prefix_of(name),
    ensures
        shown_error(
            ApplyErrorView::Fs { path: join(base, name), source: e },
            join(base, ".fastcull-apply.json"@),
        ) == "Move failed at "@ + join(base, name) + ": "@ + e.message,
{
    reveal_strlit(".fastcull-apply");
    reveal_strlit(".fastcull-apply.json");
    let j = ".fastcull-apply.json"@;
    assert(j.len() == 20);
    assert(!j.contains('/')) by {
        if j.contains('/') {
            let i = choose|i: int| 0 <= i < j.len() && j[i] == '/';
        }
    }
    assert(is_one_name(j));
    assert(".fastcull-apply"@.is_prefix_of(j)) by {
        assert(".fastcull-apply"@ =~= j.take(15));
    }
    a_joined_name_is_found_again(base, name, name);
    components_are_those_of_the_folder_and_the_name(base, name, j);
}

/// A collision names the place that was taken, and a refusal its reason.
pub proof fn a_refusal_names_its_reason(p: Seq<char>, journal_path: Seq<char>)
    ensures
        ("Collision: "@ + p).is_prefix_of(shown_error(ApplyErrorView::Collision(p), journal_path)),
        shown_error(ApplyErrorView::Preflight(p), journal_path) == "Apply refused: "@ + p,
{
    let words = shown_error(ApplyErrorView::Collision(p), journal_path);
    assert("Collision: "@ + p =~= words.take(("Collision: "@ + p).len() as int));
}

/// Whether the text tells what an apply did with these numbers.
pub open spec fn tells_done(
    text: Seq<char>,
    verb: Seq<char>,
    shots: Seq<char>,
    files: Seq<char>,
    sidecars: Seq<char>,
) -> bool {
    (verb + shots + " shots, "@ + files + " files moved, "@ + sidecars
        + " sidecars written."@).is_prefix_of(text)
}

/// The words on an apply that is done tell how many shots and files moved and how many
/// sidecars were written, and end with the warning where there is one.
pub proof fn a_done_apply_is_told_in_numbers(
    verb: Seq<char>,
    report: ReportView,
    warning: Option<Seq<char>>,
)
    requires
        report.moved_shots >= 0,
        report.moved_files >= 0,
        report.sidecars_written >= 0,
    ensures
        exists|shots: Seq<char>, files: Seq<char>, sidecars: Seq<char>|
            {
                &&& #[trigger] tells_done(
                    done_words(verb, report, warning),
                    verb,
                    shots,
                    files,
                    sidecars,
                )
                &&& number_in(shots) == report.moved_shots
                &&& number_in(files) == report.moved_files
                &&& number_in(sidecars) == report.sidecars_written
            },
        warning matches Some(w) ==> done_words(verb, report, warning) == done_words(
            verb,
            report,
            None,
        ) + "\n\nWarning: "@ + w,
{
    a_written_number_reads_back(report.moved_shots as nat);
    a_written_number_reads_back(report.moved_files as nat);
    a_written_number_reads_back(report.sidecars_written as nat);
    assert(tells_done(
        done_words(verb, report, warning),
        verb,
        decimal(report.moved_shots as nat),
        decimal(report.moved_files as nat),
        decimal(report.sidecars_written as nat),
    ));
}

/// Noting an apply notes its destination and leaves everything else of the session as it is;
/// taking the note away again gives the session without one.
pub proof fn noting_an_apply_keeps_the_rest(s: SessionView, dest: Seq<char>)
    ensures
        marked(s, dest).pending_apply == Some(dest),
        marked(s, dest).shots == s.shots,
        marked(s, dest).decisions == s.decisions,
        marked(s, dest).current == s.current,
        marked(s, dest).undo == s.undo,
        marked(s, dest).source_dir == s.source_dir,
        s.pending_apply is None ==> unmarked(marked(s, dest)) == s,
{
}

/// An apply is noted only where the note was saved; where it was not, no note is left and the
/// reason is told.
pub proof fn an_apply_is_noted_only_where_the_note_was_saved(
    before: SessionView,
    dest: Seq<char>,
    file: Seq<char>,
    t: Seq<FsEvent>,
    after: SessionView,
    r: Option<Seq<char>>,
)
    requires
        breadcrumb_recorded(before, dest, file, t, after, r),
    ensures
        t[0] is EncodeSession && t[0]->EncodeSession_session.pending_apply == Some(dest)
            && t[0]->EncodeSession_session.decisions == before.decisions,
        after.pending_apply is Some ==> after.pending_apply == Some(dest) && t.last() is Rename
            && t.last()->Rename_reply is Ok && t.last()->Rename_to == file,
        r is None <==> after.pending_apply is Some,
        after.decisions == before.decisions,
        after.shots == before.shots,
        after.current == before.current,
        after.undo == before.undo,
{
}

/// A record that was brought to the destination was saved there, and none is left behind: it
/// was moved, or the one at the source is taken away. Where it could not be saved, the one
/// at the source is not taken away.
pub proof fn a_record_is_brought_before_it_is_taken_away(
    s: SessionView,
    to: Seq<char>,
    t: Seq<FsEvent>,
    r: Option<Seq<char>>,
)
    requires
        record_brought(s, to, t, r),
    ensures
        t[0] is RenameNoreplace && t[0]->RenameNoreplace_to == to && t[0]->RenameNoreplace_from
            == join(s.source_dir, ".fastcull.json"@),
        r is Some ==> forall|k: int| 0 <= k < t.len() ==> !((#[trigger] t[k]) is RemoveFile),
        r is None ==> saved_to(t, to),
        r is None && t[0]->RenameNoreplace_reply is Err ==> t.last() is RemoveFile
            && t.last()->RemoveFile_path == t[0]->RenameNoreplace_from,
{
    let u = t.skip(1);
    if t[0]->RenameNoreplace_reply is Ok || r is Some {
        let w = choose|w: Result<(), PersistErrorView>|
            #[trigger] save_ran(s, to, u, w) && r == save_failure(w);
        a_record_is_replaced_whole_or_not_at_all(s, to, u, w);
        assert forall|k: int| 0 <= k < t.len() implies !((#[trigger] t[k]) is RemoveFile) by {
            if k > 0 {
                assert(u[k - 1] == t[k]);
            }
        }
        if r is None {
            assert(u.last() == t.last());
            assert(lands_at(t[t.len() - 1], to));
        }
    } else {
        let v = u.drop_last();
        let w = choose|w: Result<(), PersistErrorView>|
            #[trigger] save_ran(s, to, v, w) && r == save_failure(w);
        a_record_is_replaced_whole_or_not_at_all(s, to, v, w);
        assert(v.last() == t[t.len() - 2]);
        assert(lands_at(t[t.len() - 2], to));
    }
}

/// Whether a file was renamed to the place.
pub open spec fn lands_at(e: FsEvent, to: Seq<char>) -> bool {
    e is Rename && e->Rename_to == to && e->Rename_reply is Ok
}

/// Whether something was renamed to the place in the course of the history.
pub open spec fn saved_to(t: Seq<FsEvent>, to: Seq<char>) -> bool {
    exists|k: int| 0 <= k < t.len() && lands_at(#[trigger] t[k], to)
}

/// A warning is shown exactly where the record could not be brought along, and holds the
/// reason.
pub proof fn a_warning_is_for_a_record_left_behind(
    s: SessionView,
    dest: Seq<char>,
    t: Seq<FsEvent>,
    warning: Option<Seq<char>>,
)
    requires
        finish_ran(s, dest, t, warning),
    ensures
        exists|failed: Option<Seq<char>>| #[trigger]
            relocate_ran(s, dest, t, failed) && (warning is Some <==> failed is Some) && (
            failed is Some ==> holds_words(warning->0, failed->0)),
{
    let failed = choose|failed: Option<Seq<char>>|
        #[trigger] relocate_ran(s, dest, t, failed) && warning == warning_for(failed);
    if let Some(w) = failed {
        let a = "Photos moved successfully, but the session audit copy could not be written to the destination: "@;
        let b = ". Your photos are safe in the destination; only the .fastcull.json record is missing."@;
        assert(record_warning(w) == (a + w) + b);
        assert(holds_words(record_warning(w), w));
    }
}

/// Whether the words stand in the text.
pub open spec fn holds_words(text: Seq<char>, words: Seq<char>) -> bool {
    exists|a: Seq<char>, b: Seq<char>| text == #[trigger] ((a + words) + b)
}

/// A run is refused before anything is touched where there were shots and none of them is
/// left; otherwise the destination is made first, and where that fails nothing else is done.
pub proof fn a_run_starts_with_its_destination(
    s: SessionView,
    kept: SessionView,
    stale: nat,
    dest: Seq<char>,
    buckets: Seq<Seq<char>>,
    t: Seq<FsEvent>,
    r: Applied,
)
    requires
        run_of_kept(s, kept, stale, dest, buckets, t, r),
    ensures
        s.shots.len() > 0 && kept.shots.len() == 0 ==> t.len() == 0 && r is Err,
        s.shots.len() == 0 || kept.shots.len() > 0 ==> {
            &&& t.len() > 0
            &&& t[0] is MkdirP
            &&& t[0]->MkdirP_path == dest
            &&& t[0]->MkdirP_reply matches Err(e) ==> t.len() == 1 && r is Err && holds_words(
                r->Err_0,
                dest,
            )
        },
{
    if (s.shots.len() == 0 || kept.shots.len() > 0) && t[0]->MkdirP_reply is Err {
        let e = t[0]->MkdirP_reply->Err_0;
        let rest = ": "@ + e.message;
        assert(no_destination(dest, e) =~= ("Could not create destination "@ + dest) + rest);
        assert(holds_words(no_destination(dest, e), dest));
    }
}

/// How a run ended is what is shown: a failure in its words and with nothing done to the
/// record, a success with its report, and the record is brought along without the note.
pub proof fn a_run_is_shown_as_it_ended(
    s: SessionView,
    dest: Seq<char>,
    journal_path: Seq<char>,
    t: Seq<FsEvent>,
    out: Result<ReportView, ApplyErrorView>,
    r: Applied,
)
    requires
        run_ended(s, dest, journal_path, t, out, r),
    ensures
        r is Ok <==> out is Ok,
        out is Err ==> t.len() == 0,
        out matches Ok(report) ==> r->Ok_0.0 == report,
        out is Ok ==> finish_ran(SessionView { pending_apply: None, ..s }, dest, t, r->Ok_0.1),
{
}

/// Without a free name for the record nothing is done and that is told.
pub proof fn a_record_without_a_name_is_not_brought(
    s: SessionView,
    t: Seq<FsEvent>,
    r: Option<Seq<char>>,
)
    requires
        record_at(s, None, t, r),
    ensures
        t.len() == 0,
        r is Some,
        r->0.len() > 0,
{
    reveal_strlit("no free name for the session record");
}

/// After an apply was resumed its record is brought along only where the session had noted
/// the apply; otherwise nothing more is done, and there is nothing to warn of.
pub proof fn a_resumed_apply_brings_its_own_record(
    journal: Seq<char>,
    dest: Seq<char>,
    s: SessionView,
    relocate: bool,
    t: Seq<FsEvent>,
    out: Result<ReportView, ApplyErrorView>,
    r: Applied,
)
    requires
        resume_ended(journal, dest, s, relocate, t, out, r),
    ensures
        r is Ok <==> out is Ok,
        out matches Ok(report) ==> r->Ok_0.0 == report,
        out is Ok && !relocate ==> t.len() == 0 && r->Ok_0.1 is None,
        out is Ok && relocate ==> finish_ran(
            SessionView { pending_apply: None, ..s },
            dest,
            t,
            r->Ok_0.1,
        ),
        out is Err ==> t.len() == 0,
{
}

/// Whether the text says with this number that nothing is left.
pub open spec fn says_nothing_left(text: Seq<char>, number: Seq<char>) -> bool {
    text == "Apply refused: nothing left to apply, "@ + number + " shot"@ + (if number_in(number)
        == 1 {
        ""@
    } else {
        "s"@
    }) + " stale (source files vanished since scan)."@
}

/// A run that has nothing left tells how many shots are stale, in the singular for one.
pub proof fn what_is_stale_is_told_in_numbers(stale: nat)
    ensures
        exists|number: Seq<char>| #[trigger]
            says_nothing_left(nothing_left(stale), number) && number_in(number) == stale,
{
    a_written_number_reads_back(stale);
    assert(says_nothing_left(nothing_left(stale), decimal(stale)));
}

} // verus!
