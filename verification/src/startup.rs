//! Startup: the names of the buckets, the session that a scan and a record make, and the
//! signs of an apply that was interrupted.
use vstd::prelude::*;
use crate::decisions::DecisionMap;
use crate::fsops::{own_error, FsError, FsErrorKind, FsErrorView, FsEvent, FsLog, FsOps};
use crate::journal::{Journal, OpState};
use crate::model::{
    clone_opt, opt_text, shot_views, Session, SessionView, Shot, ShotView, BUCKET_BESTS,
    BUCKET_KEEP, BUCKET_PICKS, BUCKET_REJECTED, BUCKET_REST, JOURNAL_FILE,
};
use crate::paths::{
    above, components, components_are_those_of_the_folder_and_the_name, file_name, here,
    is_one_name, join, join_path, lemma_last_piece, parent, root, same_path, same_place, settled,
};
use crate::plan::PlanView;
use crate::records::{extends, since, since_adds_up, since_grows, since_starts_empty};
use crate::text::{
    a_written_number_reads_back, contains_char, count_text, decimal, number_in, same_text, texts,
};

verus! {

/// What the command line says.
#[derive(PartialEq, Eq, Debug)]
pub struct Cli {
    /// The folder to cull; without one it is picked on the startup screen.
    pub source: Option<String>,
    /// Whether a tier leaves the current shot where it is.
    pub no_auto_advance: bool,
    pub bucket_rejected: Option<String>,
    pub bucket_rest: Option<String>,
    pub bucket_keep: Option<String>,
    pub bucket_picks: Option<String>,
    pub bucket_bests: Option<String>,
}

/// The names that the buckets have by default.
pub open spec fn default_names() -> Seq<Seq<char>> {
    seq![BUCKET_REJECTED@, BUCKET_REST@, BUCKET_KEEP@, BUCKET_PICKS@, BUCKET_BESTS@]
}

/// The names that the buckets have by default.
pub fn default_buckets() -> (r: [String; 5])
    ensures
        texts(r@) == default_names(),
{
    let r = [
        BUCKET_REJECTED.to_owned(),
        BUCKET_REST.to_owned(),
        BUCKET_KEEP.to_owned(),
        BUCKET_PICKS.to_owned(),
        BUCKET_BESTS.to_owned(),
    ];
    assert(texts(r@) =~= default_names());
    r
}

/// A name that was given, or else the default.
pub open spec fn given_or(o: Option<String>, default: Seq<char>) -> Seq<char> {
    match o {
        Some(s) => s@,
        None => default,
    }
}

fn given(o: &Option<String>, default: &str) -> (r: String)
    ensures
        r@ == given_or(*o, default@),
{
    match o {
        Some(s) => s.clone(),
        None => default.to_owned(),
    }
}

/// The names of the buckets: those given on the command line, the default for the others.
pub fn resolve_buckets(cli: &Cli) -> (r: [String; 5])
    ensures
        texts(r@) == seq![
            given_or(cli.bucket_rejected, BUCKET_REJECTED@),
            given_or(cli.bucket_rest, BUCKET_REST@),
            given_or(cli.bucket_keep, BUCKET_KEEP@),
            given_or(cli.bucket_picks, BUCKET_PICKS@),
            given_or(cli.bucket_bests, BUCKET_BESTS@),
        ],
{
    let r = [
        given(&cli.bucket_rejected, BUCKET_REJECTED),
        given(&cli.bucket_rest, BUCKET_REST),
        given(&cli.bucket_keep, BUCKET_KEEP),
        given(&cli.bucket_picks, BUCKET_PICKS),
        given(&cli.bucket_bests, BUCKET_BESTS),
    ];
    assert(texts(r@) =~= seq![
        given_or(cli.bucket_rejected, BUCKET_REJECTED@),
        given_or(cli.bucket_rest, BUCKET_REST@),
        given_or(cli.bucket_keep, BUCKET_KEEP@),
        given_or(cli.bucket_picks, BUCKET_PICKS@),
        given_or(cli.bucket_bests, BUCKET_BESTS@),
    ]);
    r
}

/// The session that a scan and the record of an earlier one make. Decisions and an apply
/// that was started carry over; the place is kept within the shots; there is nothing to
/// undo.
pub open spec fn reattached(
    source: Seq<char>,
    shots: Seq<ShotView>,
    prev: Option<SessionView>,
) -> SessionView {
    match prev {
        Some(p) => SessionView {
            source_dir: source,
            shots,
            decisions: p.decisions,
            current: if shots.len() == 0 {
                0
            } else if p.current < shots.len() {
                p.current
            } else {
                shots.len() - 1
            },
            pending_apply: p.pending_apply,
            undo: Seq::empty(),
        },
        None => SessionView {
            source_dir: source,
            shots,
            decisions: Map::empty(),
            current: 0,
            pending_apply: None,
            undo: Seq::empty(),
        },
    }
}

/// The value of an optional session.
pub open spec fn opt_session(o: Option<Session>) -> Option<SessionView> {
    match o {
        Some(s) => Some(s@),
        None => None,
    }
}

/// Makes the session from a scan and the record of an earlier one.
pub fn reattach(source: &str, scanned: Vec<Shot>, prev: Option<Session>) -> (r: Session)
    ensures
        r@ == reattached(source@, shot_views(scanned@), opt_session(prev)),
{
    match prev {
        Some(p) => {
            let current: usize = if scanned.len() == 0 {
                0
            } else if p.current < scanned.len() {
                p.current
            } else {
                scanned.len() - 1
            };
            let s = Session {
                source_dir: source.to_owned(),
                shots: scanned,
                decisions: p.decisions,
                current,
                pending_apply: p.pending_apply,
                undo: Vec::new(),
            };
            assert(s@.undo =~= Seq::empty());
            s
        },
        None => {
            let s = Session {
                source_dir: source.to_owned(),
                shots: scanned,
                decisions: DecisionMap::new(),
                current: 0,
                pending_apply: None,
                undo: Vec::new(),
            };
            assert(s@.undo =~= Seq::empty());
            s
        },
    }
}

/// Decisions outlive a new scan: what was decided about a stem is decided about it in the
/// new session, whichever shots there are.
pub proof fn decisions_survive_a_rescan(
    source: Seq<char>,
    shots: Seq<ShotView>,
    prev: SessionView,
    stem: Seq<char>,
)
    ensures
        reattached(source, shots, Some(prev)).decision_of(stem) == prev.decision_of(stem),
        reattached(source, shots, Some(prev)).pending_apply == prev.pending_apply,
        shots.len() > 0 ==> 0 <= prev.current ==> 0 <= reattached(
            source,
            shots,
            Some(prev),
        ).current < shots.len(),
{
}

/// A cull goes on where it was left: the place is that of the record as long as there is a
/// shot at it, and otherwise the last shot. The new session has the scanned shots and the
/// folder that was opened, nothing to undo, and every decision and started apply of the
/// record.
pub proof fn a_cull_goes_on_where_it_was_left(
    source: Seq<char>,
    shots: Seq<ShotView>,
    prev: SessionView,
)
    ensures
        ({
            let s = reattached(source, shots, Some(prev));
            &&& 0 <= prev.current < shots.len() ==> s.current == prev.current
            &&& shots.len() > 0 && prev.current >= shots.len() ==> s.current == shots.len() - 1
            &&& shots.len() == 0 ==> s.current == 0
            &&& s.shots == shots
            &&& s.source_dir == source
            &&& s.decisions == prev.decisions
            &&& s.pending_apply == prev.pending_apply
            &&& s.undo.len() == 0
        }),
{
}

/// Opening a folder again with the same shots changes nothing of a session whose place is at
/// one of them, except that there is nothing to undo.
pub proof fn reopening_keeps_the_session(s: SessionView)
    requires
        0 <= s.current < s.shots.len(),
    ensures
        reattached(s.source_dir, s.shots, Some(s)) == (SessionView { undo: Seq::empty(), ..s }),
{
}

/// Without a record a cull starts afresh: at the first shot, with nothing decided, nothing
/// to undo and no apply started.
pub proof fn a_first_cull_starts_afresh(source: Seq<char>, shots: Seq<ShotView>)
    ensures
        ({
            let s = reattached(source, shots, None);
            &&& s.current == 0
            &&& s.shots == shots
            &&& s.source_dir == source
            &&& forall|stem: Seq<char>| !s.decisions.contains_key(stem)
            &&& s.pending_apply is None
            &&& s.undo.len() == 0
        }),
{
}

/// The history of telling whether the destination is the source folder itself: both are
/// brought to their plain form and compared; where one has none, they are compared as
/// they are.
pub open spec fn root_probed(
    source: Seq<char>,
    dest: Seq<char>,
    t: Seq<FsEvent>,
    r: bool,
) -> bool {
    &&& t.len() == 2
    &&& t[0] matches FsEvent::Canonicalize { path: p, reply: s }
    &&& p == source
    &&& t[1] matches FsEvent::Canonicalize { path: q, reply: d }
    &&& q == dest
    &&& r == match (s, d) {
        (Ok(s), Ok(d)) => same_place(s, d),
        _ => same_place(source, dest),
    }
}

/// Whether the destination is the source folder itself, which is refused. A folder below
/// it is not.
pub fn dest_is_source_root<F: FsOps>(source: &str, dest: &str, fs: &mut FsLog<F>) -> (r: bool)
    ensures
        extends(final(fs).log(), old(fs).log()),
        root_probed(source@, dest@, since(final(fs).log(), old(fs).log()), r),
{
    let ghost start = fs.log();
    proof {
        since_starts_empty(start);
    }
    let s = fs.canonicalize(source);
    let ghost l1 = fs.log();
    proof {
        since_grows(start, start, l1);
    }
    let d = fs.canonicalize(dest);
    proof {
        since_grows(start, l1, fs.log());
    }
    match (s, d) {
        (Ok(s), Ok(d)) => same_path(s.as_str(), d.as_str()),
        _ => same_path(source, dest),
    }
}

/// Where a folder holds the journal of an apply.
pub open spec fn journal_of(dir: Seq<char>) -> Seq<char> {
    join(dir, JOURNAL_FILE@)
}

/// The history of looking for the journal of an apply that was interrupted.
pub open spec fn crash_probed(dir: Seq<char>, t: Seq<FsEvent>, r: Option<Seq<char>>) -> bool {
    &&& t.len() == 1
    &&& t[0] == (FsEvent::IsFile { path: journal_of(dir), reply: r is Some })
    &&& r is Some ==> r->0 == journal_of(dir)
}

/// The journal of an apply that was interrupted: any that is there, whatever it holds,
/// since an apply that ends well removes its journal.
pub fn find_crashed_apply<F: FsOps>(dir: &str, fs: &mut FsLog<F>) -> (r: Option<String>)
    ensures
        extends(final(fs).log(), old(fs).log()),
        crash_probed(dir@, since(final(fs).log(), old(fs).log()), opt_text(r)),
{
    let ghost start = fs.log();
    proof {
        since_starts_empty(start);
    }
    let j = join_path(dir, JOURNAL_FILE);
    let there = fs.is_file(j.as_str());
    proof {
        since_grows(start, start, fs.log());
    }
    if there {
        Some(j)
    } else {
        None
    }
}

/// The value of a journal that was read, or of why none was.
pub open spec fn parsed(r: Result<Journal, FsError>) -> Result<
    (PlanView, Seq<OpState>),
    FsErrorView,
> {
    match r {
        Ok(j) => Ok((j.plan@, j.statuses@)),
        Err(e) => Err(e@),
    }
}

/// The history of reading a journal: the file is read and decoded. What cannot be decoded
/// is invalid data.
pub open spec fn parse_ran(
    path: Seq<char>,
    t: Seq<FsEvent>,
    r: Result<(PlanView, Seq<OpState>), FsErrorView>,
) -> bool {
    &&& t.len() >= 1
    &&& t[0] matches FsEvent::Read { path: p, reply }
    &&& p == path
    &&& match reply {
        Err(e) => t.len() == 1 && r == Err::<(PlanView, Seq<OpState>), _>(e),
        Ok(data) => {
            &&& t.len() == 2
            &&& t[1] matches FsEvent::DecodeJournal { bytes, reply: decoded }
            &&& bytes == data
            &&& r == match decoded {
                Ok(j) => Ok(j),
                Err(words) => Err(own_error(FsErrorKind::InvalidData, words)),
            }
        },
    }
}

/// Reads a journal.
pub fn parse_journal<F: FsOps>(path: &str, fs: &mut FsLog<F>) -> (r: Result<Journal, FsError>)
    ensures
        extends(final(fs).log(), old(fs).log()),
        parse_ran(path@, since(final(fs).log(), old(fs).log()), parsed(r)),
{
    let ghost start = fs.log();
    proof {
        since_starts_empty(start);
    }
    let read = fs.read(path);
    let ghost l1 = fs.log();
    proof {
        since_grows(start, start, l1);
    }
    let bytes = match read {
        Ok(b) => b,
        Err(e) => {
            return Err(e);
        },
    };
    let decoded = fs.decode_journal(&bytes);
    proof {
        since_grows(start, l1, fs.log());
    }
    match decoded {
        Ok(j) => Ok(j),
        Err(words) => Err(FsError::own(FsErrorKind::InvalidData, words)),
    }
}

/// How many moves are in a state.
pub open spec fn state_count(statuses: Seq<OpState>, want: OpState) -> nat
    decreases statuses.len(),
{
    if statuses.len() == 0 {
        0
    } else {
        state_count(statuses.drop_last(), want) + if statuses.last() == want {
            1nat
        } else {
            0nat
        }
    }
}

fn count_state(statuses: &Vec<OpState>, want: OpState) -> (r: usize)
    ensures
        r == state_count(statuses@, want),
        r <= statuses@.len(),
{
    let mut n: usize = 0;
    let mut i: usize = 0;
    assert(statuses@.take(0) =~= Seq::empty());
    while i < statuses.len()
        invariant
            0 <= i <= statuses@.len(),
            n <= i,
            n == state_count(statuses@.take(i as int), want),
        decreases statuses@.len() - i,
    {
        assert(statuses@.take(i + 1).drop_last() =~= statuses@.take(i as int));
        if statuses[i] == want {
            n += 1;
        }
        i += 1;
    }
    assert(statuses@.take(i as int) =~= statuses@);
    n
}

/// Every move is in one state.
pub proof fn every_move_has_one_state(statuses: Seq<OpState>)
    ensures
        state_count(statuses, OpState::Pending) + state_count(statuses, OpState::Published)
            + state_count(statuses, OpState::Done) + state_count(statuses, OpState::Failed)
            == statuses.len(),
    decreases statuses.len(),
{
    if statuses.len() > 0 {
        every_move_has_one_state(statuses.drop_last());
    }
}

/// The words for an apply that was interrupted. A move of which only the source is still
/// owed counts as pending.
pub open spec fn interrupted_words(dest: Seq<char>, statuses: Seq<OpState>) -> Seq<char> {
    let published = state_count(statuses, OpState::Published);
    let pending = state_count(statuses, OpState::Pending) + published;
    let words = "Interrupted apply into "@ + dest + "\n  done: "@ + decimal(
        state_count(statuses, OpState::Done),
    ) + "  pending: "@ + decimal(pending) + "  failed: "@ + decimal(
        state_count(statuses, OpState::Failed),
    );
    if published > 0 {
        words + "  (of pending, "@ + decimal(published) + " published-awaiting-unlink)"@
    } else {
        words
    }
}

/// The words for an apply that was interrupted.
pub fn journal_words(journal: &Journal) -> (r: String)
    ensures
        r@ == interrupted_words(journal.plan@.dest, journal.statuses@),
{
    proof {
        every_move_has_one_state(journal.statuses@);
        assert(journal.statuses.len() <= usize::MAX);
    }
    let done: usize = count_state(&journal.statuses, OpState::Done);
    let published: usize = count_state(&journal.statuses, OpState::Published);
    let pending: usize = count_state(&journal.statuses, OpState::Pending) + published;
    let failed: usize = count_state(&journal.statuses, OpState::Failed);
    let mut out = String::from_str("Interrupted apply into ");
    out.append(journal.plan.dest.as_str());
    out.append("\n  done: ");
    out.append(count_text(done).as_str());
    out.append("  pending: ");
    out.append(count_text(pending).as_str());
    out.append("  failed: ");
    out.append(count_text(failed).as_str());
    if published > 0 {
        out.append("  (of pending, ");
        out.append(count_text(published).as_str());
        out.append(" published-awaiting-unlink)");
    }
    out
}

/// The words of a report, or the value of why there is none.
pub open spec fn told(r: Result<String, FsError>) -> Result<Seq<char>, FsErrorView> {
    match r {
        Ok(s) => Ok(s@),
        Err(e) => Err(e@),
    }
}

/// The history of reporting on a journal.
pub open spec fn report_ran(
    path: Seq<char>,
    t: Seq<FsEvent>,
    r: Result<Seq<char>, FsErrorView>,
) -> bool {
    exists|j: Result<(PlanView, Seq<OpState>), FsErrorView>|
        #[trigger] parse_ran(path, t, j) && r == match j {
            Ok((plan, statuses)) => Ok(interrupted_words(plan.dest, statuses)),
            Err(e) => Err(e),
        }
}

/// Reports on the journal of an apply that was interrupted.
pub fn journal_report<F: FsOps>(path: &str, fs: &mut FsLog<F>) -> (r: Result<String, FsError>)
    ensures
        extends(final(fs).log(), old(fs).log()),
        report_ran(path@, since(final(fs).log(), old(fs).log()), told(r)),
{
    let ghost start = fs.log();
    let j = parse_journal(path, fs);
    assert(parse_ran(path@, since(fs.log(), start), parsed(j)));
    match j {
        Ok(j) => Ok(journal_words(&j)),
        Err(e) => Err(e),
    }
}

/// How many moves are done and how many there are.
pub open spec fn progress_in(statuses: Seq<OpState>) -> (usize, usize) {
    (state_count(statuses, OpState::Done) as usize, statuses.len() as usize)
}

/// How many moves of a journal are done and how many there are.
pub fn journal_progress(journal: &Journal) -> (r: (usize, usize))
    ensures
        r == progress_in(journal.statuses@),
{
    (count_state(&journal.statuses, OpState::Done), journal.statuses.len())
}

/// The value of the counts, or of why there are none.
pub open spec fn counted(r: Result<(usize, usize), FsError>) -> Result<
    (usize, usize),
    FsErrorView,
> {
    match r {
        Ok(c) => Ok(c),
        Err(e) => Err(e@),
    }
}

/// The history of counting the moves of a journal.
pub open spec fn counts_ran(
    path: Seq<char>,
    t: Seq<FsEvent>,
    r: Result<(usize, usize), FsErrorView>,
) -> bool {
    exists|j: Result<(PlanView, Seq<OpState>), FsErrorView>|
        #[trigger] parse_ran(path, t, j) && r == match j {
            Ok((_, statuses)) => Ok(progress_in(statuses)),
            Err(e) => Err(e),
        }
}

/// Counts the moves of a journal that are done, and all of them. A move of which the
/// source is still owed is not done.
pub fn journal_counts<F: FsOps>(path: &str, fs: &mut FsLog<F>) -> (r: Result<
    (usize, usize),
    FsError,
>)
    ensures
        extends(final(fs).log(), old(fs).log()),
        counts_ran(path@, since(final(fs).log(), old(fs).log()), counted(r)),
{
    let ghost start = fs.log();
    let j = parse_journal(path, fs);
    assert(parse_ran(path@, since(fs.log(), start), parsed(j)));
    match j {
        Ok(j) => Ok(journal_progress(&j)),
        Err(e) => Err(e),
    }
}

/// Whether a name is a single plain component of a path.
pub open spec fn is_plain(name: Seq<char>) -> bool {
    &&& name.len() > 0
    &&& name != "."@
    &&& name != ".."@
    &&& !name.contains('/')
    &&& !name.contains('\\')
    &&& !name.contains('\0')
}

/// Whether a name is a single plain component of a path: not empty, not `.` or `..`, and
/// without separators and NUL.
pub fn is_plain_component(name: &str) -> (r: bool)
    ensures
        r == is_plain(name@),
{
    if same_text(name, "") {
        proof {
            reveal_strlit("");
        }
        return false;
    }
    proof {
        reveal_strlit("");
        if name@.len() == 0 {
            assert(name@ =~= ""@);
        }
    }
    if same_text(name, ".") || same_text(name, "..") {
        return false;
    }
    !contains_char(name, '/') && !contains_char(name, '\\') && !contains_char(name, '\0')
}

/// A plain name stays below the folder that it is joined to: it names a child of it.
pub proof fn a_plain_name_stays_below(dest: Seq<char>, name: Seq<char>)
    requires
        is_plain(name),
    ensures
        file_name(join(dest, name)) == Some(name),
        parent(join(dest, name)) == Some(settled(dest)),
{
    reveal_strlit(".");
    reveal_strlit("..");
    assert(name.contains(name[0]));
    assert(name.contains(name.last()));
    let front = if dest.len() == 0 || dest.last() == '/' {
        dest
    } else {
        dest.push('/')
    };
    let p = join(dest, name);
    assert(p =~= front + name);
    lemma_last_piece(front, name);
    assert(p.last() == name.last());
    if p.len() > 1 && p.last() == '.' && p[p.len() - 2] == '/' {
        if name.len() > 1 {
            assert(name[name.len() - 2] == '/');
            assert(name.contains(name[name.len() - 2]));
        } else {
            assert(name =~= "."@);
        }
    }
    assert(settled(p) == p);
    if name == here() {
        assert(name =~= "."@);
    }
    if name == above() {
        assert(name =~= ".."@);
    }
    if p == root() {
        assert(p.last() == '/');
    }
    if dest.len() > 0 && dest.last() != '/' {
        assert(front.drop_last() =~= dest);
        assert(settled(front) == settled(dest));
    }
}

/// A text as the `Debug` format of `str` writes it.
pub uninterp spec fn quoted(s: Seq<char>) -> Seq<char>;

/// `format!` with the `Debug` format of `str`: the text in quotes and with escapes. What
/// comes back is named by the text.
#[verifier::external_body]
fn quoted_text(s: &str) -> (r: String)
    ensures
        r@ == quoted(s@),
{
    format!("{s:?}")
}

/// The words for a bucket name that is refused, given as it is quoted.
pub open spec fn refusal_words(q: Seq<char>) -> Seq<char> {
    "invalid bucket name "@ + q
        + ": must be a single plain path component (non-empty, not \".\"/\"..\", no path separators)"@
}

/// The words for a bucket name that is refused, given as it is quoted.
pub fn bucket_refusal(q: &str) -> (r: String)
    ensures
        r@ == refusal_words(q@),
{
    let mut s = String::from_str("invalid bucket name ");
    s.append(q);
    s.append(
        ": must be a single plain path component (non-empty, not \".\"/\"..\", no path separators)",
    );
    s
}

/// The first of the names that is not plain.
pub open spec fn first_unfit(names: Seq<Seq<char>>) -> Option<Seq<char>>
    decreases names.len(),
{
    if names.len() == 0 {
        None
    } else if !is_plain(names[0]) {
        Some(names[0])
    } else {
        first_unfit(names.drop_first())
    }
}

/// Accepts the names of the buckets if each is a single plain component of a path; refuses
/// them for the first that is not.
pub fn validate_buckets(buckets: &[String; 5]) -> (r: Result<(), String>)
    ensures
        match first_unfit(texts(buckets@)) {
            None => r is Ok,
            Some(name) => r is Err && r->Err_0@ == refusal_words(quoted(name)),
        },
{
    let ghost names = texts(buckets@);
    let mut i: usize = 0;
    assert(names.skip(0) =~= names);
    while i < 5
        invariant
            0 <= i <= 5,
            names == texts(buckets@),
            names.len() == 5,
            first_unfit(names) == first_unfit(names.skip(i as int)),
        decreases 5 - i,
    {
        assert(names[i as int] == buckets@[i as int]@);
        assert(names.skip(i as int)[0] == names[i as int]);
        assert(names.skip(i as int).drop_first() =~= names.skip(i + 1));
        if !is_plain_component(buckets[i].as_str()) {
            return Err(bucket_refusal(quoted_text(buckets[i].as_str()).as_str()));
        }
        i += 1;
    }
    Ok(())
}

/// What became of the note that an apply was started.
#[derive(PartialEq, Eq, Debug)]
pub enum BreadcrumbProbe {
    /// There was no such note.
    NoBreadcrumb,
    /// The journal of the apply is there. The note is kept.
    CrashedJournal(String),
    /// There is no journal at the destination, which is given. The note was taken away.
    StaleCleared(String),
}

/// The value of a `BreadcrumbProbe`.
pub enum ProbeView {
    NoBreadcrumb,
    CrashedJournal(Seq<char>),
    StaleCleared(Seq<char>),
}

impl View for BreadcrumbProbe {
    type V = ProbeView;

    open spec fn view(&self) -> ProbeView {
        match *self {
            BreadcrumbProbe::NoBreadcrumb => ProbeView::NoBreadcrumb,
            BreadcrumbProbe::CrashedJournal(j) => ProbeView::CrashedJournal(j@),
            BreadcrumbProbe::StaleCleared(d) => ProbeView::StaleCleared(d@),
        }
    }
}

/// The session without the note that an apply was started.
pub open spec fn unmarked(s: SessionView) -> SessionView {
    SessionView { pending_apply: None, ..s }
}

/// The history of looking after the note that an apply was started: its journal is looked
/// for at the destination, and without one the note is taken away.
pub open spec fn breadcrumb_ran(
    before: SessionView,
    t: Seq<FsEvent>,
    after: SessionView,
    r: ProbeView,
) -> bool {
    match before.pending_apply {
        None => t.len() == 0 && after == before && r == ProbeView::NoBreadcrumb,
        Some(dest) => {
            ||| crash_probed(dest, t, Some(journal_of(dest))) && after == before && r
                == ProbeView::CrashedJournal(journal_of(dest))
            ||| crash_probed(dest, t, None) && after == unmarked(before) && r
                == ProbeView::StaleCleared(dest)
        },
    }
}

/// Looks after the note that an apply was started.
pub fn probe_breadcrumb<F: FsOps>(session: &mut Session, fs: &mut FsLog<F>) -> (r: BreadcrumbProbe)
    ensures
        extends(final(fs).log(), old(fs).log()),
        breadcrumb_ran(
            old(session)@,
            since(final(fs).log(), old(fs).log()),
            final(session)@,
            r@,
        ),
{
    proof {
        since_starts_empty(fs.log());
    }
    let dest = match clone_opt(&session.pending_apply) {
        Some(d) => d,
        None => {
            return BreadcrumbProbe::NoBreadcrumb;
        },
    };
    match find_crashed_apply(dest.as_str(), fs) {
        Some(j) => BreadcrumbProbe::CrashedJournal(j),
        None => {
            session.pending_apply = None;
            BreadcrumbProbe::StaleCleared(dest)
        },
    }
}

/// An apply that was interrupted.
#[derive(PartialEq, Eq, Debug)]
pub struct CrashInfo {
    pub journal: String,
    /// The folder that holds the journal.
    pub dest: String,
    /// Whether the session itself noted the apply. Otherwise the source folder is where an
    /// earlier one was going.
    pub from_breadcrumb: bool,
}

/// The value of a `CrashInfo`.
pub struct CrashView {
    pub journal: Seq<char>,
    pub dest: Seq<char>,
    pub from_breadcrumb: bool,
}

impl View for CrashInfo {
    type V = CrashView;

    open spec fn view(&self) -> CrashView {
        CrashView {
            journal: self.journal@,
            dest: self.dest@,
            from_breadcrumb: self.from_breadcrumb,
        }
    }
}

impl Clone for CrashInfo {
    fn clone(&self) -> (r: Self)
        ensures
            r@ == self@,
    {
        CrashInfo {
            journal: self.journal.clone(),
            dest: self.dest.clone(),
            from_breadcrumb: self.from_breadcrumb,
        }
    }
}

/// What was found at startup.
#[derive(PartialEq, Eq, Debug)]
pub struct StartupScan {
    /// The destination of a note that was taken away for want of a journal.
    pub stale_cleared: Option<String>,
    /// The apply that is to be resumed.
    pub crash: Option<CrashInfo>,
}

/// The value of a `StartupScan`.
pub struct StartupView {
    pub stale_cleared: Option<Seq<char>>,
    pub crash: Option<CrashView>,
}

/// The value of an optional crash.
pub open spec fn opt_crash(o: Option<CrashInfo>) -> Option<CrashView> {
    match o {
        Some(c) => Some(c@),
        None => None,
    }
}

impl View for StartupScan {
    type V = StartupView;

    open spec fn view(&self) -> StartupView {
        StartupView { stale_cleared: opt_text(self.stale_cleared), crash: opt_crash(self.crash) }
    }
}

/// The history of looking for a journal in the source folder.
pub open spec fn source_probed(
    source: Seq<char>,
    t: Seq<FsEvent>,
    crash: Option<CrashView>,
) -> bool {
    ||| crash_probed(source, t, None) && crash is None
    ||| crash_probed(source, t, Some(journal_of(source))) && crash == Some(
        CrashView { journal: journal_of(source), dest: source, from_breadcrumb: false },
    )
}

/// The history of looking for an apply that was interrupted. The note of the session comes
/// first; where it leads to no journal, the source folder is looked at as well, whether or
/// not there was a note.
pub open spec fn startup_ran(
    before: SessionView,
    source: Seq<char>,
    t: Seq<FsEvent>,
    after: SessionView,
    r: StartupView,
) -> bool {
    match before.pending_apply {
        None => {
            &&& after == before
            &&& r.stale_cleared is None
            &&& source_probed(source, t, r.crash)
        },
        Some(dest) => {
            &&& t.len() >= 1
            &&& if crash_probed(dest, t.take(1), Some(journal_of(dest))) {
                &&& t.len() == 1
                &&& after == before
                &&& r.stale_cleared is None
                &&& r.crash == Some(
                    CrashView { journal: journal_of(dest), dest, from_breadcrumb: true },
                )
            } else {
                &&& crash_probed(dest, t.take(1), None)
                &&& after == unmarked(before)
                &&& r.stale_cleared == Some(dest)
                &&& source_probed(source, t.skip(1), r.crash)
            }
        },
    }
}

fn probe_source<F: FsOps>(source: &str, fs: &mut FsLog<F>) -> (r: Option<CrashInfo>)
    ensures
        extends(final(fs).log(), old(fs).log()),
        source_probed(source@, since(final(fs).log(), old(fs).log()), opt_crash(r)),
{
    match find_crashed_apply(source, fs) {
        Some(j) => Some(
            CrashInfo { journal: j, dest: source.to_owned(), from_breadcrumb: false },
        ),
        None => None,
    }
}

/// Looks for an apply that was interrupted.
pub fn find_startup_crash<F: FsOps>(
    session: &mut Session,
    source: &str,
    fs: &mut FsLog<F>,
) -> (r: StartupScan)
    ensures
        extends(final(fs).log(), old(fs).log()),
        startup_ran(
            old(session)@,
            source@,
            since(final(fs).log(), old(fs).log()),
            final(session)@,
            r@,
        ),
{
    let ghost start = fs.log();
    let noted = clone_opt(&session.pending_apply);
    let probe = probe_breadcrumb(session, fs);
    let ghost l1 = fs.log();
    match probe {
        BreadcrumbProbe::CrashedJournal(j) => {
            assert(since(l1, start).take(1) =~= since(l1, start));
            let dest = match noted {
                Some(d) => d,
                None => source.to_owned(),
            };
            StartupScan {
                stale_cleared: None,
                crash: Some(CrashInfo { journal: j, dest, from_breadcrumb: true }),
            }
        },
        BreadcrumbProbe::StaleCleared(d) => {
            let crash = probe_source(source, fs);
            proof {
                since_adds_up(start, l1, fs.log());
                assert(since(fs.log(), start).take(1) =~= since(l1, start));
                assert(since(fs.log(), start).skip(1) =~= since(fs.log(), l1));
            }
            StartupScan { stale_cleared: Some(d), crash }
        },
        BreadcrumbProbe::NoBreadcrumb => {
            let crash = probe_source(source, fs);
            proof {
                since_adds_up(start, l1, fs.log());
                assert(since(fs.log(), start) =~= since(fs.log(), l1));
            }
            StartupScan { stale_cleared: None, crash }
        },
    }
}

/// The places at which the moves are in a state.
pub open spec fn places_in_state(statuses: Seq<OpState>, want: OpState) -> Set<int> {
    Set::new(|k: int| 0 <= k < statuses.len() && statuses[k] == want)
}

/// The moves in a state are counted one by one.
pub proof fn states_are_counted_one_by_one(statuses: Seq<OpState>, want: OpState)
    ensures
        places_in_state(statuses, want).finite(),
        state_count(statuses, want) == places_in_state(statuses, want).len(),
        state_count(statuses, want) <= statuses.len(),
    decreases statuses.len(),
{
    if statuses.len() == 0 {
        assert(places_in_state(statuses, want) =~= Set::empty());
    } else {
        let front = statuses.drop_last();
        let n = statuses.len() - 1;
        states_are_counted_one_by_one(front, want);
        if statuses.last() == want {
            assert(places_in_state(statuses, want) =~= places_in_state(front, want).insert(n));
        } else {
            assert(places_in_state(statuses, want) =~= places_in_state(front, want));
        }
    }
}

/// The progress of a journal is how many moves are done, of how many there are.
pub proof fn progress_is_what_is_done_of_all(statuses: Seq<OpState>)
    requires
        statuses.len() <= usize::MAX,
    ensures
        progress_in(statuses).0 == places_in_state(statuses, OpState::Done).len(),
        progress_in(statuses).1 == statuses.len(),
{
    states_are_counted_one_by_one(statuses, OpState::Done);
}

/// Whether the text tells of an interrupted apply with these numbers.
pub open spec fn tells_of(
    text: Seq<char>,
    dest: Seq<char>,
    done: Seq<char>,
    pending: Seq<char>,
    failed: Seq<char>,
) -> bool {
    ("Interrupted apply into "@ + dest + "\n  done: "@ + done + "  pending: "@ + pending
        + "  failed: "@ + failed).is_prefix_of(text)
}

/// The words on an interrupted apply name its destination, how many moves are done, how many
/// failed, and how many are neither and so are still to be made.
pub proof fn an_interrupted_apply_is_told_in_numbers(dest: Seq<char>, statuses: Seq<OpState>)
    ensures
        exists|done: Seq<char>, pending: Seq<char>, failed: Seq<char>|
            {
                &&& #[trigger] tells_of(
                    interrupted_words(dest, statuses),
                    dest,
                    done,
                    pending,
                    failed,
                )
                &&& number_in(done) == places_in_state(statuses, OpState::Done).len()
                &&& number_in(failed) == places_in_state(statuses, OpState::Failed).len()
                &&& number_in(done) + number_in(pending) + number_in(failed) == statuses.len()
            },
{
    states_are_counted_one_by_one(statuses, OpState::Done);
    states_are_counted_one_by_one(statuses, OpState::Failed);
    every_move_has_one_state(statuses);
    let done = state_count(statuses, OpState::Done);
    let failed = state_count(statuses, OpState::Failed);
    let pending = state_count(statuses, OpState::Pending) + state_count(
        statuses,
        OpState::Published,
    );
    a_written_number_reads_back(done);
    a_written_number_reads_back(failed);
    a_written_number_reads_back(pending);
    assert(tells_of(
        interrupted_words(dest, statuses),
        dest,
        decimal(done),
        decimal(pending),
        decimal(failed),
    ));
}

/// A bucket may have any name but none at all, `.`, `..`, and one with a slash, a backslash
/// or a zero in it.
pub proof fn a_bucket_has_a_name_of_its_own(name: Seq<char>)
    ensures
        is_plain(name) <==> {
            &&& name.len() > 0
            &&& name != seq!['.']
            &&& name != seq!['.', '.']
            &&& forall|i: int|
                0 <= i < name.len() ==> #[trigger] name[i] != '/' && name[i] != '\\' && name[i]
                    != '\0'
        },
{
    reveal_strlit(".");
    reveal_strlit("..");
    assert("."@ =~= seq!['.']);
    assert(".."@ =~= seq!['.', '.']);
    if is_plain(name) {
        assert forall|i: int| 0 <= i < name.len() implies #[trigger] name[i] != '/' && name[i]
            != '\\' && name[i] != '\0' by {
            assert(name.contains(name[i]));
        }
    }
}

/// The first name that is not fit is what the names are refused for; names that are all fit
/// are not refused.
pub proof fn the_first_unfit_name_is_refused(names: Seq<Seq<char>>, k: int)
    requires
        0 <= k <= names.len(),
        forall|i: int| 0 <= i < k ==> is_plain(#[trigger] names[i]),
    ensures
        k == names.len() ==> first_unfit(names) is None,
        k < names.len() && !is_plain(names[k]) ==> first_unfit(names) == Some(names[k]),
    decreases k,
{
    if k > 0 {
        assert(is_plain(names[0]));
        let rest = names.drop_first();
        assert forall|i: int| 0 <= i < k - 1 implies is_plain(#[trigger] rest[i]) by {
            assert(is_plain(names[i + 1]));
        }
        the_first_unfit_name_is_refused(rest, k - 1);
    }
}

/// Taking the note of an apply away leaves everything else of the session as it is.
pub proof fn taking_a_note_away_keeps_the_rest(s: SessionView)
    ensures
        unmarked(s).pending_apply is None,
        unmarked(s).shots == s.shots,
        unmarked(s).decisions == s.decisions,
        unmarked(s).current == s.current,
        unmarked(s).undo == s.undo,
        unmarked(s).source_dir == s.source_dir,
{
}

/// A note of an apply leads to its journal where there is one, and is taken away where there
/// is none. Without a note nothing is looked for.
pub proof fn a_note_leads_to_its_journal(
    before: SessionView,
    t: Seq<FsEvent>,
    after: SessionView,
    r: ProbeView,
)
    requires
        breadcrumb_ran(before, t, after, r),
    ensures
        before.pending_apply is None ==> t.len() == 0 && r is NoBreadcrumb && after == before,
        before.pending_apply matches Some(dest) ==> {
            &&& t.len() == 1
            &&& t[0] is IsFile
            &&& t[0]->IsFile_path == join(dest, ".fastcull-apply.json"@)
            &&& t[0]->IsFile_reply ==> after == before && r == ProbeView::CrashedJournal(
                t[0]->IsFile_path,
            )
            &&& !t[0]->IsFile_reply ==> after.pending_apply is None && after.decisions
                == before.decisions && after.shots == before.shots && after.current
                == before.current && r == ProbeView::StaleCleared(dest)
        },
{
}

/// An interrupted apply is found where its journal was seen, and nowhere else: in the folder
/// of the note if there is one and its journal is there, otherwise in the source folder.
pub proof fn an_interrupted_apply_is_found_by_its_journal(
    before: SessionView,
    source: Seq<char>,
    t: Seq<FsEvent>,
    after: SessionView,
    r: StartupView,
)
    requires
        startup_ran(before, source, t, after, r),
    ensures
        1 <= t.len() <= 2,
        r.crash matches Some(c) ==> {
            &&& c.journal == join(c.dest, ".fastcull-apply.json"@)
            &&& t.last() == (FsEvent::IsFile { path: c.journal, reply: true })
            &&& c.from_breadcrumb ==> before.pending_apply == Some(c.dest)
            &&& !c.from_breadcrumb ==> c.dest == source
        },
        r.crash is None ==> forall|k: int|
            0 <= k < t.len() ==> (#[trigger] t[k]) is IsFile && !t[k]->IsFile_reply,
        after.decisions == before.decisions,
        after.shots == before.shots,
        after.current == before.current,
        after.undo == before.undo,
        r.stale_cleared is Some <==> before.pending_apply is Some && after.pending_apply is None,
{
    if let Some(dest) = before.pending_apply {
        assert(t.take(1)[0] == t[0]);
        if t.len() > 1 {
            assert(t.skip(1)[0] == t[1]);
        }
    }
}

/// A destination is refused where it is the source folder itself and taken where it is a
/// folder in it or beside it, judged by the plain form of both.
pub proof fn only_the_source_itself_is_refused(
    source: Seq<char>,
    dest: Seq<char>,
    t: Seq<FsEvent>,
    r: bool,
    base: Seq<char>,
    a: Seq<char>,
    b: Seq<char>,
)
    requires
        root_probed(source, dest, t, r),
        base.len() > 0,
        base.last() != '/',
        is_one_name(a),
        is_one_name(b),
        t[0]->Canonicalize_reply == Ok::<Seq<char>, FsErrorView>(join(base, a)),
    ensures
        t[1]->Canonicalize_reply == t[0]->Canonicalize_reply ==> r,
        a != b && t[1]->Canonicalize_reply == Ok::<Seq<char>, FsErrorView>(join(base, b)) ==> !r,
        t[1]->Canonicalize_reply == Ok::<Seq<char>, FsErrorView>(join(join(base, a), b)) ==> !r,
{
    components_are_those_of_the_folder_and_the_name(base, a, b);
    let p = join(base, a);
    assert(a.contains(a.last()));
    assert(a[0] != '/') by {
        assert(a.contains(a[0]));
    }
    assert(p.last() == a.last());
    components_are_those_of_the_folder_and_the_name(p, b, b);
    assert(components(p).push(b).len() == components(p).len() + 1);
}

/// A report is on the journal that was read: what it says is what the journal holds, and
/// where the journal could not be read or decoded that is told.
pub proof fn a_report_is_on_the_journal_that_was_read(
    path: Seq<char>,
    t: Seq<FsEvent>,
    r: Result<Seq<char>, FsErrorView>,
    c: Result<(usize, usize), FsErrorView>,
)
    requires
        report_ran(path, t, r),
        counts_ran(path, t, c),
    ensures
        t[0] is Read && t[0]->Read_path == path,
        t[0]->Read_reply matches Err(e) ==> t.len() == 1 && r == Err::<Seq<char>, _>(e) && c
            == Err::<(usize, usize), _>(e),
        t[0]->Read_reply is Ok ==> {
            &&& t.len() == 2 && t[1] is DecodeJournal
            &&& t[0]->Read_reply == Ok::<Seq<u8>, FsErrorView>(t[1]->DecodeJournal_bytes)
            &&& t[1]->DecodeJournal_reply matches Err(words) ==> r is Err && r->Err_0.kind
                == FsErrorKind::InvalidData && r->Err_0.message == words && c is Err
            &&& t[1]->DecodeJournal_reply matches Ok((plan, statuses)) ==> r == Ok::<
                _,
                FsErrorView,
            >(interrupted_words(plan.dest, statuses)) && c == Ok::<_, FsErrorView>(
                progress_in(statuses),
            )
        },
{
}

/// Copies that wait for their source to be taken away are told only where there are any.
pub proof fn waiting_copies_are_told_where_there_are_any(dest: Seq<char>, statuses: Seq<OpState>)
    ensures
        places_in_state(statuses, OpState::Published).len() == 0 ==> exists|
            done: Seq<char>,
            pending: Seq<char>,
            failed: Seq<char>,
        |
            #[trigger] tells_only(
                interrupted_words(dest, statuses),
                dest,
                done,
                pending,
                failed,
            ),
        places_in_state(statuses, OpState::Published).len() > 0 ==> ends_with(
            interrupted_words(dest, statuses),
            " published-awaiting-unlink)"@,
        ),
{
    states_are_counted_one_by_one(statuses, OpState::Published);
    let words = interrupted_words(dest, statuses);
    let done = decimal(state_count(statuses, OpState::Done));
    let failed = decimal(state_count(statuses, OpState::Failed));
    let pending = decimal(
        state_count(statuses, OpState::Pending) + state_count(statuses, OpState::Published),
    );
    if state_count(statuses, OpState::Published) == 0 {
        assert(tells_only(words, dest, done, pending, failed));
    } else {
        let end = " published-awaiting-unlink)"@;
        assert(words.skip(words.len() - end.len()) =~= end);
    }
}

/// Whether the text tells of an interrupted apply with these numbers and says no more.
pub open spec fn tells_only(
    text: Seq<char>,
    dest: Seq<char>,
    done: Seq<char>,
    pending: Seq<char>,
    failed: Seq<char>,
) -> bool {
    tells_of(text, dest, done, pending, failed) && text.len() == ("Interrupted apply into "@
        + dest + "\n  done: "@ + done + "  pending: "@ + pending + "  failed: "@ + failed).len()
}

/// Whether the text ends with these words.
pub open spec fn ends_with(text: Seq<char>, end: Seq<char>) -> bool {
    text.len() >= end.len() && text.skip(text.len() - end.len()) == end
}

} // verus!
