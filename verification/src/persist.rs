//! The session record: the file in which a cull is kept, written whole and beside its
//! place before it takes it.
use vstd::prelude::*;
use crate::fsops::{
    CodingError, CodingView, FsError, FsErrorKind, FsErrorView, FsEvent, FsLog, FsOps,
};
use crate::model::{Session, SessionView, SESSION_BAD_FILE, SESSION_FILE};
use crate::paths::{join, join_path};
use crate::records::{
    extends, other_error, since, since_adds_up, since_grows, since_starts_empty,
};
use crate::text::{a_written_number_reads_back, decimal, decimal_text, number_in};

verus! {

/// Why a session could not be saved or loaded.
#[derive(PartialEq, Eq, Debug)]
pub enum PersistError {
    Io(FsError),
    Corrupt(CodingError),
}

/// The value of a `PersistError`.
pub enum PersistErrorView {
    Io(FsErrorView),
    Corrupt(CodingView),
}

impl View for PersistError {
    type V = PersistErrorView;

    open spec fn view(&self) -> PersistErrorView {
        match *self {
            PersistError::Io(e) => PersistErrorView::Io(e@),
            PersistError::Corrupt(e) => PersistErrorView::Corrupt(e@),
        }
    }
}

/// The words for an error.
pub open spec fn persist_error_words(e: PersistErrorView) -> Seq<char> {
    match e {
        PersistErrorView::Io(e) => "session I/O error: "@ + e.message,
        PersistErrorView::Corrupt(e) => "corrupt session file: "@ + e.message,
    }
}

/// What the `Debug` format gives for an error: its variant and the text of what it holds.
pub open spec fn persist_error_debug(e: PersistErrorView) -> Seq<char> {
    match e {
        PersistErrorView::Io(e) => "Io("@ + e.debug + ")"@,
        PersistErrorView::Corrupt(e) => "Corrupt("@ + e.debug + ")"@,
    }
}

impl PersistError {
    /// The words for the error.
    pub fn describe(&self) -> (r: String)
        ensures
            r@ == persist_error_words(self@),
    {
        match self {
            PersistError::Io(e) => {
                let mut s = String::from_str("session I/O error: ");
                s.append(e.message.as_str());
                s
            },
            PersistError::Corrupt(e) => {
                let mut s = String::from_str("corrupt session file: ");
                s.append(e.message.as_str());
                s
            },
        }
    }

    /// The variant of the error, and the `Debug` text of what it holds.
    pub fn debug_text(&self) -> (r: String)
        ensures
            r@ == persist_error_debug(self@),
    {
        match self {
            PersistError::Io(e) => {
                let mut s = String::from_str("Io(");
                s.append(e.debug.as_str());
                s.append(")");
                s
            },
            PersistError::Corrupt(e) => {
                let mut s = String::from_str("Corrupt(");
                s.append(e.debug.as_str());
                s.append(")");
                s
            },
        }
    }
}

/// The value of what saving gives.
pub open spec fn saved(r: Result<(), PersistError>) -> Result<(), PersistErrorView> {
    match r {
        Ok(u) => Ok(u),
        Err(e) => Err(e@),
    }
}

/// Where a record is written before it is renamed into its place.
pub open spec fn record_tmp(path: Seq<char>) -> Seq<char> {
    path + ".tmp"@
}

/// The history of saving a session: it is encoded, written beside its place and made
/// durable there, and only then renamed into its place. The first failure ends it.
pub open spec fn save_ran(
    session: SessionView,
    path: Seq<char>,
    t: Seq<FsEvent>,
    r: Result<(), PersistErrorView>,
) -> bool {
    let tmp = record_tmp(path);
    &&& t.len() >= 1
    &&& t[0] matches FsEvent::EncodeSession { session: s, reply }
    &&& s == session
    &&& match reply {
        Err(e) => t.len() == 1 && r == Err::<(), _>(PersistErrorView::Corrupt(e)),
        Ok(bytes) => {
            &&& t.len() >= 2
            &&& t[1] matches FsEvent::WriteFile { path: at, content, sync, reply: wrote }
            &&& at == tmp
            &&& content == bytes
            &&& sync
            &&& match wrote {
                Err(e) => t.len() == 2 && r == Err::<(), _>(PersistErrorView::Io(e)),
                Ok(_) => {
                    &&& t.len() == 3
                    &&& t[2] matches FsEvent::Rename { from, to, reply: renamed }
                    &&& from == tmp
                    &&& to == path
                    &&& match renamed {
                        Err(e) => r == Err::<(), _>(PersistErrorView::Io(e)),
                        Ok(_) => r is Ok,
                    }
                },
            }
        },
    }
}

/// Saves a session at `path`.
pub fn save<F: FsOps>(session: &Session, path: &str, fs: &mut FsLog<F>) -> (r: Result<
    (),
    PersistError,
>)
    ensures
        extends(final(fs).log(), old(fs).log()),
        save_ran(session@, path@, since(final(fs).log(), old(fs).log()), saved(r)),
{
    let ghost start = fs.log();
    proof {
        since_starts_empty(start);
    }
    let encoded = fs.encode_session(session);
    proof {
        since_grows(start, start, fs.log());
    }
    let bytes = match encoded {
        Ok(b) => b,
        Err(e) => {
            return Err(PersistError::Corrupt(e));
        },
    };
    let mut tmp = path.to_owned();
    tmp.append(".tmp");
    let ghost l1 = fs.log();
    let wrote = fs.write_file(tmp.as_str(), bytes.as_slice(), true);
    proof {
        since_grows(start, l1, fs.log());
    }
    if let Err(e) = wrote {
        return Err(PersistError::Io(e));
    }
    let ghost l2 = fs.log();
    let renamed = fs.rename(tmp.as_str(), path);
    proof {
        since_grows(start, l2, fs.log());
    }
    match renamed {
        Ok(()) => Ok(()),
        Err(e) => Err(PersistError::Io(e)),
    }
}

/// The value of what loading gives.
pub open spec fn loaded(r: Result<Session, PersistError>) -> Result<SessionView, PersistErrorView> {
    match r {
        Ok(s) => Ok(s@),
        Err(e) => Err(e@),
    }
}

/// The history of loading a session: the file is read and what it holds is decoded. A
/// file that cannot be read is an I/O error, one that cannot be decoded a corrupt one.
pub open spec fn load_ran(
    path: Seq<char>,
    t: Seq<FsEvent>,
    r: Result<SessionView, PersistErrorView>,
) -> bool {
    &&& t.len() >= 1
    &&& t[0] matches FsEvent::Read { path: at, reply }
    &&& at == path
    &&& match reply {
        Err(e) => t.len() == 1 && r == Err::<SessionView, _>(PersistErrorView::Io(e)),
        Ok(data) => {
            &&& t.len() == 2
            &&& t[1] matches FsEvent::DecodeSession { bytes, reply: decoded }
            &&& bytes == data
            &&& match decoded {
                Err(e) => r == Err::<SessionView, _>(PersistErrorView::Corrupt(e)),
                Ok(s) => r == Ok::<SessionView, PersistErrorView>(s),
            }
        },
    }
}

/// Loads the session at `path`.
pub fn load<F: FsOps>(path: &str, fs: &mut FsLog<F>) -> (r: Result<Session, PersistError>)
    ensures
        extends(final(fs).log(), old(fs).log()),
        load_ran(path@, since(final(fs).log(), old(fs).log()), loaded(r)),
{
    let ghost start = fs.log();
    proof {
        since_starts_empty(start);
    }
    let read = fs.read(path);
    proof {
        since_grows(start, start, fs.log());
    }
    let bytes = match read {
        Ok(b) => b,
        Err(e) => {
            return Err(PersistError::Io(e));
        },
    };
    let ghost l1 = fs.log();
    let decoded = fs.decode_session(&bytes);
    proof {
        since_grows(start, l1, fs.log());
    }
    match decoded {
        Ok(s) => Ok(s),
        Err(e) => Err(PersistError::Corrupt(e)),
    }
}

/// A session that was saved is what is loaded, wherever the disk gives back the bytes that
/// were written and decoding undoes encoding.
pub proof fn what_was_saved_is_loaded(
    session: SessionView,
    path: Seq<char>,
    written: Seq<FsEvent>,
    read: Seq<FsEvent>,
    r: Result<SessionView, PersistErrorView>,
)
    requires
        save_ran(session, path, written, Ok(())),
        load_ran(path, read, r),
        read[0]->Read_reply == Ok::<Seq<u8>, FsErrorView>(written[1]->WriteFile_content),
        written[0]->EncodeSession_reply == Ok::<Seq<u8>, CodingView>(
            read[1]->DecodeSession_bytes,
        ) ==> read[1]->DecodeSession_reply == Ok::<SessionView, CodingView>(session),
    ensures
        r == Ok::<SessionView, PersistErrorView>(session),
{
}

/// The `n`th name that is tried for a file: the name itself, then the name with a number.
pub open spec fn numbered(base: Seq<char>, n: nat) -> Seq<char> {
    if n == 0 {
        base
    } else {
        base + "."@ + decimal(n)
    }
}

/// How many names are tried for a file: the name itself and one for every number of 32
/// bits but zero.
pub open spec fn name_count() -> int {
    u32::MAX + 1
}

/// The history of looking for a free name in a folder: the names are tried in turn and the
/// first that is not there is taken; none where all of them are.
pub open spec fn first_free_ran(
    dir: Seq<char>,
    base: Seq<char>,
    t: Seq<FsEvent>,
    r: Option<Seq<char>>,
) -> bool {
    &&& 1 <= t.len() <= name_count()
    &&& forall|i: int|
        0 <= i < t.len() - 1 ==> #[trigger] t[i] == (FsEvent::IsThere {
            path: join(dir, numbered(base, i as nat)),
            reply: true,
        })
    &&& t.last() == (FsEvent::IsThere {
        path: join(dir, numbered(base, (t.len() - 1) as nat)),
        reply: r is None,
    })
    &&& match r {
        Some(p) => p == join(dir, numbered(base, (t.len() - 1) as nat)),
        None => t.len() == name_count(),
    }
}

fn numbered_name(base: &str, n: u32) -> (r: String)
    ensures
        r@ == numbered(base@, n as nat),
{
    let mut s = base.to_owned();
    if n > 0 {
        s.append(".");
        s.append(decimal_text(n as u64).as_str());
    }
    s
}

/// The first free name in a folder among `base`, `base.1`, `base.2` and so on.
pub fn first_free<F: FsOps>(dir: &str, base: &str, fs: &mut FsLog<F>) -> (r: Option<String>)
    ensures
        extends(final(fs).log(), old(fs).log()),
        first_free_ran(
            dir@,
            base@,
            since(final(fs).log(), old(fs).log()),
            crate::model::opt_text(r),
        ),
{
    let ghost start = fs.log();
    let mut n: u32 = 0;
    proof {
        since_starts_empty(start);
    }
    loop
        invariant
            start == old(fs).log(),
            extends(fs.log(), start),
            since(fs.log(), start).len() == n,
            forall|i: int|
                0 <= i < n ==> #[trigger] since(fs.log(), start)[i] == (FsEvent::IsThere {
                    path: join(dir@, numbered(base@, i as nat)),
                    reply: true,
                }),
        decreases u32::MAX - n,
    {
        let candidate = join_path(dir, numbered_name(base, n).as_str());
        let ghost before = fs.log();
        let there = fs.is_there(candidate.as_str());
        proof {
            since_grows(start, before, fs.log());
            let t = since(fs.log(), start);
            assert forall|i: int| 0 <= i < n implies #[trigger] t[i] == (FsEvent::IsThere {
                path: join(dir@, numbered(base@, i as nat)),
                reply: true,
            }) by {
                assert(t[i] == since(before, start)[i]);
            }
        }
        if !there {
            return Some(candidate);
        }
        if n == u32::MAX {
            return None;
        }
        n += 1;
    }
}

/// What is said where no name is free for a record that is set aside.
pub open spec fn no_free_name() -> FsErrorView {
    other_error("no free name to set the session file aside"@)
}

/// The value of what loading or starting afresh gives.
pub open spec fn loaded_or_fresh(r: Result<Option<Session>, PersistError>) -> Result<
    Option<SessionView>,
    PersistErrorView,
> {
    match r {
        Ok(Some(s)) => Ok(Some(s@)),
        Ok(None) => Ok(None),
        Err(e) => Err(e@),
    }
}

/// The history of setting a record aside that could not be decoded: a free name is looked
/// for, and the record is renamed to it.
pub open spec fn set_aside(
    dir: Seq<char>,
    t: Seq<FsEvent>,
    r: Result<Option<SessionView>, PersistErrorView>,
) -> bool {
    let path = join(dir, SESSION_FILE@);
    ||| first_free_ran(dir, SESSION_BAD_FILE@, t, None) && r == Err::<Option<SessionView>, _>(
        PersistErrorView::Io(no_free_name()),
    )
    ||| {
        &&& t.len() >= 2
        &&& t.last() matches FsEvent::Rename { from, to, reply }
        &&& from == path
        &&& first_free_ran(dir, SESSION_BAD_FILE@, t.drop_last(), Some(to))
        &&& match reply {
            Err(e) => r == Err::<Option<SessionView>, _>(PersistErrorView::Io(e)),
            Ok(_) => r == Ok::<Option<SessionView>, PersistErrorView>(None),
        }
    }
}

/// The history of loading the record of a folder, or starting afresh: a missing record is
/// none; one that cannot be decoded is set aside and then is none; any other failure to
/// read is an error.
pub open spec fn load_or_fresh_ran(
    dir: Seq<char>,
    t: Seq<FsEvent>,
    r: Result<Option<SessionView>, PersistErrorView>,
) -> bool {
    let path = join(dir, SESSION_FILE@);
    &&& t.len() >= 1
    &&& t[0] matches FsEvent::Read { path: at, reply }
    &&& at == path
    &&& match reply {
        Err(e) => {
            &&& t.len() == 1
            &&& if e.kind == FsErrorKind::NotFound {
                r == Ok::<Option<SessionView>, PersistErrorView>(None)
            } else {
                r == Err::<Option<SessionView>, _>(PersistErrorView::Io(e))
            }
        },
        Ok(data) => {
            &&& t.len() >= 2
            &&& t[1] matches FsEvent::DecodeSession { bytes, reply: decoded }
            &&& bytes == data
            &&& match decoded {
                Ok(s) => t.len() == 2 && r == Ok::<Option<SessionView>, PersistErrorView>(Some(s)),
                Err(_) => set_aside(dir, t.skip(2), r),
            }
        },
    }
}

/// Loads the record of a folder, or `None` to start afresh. A record that cannot be decoded
/// is set aside under the first free name, so that no evidence is lost.
pub fn load_or_fresh<F: FsOps>(source_dir: &str, fs: &mut FsLog<F>) -> (r: Result<
    Option<Session>,
    PersistError,
>)
    ensures
        extends(final(fs).log(), old(fs).log()),
        load_or_fresh_ran(
            source_dir@,
            since(final(fs).log(), old(fs).log()),
            loaded_or_fresh(r),
        ),
{
    let ghost start = fs.log();
    proof {
        since_starts_empty(start);
    }
    let path = join_path(source_dir, SESSION_FILE);
    let read = fs.read(path.as_str());
    proof {
        since_grows(start, start, fs.log());
    }
    let bytes = match read {
        Ok(b) => b,
        Err(e) => {
            if e.kind() == FsErrorKind::NotFound {
                return Ok(None);
            }
            return Err(PersistError::Io(e));
        },
    };
    let ghost l1 = fs.log();
    let decoded = fs.decode_session(&bytes);
    proof {
        since_grows(start, l1, fs.log());
    }
    let ghost l2 = fs.log();
    if let Ok(s) = decoded {
        return Ok(Some(s));
    }
    let bad = first_free(source_dir, SESSION_BAD_FILE, fs);
    let ghost l3 = fs.log();
    proof {
        since_adds_up(start, l2, l3);
        assert(since(l3, start).skip(2) =~= since(l3, l2));
    }
    match bad {
        None => {
            Err(
                PersistError::Io(
                    FsError::own(
                        FsErrorKind::Other,
                        String::from_str("no free name to set the session file aside"),
                    ),
                ),
            )
        },
        Some(to) => {
            let renamed = fs.rename(path.as_str(), to.as_str());
            proof {
                since_grows(start, l3, fs.log());
                let t = since(fs.log(), start).skip(2);
                assert(t =~= since(l3, l2).push(fs.log().last()));
                assert(t.drop_last() =~= since(l3, l2));
            }
            match renamed {
                Ok(()) => Ok(None),
                Err(e) => Err(PersistError::Io(e)),
            }
        },
    }
}

/// A record is replaced whole or not at all: it is written beside its place and to the disk
/// first, and takes its place only once that went well; it holds the session that was
/// encoded. Where any step fails the record that was there stays.
pub proof fn a_record_is_replaced_whole_or_not_at_all(
    session: SessionView,
    path: Seq<char>,
    t: Seq<FsEvent>,
    r: Result<(), PersistErrorView>,
)
    requires
        save_ran(session, path, t, r),
    ensures
        t[0] is EncodeSession && t[0]->EncodeSession_session == session,
        forall|k: int|
            0 <= k < t.len() && (#[trigger] t[k]) is WriteFile ==> {
                &&& t[k]->WriteFile_path == path + seq!['.', 't', 'm', 'p']
                &&& t[k]->WriteFile_path != path
                &&& t[k]->WriteFile_sync
                &&& t[0]->EncodeSession_reply == Ok::<Seq<u8>, CodingView>(
                    t[k]->WriteFile_content,
                )
            },
        forall|k: int|
            0 <= k < t.len() && (#[trigger] t[k]) is Rename ==> {
                &&& k > 0
                &&& t[k]->Rename_to == path
                &&& t[k - 1] is WriteFile
                &&& t[k - 1]->WriteFile_reply is Ok
                &&& t[k]->Rename_from == t[k - 1]->WriteFile_path
            },
        forall|k: int|
            0 <= k < t.len() ==> (#[trigger] t[k]) is EncodeSession || t[k] is WriteFile || t[k]
                is Rename,
        r is Ok <==> t.last() is Rename && t.last()->Rename_reply is Ok,
        r is Err ==> forall|k: int|
            0 <= k < t.len() && (#[trigger] t[k]) is Rename ==> t[k]->Rename_reply is Err,
{
    reveal_strlit(".tmp");
    assert(".tmp"@ =~= seq!['.', 't', 'm', 'p']);
    let tmp = path + ".tmp"@;
    assert(tmp.len() == path.len() + 4);
    assert(tmp != path);
}

/// What a save fails with is the error of the step that failed.
pub proof fn a_failed_save_tells_the_step_that_failed(
    session: SessionView,
    path: Seq<char>,
    t: Seq<FsEvent>,
    r: Result<(), PersistErrorView>,
)
    requires
        save_ran(session, path, t, r),
    ensures
        t.last() is EncodeSession ==> t.last()->EncodeSession_reply is Err && r == Err::<(), _>(
            PersistErrorView::Corrupt(t.last()->EncodeSession_reply->Err_0),
        ),
        t.last() is WriteFile ==> t.last()->WriteFile_reply is Err && r == Err::<(), _>(
            PersistErrorView::Io(t.last()->WriteFile_reply->Err_0),
        ),
        t.last() is Rename && t.last()->Rename_reply is Err ==> r == Err::<(), _>(
            PersistErrorView::Io(t.last()->Rename_reply->Err_0),
        ),
{
}

/// A cull starts afresh only where there is no record, or where one that cannot be read as a
/// record was moved aside; a record that reads well is taken, and one that cannot be read at
/// all is an error. Nothing is ever deleted or written.
pub proof fn a_cull_starts_afresh_only_without_a_record(
    dir: Seq<char>,
    t: Seq<FsEvent>,
    r: Result<Option<SessionView>, PersistErrorView>,
)
    requires
        load_or_fresh_ran(dir, t, r),
    ensures
        ({
            let record = join(dir, ".fastcull.json"@);
            &&& t[0] is Read && t[0]->Read_path == record
            &&& t[0]->Read_reply matches Err(e) ==> {
                &&& e.kind == FsErrorKind::NotFound ==> r == Ok::<_, PersistErrorView>(
                    None::<SessionView>,
                )
                &&& e.kind != FsErrorKind::NotFound ==> r == Err::<Option<SessionView>, _>(
                    PersistErrorView::Io(e),
                )
            }
            &&& t[0]->Read_reply is Ok ==> {
                &&& t.len() >= 2
                &&& t[1] is DecodeSession
                &&& t[0]->Read_reply == Ok::<Seq<u8>, FsErrorView>(t[1]->DecodeSession_bytes)
                &&& t[1]->DecodeSession_reply matches Ok(s) ==> r == Ok::<_, PersistErrorView>(
                    Some(s),
                )
                &&& t[1]->DecodeSession_reply is Err && r is Ok ==> {
                    &&& r == Ok::<_, PersistErrorView>(None::<SessionView>)
                    &&& t.last() is Rename
                    &&& t.last()->Rename_from == record
                    &&& t.last()->Rename_reply is Ok
                    &&& t[t.len() - 2] == (FsEvent::IsThere {
                        path: t.last()->Rename_to,
                        reply: false,
                    })
                }
            }
        }),
        forall|k: int|
            0 <= k < t.len() ==> !((#[trigger] t[k]) is RemoveFile) && !(t[k] is WriteFile)
                && !(t[k] is CopyCreateNew),
{
    if t[0]->Read_reply is Ok && t[1]->DecodeSession_reply is Err {
        let u = t.skip(2);
        assert(set_aside(dir, u, r));
        let none = None::<Seq<char>>;
        if first_free_ran(dir, SESSION_BAD_FILE@, u, none) && r is Err {
            assert forall|k: int| 0 <= k < t.len() implies !((#[trigger] t[k]) is RemoveFile)
                && !(t[k] is WriteFile) && !(t[k] is CopyCreateNew) by {
                if k >= 2 {
                    assert(u[k - 2] == t[k]);
                    if k < t.len() - 1 {
                        assert(u[k - 2] is IsThere);
                    }
                }
            }
        } else {
            let to = u.last()->Rename_to;
            let v = u.drop_last();
            assert(first_free_ran(dir, SESSION_BAD_FILE@, v, Some(to)));
            assert(v.last() == u[u.len() - 2]);
            assert(t[t.len() - 2] == u[u.len() - 2]);
            assert(t.last() == u.last());
            assert forall|k: int| 0 <= k < t.len() implies !((#[trigger] t[k]) is RemoveFile)
                && !(t[k] is WriteFile) && !(t[k] is CopyCreateNew) by {
                if k >= 2 {
                    assert(u[k - 2] == t[k]);
                    if k < t.len() - 2 {
                        assert(v[k - 2] == u[k - 2]);
                        assert(v[k - 2] is IsThere);
                    }
                }
            }
        }
    }
}

/// Names with different numbers are different; the first has none, and every other goes on
/// from the base with a dot and its number.
pub proof fn numbered_names_differ(base: Seq<char>, a: nat, b: nat)
    ensures
        numbered(base, a) == numbered(base, b) ==> a == b,
        numbered(base, 0) == base,
        a > 0 ==> {
            &&& base.is_prefix_of(numbered(base, a))
            &&& numbered(base, a)[base.len() as int] == '.'
            &&& number_in(numbered(base, a).skip(base.len() as int + 1)) == a
        },
{
    reveal_strlit(".");
    a_written_number_reads_back(a);
    a_written_number_reads_back(b);
    let n = base.len() as int + 1;
    if a > 0 {
        assert(numbered(base, a).skip(n) =~= decimal(a));
    }
    if b > 0 {
        assert(numbered(base, b).skip(n) =~= decimal(b));
    }
}

/// The name that is found is free, and every name before it was taken.
pub proof fn the_first_free_name_is_found(
    dir: Seq<char>,
    base: Seq<char>,
    t: Seq<FsEvent>,
    p: Seq<char>,
)
    requires
        first_free_ran(dir, base, t, Some(p)),
    ensures
        t.last() == (FsEvent::IsThere { path: p, reply: false }),
        p == join(dir, numbered(base, (t.len() - 1) as nat)),
        forall|k: int|
            0 <= k < t.len() - 1 ==> #[trigger] t[k] == (FsEvent::IsThere {
                path: join(dir, numbered(base, k as nat)),
                reply: true,
            }),
{
}

/// The words of a failure hold the words of its reason, and tell a record that could not be
/// read or written from one that holds no session.
pub proof fn a_failure_holds_its_reason(e: FsErrorView, c: CodingView)
    ensures
        ends_in_words(persist_error_words(PersistErrorView::Io(e)), e.message),
        ends_in_words(persist_error_words(PersistErrorView::Corrupt(c)), c.message),
        persist_error_words(PersistErrorView::Io(e))[0] != persist_error_words(
            PersistErrorView::Corrupt(c),
        )[0],
{
    reveal_strlit("session I/O error: ");
    reveal_strlit("corrupt session file: ");
    let a = persist_error_words(PersistErrorView::Io(e));
    let b = persist_error_words(PersistErrorView::Corrupt(c));
    assert(a.skip(a.len() - e.message.len()) =~= e.message);
    assert(b.skip(b.len() - c.message.len()) =~= c.message);
}

/// Whether the text ends with these words.
pub open spec fn ends_in_words(text: Seq<char>, words: Seq<char>) -> bool {
    text.len() >= words.len() && text.skip(text.len() - words.len()) == words
}

} // verus!
