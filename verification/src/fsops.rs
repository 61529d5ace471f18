//! `FsOps`: the narrow surface through which the apply engine and the session record
//! reach the disk, and `FsLog`, which carries the history of every call and reply.
use vstd::prelude::*;
use crate::journal::{Journal, OpState};
use crate::model::{Session, SessionView};
use crate::plan::PlanView;

verus! {

/// What kind of failure an operation met.
#[derive(Clone, Copy, PartialEq, Eq, Debug, Structural)]
pub enum FsErrorKind {
    NotFound,
    PermissionDenied,
    AlreadyExists,
    InvalidInput,
    InvalidData,
    Other,
}

/// A failed operation: its kind, the system's error number where there is one, the words
/// that describe it, and the text that its `Debug` format gives.
#[derive(PartialEq, Eq, Debug)]
pub struct FsError {
    pub kind: FsErrorKind,
    pub os: Option<i32>,
    pub message: String,
    pub debug: String,
}

/// The value of an `FsError`.
pub struct FsErrorView {
    pub kind: FsErrorKind,
    pub os: Option<i32>,
    pub message: Seq<char>,
    pub debug: Seq<char>,
}

/// An error that the library itself finds, which has its words for its `Debug` text too.
pub open spec fn own_error(kind: FsErrorKind, words: Seq<char>) -> FsErrorView {
    FsErrorView { kind, os: None, message: words, debug: words }
}

impl View for FsError {
    type V = FsErrorView;

    open spec fn view(&self) -> FsErrorView {
        FsErrorView {
            kind: self.kind,
            os: self.os,
            message: self.message@,
            debug: self.debug@,
        }
    }
}

impl Clone for FsError {
    fn clone(&self) -> (r: Self)
        ensures
            r@ == self@,
    {
        FsError {
            kind: self.kind,
            os: self.os,
            message: self.message.clone(),
            debug: self.debug.clone(),
        }
    }
}

impl FsError {
    /// An error that the library itself finds.
    pub fn own(kind: FsErrorKind, words: String) -> (r: Self)
        ensures
            r@ == own_error(kind, words@),
    {
        let debug = words.clone();
        FsError { kind, os: None, message: words, debug }
    }

    /// The kind of the failure.
    pub fn kind(&self) -> (r: FsErrorKind)
        ensures
            r == self@.kind,
    {
        self.kind
    }

    /// The system's error number, where there is one.
    pub fn raw_os_error(&self) -> (r: Option<i32>)
        ensures
            r == self@.os,
    {
        self.os
    }
}

/// Why a record has no bytes, or bytes stand for no record: the words that describe it, and
/// the text that its `Debug` format gives.
#[derive(PartialEq, Eq, Debug)]
pub struct CodingError {
    pub message: String,
    pub debug: String,
}

/// The value of a `CodingError`.
pub struct CodingView {
    pub message: Seq<char>,
    pub debug: Seq<char>,
}

impl View for CodingError {
    type V = CodingView;

    open spec fn view(&self) -> CodingView {
        CodingView { message: self.message@, debug: self.debug@ }
    }
}

/// The value of a reply: what went well, or the value of the error.
pub open spec fn reply_of<T>(r: Result<T, FsError>) -> Result<T, FsErrorView> {
    match r {
        Ok(x) => Ok(x),
        Err(e) => Err(e@),
    }
}

/// Whether an entry is a directory, as far as its type can be told.
#[derive(Clone, Copy, PartialEq, Eq, Debug, Structural)]
pub enum EntryType {
    Dir,
    NotDir,
    Unknown,
}

/// An entry of a directory. Its name is `None` where it is not valid UTF-8; whether it is
/// hidden, which a leading `.` says, is known all the same. `is_file` follows links.
#[derive(PartialEq, Eq, Debug)]
pub struct DirEntry {
    pub name: Option<String>,
    pub hidden: bool,
    pub is_file: bool,
    pub entry_type: EntryType,
}

/// The value of a `DirEntry`.
pub struct EntryView {
    pub name: Option<Seq<char>>,
    pub hidden: bool,
    pub is_file: bool,
    pub entry_type: EntryType,
}

impl View for DirEntry {
    type V = EntryView;

    open spec fn view(&self) -> EntryView {
        EntryView {
            name: crate::model::opt_text(self.name),
            hidden: self.hidden,
            is_file: self.is_file,
            entry_type: self.entry_type,
        }
    }
}

/// The value of one entry of a listing, or of why it could not be read.
pub open spec fn entry_reply(r: Result<DirEntry, FsError>) -> Result<EntryView, FsErrorView> {
    match r {
        Ok(e) => Ok(e@),
        Err(e) => Err(e@),
    }
}

/// The entries of a listing.
pub type Listing = Vec<Result<DirEntry, FsError>>;

/// The values of the entries of a listing.
pub open spec fn listing_view(v: Seq<Result<DirEntry, FsError>>) -> Seq<
    Result<EntryView, FsErrorView>,
> {
    v.map_values(|r: Result<DirEntry, FsError>| entry_reply(r))
}

/// The value of a listing, or of why there is none.
pub open spec fn listing_reply(r: Result<Listing, FsError>) -> Result<
    Seq<Result<EntryView, FsErrorView>>,
    FsErrorView,
> {
    match r {
        Ok(v) => Ok(listing_view(v@)),
        Err(e) => Err(e@),
    }
}

/// The text that came back, or the value of the error.
pub open spec fn text_reply(r: Result<String, FsError>) -> Result<Seq<char>, FsErrorView> {
    match r {
        Ok(s) => Ok(s@),
        Err(e) => Err(e@),
    }
}

/// Every effect of the engine on the outside. The implementation decides each outcome;
/// nothing is taken for granted of it.
pub trait FsOps {
    /// Creates `path` and its ancestors; what exists stays.
    fn mkdir_p(&self, path: &str) -> Result<(), FsError>;

    /// Whether `a` and `b` live on one file system.
    fn same_filesystem(&self, a: &str, b: &str) -> Result<bool, FsError>;

    /// Renames without ever replacing: `AlreadyExists` when `to` is taken.
    fn rename_noreplace(&self, from: &str, to: &str) -> Result<(), FsError>;

    /// Creates `to`, which must not exist, and copies `from` into it; the bytes copied.
    fn copy_create_new(&self, from: &str, to: &str) -> Result<u64, FsError>;

    /// Makes the contents of a file durable.
    fn fsync_file(&self, path: &str) -> Result<(), FsError>;

    /// Makes the entries of a directory durable.
    fn fsync_dir(&self, path: &str) -> Result<(), FsError>;

    /// Unlinks a file.
    fn remove_file(&self, path: &str) -> Result<(), FsError>;

    /// The length of a file.
    fn file_len(&self, path: &str) -> Result<u64, FsError>;

    /// The bytes that are free at `path`.
    fn free_space(&self, path: &str) -> Result<u64, FsError>;

    /// Whether something is there at `path`.
    fn is_there(&self, path: &str) -> bool;

    /// Whether `path` is a directory.
    fn is_dir(&self, path: &str) -> bool;

    /// Whether `path` is a regular file.
    fn is_file(&self, path: &str) -> bool;

    /// The entries of a directory.
    fn list_dir(&self, path: &str) -> Result<Listing, FsError>;

    /// The path without links and relative parts.
    fn canonicalize(&self, path: &str) -> Result<String, FsError>;

    /// The contents of a file.
    fn read(&self, path: &str) -> Result<Vec<u8>, FsError>;

    /// Creates or truncates a file, writes `content`, and makes it durable if `sync`.
    fn write_file(&self, path: &str, content: &[u8], sync: bool) -> Result<(), FsError>;

    /// Renames; a file at `to` is replaced.
    fn rename(&self, from: &str, to: &str) -> Result<(), FsError>;

    /// The number of this process.
    fn process_id(&self) -> u32;

    /// The bytes of a journal, or why it has none.
    fn encode_journal(&self, journal: &Journal) -> Result<Vec<u8>, String>;

    /// The journal that bytes stand for, or why they stand for none.
    fn decode_journal(&self, bytes: &Vec<u8>) -> Result<Journal, String>;

    /// The bytes of a session, or why it has none.
    fn encode_session(&self, session: &Session) -> Result<Vec<u8>, CodingError>;

    /// The session that bytes stand for, or why they stand for none.
    fn decode_session(&self, bytes: &Vec<u8>) -> Result<Session, CodingError>;
}

/// One call of `FsOps` and what came back.
#[allow(inconsistent_fields)]
pub enum FsEvent {
    MkdirP { path: Seq<char>, reply: Result<(), FsErrorView> },
    SameFilesystem { a: Seq<char>, b: Seq<char>, reply: Result<bool, FsErrorView> },
    RenameNoreplace { from: Seq<char>, to: Seq<char>, reply: Result<(), FsErrorView> },
    CopyCreateNew { from: Seq<char>, to: Seq<char>, reply: Result<u64, FsErrorView> },
    FsyncFile { path: Seq<char>, reply: Result<(), FsErrorView> },
    FsyncDir { path: Seq<char>, reply: Result<(), FsErrorView> },
    RemoveFile { path: Seq<char>, reply: Result<(), FsErrorView> },
    FileLen { path: Seq<char>, reply: Result<u64, FsErrorView> },
    FreeSpace { path: Seq<char>, reply: Result<u64, FsErrorView> },
    IsThere { path: Seq<char>, reply: bool },
    IsDir { path: Seq<char>, reply: bool },
    IsFile { path: Seq<char>, reply: bool },
    ListDir {
        path: Seq<char>,
        reply: Result<Seq<Result<EntryView, FsErrorView>>, FsErrorView>,
    },
    Canonicalize { path: Seq<char>, reply: Result<Seq<char>, FsErrorView> },
    Read { path: Seq<char>, reply: Result<Seq<u8>, FsErrorView> },
    WriteFile {
        path: Seq<char>,
        content: Seq<u8>,
        sync: bool,
        reply: Result<(), FsErrorView>,
    },
    Rename { from: Seq<char>, to: Seq<char>, reply: Result<(), FsErrorView> },
    ProcessId { reply: u32 },
    EncodeJournal {
        plan: PlanView,
        statuses: Seq<OpState>,
        reply: Result<Seq<u8>, Seq<char>>,
    },
    DecodeJournal { bytes: Seq<u8>, reply: Result<(PlanView, Seq<OpState>), Seq<char>> },
    EncodeSession { session: SessionView, reply: Result<Seq<u8>, CodingView> },
    DecodeSession { bytes: Seq<u8>, reply: Result<SessionView, CodingView> },
}

/// Bytes that came back, or the value of the error.
pub open spec fn bytes_reply(r: Result<Vec<u8>, FsError>) -> Result<Seq<u8>, FsErrorView> {
    match r {
        Ok(b) => Ok(b@),
        Err(e) => Err(e@),
    }
}

/// Bytes that were made, or the words of why not.
pub open spec fn coded_reply(r: Result<Vec<u8>, String>) -> Result<Seq<u8>, Seq<char>> {
    match r {
        Ok(b) => Ok(b@),
        Err(e) => Err(e@),
    }
}

/// The journal that came back, or the words of why none did.
pub open spec fn journal_reply(r: Result<Journal, String>) -> Result<
    (PlanView, Seq<OpState>),
    Seq<char>,
> {
    match r {
        Ok(j) => Ok((j.plan@, j.statuses@)),
        Err(e) => Err(e@),
    }
}

/// The bytes of a session, or why it has none.
pub open spec fn session_bytes(r: Result<Vec<u8>, CodingError>) -> Result<Seq<u8>, CodingView> {
    match r {
        Ok(b) => Ok(b@),
        Err(e) => Err(e@),
    }
}

/// The session that came back, or why none did.
pub open spec fn session_reply(r: Result<Session, CodingError>) -> Result<
    SessionView,
    CodingView,
> {
    match r {
        Ok(s) => Ok(s@),
        Err(e) => Err(e@),
    }
}

/// An `FsOps` together with the history of the calls made through it.
pub struct FsLog<'a, F> {
    fs: &'a F,
    log: Ghost<Seq<FsEvent>>,
}

impl<'a, F: FsOps> FsLog<'a, F> {
    /// The calls made so far, oldest first, each with its reply.
    pub closed spec fn log(&self) -> Seq<FsEvent> {
        self.log@
    }

    /// Starts with an empty history.
    pub fn new(fs: &'a F) -> (r: Self)
        ensures
            r.log() == Seq::<FsEvent>::empty(),
    {
        FsLog { fs, log: Ghost(Seq::empty()) }
    }

    /// Calls `FsOps::mkdir_p`.
    pub fn mkdir_p(&mut self, path: &str) -> (r: Result<(), FsError>)
        ensures
            final(self).log() == old(self).log().push(
                FsEvent::MkdirP { path: path@, reply: reply_of(r) },
            ),
    {
        let r = self.fs.mkdir_p(path);
        self.log = Ghost(self.log@.push(FsEvent::MkdirP { path: path@, reply: reply_of(r) }));
        r
    }

    /// Calls `FsOps::same_filesystem`.
    pub fn same_filesystem(&mut self, a: &str, b: &str) -> (r: Result<bool, FsError>)
        ensures
            final(self).log() == old(self).log().push(
                FsEvent::SameFilesystem { a: a@, b: b@, reply: reply_of(r) },
            ),
    {
        let r = self.fs.same_filesystem(a, b);
        self.log = Ghost(
            self.log@.push(FsEvent::SameFilesystem { a: a@, b: b@, reply: reply_of(r) }),
        );
        r
    }

    /// Calls `FsOps::rename_noreplace`.
    pub fn rename_noreplace(&mut self, from: &str, to: &str) -> (r: Result<(), FsError>)
        ensures
            final(self).log() == old(self).log().push(
                FsEvent::RenameNoreplace { from: from@, to: to@, reply: reply_of(r) },
            ),
    {
        let r = self.fs.rename_noreplace(from, to);
        self.log = Ghost(
            self.log@.push(
                FsEvent::RenameNoreplace { from: from@, to: to@, reply: reply_of(r) },
            ),
        );
        r
    }

    /// Calls `FsOps::copy_create_new`.
    pub fn copy_create_new(&mut self, from: &str, to: &str) -> (r: Result<u64, FsError>)
        ensures
            final(self).log() == old(self).log().push(
                FsEvent::CopyCreateNew { from: from@, to: to@, reply: reply_of(r) },
            ),
    {
        let r = self.fs.copy_create_new(from, to);
        self.log = Ghost(
            self.log@.push(FsEvent::CopyCreateNew { from: from@, to: to@, reply: reply_of(r) }),
        );
        r
    }

    /// Calls `FsOps::fsync_file`.
    pub fn fsync_file(&mut self, path: &str) -> (r: Result<(), FsError>)
        ensures
            final(self).log() == old(self).log().push(
                FsEvent::FsyncFile { path: path@, reply: reply_of(r) },
            ),
    {
        let r = self.fs.fsync_file(path);
        self.log = Ghost(self.log@.push(FsEvent::FsyncFile { path: path@, reply: reply_of(r) }));
        r
    }

    /// Calls `FsOps::fsync_dir`.
    pub fn fsync_dir(&mut self, path: &str) -> (r: Result<(), FsError>)
        ensures
            final(self).log() == old(self).log().push(
                FsEvent::FsyncDir { path: path@, reply: reply_of(r) },
            ),
    {
        let r = self.fs.fsync_dir(path);
        self.log = Ghost(self.log@.push(FsEvent::FsyncDir { path: path@, reply: reply_of(r) }));
        r
    }

    /// Calls `FsOps::remove_file`.
    pub fn remove_file(&mut self, path: &str) -> (r: Result<(), FsError>)
        ensures
            final(self).log() == old(self).log().push(
                FsEvent::RemoveFile { path: path@, reply: reply_of(r) },
            ),
    {
        let r = self.fs.remove_file(path);
        self.log = Ghost(self.log@.push(FsEvent::RemoveFile { path: path@, reply: reply_of(r) }));
        r
    }

    /// Calls `FsOps::file_len`.
    pub fn file_len(&mut self, path: &str) -> (r: Result<u64, FsError>)
        ensures
            final(self).log() == old(self).log().push(
                FsEvent::FileLen { path: path@, reply: reply_of(r) },
            ),
    {
        let r = self.fs.file_len(path);
        self.log = Ghost(self.log@.push(FsEvent::FileLen { path: path@, reply: reply_of(r) }));
        r
    }

    /// Calls `FsOps::free_space`.
    pub fn free_space(&mut self, path: &str) -> (r: Result<u64, FsError>)
        ensures
            final(self).log() == old(self).log().push(
                FsEvent::FreeSpace { path: path@, reply: reply_of(r) },
            ),
    {
        let r = self.fs.free_space(path);
        self.log = Ghost(self.log@.push(FsEvent::FreeSpace { path: path@, reply: reply_of(r) }));
        r
    }

    /// Calls `FsOps::is_there`.
    pub fn is_there(&mut self, path: &str) -> (r: bool)
        ensures
            final(self).log() == old(self).log().push(FsEvent::IsThere { path: path@, reply: r }),
    {
        let r = self.fs.is_there(path);
        self.log = Ghost(self.log@.push(FsEvent::IsThere { path: path@, reply: r }));
        r
    }

    /// Calls `FsOps::is_dir`.
    pub fn is_dir(&mut self, path: &str) -> (r: bool)
        ensures
            final(self).log() == old(self).log().push(FsEvent::IsDir { path: path@, reply: r }),
    {
        let r = self.fs.is_dir(path);
        self.log = Ghost(self.log@.push(FsEvent::IsDir { path: path@, reply: r }));
        r
    }

    /// Calls `FsOps::is_file`.
    pub fn is_file(&mut self, path: &str) -> (r: bool)
        ensures
            final(self).log() == old(self).log().push(FsEvent::IsFile { path: path@, reply: r }),
    {
        let r = self.fs.is_file(path);
        self.log = Ghost(self.log@.push(FsEvent::IsFile { path: path@, reply: r }));
        r
    }

    /// Calls `FsOps::list_dir`.
    pub fn list_dir(&mut self, path: &str) -> (r: Result<Listing, FsError>)
        ensures
            final(self).log() == old(self).log().push(
                FsEvent::ListDir { path: path@, reply: listing_reply(r) },
            ),
    {
        let r = self.fs.list_dir(path);
        self.log = Ghost(
            self.log@.push(FsEvent::ListDir { path: path@, reply: listing_reply(r) }),
        );
        r
    }

    /// Calls `FsOps::canonicalize`.
    pub fn canonicalize(&mut self, path: &str) -> (r: Result<String, FsError>)
        ensures
            final(self).log() == old(self).log().push(
                FsEvent::Canonicalize { path: path@, reply: text_reply(r) },
            ),
    {
        let r = self.fs.canonicalize(path);
        self.log = Ghost(
            self.log@.push(FsEvent::Canonicalize { path: path@, reply: text_reply(r) }),
        );
        r
    }

    /// Calls `FsOps::read`.
    pub fn read(&mut self, path: &str) -> (r: Result<Vec<u8>, FsError>)
        ensures
            final(self).log() == old(self).log().push(
                FsEvent::Read { path: path@, reply: bytes_reply(r) },
            ),
    {
        let r = self.fs.read(path);
        self.log = Ghost(self.log@.push(FsEvent::Read { path: path@, reply: bytes_reply(r) }));
        r
    }

    /// Calls `FsOps::write_file`.
    pub fn write_file(&mut self, path: &str, content: &[u8], sync: bool) -> (r: Result<
        (),
        FsError,
    >)
        ensures
            final(self).log() == old(self).log().push(
                FsEvent::WriteFile { path: path@, content: content@, sync, reply: reply_of(r) },
            ),
    {
        let r = self.fs.write_file(path, content, sync);
        self.log = Ghost(
            self.log@.push(
                FsEvent::WriteFile { path: path@, content: content@, sync, reply: reply_of(r) },
            ),
        );
        r
    }

    /// Calls `FsOps::rename`.
    pub fn rename(&mut self, from: &str, to: &str) -> (r: Result<(), FsError>)
        ensures
            final(self).log() == old(self).log().push(
                FsEvent::Rename { from: from@, to: to@, reply: reply_of(r) },
            ),
    {
        let r = self.fs.rename(from, to);
        self.log = Ghost(
            self.log@.push(FsEvent::Rename { from: from@, to: to@, reply: reply_of(r) }),
        );
        r
    }

    /// Calls `FsOps::process_id`.
    pub fn process_id(&mut self) -> (r: u32)
        ensures
            final(self).log() == old(self).log().push(FsEvent::ProcessId { reply: r }),
    {
        let r: u32 = self.fs.process_id();
        self.log = Ghost(self.log@.push(FsEvent::ProcessId { reply: r }));
        r
    }

    /// Calls `FsOps::encode_journal`.
    pub fn encode_journal(&mut self, journal: &Journal) -> (r: Result<Vec<u8>, String>)
        ensures
            final(self).log() == old(self).log().push(
                FsEvent::EncodeJournal {
                    plan: journal.plan@,
                    statuses: journal.statuses@,
                    reply: coded_reply(r),
                },
            ),
    {
        let r = self.fs.encode_journal(journal);
        self.log = Ghost(
            self.log@.push(
                FsEvent::EncodeJournal {
                    plan: journal.plan@,
                    statuses: journal.statuses@,
                    reply: coded_reply(r),
                },
            ),
        );
        r
    }

    /// Calls `FsOps::decode_journal`.
    pub fn decode_journal(&mut self, bytes: &Vec<u8>) -> (r: Result<Journal, String>)
        ensures
            final(self).log() == old(self).log().push(
                FsEvent::DecodeJournal {
                    bytes: bytes@,
                    reply: journal_reply(r),
                },
            ),
    {
        let r = self.fs.decode_journal(bytes);
        self.log = Ghost(
            self.log@.push(
                FsEvent::DecodeJournal {
                    bytes: bytes@,
                    reply: journal_reply(r),
                },
            ),
        );
        r
    }

    /// Calls `FsOps::encode_session`.
    pub fn encode_session(&mut self, session: &Session) -> (r: Result<Vec<u8>, CodingError>)
        ensures
            final(self).log() == old(self).log().push(
                FsEvent::EncodeSession { session: session@, reply: session_bytes(r) },
            ),
    {
        let r = self.fs.encode_session(session);
        self.log = Ghost(
            self.log@.push(FsEvent::EncodeSession { session: session@, reply: session_bytes(r) }),
        );
        r
    }

    /// Calls `FsOps::decode_session`.
    pub fn decode_session(&mut self, bytes: &Vec<u8>) -> (r: Result<Session, CodingError>)
        ensures
            final(self).log() == old(self).log().push(
                FsEvent::DecodeSession {
                    bytes: bytes@,
                    reply: session_reply(r),
                },
            ),
    {
        let r = self.fs.decode_session(bytes);
        self.log = Ghost(
            self.log@.push(
                FsEvent::DecodeSession {
                    bytes: bytes@,
                    reply: session_reply(r),
                },
            ),
        );
        r
    }
}

} // verus!
