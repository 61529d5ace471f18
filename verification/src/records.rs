//! The files that are published whole: the journal of an apply and the sidecars. Each is
//! written beside its place first and then renamed into it.
use vstd::prelude::*;
use vstd::utf8::encode_utf8;
use crate::fsops::{own_error, FsError, FsErrorKind, FsErrorView, FsEvent, FsLog, FsOps};
use crate::journal::{ApplyError, ApplyErrorView, Journal, OpState, outcome};
use crate::paths::{
    a_joined_name_is_found_again, a_replaced_name_stays_in_its_folder,
    a_slash_at_the_end_says_nothing, file_name, file_name_of, is_one_name, join, join_path, parent,
    parent_of, replace_file_name, settled, with_file_name,
};
use crate::plan::PlanView;
use crate::text::{a_written_number_reads_back, decimal, decimal_text, texts};
use crate::xmp::{build_xmp, xmp_document};

verus! {

/// The history went on from `a` to `b`.
pub open spec fn extends(b: Seq<FsEvent>, a: Seq<FsEvent>) -> bool {
    a.is_prefix_of(b)
}

/// What happened between two points of one history.
pub open spec fn since(b: Seq<FsEvent>, a: Seq<FsEvent>) -> Seq<FsEvent> {
    b.skip(a.len() as int)
}

/// What happened from one point to a third is what happened to the second and after it.
pub proof fn since_adds_up(a: Seq<FsEvent>, b: Seq<FsEvent>, c: Seq<FsEvent>)
    requires
        extends(b, a),
        extends(c, b),
    ensures
        extends(c, a),
        since(c, a) == since(b, a) + since(c, b),
{
    assert(a =~= b.subrange(0, a.len() as int));
    assert(b =~= c.subrange(0, b.len() as int));
    assert(a =~= c.subrange(0, a.len() as int));
    assert(since(c, a) =~= since(b, a) + since(c, b));
}

/// One more event.
pub proof fn since_grows(a: Seq<FsEvent>, b: Seq<FsEvent>, c: Seq<FsEvent>)
    requires
        extends(b, a),
        c.len() == b.len() + 1,
        c.drop_last() =~= b,
    ensures
        extends(c, a),
        since(c, a) == since(b, a).push(c.last()),
{
    assert(a =~= b.subrange(0, a.len() as int));
    assert(a =~= c.subrange(0, a.len() as int));
    assert(since(c, a) =~= since(b, a).push(c.last()));
}

/// Nothing has happened yet.
pub proof fn since_starts_empty(a: Seq<FsEvent>)
    ensures
        extends(a, a),
        since(a, a) == Seq::<FsEvent>::empty(),
{
    assert(a =~= a.subrange(0, a.len() as int));
    assert(since(a, a) =~= Seq::<FsEvent>::empty());
}

/// An error without a kind of its own.
pub open spec fn other_error(words: Seq<char>) -> FsErrorView {
    own_error(FsErrorKind::Other, words)
}

/// Where a journal is written before it is renamed into its place.
pub open spec fn journal_tmp(path: Seq<char>) -> Seq<char> {
    let name = match file_name(path) {
        Some(n) => n,
        None => "journal"@,
    };
    with_file_name(path, name + ".tmp"@)
}

/// The history of writing a journal: it is encoded, written beside its place (and made
/// durable if `sync`), and renamed into it. The first failure ends it.
pub open spec fn journal_written(
    plan: PlanView,
    statuses: Seq<OpState>,
    path: Seq<char>,
    sync: bool,
    t: Seq<FsEvent>,
    r: Result<(), ApplyErrorView>,
) -> bool {
    let tmp = journal_tmp(path);
    &&& t.len() >= 1
    &&& t[0] matches FsEvent::EncodeJournal { plan: p, statuses: s, reply }
    &&& p == plan
    &&& s == statuses
    &&& match reply {
        Err(words) => {
            &&& t.len() == 1
            &&& r == Err::<(), _>(ApplyErrorView::Fs { path, source: other_error(words) })
        },
        Ok(bytes) => {
            &&& t.len() >= 2
            &&& t[1] matches FsEvent::WriteFile { path: at, content, sync: synced, reply: wrote }
            &&& at == tmp
            &&& content == bytes
            &&& synced == sync
            &&& match wrote {
                Err(e) => {
                    &&& t.len() == 2
                    &&& r == Err::<(), _>(ApplyErrorView::Fs { path: tmp, source: e })
                },
                Ok(_) => {
                    &&& t.len() == 3
                    &&& t[2] matches FsEvent::Rename { from, to, reply: renamed }
                    &&& from == tmp
                    &&& to == path
                    &&& match renamed {
                        Err(e) => r == Err::<(), _>(ApplyErrorView::Fs { path, source: e }),
                        Ok(_) => r == Ok::<(), ApplyErrorView>(()),
                    }
                },
            }
        },
    }
}

/// Writes the journal beside its place and renames it into it; made durable first if
/// `sync`.
pub fn write_journal<F: FsOps>(
    journal: &Journal,
    path: &str,
    sync: bool,
    fs: &mut FsLog<F>,
) -> (r: Result<(), ApplyError>)
    ensures
        extends(final(fs).log(), old(fs).log()),
        journal_written(
            journal.plan@,
            journal.statuses@,
            path@,
            sync,
            since(final(fs).log(), old(fs).log()),
            outcome(r),
        ),
{
    let ghost start = fs.log();
    proof {
        since_starts_empty(start);
    }
    let name = match file_name_of(path) {
        Some(n) => n,
        None => String::from_str("journal"),
    };
    let mut tmp_name = name;
    tmp_name.append(".tmp");
    let tmp = replace_file_name(path, tmp_name.as_str());
    let ghost l0 = fs.log();
    let encoded = fs.encode_journal(journal);
    proof {
        since_grows(start, l0, fs.log());
    }
    let bytes = match encoded {
        Ok(b) => b,
        Err(words) => {
            return Err(
                ApplyError::Fs {
                    path: path.to_owned(),
                    source: FsError::own(FsErrorKind::Other, words),
                },
            );
        },
    };
    let ghost l1 = fs.log();
    let wrote = fs.write_file(tmp.as_str(), bytes.as_slice(), sync);
    proof {
        since_grows(start, l1, fs.log());
    }
    if let Err(e) = wrote {
        return Err(ApplyError::Fs { path: tmp, source: e });
    }
    let ghost l2 = fs.log();
    let renamed = fs.rename(tmp.as_str(), path);
    proof {
        since_grows(start, l2, fs.log());
    }
    match renamed {
        Ok(()) => Ok(()),
        Err(e) => Err(ApplyError::Fs { path: path.to_owned(), source: e }),
    }
}

/// Where a sidecar is written before it is renamed into its place: a hidden sibling that
/// carries the number of the process.
pub open spec fn sidecar_tmp(path: Seq<char>, name: Seq<char>, pid: u32) -> Seq<char> {
    let dir = match parent(path) {
        Some(d) => d,
        None => "."@,
    };
    join(dir, "."@ + name + "."@ + decimal(pid as nat) + ".tmp"@)
}

/// The history of writing a sidecar: the document is written beside its place and made
/// durable, and only then renamed into it, never over a file that is there. A failure
/// ends it and removes what was written beside the place. Without a file name nothing
/// happens at all.
pub open spec fn sidecar_written(
    path: Seq<char>,
    tags: Seq<Seq<char>>,
    rating: Option<i32>,
    t: Seq<FsEvent>,
    r: Result<(), FsErrorView>,
) -> bool {
    match file_name(path) {
        None => {
            &&& t.len() == 0
            &&& r == Err::<(), _>(
                own_error(FsErrorKind::InvalidInput, "sidecar path has no file name"@),
            )
        },
        Some(name) => {
            &&& t.len() >= 3
            &&& t[0] matches FsEvent::ProcessId { reply: pid }
            &&& t[1] matches FsEvent::WriteFile { path: at, content, sync, reply: wrote }
            &&& at == sidecar_tmp(path, name, pid)
            &&& content == encode_utf8(xmp_document(tags, rating))
            &&& sync
            &&& match wrote {
                Err(e) => {
                    &&& t.len() == 3
                    &&& t[2] is RemoveFile
                    &&& t[2]->RemoveFile_path == at
                    &&& r == Err::<(), _>(e)
                },
                Ok(_) => {
                    &&& t[2] matches FsEvent::RenameNoreplace { from, to, reply: renamed }
                    &&& from == at
                    &&& to == path
                    &&& match renamed {
                        Err(e) => {
                            &&& t.len() == 4
                            &&& t[3] is RemoveFile
                            &&& t[3]->RemoveFile_path == at
                            &&& r == Err::<(), _>(e)
                        },
                        Ok(_) => {
                            &&& t.len() == 3
                            &&& r == Ok::<(), FsErrorView>(())
                        },
                    }
                },
            }
        },
    }
}

/// Writes the sidecar at `path`; a file that is there is never replaced.
pub fn write_sidecar<F: FsOps>(
    path: &str,
    tags: &Vec<String>,
    rating: Option<i32>,
    fs: &mut FsLog<F>,
) -> (r: Result<(), FsError>)
    ensures
        extends(final(fs).log(), old(fs).log()),
        sidecar_written(
            path@,
            texts(tags@),
            rating,
            since(final(fs).log(), old(fs).log()),
            crate::fsops::reply_of(r),
        ),
{
    let ghost start = fs.log();
    proof {
        since_starts_empty(start);
    }
    let content = build_xmp(tags, rating);
    let dir = match parent_of(path) {
        Some(d) => d,
        None => String::from_str("."),
    };
    let name = match file_name_of(path) {
        Some(n) => n,
        None => {
            return Err(
                FsError::own(
                    FsErrorKind::InvalidInput,
                    String::from_str("sidecar path has no file name"),
                ),
            );
        },
    };
    let ghost l0 = fs.log();
    let pid: u32 = fs.process_id();
    proof {
        since_grows(start, l0, fs.log());
    }
    let mut tmp_name = String::from_str(".");
    tmp_name.append(name.as_str());
    tmp_name.append(".");
    tmp_name.append(decimal_text(pid as u64).as_str());
    tmp_name.append(".tmp");
    let tmp = join_path(dir.as_str(), tmp_name.as_str());
    let ghost l1 = fs.log();
    let wrote = fs.write_file(tmp.as_str(), content.as_str().as_bytes(), true);
    proof {
        since_grows(start, l1, fs.log());
    }
    let ghost l2 = fs.log();
    if let Err(e) = wrote {
        let _ = fs.remove_file(tmp.as_str());
        proof {
            since_grows(start, l2, fs.log());
        }
        return Err(e);
    }
    let renamed = fs.rename_noreplace(tmp.as_str(), path);
    proof {
        since_grows(start, l2, fs.log());
    }
    if let Err(e) = renamed {
        let ghost l3 = fs.log();
        let _ = fs.remove_file(tmp.as_str());
        proof {
            since_grows(start, l3, fs.log());
        }
        return Err(e);
    }
    Ok(())
}

/// The temporary file of the journal is beside it, under its name with `.tmp` behind.
pub proof fn the_journal_is_written_beside_its_place(base: Seq<char>, name: Seq<char>)
    requires
        is_one_name(name),
    ensures
        file_name(journal_tmp(join(base, name))) == Some(name + seq!['.', 't', 'm', 'p']),
        parent(journal_tmp(join(base, name))) == parent(join(base, name)),
        journal_tmp(join(base, name)) != join(base, name),
{
    reveal_strlit(".tmp");
    assert(".tmp"@ =~= seq!['.', 't', 'm', 'p']);
    let tmp = name + ".tmp"@;
    assert(!tmp.contains('/')) by {
        if tmp.contains('/') {
            let i = choose|i: int| 0 <= i < tmp.len() && tmp[i] == '/';
            if i < name.len() {
                assert(name[i] == '/');
            }
        }
    }
    assert(tmp.len() >= 5);
    a_joined_name_is_found_again(base, name, tmp);
    a_replaced_name_stays_in_its_folder(base, name, tmp);
    assert(tmp.len() != name.len());
}

/// The temporary file of a sidecar is beside it and hidden: a dot, its name, the number of
/// the process, `.tmp`. Two processes never share one.
pub proof fn a_sidecar_is_written_beside_its_place(
    base: Seq<char>,
    name: Seq<char>,
    pid: u32,
    other: u32,
)
    requires
        is_one_name(name),
    ensures
        ({
            let tmp = sidecar_tmp(join(base, name), name, pid);
            &&& file_name(tmp) == Some(
                seq!['.'] + name + seq!['.'] + decimal(pid as nat) + seq!['.', 't', 'm', 'p'],
            )
            &&& parent(tmp) == parent(join(base, name))
            &&& tmp != join(base, name)
            &&& pid != other ==> tmp != sidecar_tmp(join(base, name), name, other)
        }),
{
    reveal_strlit(".");
    reveal_strlit(".tmp");
    assert("."@ =~= seq!['.']);
    assert(".tmp"@ =~= seq!['.', 't', 'm', 'p']);
    let dir = settled(base);
    let tmp = "."@ + name + "."@ + decimal(pid as nat) + ".tmp"@;
    let tmp2 = "."@ + name + "."@ + decimal(other as nat) + ".tmp"@;
    a_joined_name_is_found_again(base, name, name);
    lemma_hidden_name(name, pid);
    lemma_hidden_name(name, other);
    a_joined_name_is_found_again(dir, tmp, tmp);
    a_joined_name_is_found_again(dir, tmp2, tmp2);
    if base.len() > 0 {
        a_slash_at_the_end_says_nothing(base);
    }
    assert(tmp.len() > name.len());
    if pid != other && tmp == tmp2 {
        a_written_number_reads_back(pid as nat);
        a_written_number_reads_back(other as nat);
        let n = name.len() as int + 2;
        assert(tmp.subrange(n, tmp.len() - 4) =~= decimal(pid as nat));
        assert(tmp2.subrange(n, tmp2.len() - 4) =~= decimal(other as nat));
    }
}

proof fn lemma_hidden_name(name: Seq<char>, pid: u32)
    requires
        is_one_name(name),
    ensures
        is_one_name("."@ + name + "."@ + decimal(pid as nat) + ".tmp"@),
{
    reveal_strlit(".");
    reveal_strlit(".tmp");
    a_written_number_reads_back(pid as nat);
    let d = decimal(pid as nat);
    let tmp = "."@ + name + "."@ + d + ".tmp"@;
    assert(tmp.len() > 2);
    if tmp.contains('/') {
        let i = choose|i: int| 0 <= i < tmp.len() && tmp[i] == '/';
        let n = name.len() as int;
        if 1 <= i < n + 1 {
            assert(name[i - 1] == '/');
        } else if n + 2 <= i < n + 2 + d.len() {
            assert('0' <= d[i - n - 2] <= '9');
        } else if i >= n + 2 + d.len() {
            assert(".tmp"@[i - n - 2 - d.len()] == '/');
        }
    }
}

/// A journal is replaced whole or not at all: it is written beside its place, to the disk
/// where that is asked, and takes its place only once that went well; it holds the plan and
/// the states that were encoded.
pub proof fn a_journal_is_replaced_whole_or_not_at_all(
    plan: PlanView,
    statuses: Seq<OpState>,
    path: Seq<char>,
    sync: bool,
    t: Seq<FsEvent>,
    r: Result<(), ApplyErrorView>,
)
    requires
        journal_written(plan, statuses, path, sync, t, r),
    ensures
        1 <= t.len() <= 3,
        t[0] is EncodeJournal && t[0]->EncodeJournal_plan == plan && t[0]->EncodeJournal_statuses
            == statuses,
        forall|k: int|
            0 <= k < t.len() && (#[trigger] t[k]) is WriteFile ==> {
                &&& t[k]->WriteFile_path == journal_tmp(path)
                &&& t[k]->WriteFile_sync == sync
                &&& t[0]->EncodeJournal_reply == Ok::<Seq<u8>, Seq<char>>(
                    t[k]->WriteFile_content,
                )
            },
        forall|k: int|
            0 <= k < t.len() && (#[trigger] t[k]) is Rename ==> {
                &&& k > 0
                &&& t[k]->Rename_to == path
                &&& t[k - 1] is WriteFile
                &&& t[k - 1]->WriteFile_reply is Ok
                &&& t[k]->Rename_from == t[k - 1]->WriteFile_path
            },
        forall|k: int|
            0 <= k < t.len() ==> (#[trigger] t[k]) is EncodeJournal || t[k] is WriteFile || t[k]
                is Rename,
        r is Ok <==> t.last() is Rename && t.last()->Rename_reply is Ok,
        t.last() is WriteFile ==> t.last()->WriteFile_reply is Err && r == Err::<(), _>(
            ApplyErrorView::Fs {
                path: t.last()->WriteFile_path,
                source: t.last()->WriteFile_reply->Err_0,
            },
        ),
        t.last() is Rename && t.last()->Rename_reply is Err ==> r == Err::<(), _>(
            ApplyErrorView::Fs { path, source: t.last()->Rename_reply->Err_0 },
        ),
{
}

/// A sidecar never replaces a file: it takes its place by a rename that refuses to, and only
/// once it was written to the disk beside it. Where that fails, what was written beside it
/// is taken away again, and the error is told.
pub proof fn a_sidecar_never_replaces_a_file(
    path: Seq<char>,
    tags: Seq<Seq<char>>,
    rating: Option<i32>,
    t: Seq<FsEvent>,
    r: Result<(), FsErrorView>,
)
    requires
        sidecar_written(path, tags, rating, t, r),
    ensures
        forall|k: int|
            0 <= k < t.len() ==> !((#[trigger] t[k]) is Rename) && !(t[k] is CopyCreateNew),
        forall|k: int|
            0 <= k < t.len() && (#[trigger] t[k]) is WriteFile ==> {
                &&& t[k]->WriteFile_content == encode_utf8(xmp_document(tags, rating))
                &&& t[k]->WriteFile_sync
            },
        forall|k: int|
            0 <= k < t.len() && (#[trigger] t[k]) is RenameNoreplace ==> {
                &&& k > 0
                &&& t[k]->RenameNoreplace_to == path
                &&& t[k - 1] is WriteFile
                &&& t[k - 1]->WriteFile_reply is Ok
                &&& t[k]->RenameNoreplace_from == t[k - 1]->WriteFile_path
            },
        r is Ok <==> t.len() > 0 && t.last() is RenameNoreplace && t.last()->RenameNoreplace_reply
            is Ok,
        r is Err && t.len() > 0 ==> {
            let failed = t[t.len() - 2];
            &&& t.last() is RemoveFile
            &&& t[1] is WriteFile
            &&& t.last()->RemoveFile_path == t[1]->WriteFile_path
            &&& failed is WriteFile ==> failed->WriteFile_reply == r
            &&& failed is RenameNoreplace ==> failed->RenameNoreplace_reply == r
            &&& failed is WriteFile || failed is RenameNoreplace
        },
{
}

} // verus!
