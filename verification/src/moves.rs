//! Moving one file: by a rename that never replaces, or, across file systems, by a copy
//! that is verified and published before the source goes.
use vstd::prelude::*;
use crate::fsops::{own_error, FsError, FsErrorKind, FsErrorView, FsEvent, FsLog, FsOps};
use crate::journal::{outcome, ApplyError, ApplyErrorView};
use crate::paths::{
    a_joined_name_is_found_again, a_replaced_name_stays_in_its_folder, file_name, file_name_of,
    is_one_name, join, parent, parent_of, replace_file_name, with_file_name,
};
use crate::records::{extends, since, since_adds_up, since_grows, since_starts_empty};
use crate::text::{a_written_number_reads_back, decimal, decimal_text, number_in};

verus! {

/// The error number of a rename that would cross file systems.
pub open spec fn xdev() -> i32 {
    18
}

/// `rustix::io::Errno::XDEV` and its `raw_os_error`: the number that Linux gives to a
/// rename that would cross file systems.
#[verifier::external_body]
fn xdev_code() -> (r: i32)
    ensures
        r == xdev(),
{
    rustix::io::Errno::XDEV.raw_os_error()
}

/// Whether the error says that a rename would cross file systems.
pub open spec fn crosses(e: FsErrorView) -> bool {
    e.os == Some(xdev())
}

/// Whether the error says that a rename would cross file systems.
pub fn is_exdev(e: &FsError) -> (r: bool)
    ensures
        r == crosses(e@),
{
    match e.os {
        Some(n) => n == xdev_code(),
        None => false,
    }
}

/// The hidden sibling that a copy is made into.
pub open spec fn partial_of(to: Seq<char>) -> Seq<char> {
    let name = match file_name(to) {
        Some(n) => n,
        None => Seq::empty(),
    };
    with_file_name(to, "."@ + name + ".partial"@)
}

/// The hidden sibling that a copy is made into.
pub fn partial_path(to: &str) -> (r: String)
    ensures
        r@ == partial_of(to@),
{
    let mut name = String::from_str(".");
    match file_name_of(to) {
        Some(n) => {
            name.append(n.as_str());
        },
        None => {},
    }
    name.append(".partial");
    proof {
        assert("."@ + Seq::<char>::empty() =~= "."@);
    }
    replace_file_name(to, name.as_str())
}

/// A failed operation on `path`.
pub open spec fn failed(path: Seq<char>, e: FsErrorView) -> Result<(), ApplyErrorView> {
    Err(ApplyErrorView::Fs { path, source: e })
}

/// The words for a copy that came out short.
pub open spec fn short_copy(got: u64, want: u64) -> FsErrorView {
    own_error(
        FsErrorKind::InvalidData,
        "short copy: "@ + decimal(got as nat) + " of "@ + decimal(want as nat) + " bytes"@,
    )
}

/// The event removes `path`, whatever comes of it.
pub open spec fn removes(e: FsEvent, path: Seq<char>) -> bool {
    e matches FsEvent::RemoveFile { path: p, .. } && p == path
}

/// The history of publishing a verified copy: it is renamed into place, the directory is
/// made durable, and only then is the source unlinked. `t` starts with the rename.
pub open spec fn publish_ran(
    from: Seq<char>,
    to: Seq<char>,
    t: Seq<FsEvent>,
    r: Result<(), ApplyErrorView>,
) -> bool {
    let partial = partial_of(to);
    &&& t.len() >= 1
    &&& t[0] matches FsEvent::RenameNoreplace { from: f, to: g, reply }
    &&& f == partial
    &&& g == to
    &&& match reply {
        Err(e) => {
            &&& t.len() == 2
            &&& removes(t[1], partial)
            &&& r == if e.kind == FsErrorKind::AlreadyExists {
                Err(ApplyErrorView::Collision(to))
            } else {
                failed(to, e)
            }
        },
        Ok(_) => match parent(to) {
            None => {
                &&& t.len() == 2
                &&& unlink_ran(from, t[1], r)
            },
            Some(dir) => {
                &&& t.len() >= 2
                &&& t[1] matches FsEvent::FsyncDir { path, reply: synced }
                &&& path == dir
                &&& match synced {
                    Err(e) => t.len() == 2 && r == failed(dir, e),
                    Ok(_) => t.len() == 3 && unlink_ran(from, t[2], r),
                }
            },
        },
    }
}

/// The last step of a move across file systems: the source is unlinked.
pub open spec fn unlink_ran(
    from: Seq<char>,
    e: FsEvent,
    r: Result<(), ApplyErrorView>,
) -> bool {
    e matches FsEvent::RemoveFile { path, reply } && path == from && r == match reply {
        Ok(_) => Ok(()),
        Err(e) => failed(from, e),
    }
}

/// The history of a move across file systems. A stale partial is cleared; the source is
/// copied into the partial, which is made durable; its length is compared with that of
/// the source and with the bytes copied; then it is published. Each failure before that
/// removes the partial and leaves the source alone.
pub open spec fn cross_ran(
    from: Seq<char>,
    to: Seq<char>,
    t: Seq<FsEvent>,
    r: Result<(), ApplyErrorView>,
) -> bool {
    let partial = partial_of(to);
    &&& t.len() >= 3
    &&& removes(t[0], partial)
    &&& t[1] matches FsEvent::CopyCreateNew { from: f, to: g, reply: copied }
    &&& f == from
    &&& g == partial
    &&& match copied {
        Err(e) => t.len() == 3 && removes(t[2], partial) && r == failed(partial, e),
        Ok(n) => {
            &&& t.len() >= 4
            &&& t[2] matches FsEvent::FsyncFile { path, reply: synced }
            &&& path == partial
            &&& match synced {
                Err(e) => t.len() == 4 && removes(t[3], partial) && r == failed(partial, e),
                Ok(_) => {
                    &&& t.len() >= 5
                    &&& t[3] matches FsEvent::FileLen { path: p, reply: dest_len }
                    &&& p == partial
                    &&& match dest_len {
                        Err(e) => t.len() == 5 && removes(t[4], partial) && r == failed(partial, e),
                        Ok(got) => {
                            &&& t.len() >= 6
                            &&& t[4] matches FsEvent::FileLen { path: q, reply: src_len }
                            &&& q == from
                            &&& match src_len {
                                Err(e) => {
                                    &&& t.len() == 6
                                    &&& removes(t[5], partial)
                                    &&& r == failed(from, e)
                                },
                                Ok(want) => if got != want || n != want {
                                    &&& t.len() == 6
                                    &&& removes(t[5], partial)
                                    &&& r == failed(partial, short_copy(got, want))
                                } else {
                                    publish_ran(from, to, t.skip(5), r)
                                },
                            }
                        },
                    }
                },
            }
        },
    }
}

/// The history of a move: one rename that never replaces; across file systems, the copy.
pub open spec fn move_ran(
    from: Seq<char>,
    to: Seq<char>,
    t: Seq<FsEvent>,
    r: Result<(), ApplyErrorView>,
) -> bool {
    &&& t.len() >= 1
    &&& t[0] matches FsEvent::RenameNoreplace { from: f, to: g, reply }
    &&& f == from
    &&& g == to
    &&& match reply {
        Ok(_) => t.len() == 1 && r == Ok::<(), ApplyErrorView>(()),
        Err(e) => if crosses(e) {
            cross_ran(from, to, t.skip(1), r)
        } else {
            &&& t.len() == 1
            &&& r == if e.kind == FsErrorKind::AlreadyExists {
                Err(ApplyErrorView::Collision(to))
            } else {
                failed(from, e)
            }
        },
    }
}

fn publish<F: FsOps>(fs: &mut FsLog<F>, from: &str, partial: String, to: &str) -> (r: Result<
    (),
    ApplyError,
>)
    requires
        partial@ == partial_of(to@),
    ensures
        extends(final(fs).log(), old(fs).log()),
        publish_ran(from@, to@, since(final(fs).log(), old(fs).log()), outcome(r)),
{
    let ghost start = fs.log();
    proof {
        since_starts_empty(start);
    }
    let ghost l0 = fs.log();
    let renamed = fs.rename_noreplace(partial.as_str(), to);
    proof {
        since_grows(start, l0, fs.log());
    }
    let ghost l1 = fs.log();
    if let Err(e) = renamed {
        let _ = fs.remove_file(partial.as_str());
        proof {
            since_grows(start, l1, fs.log());
        }
        if e.kind == FsErrorKind::AlreadyExists {
            return Err(ApplyError::Collision(to.to_owned()));
        }
        return Err(ApplyError::Fs { path: to.to_owned(), source: e });
    }
    if let Some(dir) = parent_of(to) {
        let synced = fs.fsync_dir(dir.as_str());
        proof {
            since_grows(start, l1, fs.log());
        }
        if let Err(e) = synced {
            return Err(ApplyError::Fs { path: dir, source: e });
        }
    }
    let ghost l2 = fs.log();
    let removed = fs.remove_file(from);
    proof {
        since_grows(start, l2, fs.log());
    }
    match removed {
        Ok(()) => Ok(()),
        Err(e) => Err(ApplyError::Fs { path: from.to_owned(), source: e }),
    }
}

/// Moves a file to another file system. The source is unlinked only after its copy was
/// made durable, found to be of the same length, renamed into place and entered durably
/// into its directory.
pub fn move_cross_fs<F: FsOps>(fs: &mut FsLog<F>, from: &str, to: &str) -> (r: Result<
    (),
    ApplyError,
>)
    ensures
        extends(final(fs).log(), old(fs).log()),
        cross_ran(from@, to@, since(final(fs).log(), old(fs).log()), outcome(r)),
{
    let partial = partial_path(to);
    let ghost start = fs.log();
    proof {
        since_starts_empty(start);
    }
    let _ = fs.remove_file(partial.as_str());
    proof {
        since_grows(start, start, fs.log());
    }
    let ghost l1 = fs.log();
    let copied = fs.copy_create_new(from, partial.as_str());
    proof {
        since_grows(start, l1, fs.log());
    }
    let ghost l2 = fs.log();
    let n: u64 = match copied {
        Ok(n) => n,
        Err(e) => {
            let _ = fs.remove_file(partial.as_str());
            proof {
                since_grows(start, l2, fs.log());
            }
            return Err(ApplyError::Fs { path: partial, source: e });
        },
    };
    let synced = fs.fsync_file(partial.as_str());
    proof {
        since_grows(start, l2, fs.log());
    }
    let ghost l3 = fs.log();
    if let Err(e) = synced {
        let _ = fs.remove_file(partial.as_str());
        proof {
            since_grows(start, l3, fs.log());
        }
        return Err(ApplyError::Fs { path: partial, source: e });
    }
    let dest_len = fs.file_len(partial.as_str());
    proof {
        since_grows(start, l3, fs.log());
    }
    let ghost l4 = fs.log();
    let got: u64 = match dest_len {
        Ok(n) => n,
        Err(e) => {
            let _ = fs.remove_file(partial.as_str());
            proof {
                since_grows(start, l4, fs.log());
            }
            return Err(ApplyError::Fs { path: partial, source: e });
        },
    };
    let src_len = fs.file_len(from);
    proof {
        since_grows(start, l4, fs.log());
    }
    let ghost l5 = fs.log();
    let want: u64 = match src_len {
        Ok(n) => n,
        Err(e) => {
            let _ = fs.remove_file(partial.as_str());
            proof {
                since_grows(start, l5, fs.log());
            }
            return Err(ApplyError::Fs { path: from.to_owned(), source: e });
        },
    };
    if got != want || n != want {
        let _ = fs.remove_file(partial.as_str());
        proof {
            since_grows(start, l5, fs.log());
        }
        let mut words = String::from_str("short copy: ");
        words.append(decimal_text(got).as_str());
        words.append(" of ");
        words.append(decimal_text(want).as_str());
        words.append(" bytes");
        return Err(
            ApplyError::Fs {
                path: partial,
                source: FsError::own(FsErrorKind::InvalidData, words),
            },
        );
    }
    let r = publish(fs, from, partial, to);
    proof {
        since_adds_up(start, l5, fs.log());
        assert(since(fs.log(), start).skip(5) =~= since(fs.log(), l5));
    }
    r
}

/// Moves a file by a rename that never replaces; to another file system, by
/// `move_cross_fs`. A file that is in the way is a collision and stays as it is.
pub fn move_one<F: FsOps>(fs: &mut FsLog<F>, from: &str, to: &str) -> (r: Result<(), ApplyError>)
    ensures
        extends(final(fs).log(), old(fs).log()),
        move_ran(from@, to@, since(final(fs).log(), old(fs).log()), outcome(r)),
{
    let ghost start = fs.log();
    proof {
        since_starts_empty(start);
    }
    let renamed = fs.rename_noreplace(from, to);
    proof {
        since_grows(start, start, fs.log());
    }
    let ghost l1 = fs.log();
    match renamed {
        Ok(()) => Ok(()),
        Err(e) => {
            if is_exdev(&e) {
                let r = move_cross_fs(fs, from, to);
                proof {
                    since_adds_up(start, l1, fs.log());
                    assert(since(fs.log(), start).skip(1) =~= since(fs.log(), l1));
                }
                return r;
            }
            if e.kind == FsErrorKind::AlreadyExists {
                return Err(ApplyError::Collision(to.to_owned()));
            }
            Err(ApplyError::Fs { path: from.to_owned(), source: e })
        },
    }
}

/// A copy that is not yet published is beside its place and hidden: a dot, the name,
/// `.partial`. Two files of one folder never share one.
pub proof fn a_copy_is_made_beside_its_place(base: Seq<char>, name: Seq<char>, other: Seq<char>)
    requires
        is_one_name(name),
        is_one_name(other),
    ensures
        file_name(partial_of(join(base, name))) == Some(
            seq!['.'] + name + seq!['.', 'p', 'a', 'r', 't', 'i', 'a', 'l'],
        ),
        parent(partial_of(join(base, name))) == parent(join(base, name)),
        partial_of(join(base, name)) != join(base, name),
        name != other ==> partial_of(join(base, name)) != partial_of(join(base, other)),
{
    lemma_partial_name(base, name);
    lemma_partial_name(base, other);
    a_joined_name_is_found_again(base, name, name);
    let p = seq!['.'] + name + seq!['.', 'p', 'a', 'r', 't', 'i', 'a', 'l'];
    let q = seq!['.'] + other + seq!['.', 'p', 'a', 'r', 't', 'i', 'a', 'l'];
    assert(p.len() != name.len());
    if p == q {
        assert(p.subrange(1, p.len() - 8) =~= name);
        assert(q.subrange(1, q.len() - 8) =~= other);
    }
}

proof fn lemma_partial_name(base: Seq<char>, name: Seq<char>)
    requires
        is_one_name(name),
    ensures
        file_name(partial_of(join(base, name))) == Some(
            seq!['.'] + name + seq!['.', 'p', 'a', 'r', 't', 'i', 'a', 'l'],
        ),
        parent(partial_of(join(base, name))) == parent(join(base, name)),
{
    reveal_strlit(".");
    reveal_strlit(".partial");
    assert("."@ =~= seq!['.']);
    let end = seq!['.', 'p', 'a', 'r', 't', 'i', 'a', 'l'];
    assert(".partial"@ =~= end);
    let p = "."@ + name + ".partial"@;
    assert(!p.contains('/')) by {
        if p.contains('/') {
            let i = choose|i: int| 0 <= i < p.len() && p[i] == '/';
            if 1 <= i < name.len() + 1 {
                assert(name[i - 1] == '/');
            } else if i >= name.len() + 1 {
                assert(end[i - name.len() - 1] == '/');
            }
        }
    }
    assert(p.len() > 2);
    a_joined_name_is_found_again(base, name, p);
    a_replaced_name_stays_in_its_folder(base, name, p);
}

/// What a move comes to is what its steps said: it went well where the file was renamed, or
/// where the source of a copy was taken away; a place that is taken is a collision at that
/// place and any other refusal an error of the file; and a rename that would cross file
/// systems is no error but makes a copy.
pub proof fn a_move_comes_to_what_its_steps_said(
    from: Seq<char>,
    to: Seq<char>,
    t: Seq<FsEvent>,
    r: Result<(), ApplyErrorView>,
)
    requires
        move_ran(from, to, t, r),
    ensures
        ({
            let first = t[0]->RenameNoreplace_reply;
            &&& t[0] is RenameNoreplace && t[0]->RenameNoreplace_from == from
                && t[0]->RenameNoreplace_to == to
            &&& first is Ok ==> r is Ok && t.len() == 1
            &&& first matches Err(e) ==> {
                &&& e.os == Some(18i32) ==> t.len() > 1
                &&& e.os != Some(18i32) && e.kind == FsErrorKind::AlreadyExists ==> r == Err::<
                    (),
                    _,
                >(ApplyErrorView::Collision(to))
                &&& e.os != Some(18i32) && e.kind != FsErrorKind::AlreadyExists ==> r == Err::<
                    (),
                    _,
                >(ApplyErrorView::Fs { path: from, source: e })
            }
        }),
        r is Ok && t.len() > 1 ==> t.last() is RemoveFile && t.last()->RemoveFile_path == from
            && t.last()->RemoveFile_reply is Ok,
        r matches Err(ApplyErrorView::Collision(p)) ==> p == to,
{
    if t.len() > 1 {
        let u = t.skip(1);
        assert(cross_ran(from, to, u, r));
        assert(u.last() == t.last());
        if u.len() > 5 {
            let v = u.skip(5);
            assert(v.len() > 0 ==> v.last() == u.last());
        }
    }
}

/// A copy that came out shorter or longer than the file is not published: the move fails, the
/// copy is taken away, and the file stays.
pub proof fn a_short_copy_is_not_published(
    from: Seq<char>,
    to: Seq<char>,
    t: Seq<FsEvent>,
    r: Result<(), ApplyErrorView>,
    copied: u64,
    got: u64,
    want: u64,
)
    requires
        cross_ran(from, to, t, r),
        from != partial_of(to),
        t[1]->CopyCreateNew_reply == Ok::<u64, FsErrorView>(copied),
        t[2]->FsyncFile_reply is Ok,
        t[3]->FileLen_reply == Ok::<u64, FsErrorView>(got),
        t[4]->FileLen_reply == Ok::<u64, FsErrorView>(want),
        copied != want || got != want,
    ensures
        r is Err,
        r->Err_0 is Fs,
        r->Err_0->Fs_source.kind == FsErrorKind::InvalidData,
        t.last() is RemoveFile && t.last()->RemoveFile_path == partial_of(to),
        forall|k: int|
            0 <= k < t.len() ==> !((#[trigger] t[k]) is RenameNoreplace) && !(t[k] is RemoveFile
                && t[k]->RemoveFile_path == from),
{
}

/// A copy that fails tells the error of the step that failed and the file that the step was
/// about, and is taken away again; the file stays.
pub proof fn a_failed_copy_tells_the_step_that_failed(
    from: Seq<char>,
    to: Seq<char>,
    t: Seq<FsEvent>,
    r: Result<(), ApplyErrorView>,
)
    requires
        cross_ran(from, to, t, r),
    ensures
        ({
            let partial = partial_of(to);
            &&& t[1] is CopyCreateNew && t[1]->CopyCreateNew_from == from
                && t[1]->CopyCreateNew_to == partial
            &&& t[1]->CopyCreateNew_reply matches Err(e) ==> told_at(t, r, partial, partial, e)
            &&& t[1]->CopyCreateNew_reply is Ok ==> {
                &&& t[2] is FsyncFile && t[2]->FsyncFile_path == partial
                &&& t[2]->FsyncFile_reply matches Err(e) ==> told_at(t, r, partial, partial, e)
                &&& t[2]->FsyncFile_reply is Ok ==> {
                    &&& t[3] is FileLen && t[3]->FileLen_path == partial
                    &&& t[3]->FileLen_reply matches Err(e) ==> told_at(t, r, partial, partial, e)
                    &&& t[3]->FileLen_reply is Ok ==> {
                        &&& t[4] is FileLen && t[4]->FileLen_path == from
                        &&& t[4]->FileLen_reply matches Err(e) ==> told_at(t, r, partial, from, e)
                    }
                }
            }
        }),
{
}

/// Whether the failure was told for the path, and what was copied was taken away last.
pub open spec fn told_at(
    t: Seq<FsEvent>,
    r: Result<(), ApplyErrorView>,
    partial: Seq<char>,
    path: Seq<char>,
    e: FsErrorView,
) -> bool {
    &&& r == Err::<(), _>(ApplyErrorView::Fs { path, source: e })
    &&& t.last() is RemoveFile
    &&& t.last()->RemoveFile_path == partial
}

/// A copy that cannot be published is taken away: a place that was taken in the meantime is a
/// collision, any other refusal an error at that place. One that was published is brought to
/// the disk before the file itself is taken away, and a failure after that is told where it
/// was.
pub proof fn a_copy_is_published_or_taken_away(
    from: Seq<char>,
    to: Seq<char>,
    t: Seq<FsEvent>,
    r: Result<(), ApplyErrorView>,
)
    requires
        publish_ran(from, to, t, r),
    ensures
        t[0] is RenameNoreplace && t[0]->RenameNoreplace_from == partial_of(to)
            && t[0]->RenameNoreplace_to == to,
        t[0]->RenameNoreplace_reply matches Err(e) ==> {
            &&& t.len() == 2
            &&& t[1] is RemoveFile && t[1]->RemoveFile_path == partial_of(to)
            &&& e.kind == FsErrorKind::AlreadyExists ==> r == Err::<(), _>(
                ApplyErrorView::Collision(to),
            )
            &&& e.kind != FsErrorKind::AlreadyExists ==> r == Err::<(), _>(
                ApplyErrorView::Fs { path: to, source: e },
            )
        },
        t[0]->RenameNoreplace_reply is Ok && parent(to) is Some ==> {
            &&& t[1] is FsyncDir && t[1]->FsyncDir_path == parent(to)->0
            &&& t[1]->FsyncDir_reply matches Err(e) ==> t.len() == 2 && r == Err::<(), _>(
                ApplyErrorView::Fs { path: parent(to)->0, source: e },
            )
        },
        t.last() is RemoveFile && t[0]->RenameNoreplace_reply is Ok ==> {
            &&& t.last()->RemoveFile_path == from
            &&& t.last()->RemoveFile_reply is Ok ==> r is Ok
            &&& t.last()->RemoveFile_reply matches Err(e) ==> r == Err::<(), _>(
                ApplyErrorView::Fs { path: from, source: e },
            )
        },
        r is Ok ==> t[0]->RenameNoreplace_reply is Ok && t.last() is RemoveFile
            && t.last()->RemoveFile_path == from && t.last()->RemoveFile_reply is Ok,
{
}

/// Whether the text names how many bytes of how many were copied.
pub open spec fn names_short_copy(text: Seq<char>, got: Seq<char>, want: Seq<char>) -> bool {
    text == "short copy: "@ + got + " of "@ + want + " bytes"@
}

/// A short copy is told by how many bytes came out and how many the file has.
pub proof fn a_short_copy_is_told_in_numbers(got: u64, want: u64)
    ensures
        short_copy(got, want).kind == FsErrorKind::InvalidData,
        exists|g: Seq<char>, w: Seq<char>|
            {
                &&& #[trigger] names_short_copy(short_copy(got, want).message, g, w)
                &&& number_in(g) == got
                &&& number_in(w) == want
            },
{
    a_written_number_reads_back(got as nat);
    a_written_number_reads_back(want as nat);
    assert(names_short_copy(
        short_copy(got, want).message,
        decimal(got as nat),
        decimal(want as nat),
    ));
}

} // verus!
