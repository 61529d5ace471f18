#![allow(dead_code)]
use culler::applyflow::{
    crash_success_message, finish_apply, format_apply_error, record_breadcrumb, resume_on_worker,
    run_apply,
};
use culler::dialogs::{
    apply_finished, apply_on_worker, check_dest, confirm_apply, crash_finished, panel_report,
    recover_on_worker, refresh_preview, ApplyDialog, Confirmed, CrashPanel,
};
use culler::fsops::{CodingError, DirEntry, EntryType, FsError, FsErrorKind, FsLog, FsOps};
use culler::journal::{ApplyError, ApplyReport, Journal, OpState};
use culler::launch::{launch, open_session, OpenError};
use culler::model::{CaptureTime, Decision, Session, Shot, Tier, JOURNAL_FILE};
use culler::persist::{save, PersistError};
use culler::plan::{plan, ApplyPlan, FileMove, ShotOp, SidecarWrite, TierCountsPlan};
use culler::preview::{build_preview, compute_preview, gather_apply_inputs, partition_stale};
use culler::scan::ScanError;
use culler::startup::{
    bucket_refusal, default_buckets, dest_is_source_root, find_crashed_apply, find_startup_crash,
    journal_counts, journal_report, probe_breadcrumb, reattach, resolve_buckets, validate_buckets,
    BreadcrumbProbe, Cli, CrashInfo,
};
use std::cell::RefCell;
use std::collections::{BTreeMap, BTreeSet};

/// A disk in memory, with faults that can be armed and a log of what was done to it.
#[derive(Default)]
struct State {
    files: BTreeMap<String, Vec<u8>>,
    dirs: BTreeSet<String>,
    odd: Vec<(String, DirEntry)>,
    free: u64,
    cross_fs: bool,
    enospc_on_copy: bool,
    denied: BTreeSet<(String, String)>,
    events: Vec<String>,
    journals: Vec<Journal>,
    sessions: Vec<Session>,
}

struct Disk {
    st: RefCell<State>,
}

fn error(kind: FsErrorKind, os: Option<i32>, message: &str) -> FsError {
    FsError {
        kind,
        os,
        message: message.to_string(),
        debug: format!("Os {{ code: {}, message: {message:?} }}", os.unwrap_or(0)),
    }
}

fn enoent() -> FsError {
    error(FsErrorKind::NotFound, Some(2), "No such file or directory")
}

fn eexist() -> FsError {
    error(FsErrorKind::AlreadyExists, Some(17), "File exists")
}

fn eacces() -> FsError {
    error(FsErrorKind::PermissionDenied, Some(13), "Permission denied")
}

fn enospc() -> FsError {
    error(FsErrorKind::Other, Some(28), "No space left on device")
}

fn exdev() -> FsError {
    error(FsErrorKind::Other, Some(18), "Invalid cross-device link")
}

fn device_of(path: &str) -> String {
    path.split('/').find(|p| !p.is_empty()).unwrap_or("").to_string()
}

fn copy_of(journal: &Journal) -> Journal {
    Journal {
        plan: journal.plan.clone(),
        statuses: journal.statuses.clone(),
    }
}

impl Disk {
    fn new() -> Disk {
        let disk = Disk {
            st: RefCell::new(State::default()),
        };
        disk.st.borrow_mut().free = u64::MAX;
        disk
    }

    fn put(&self, path: &str, bytes: Vec<u8>) {
        self.st.borrow_mut().files.insert(path.to_string(), bytes);
    }

    fn touch(&self, path: &str) {
        self.put(path, Vec::new());
    }

    fn seed_file(&self, path: &str, len: usize) {
        self.put(path, vec![0u8; len]);
    }

    fn make_dir(&self, path: &str) {
        self.st.borrow_mut().dirs.insert(path.to_string());
    }

    fn remove(&self, path: &str) {
        self.st.borrow_mut().files.remove(path);
    }

    fn put_journal(&self, path: &str, journal: &Journal) {
        let bytes = self.encode_journal(journal).unwrap();
        self.put(path, bytes);
    }

    fn journal_at(&self, path: &str) -> Journal {
        let bytes = self.bytes(path).unwrap();
        self.decode_journal(&bytes).unwrap()
    }

    fn session_at(&self, path: &str) -> Session {
        let bytes = self.bytes(path).unwrap();
        self.decode_session(&bytes).unwrap()
    }

    fn deny(&self, operation: &str, path: &str) {
        self.st
            .borrow_mut()
            .denied
            .insert((operation.to_string(), path.to_string()));
    }

    fn clear_faults(&self) {
        let mut s = self.st.borrow_mut();
        s.cross_fs = false;
        s.enospc_on_copy = false;
        s.denied.clear();
    }

    fn denies(&self, operation: &str, path: &str) -> bool {
        self.st
            .borrow()
            .denied
            .contains(&(operation.to_string(), path.to_string()))
    }

    fn holds(&self, path: &str) -> bool {
        self.st.borrow().files.contains_key(path)
    }

    fn len_of(&self, path: &str) -> Option<usize> {
        self.st.borrow().files.get(path).map(|b| b.len())
    }

    fn bytes(&self, path: &str) -> Option<Vec<u8>> {
        self.st.borrow().files.get(path).cloned()
    }

    fn events(&self) -> Vec<String> {
        self.st.borrow().events.clone()
    }

    fn log(&self, event: String) {
        self.st.borrow_mut().events.push(event);
    }

    fn below(&self, dir: &str) -> Vec<String> {
        let front = format!("{dir}/");
        let s = self.st.borrow();
        s.files
            .keys()
            .chain(s.dirs.iter())
            .filter(|p| p.starts_with(&front))
            .map(|p| p[front.len()..].to_string())
            .collect()
    }
}

impl FsOps for Disk {
    fn mkdir_p(&self, path: &str) -> Result<(), FsError> {
        if self.denies("mkdir", path) {
            return Err(eacces());
        }
        self.make_dir(path);
        Ok(())
    }

    fn same_filesystem(&self, a: &str, b: &str) -> Result<bool, FsError> {
        Ok(!self.st.borrow().cross_fs || device_of(a) == device_of(b))
    }

    fn rename_noreplace(&self, from: &str, to: &str) -> Result<(), FsError> {
        if self.st.borrow().cross_fs && device_of(from) != device_of(to) {
            return Err(exdev());
        }
        if self.denies("rename", from) || self.denies("write", to) {
            return Err(eacces());
        }
        if self.holds(to) {
            return Err(eexist());
        }
        let bytes = self.st.borrow_mut().files.remove(from).ok_or_else(enoent)?;
        self.put(to, bytes);
        self.log(format!("rename:{from}->{to}"));
        Ok(())
    }

    fn copy_create_new(&self, from: &str, to: &str) -> Result<u64, FsError> {
        let bytes = self.bytes(from).ok_or_else(enoent)?;
        if self.holds(to) {
            return Err(eexist());
        }
        if self.st.borrow().enospc_on_copy || bytes.len() as u64 > self.st.borrow().free {
            return Err(enospc());
        }
        let len = bytes.len() as u64;
        self.put(to, bytes);
        self.log(format!("copy:{from}->{to}"));
        Ok(len)
    }

    fn fsync_file(&self, path: &str) -> Result<(), FsError> {
        if !self.holds(path) {
            return Err(enoent());
        }
        self.log(format!("fsync_file:{path}"));
        Ok(())
    }

    fn fsync_dir(&self, path: &str) -> Result<(), FsError> {
        self.log(format!("fsync_dir:{path}"));
        Ok(())
    }

    fn remove_file(&self, path: &str) -> Result<(), FsError> {
        if self.denies("remove", path) {
            return Err(eacces());
        }
        self.st.borrow_mut().files.remove(path).ok_or_else(enoent)?;
        self.log(format!("remove:{path}"));
        Ok(())
    }

    fn file_len(&self, path: &str) -> Result<u64, FsError> {
        self.len_of(path).map(|n| n as u64).ok_or_else(enoent)
    }

    fn free_space(&self, _path: &str) -> Result<u64, FsError> {
        Ok(self.st.borrow().free)
    }

    fn is_there(&self, path: &str) -> bool {
        self.holds(path) || self.is_dir(path)
    }

    fn is_dir(&self, path: &str) -> bool {
        self.st.borrow().dirs.contains(path) || !self.below(path).is_empty()
    }

    fn is_file(&self, path: &str) -> bool {
        self.holds(path)
    }

    fn list_dir(&self, path: &str) -> Result<Vec<Result<DirEntry, FsError>>, FsError> {
        if !self.is_dir(path) {
            return Err(enoent());
        }
        let names: BTreeSet<String> = self
            .below(path)
            .iter()
            .map(|p| p.split('/').next().unwrap().to_string())
            .collect();
        let mut out = Vec::new();
        for name in names.into_iter().rev() {
            let is_file = self.holds(&format!("{path}/{name}"));
            out.push(Ok(DirEntry {
                hidden: name.starts_with('.'),
                is_file,
                entry_type: if is_file {
                    EntryType::NotDir
                } else {
                    EntryType::Dir
                },
                name: Some(name),
            }));
        }
        for (dir, e) in &self.st.borrow().odd {
            if dir == path {
                out.push(Ok(DirEntry {
                    name: e.name.clone(),
                    hidden: e.hidden,
                    is_file: e.is_file,
                    entry_type: e.entry_type,
                }));
            }
        }
        Ok(out)
    }

    fn canonicalize(&self, path: &str) -> Result<String, FsError> {
        if self.is_there(path) {
            Ok(path.to_string())
        } else {
            Err(enoent())
        }
    }

    fn read(&self, path: &str) -> Result<Vec<u8>, FsError> {
        self.bytes(path).ok_or_else(enoent)
    }

    fn write_file(&self, path: &str, content: &[u8], sync: bool) -> Result<(), FsError> {
        if self.denies("write", path) {
            return Err(eacces());
        }
        self.put(path, content.to_vec());
        self.log(format!("write:{path}"));
        if sync {
            self.log(format!("fsync_file:{path}"));
        }
        Ok(())
    }

    fn rename(&self, from: &str, to: &str) -> Result<(), FsError> {
        if self.denies("rename", from) {
            return Err(eacces());
        }
        let bytes = self.st.borrow_mut().files.remove(from).ok_or_else(enoent)?;
        self.put(to, bytes);
        self.log(format!("replace:{from}->{to}"));
        Ok(())
    }

    fn process_id(&self) -> u32 {
        4711
    }

    fn encode_journal(&self, journal: &Journal) -> Result<Vec<u8>, String> {
        let mut s = self.st.borrow_mut();
        s.journals.push(copy_of(journal));
        Ok(format!("journal {}", s.journals.len() - 1).into_bytes())
    }

    fn decode_journal(&self, bytes: &Vec<u8>) -> Result<Journal, String> {
        let text = String::from_utf8_lossy(bytes).into_owned();
        let number = text.strip_prefix("journal ").and_then(|n| n.parse::<usize>().ok());
        match number.and_then(|n| self.st.borrow().journals.get(n).map(copy_of)) {
            Some(j) => Ok(j),
            None => Err("expected a journal".to_string()),
        }
    }

    fn encode_session(&self, session: &Session) -> Result<Vec<u8>, CodingError> {
        let mut s = self.st.borrow_mut();
        s.sessions.push(session.clone());
        Ok(format!("session {}", s.sessions.len() - 1).into_bytes())
    }

    fn decode_session(&self, bytes: &Vec<u8>) -> Result<Session, CodingError> {
        let text = String::from_utf8_lossy(bytes).into_owned();
        let number = text.strip_prefix("session ").and_then(|n| n.parse::<usize>().ok());
        match number.and_then(|n| self.st.borrow().sessions.get(n).cloned()) {
            Some(s) => Ok(s),
            None => Err(CodingError {
                message: "expected a session".to_string(),
                debug: "Error(\"expected a session\")".to_string(),
            }),
        }
    }
}

fn mk_shot(stem: &str, dir: &str) -> Shot {
    Shot {
        stem: stem.into(),
        jpeg: Some(format!("{dir}/{stem}.JPG")),
        raw: None,
        sidecar: None,
        capture: CaptureTime::default(),
        exif: None,
    }
}

fn decided(tier: Tier) -> Decision {
    Decision {
        tier: Some(tier),
        tags: vec![],
        visited: true,
    }
}

/// Two shots in `/src`: the first is a keeper, the second is rejected.
fn two_shots() -> (Disk, Session) {
    let disk = Disk::new();
    disk.put("/src/IMG_1.JPG", b"aaaa".to_vec());
    disk.put("/src/IMG_2.JPG", b"bbbbbb".to_vec());
    let mut session = Session {
        source_dir: "/src".to_string(),
        shots: vec![mk_shot("IMG_1", "/src"), mk_shot("IMG_2", "/src")],
        ..Session::default()
    };
    session.decisions.insert("IMG_1".to_string(), decided(Tier::Keep));
    session.decisions.insert("IMG_2".to_string(), decided(Tier::Reject));
    (disk, session)
}

fn empty_plan(dest: &str) -> ApplyPlan {
    ApplyPlan {
        dest: dest.to_string(),
        buckets: default_buckets(),
        ops: Vec::new(),
        per_bucket_counts: TierCountsPlan::default(),
        skipped_sidecar_writes: Vec::new(),
        stale: Vec::new(),
        total_bytes: 0,
    }
}

fn write_journal_fixture(disk: &Disk, dest: &str, statuses: Vec<OpState>) {
    disk.put_journal(
        &format!("{dest}/{JOURNAL_FILE}"),
        &Journal {
            plan: empty_plan(dest),
            statuses,
        },
    );
}

fn session_with(dir: &str, pending: Option<&str>) -> Session {
    Session {
        source_dir: dir.to_string(),
        pending_apply: pending.map(|p| p.to_string()),
        ..Session::default()
    }
}

#[test]
fn plan_assigns_buckets_and_builds_moves() {
    let buckets = default_buckets();
    let mut first = mk_shot("IMG_0001", "/src");
    first.raw = Some("/src/IMG_0001.CR3".to_string());
    let mut session = Session {
        shots: vec![first, mk_shot("IMG_0002", "/src")],
        ..Session::default()
    };
    session.decisions.insert("IMG_0001".to_string(), decided(Tier::Best));

    let p = plan(&session, "/dest", &buckets, &vec![], &vec![]);
    assert_eq!(p.ops.len(), 2);
    assert_eq!(p.dest, "/dest");
    assert_eq!(p.buckets, buckets);

    let op0 = &p.ops[0];
    assert_eq!(op0.stem, "IMG_0001");
    assert_eq!(op0.bucket, "04_bests");
    assert_eq!(op0.suffix, None);
    assert_eq!(
        op0.moves,
        vec![
            FileMove {
                from: "/src/IMG_0001.JPG".to_string(),
                to: "/dest/04_bests/IMG_0001.JPG".to_string(),
            },
            FileMove {
                from: "/src/IMG_0001.CR3".to_string(),
                to: "/dest/04_bests/IMG_0001.CR3".to_string(),
            },
        ],
    );

    let op1 = &p.ops[1];
    assert_eq!(op1.stem, "IMG_0002");
    assert_eq!(op1.bucket, "01_rest");
    assert_eq!(
        op1.moves,
        vec![FileMove {
            from: "/src/IMG_0002.JPG".to_string(),
            to: "/dest/01_rest/IMG_0002.JPG".to_string(),
        }],
    );
    assert!(p.stale.is_empty());
}

fn taken(names: &[&str]) -> Vec<String> {
    names.iter().map(|n| n.to_string()).collect()
}

fn one_shot(tier: Tier) -> Session {
    let mut session = Session {
        shots: vec![mk_shot("IMG_1234", "/src")],
        ..Session::default()
    };
    session.decisions.insert("IMG_1234".to_string(), decided(tier));
    session
}

#[test]
fn a_name_that_the_bucket_holds_is_numbered() {
    let existing = taken(&["02_keep/IMG_1234.JPG"]);
    let p = plan(&one_shot(Tier::Keep), "/dest", &default_buckets(), &existing, &vec![]);
    assert_eq!(p.ops[0].suffix, Some(1));
    assert_eq!(p.ops[0].stem, "IMG_1234");
    assert_eq!(p.ops[0].moves[0].from, "/src/IMG_1234.JPG");
    assert_eq!(p.ops[0].moves[0].to, "/dest/02_keep/IMG_1234-1.JPG");
    assert_eq!(build_preview(&p, 0, 0, false, None).collisions, 1);
}

#[test]
fn a_name_that_another_bucket_holds_forces_nothing() {
    let existing = taken(&["02_keep/IMG_1234.JPG"]);
    let p = plan(&one_shot(Tier::Pick), "/dest", &default_buckets(), &existing, &vec![]);
    assert_eq!(p.ops[0].suffix, None);
    assert_eq!(p.ops[0].moves[0].to, "/dest/03_picks/IMG_1234.JPG");
    assert_eq!(build_preview(&p, 0, 0, false, None).collisions, 0);
}

#[test]
fn all_files_of_a_shot_share_the_first_number_that_is_free() {
    let mut session = one_shot(Tier::Keep);
    session.shots[0].raw = Some("/src/IMG_1234.CR3".to_string());
    session.shots[0].sidecar = Some("/src/IMG_1234.CR3.xmp".to_string());
    let existing = taken(&[
        "02_keep/IMG_1234-1.JPG",
        "02_keep/IMG_1234-2.CR3.xmp",
        "02_keep/IMG_1234.CR3",
    ]);
    let p = plan(&session, "/dest", &default_buckets(), &existing, &vec![]);
    assert_eq!(p.ops[0].suffix, Some(3));
    let to: Vec<&str> = p.ops[0].moves.iter().map(|m| m.to.as_str()).collect();
    assert_eq!(
        to,
        vec![
            "/dest/02_keep/IMG_1234-3.JPG",
            "/dest/02_keep/IMG_1234-3.CR3",
            "/dest/02_keep/IMG_1234-3.CR3.xmp",
        ]
    );
}

#[test]
fn a_place_that_an_earlier_shot_goes_to_is_taken() {
    let mut session = Session {
        shots: vec![mk_shot("IMG_1", "/src"), mk_shot("IMG_1-1", "/src")],
        ..Session::default()
    };
    session.decisions.insert("IMG_1".to_string(), decided(Tier::Keep));
    session.decisions.insert("IMG_1-1".to_string(), decided(Tier::Keep));
    let existing = taken(&["02_keep/IMG_1.JPG"]);
    let p = plan(&session, "/dest", &default_buckets(), &existing, &vec![]);
    assert_eq!(p.ops[0].moves[0].to, "/dest/02_keep/IMG_1-1.JPG");
    assert_eq!(p.ops[1].suffix, Some(1));
    assert_eq!(p.ops[1].moves[0].to, "/dest/02_keep/IMG_1-1-1.JPG");
}

fn noted(tier: Option<Tier>, tags: &[&str]) -> Decision {
    Decision {
        tier,
        tags: taken(tags),
        visited: true,
    }
}

#[test]
fn what_was_decided_is_planned_into_sidecars() {
    let mut session = Session {
        shots: vec![
            mk_shot("A", "/src"),
            mk_shot("B", "/src"),
            mk_shot("C", "/src"),
            mk_shot("D", "/src"),
        ],
        ..Session::default()
    };
    session.shots[2].sidecar = Some("/src/C.xmp".to_string());
    session.decisions.insert("A".to_string(), noted(Some(Tier::Reject), &[]));
    session.decisions.insert("B".to_string(), noted(None, &["red", "sea"]));
    session.decisions.insert("C".to_string(), noted(Some(Tier::Best), &["red"]));
    session.decisions.insert("D".to_string(), noted(None, &[]));
    let p = plan(&session, "/dest", &default_buckets(), &vec![], &vec![]);
    assert_eq!(
        p.ops[0].write_sidecar,
        Some(SidecarWrite {
            path: "/dest/00_rejected/A.xmp".to_string(),
            tags: vec![],
            rating: Some(-1),
        })
    );
    assert_eq!(
        p.ops[1].write_sidecar,
        Some(SidecarWrite {
            path: "/dest/01_rest/B.xmp".to_string(),
            tags: taken(&["red", "sea"]),
            rating: None,
        })
    );
    assert_eq!(p.ops[2].write_sidecar, None);
    assert_eq!(p.ops[2].moves[1].to, "/dest/04_bests/C.xmp");
    assert_eq!(p.ops[3].write_sidecar, None);
    assert_eq!(p.skipped_sidecar_writes, taken(&["C"]));
    assert_eq!(build_preview(&p, 0, 0, false, None).skipped_sidecars, 1);
}

#[test]
fn a_sidecar_shares_the_number_of_its_shot() {
    let existing = taken(&["02_keep/IMG_1234.JPG", "02_keep/IMG_1234.xmp"]);
    let p = plan(&one_shot(Tier::Keep), "/dest", &default_buckets(), &existing, &vec![]);
    assert_eq!(
        p.ops[0].write_sidecar.as_ref().unwrap().path,
        "/dest/02_keep/IMG_1234-1.xmp"
    );
    assert!(p.skipped_sidecar_writes.is_empty());
}

#[test]
fn a_sidecar_is_not_written_where_its_place_is_taken() {
    let existing = taken(&["02_keep/IMG_1234.xmp"]);
    let p = plan(&one_shot(Tier::Keep), "/dest", &default_buckets(), &existing, &vec![]);
    assert_eq!(p.ops[0].suffix, None);
    assert_eq!(p.ops[0].write_sidecar, None);
    assert_eq!(p.skipped_sidecar_writes, taken(&["IMG_1234"]));

    let mut session = Session {
        shots: vec![mk_shot("IMG.CR3", "/src"), mk_shot("IMG", "/src")],
        ..Session::default()
    };
    session.shots[1].sidecar = Some("/src/IMG.CR3.xmp".to_string());
    session.decisions.insert("IMG.CR3".to_string(), decided(Tier::Keep));
    session.decisions.insert("IMG".to_string(), decided(Tier::Keep));
    let p = plan(&session, "/dest", &default_buckets(), &vec![], &vec![]);
    assert_eq!(p.ops[1].suffix, None);
    assert_eq!(p.ops[1].moves[1].to, "/dest/02_keep/IMG.CR3.xmp");
    assert_eq!(p.ops[0].write_sidecar, None);
    assert_eq!(p.skipped_sidecar_writes, taken(&["IMG.CR3", "IMG"]));
}

#[test]
fn an_apply_writes_what_was_decided() {
    let (disk, mut session) = two_shots();
    session
        .decisions
        .insert("IMG_1".to_string(), noted(Some(Tier::Keep), &["portrait"]));
    let (report, _) =
        run_apply(session, "/dst", &default_buckets(), &mut FsLog::new(&disk)).unwrap();
    assert_eq!(report.sidecars_written, 2);
    let xmp = String::from_utf8(disk.bytes("/dst/02_keep/IMG_1.xmp").unwrap()).unwrap();
    assert!(xmp.contains("<rdf:li>portrait</rdf:li>"), "{xmp}");
    assert!(xmp.contains("<xmp:Rating>3</xmp:Rating>"), "{xmp}");
    let xmp = String::from_utf8(disk.bytes("/dst/00_rejected/IMG_2.xmp").unwrap()).unwrap();
    assert!(xmp.contains("<xmp:Rating>-1</xmp:Rating>"), "{xmp}");
}

#[test]
fn an_apply_into_a_used_folder_overwrites_nothing_and_completes() {
    let (disk, session) = two_shots();
    disk.put("/dst/02_keep/IMG_1.JPG", b"older".to_vec());
    let buckets = default_buckets();
    let (_, preview) = compute_preview(&session, "/dst", &buckets, &mut FsLog::new(&disk));
    assert_eq!(preview.collisions, 1);
    let (report, warning) =
        run_apply(session, "/dst", &buckets, &mut FsLog::new(&disk)).unwrap();
    assert!(warning.is_none(), "{warning:?}");
    assert_eq!(report.moved_files, 2);
    assert_eq!(disk.read("/dst/02_keep/IMG_1.JPG").unwrap(), b"older".to_vec());
    assert_eq!(disk.read("/dst/02_keep/IMG_1-1.JPG").unwrap(), b"aaaa".to_vec());
    assert_eq!(disk.read("/dst/00_rejected/IMG_2.JPG").unwrap(), b"bbbbbb".to_vec());
    assert!(!disk.holds("/src/IMG_1.JPG"));
}

#[test]
fn gather_and_preview_counts_leftovers_bytes_and_buckets() {
    let (disk, session) = two_shots();
    disk.put("/src/clip.MOV", b"zz".to_vec());
    let buckets = default_buckets();
    let dest = "/src/sorted";

    let (existing, sizes, leftovers) =
        gather_apply_inputs(&session, dest, &buckets, &mut FsLog::new(&disk));
    assert!(existing.is_empty());
    assert_eq!(
        sizes,
        vec![("IMG_1".to_string(), 4), ("IMG_2".to_string(), 6)]
    );
    assert_eq!(leftovers, 1);

    let planned = plan(&session, dest, &buckets, &existing, &sizes);
    let preview = build_preview(&planned, 0, leftovers, false, None);
    assert_eq!(preview.per_bucket.keep, 1);
    assert_eq!(preview.per_bucket.rejected, 1);
    assert_eq!(preview.leftovers, 1);
    assert_eq!(preview.total_bytes, 10);
    assert_eq!(preview.collisions, 0);
    assert!(preview.enough_space);
}

#[test]
fn what_the_buckets_hold_is_listed_below_the_destination() {
    let (disk, session) = two_shots();
    disk.touch("/dst/02_keep/B.JPG");
    disk.touch("/dst/02_keep/A.JPG");
    disk.touch("/dst/00_rejected/A.JPG");
    let (existing, _, _) =
        gather_apply_inputs(&session, "/dst", &default_buckets(), &mut FsLog::new(&disk));
    assert_eq!(
        existing,
        vec![
            "00_rejected/A.JPG".to_string(),
            "02_keep/A.JPG".to_string(),
            "02_keep/B.JPG".to_string(),
        ]
    );
}

#[test]
fn build_preview_gates_on_free_space_when_cross_fs() {
    let mut planned = empty_plan("/mnt/other/sorted");
    planned.total_bytes = 1_000;
    let ok = build_preview(&planned, 0, 0, true, Some(2_000));
    assert!(ok.cross_fs && ok.enough_space);
    let tight = build_preview(&planned, 0, 0, true, Some(500));
    assert!(tight.cross_fs && !tight.enough_space);
}

#[test]
fn gather_apply_inputs_counts_non_utf8_named_file_as_leftover() {
    let (disk, session) = two_shots();
    disk.st.borrow_mut().odd.push((
        "/src".to_string(),
        DirEntry {
            name: None,
            hidden: false,
            is_file: true,
            entry_type: EntryType::NotDir,
        },
    ));
    let (_, _, leftovers) = gather_apply_inputs(
        &session,
        "/src/sorted",
        &default_buckets(),
        &mut FsLog::new(&disk),
    );
    assert_eq!(leftovers, 1);
}

#[test]
fn hidden_files_and_folders_are_no_leftovers() {
    let (disk, session) = two_shots();
    disk.touch("/src/.fastcull.json");
    disk.touch("/src/folder/inner.txt");
    let (_, _, leftovers) = gather_apply_inputs(
        &session,
        "/dst",
        &default_buckets(),
        &mut FsLog::new(&disk),
    );
    assert_eq!(leftovers, 0);
}

#[test]
fn a_preview_across_filesystems_asks_for_space() {
    let (disk, session) = two_shots();
    disk.make_dir("/mnt");
    disk.st.borrow_mut().cross_fs = true;
    disk.st.borrow_mut().free = 7;
    let (_, preview) = compute_preview(
        &session,
        "/mnt/a/b",
        &default_buckets(),
        &mut FsLog::new(&disk),
    );
    assert!(preview.cross_fs);
    assert_eq!(preview.free_bytes, Some(7));
    assert!(!preview.enough_space);
}

#[test]
fn run_apply_creates_missing_dest_subfolder() {
    let (disk, session) = two_shots();
    let buckets = default_buckets();
    let dest = "/src/sorted";
    assert!(!disk.is_there(dest));
    let (report, warning) =
        run_apply(session, dest, &buckets, &mut FsLog::new(&disk)).unwrap();
    assert!(warning.is_none(), "{warning:?}");
    assert_eq!(report.moved_shots, 2);
    assert!(disk.holds("/src/sorted/02_keep/IMG_1.JPG"));
    assert!(disk.holds("/src/sorted/00_rejected/IMG_2.JPG"));
    assert!(!disk.holds("/src/sorted/.fastcull-apply.json"));
    assert!(disk.holds("/src/sorted/.fastcull.json"));
    assert!(!disk.holds("/src/.fastcull.json"));
}

#[test]
fn run_apply_uncreatable_dest_errors_loudly() {
    let (disk, session) = two_shots();
    disk.deny("mkdir", "/readonly/sorted");
    let err = run_apply(
        session,
        "/readonly/sorted",
        &default_buckets(),
        &mut FsLog::new(&disk),
    )
    .unwrap_err();
    assert_eq!(
        err,
        "Could not create destination /readonly/sorted: Permission denied"
    );
}

#[test]
fn record_breadcrumb_persists_before_apply() {
    let disk = Disk::new();
    let mut session = session_with("/src", None);
    record_breadcrumb(
        &mut session,
        "/src/sorted",
        "/src/.fastcull.json",
        &mut FsLog::new(&disk),
    )
    .unwrap();
    assert_eq!(session.pending_apply, Some("/src/sorted".to_string()));
    assert_eq!(
        disk.session_at("/src/.fastcull.json").pending_apply,
        Some("/src/sorted".to_string())
    );
}

#[test]
fn record_breadcrumb_failure_refuses_and_clears() {
    let disk = Disk::new();
    disk.deny("write", "/src/.fastcull.json.tmp");
    let mut session = session_with("/src", None);
    let err = record_breadcrumb(
        &mut session,
        "/src/sorted",
        "/src/.fastcull.json",
        &mut FsLog::new(&disk),
    )
    .unwrap_err();
    assert!(err.contains("/src/.fastcull.json"), "{err}");
    assert!(err.contains("session I/O error: Permission denied"), "{err}");
    assert_eq!(session.pending_apply, None);
    assert!(!disk.holds("/src/.fastcull.json"));
}

#[test]
fn preview_reports_vanished_shot_as_stale() {
    let (disk, session) = two_shots();
    disk.remove("/src/IMG_2.JPG");
    let (planned, preview) = compute_preview(
        &session,
        "/src/sorted",
        &default_buckets(),
        &mut FsLog::new(&disk),
    );
    assert_eq!(preview.stale, 1);
    assert!(planned.ops.iter().all(|o| o.stem != "IMG_2"));
    assert!(planned.ops.iter().any(|o| o.stem == "IMG_1"));
}

#[test]
fn run_apply_excludes_vanished_shots_and_completes() {
    let (disk, session) = two_shots();
    disk.remove("/src/IMG_2.JPG");
    let buckets = default_buckets();
    let (report, warning) =
        run_apply(session, "/src/sorted", &buckets, &mut FsLog::new(&disk)).unwrap();
    assert!(warning.is_none(), "{warning:?}");
    assert_eq!(report.moved_shots, 1);
    assert!(disk.holds("/src/sorted/02_keep/IMG_1.JPG"));
    for bucket in &buckets {
        assert!(!disk.holds(&format!("/src/sorted/{bucket}/IMG_2.JPG")));
    }
    assert!(!disk.holds("/src/sorted/.fastcull-apply.json"));
}

#[test]
fn run_apply_all_stale_fails_loudly() {
    let (disk, session) = two_shots();
    disk.remove("/src/IMG_1.JPG");
    disk.remove("/src/IMG_2.JPG");
    disk.make_dir("/src");
    let err = run_apply(
        session,
        "/src/sorted",
        &default_buckets(),
        &mut FsLog::new(&disk),
    )
    .unwrap_err();
    assert_eq!(
        err,
        "Apply refused: nothing left to apply, 2 shots stale (source files vanished since scan)."
    );
    assert!(!disk.is_there("/src/sorted"));
    assert!(disk.events().is_empty());
}

#[test]
fn partition_stale_missing_raw_sibling_marks_shot_stale() {
    let (disk, mut session) = two_shots();
    session.shots[0].raw = Some("/src/IMG_1.CR3".to_string());
    session.shots.remove(1);
    let (filtered, stale) = partition_stale(&session, &mut FsLog::new(&disk));
    assert!(filtered.shots.is_empty());
    assert_eq!(stale, vec!["IMG_1".to_string()]);
}

#[test]
fn stale_stems_come_in_ascending_order() {
    let disk = Disk::new();
    let session = Session {
        source_dir: "/src".to_string(),
        shots: vec![mk_shot("C", "/src"), mk_shot("A", "/src"), mk_shot("B", "/src")],
        ..Session::default()
    };
    let (_, stale) = partition_stale(&session, &mut FsLog::new(&disk));
    assert_eq!(stale, vec!["A".to_string(), "B".to_string(), "C".to_string()]);
}

fn report_of(moved_shots: usize, moved_files: usize, sidecars_written: usize) -> ApplyReport {
    ApplyReport {
        moved_shots,
        moved_files,
        sidecars_written,
        stopped_at: None,
    }
}

#[test]
fn finish_apply_relocates_session_when_dest_writable() {
    let disk = Disk::new();
    let session = session_with("/src", None);
    save(&session, "/src/.fastcull.json", &mut FsLog::new(&disk)).unwrap();
    let (report, warning) =
        finish_apply(report_of(2, 3, 1), session, "/dst", &mut FsLog::new(&disk));
    assert_eq!(report, report_of(2, 3, 1));
    assert!(warning.is_none(), "{warning:?}");
    assert!(disk.holds("/dst/.fastcull.json"));
    assert!(!disk.holds("/src/.fastcull.json"));
}

#[test]
fn a_record_never_takes_the_place_of_another() {
    let disk = Disk::new();
    disk.put("/dst/.fastcull.json", b"history".to_vec());
    let session = session_with("/src", None);
    save(&session, "/src/.fastcull.json", &mut FsLog::new(&disk)).unwrap();
    let (_, warning) =
        finish_apply(report_of(0, 0, 0), session, "/dst", &mut FsLog::new(&disk));
    assert!(warning.is_none());
    assert_eq!(disk.bytes("/dst/.fastcull.json"), Some(b"history".to_vec()));
    assert!(disk.holds("/dst/.fastcull.json.1"));
}

#[test]
fn finish_apply_downgrades_relocation_failure_to_warning() {
    let disk = Disk::new();
    let session = session_with("/src", None);
    save(&session, "/src/.fastcull.json", &mut FsLog::new(&disk)).unwrap();
    disk.deny("write", "/dst/.fastcull.json");
    disk.deny("write", "/dst/.fastcull.json.tmp");
    let (report, warning) =
        finish_apply(report_of(2, 3, 1), session, "/dst", &mut FsLog::new(&disk));
    assert_eq!(report, report_of(2, 3, 1));
    let warning = warning.unwrap();
    assert!(warning.contains("audit") && warning.contains("safe"), "{warning}");
    assert_eq!(
        warning,
        "Photos moved successfully, but the session audit copy could not be written to the \
         destination: Io(Os { code: 13, message: \"Permission denied\" }). Your photos are safe \
         in the destination; only the .fastcull.json record is missing."
    );
    assert!(disk.holds("/src/.fastcull.json"));
}

fn resume_fixture() -> (Disk, Session) {
    let disk = Disk::new();
    disk.put("/dest/02_keep/IMG_1.JPG", b"aaaa".to_vec());
    let mut plan = empty_plan("/dest");
    plan.ops = vec![ShotOp {
        stem: "IMG_1".into(),
        bucket: "02_keep".into(),
        moves: vec![FileMove {
            from: "/src/IMG_1.JPG".to_string(),
            to: "/dest/02_keep/IMG_1.JPG".to_string(),
        }],
        write_sidecar: None,
        suffix: None,
    }];
    plan.total_bytes = 4;
    disk.put_journal(
        "/dest/.fastcull-apply.json",
        &Journal {
            plan,
            statuses: vec![OpState::Done],
        },
    );
    let session = session_with("/src", None);
    save(&session, "/src/.fastcull.json", &mut FsLog::new(&disk)).unwrap();
    (disk, session)
}

#[test]
fn resume_on_worker_relocate_true_relocates_session() {
    let (disk, session) = resume_fixture();
    let (_, warning) = resume_on_worker(
        "/dest/.fastcull-apply.json",
        "/dest",
        session,
        true,
        &mut FsLog::new(&disk),
    )
    .unwrap();
    assert!(warning.is_none(), "{warning:?}");
    assert!(!disk.holds("/dest/.fastcull-apply.json"));
    assert!(disk.holds("/dest/.fastcull.json"));
    assert!(!disk.holds("/src/.fastcull.json"));
}

#[test]
fn resume_on_worker_relocate_false_leaves_session() {
    let (disk, session) = resume_fixture();
    let (_, warning) = resume_on_worker(
        "/dest/.fastcull-apply.json",
        "/dest",
        session,
        false,
        &mut FsLog::new(&disk),
    )
    .unwrap();
    assert!(warning.is_none(), "{warning:?}");
    assert!(!disk.holds("/dest/.fastcull-apply.json"));
    assert!(!disk.holds("/dest/.fastcull.json"));
    assert!(disk.holds("/src/.fastcull.json"));
}

const AT: &str = "/dest/.fastcull-apply.json";

fn fs_error_on(path: &str, words: &str) -> ApplyError {
    ApplyError::Fs {
        path: path.to_string(),
        source: error(FsErrorKind::Other, None, words),
    }
}

#[test]
fn preflight_message_appears_verbatim() {
    let distinctive = "zebra hallway umbrella distinctive phrase 12345";
    let msg = format_apply_error(&ApplyError::Preflight(distinctive.to_string()), AT);
    assert!(msg.contains(distinctive), "message was: {msg}");
    assert_eq!(msg, format!("Apply refused: {distinctive}"));
}

#[test]
fn journal_and_tmp_sibling_fs_errors_are_bookkeeping_not_move_failed() {
    for path in [AT, "/dest/.fastcull-apply.json.tmp"] {
        let m = format_apply_error(&fs_error_on(path, "disk full"), AT);
        assert!(m.contains("bookkeeping"), "message was: {m}");
        assert!(!m.contains("Move failed"), "message was: {m}");
    }
}

#[test]
fn photo_path_fs_error_says_move_failed() {
    let msg = format_apply_error(&fs_error_on("/dest/02_keep/IMG_0001.JPG", "EACCES"), AT);
    assert!(msg.contains("Move failed at"), "message was: {msg}");
    assert_eq!(msg, "Move failed at /dest/02_keep/IMG_0001.JPG: EACCES");
}

#[test]
fn collision_names_path_and_says_not_overwritten() {
    let collided = "/dest/02_keep/IMG_0002.JPG";
    let msg = format_apply_error(&ApplyError::Collision(collided.to_string()), AT);
    assert!(msg.contains(collided), "message was: {msg}");
    assert!(msg.contains("not overwritten"), "message was: {msg}");
}

#[test]
fn formats_recovered_shape_with_no_warning() {
    let msg = crash_success_message(&report_of(3, 5, 2), &None);
    assert_eq!(
        msg,
        "Recovered: 3 shots, 5 files moved, 2 sidecars written."
    );
}

#[test]
fn appends_warning_when_present() {
    let msg = crash_success_message(&report_of(1, 1, 1), &Some("dest went read-only".into()));
    assert!(
        msg.starts_with("Recovered: 1 shots, 1 files moved, 1 sidecars written."),
        "message was: {msg}"
    );
    assert!(
        msg.contains("Warning: dest went read-only"),
        "message was: {msg}"
    );
}

#[test]
fn journal_counts_done_and_total() {
    let disk = Disk::new();
    write_journal_fixture(
        &disk,
        "/dest",
        vec![OpState::Done, OpState::Done, OpState::Pending],
    );
    let j = find_crashed_apply("/dest", &mut FsLog::new(&disk)).unwrap();
    assert_eq!(journal_counts(&j, &mut FsLog::new(&disk)).unwrap(), (2, 3));
}

#[test]
fn journal_counts_published_not_counted_as_done() {
    let disk = Disk::new();
    write_journal_fixture(
        &disk,
        "/dest",
        vec![OpState::Done, OpState::Published, OpState::Pending],
    );
    let j = find_crashed_apply("/dest", &mut FsLog::new(&disk)).unwrap();
    assert_eq!(journal_counts(&j, &mut FsLog::new(&disk)).unwrap(), (1, 3));
}

#[test]
fn journal_counts_all_done_is_full() {
    let disk = Disk::new();
    write_journal_fixture(&disk, "/dest", vec![OpState::Done, OpState::Done]);
    let j = find_crashed_apply("/dest", &mut FsLog::new(&disk)).unwrap();
    assert_eq!(journal_counts(&j, &mut FsLog::new(&disk)).unwrap(), (2, 2));
}

#[test]
fn journal_counts_rejects_corrupt_journal() {
    let disk = Disk::new();
    disk.put(AT, b"{ not json".to_vec());
    let e = journal_counts(AT, &mut FsLog::new(&disk)).unwrap_err();
    assert_eq!(e.kind(), FsErrorKind::InvalidData);
}

#[test]
fn find_startup_crash_none() {
    let disk = Disk::new();
    let mut session = session_with("/source", None);
    let scan = find_startup_crash(&mut session, "/source", &mut FsLog::new(&disk));
    assert_eq!(scan.stale_cleared, None);
    assert_eq!(scan.crash, None);
}

#[test]
fn find_startup_crash_from_breadcrumb() {
    let disk = Disk::new();
    write_journal_fixture(&disk, "/sorted", vec![OpState::Pending]);
    let mut session = session_with("/source", Some("/sorted"));
    let scan = find_startup_crash(&mut session, "/source", &mut FsLog::new(&disk));
    let info = scan.crash.unwrap();
    assert!(info.from_breadcrumb);
    assert_eq!(info.dest, "/sorted");
    assert_eq!(info.journal, "/sorted/.fastcull-apply.json");
    assert_eq!(scan.stale_cleared, None);
    assert_eq!(session.pending_apply, Some("/sorted".to_string()));
}

#[test]
fn find_startup_crash_stale_breadcrumb() {
    let disk = Disk::new();
    let mut session = session_with("/source", Some("/sorted"));
    let scan = find_startup_crash(&mut session, "/source", &mut FsLog::new(&disk));
    assert_eq!(scan.stale_cleared, Some("/sorted".to_string()));
    assert_eq!(scan.crash, None);
    assert_eq!(session.pending_apply, None);
}

#[test]
fn find_startup_crash_from_source_probe() {
    let disk = Disk::new();
    write_journal_fixture(&disk, "/source", vec![OpState::Pending]);
    let mut session = session_with("/source", None);
    let scan = find_startup_crash(&mut session, "/source", &mut FsLog::new(&disk));
    let info = scan.crash.unwrap();
    assert!(!info.from_breadcrumb);
    assert_eq!(info.dest, "/source");
    assert_eq!(info.journal, "/source/.fastcull-apply.json");
    assert_eq!(scan.stale_cleared, None);
}

#[test]
fn find_startup_crash_breadcrumb_takes_priority() {
    let disk = Disk::new();
    write_journal_fixture(&disk, "/source", vec![OpState::Pending]);
    write_journal_fixture(&disk, "/sorted", vec![OpState::Pending]);
    let mut session = session_with("/source", Some("/sorted"));
    let scan = find_startup_crash(&mut session, "/source", &mut FsLog::new(&disk));
    let info = scan.crash.unwrap();
    assert!(info.from_breadcrumb);
    assert_eq!(info.dest, "/sorted");
    assert_eq!(scan.stale_cleared, None);
}

#[test]
fn stale_breadcrumb_and_live_source_journal_shows_2d() {
    let disk = Disk::new();
    write_journal_fixture(&disk, "/source", vec![OpState::Pending]);
    let mut session = session_with("/source", Some("/stale-dest"));
    let scan = find_startup_crash(&mut session, "/source", &mut FsLog::new(&disk));
    assert_eq!(scan.stale_cleared, Some("/stale-dest".to_string()));
    assert_eq!(
        scan.crash,
        Some(CrashInfo {
            dest: "/source".to_string(),
            journal: "/source/.fastcull-apply.json".to_string(),
            from_breadcrumb: false,
        })
    );
    assert_eq!(session.pending_apply, None);
}

#[test]
fn stale_breadcrumb_and_no_source_journal_is_cull() {
    let disk = Disk::new();
    disk.make_dir("/source");
    let mut session = session_with("/source", Some("/stale-dest"));
    let scan = find_startup_crash(&mut session, "/source", &mut FsLog::new(&disk));
    assert_eq!(scan.stale_cleared, Some("/stale-dest".to_string()));
    assert_eq!(scan.crash, None);
    assert_eq!(session.pending_apply, None);
}

#[test]
fn dest_equal_source_root_is_refused_subfolder_allowed() {
    let disk = Disk::new();
    disk.make_dir("/tmp/shoot");
    let mut fs = FsLog::new(&disk);
    assert!(dest_is_source_root("/tmp/shoot", "/tmp/shoot", &mut fs));
    assert!(!dest_is_source_root("/tmp/shoot", "/tmp/shoot/sorted", &mut fs));
    assert!(!dest_is_source_root("/tmp/shoot", "/tmp", &mut fs));
    assert!(dest_is_source_root("/tmp/gone", "/tmp/gone/", &mut fs));
}

#[test]
fn reattach_keeps_prior_decisions_by_stem_and_clamps_current() {
    let mut prev = Session {
        source_dir: "/d".to_string(),
        shots: vec![mk_shot("IMG_0001", "/d"), mk_shot("IMG_0002", "/d")],
        current: 5,
        ..Session::default()
    };
    prev.decisions.insert(
        "IMG_0001".to_string(),
        Decision {
            tier: Some(Tier::Best),
            tags: vec!["hero".into()],
            visited: true,
        },
    );
    let s = reattach("/d", vec![mk_shot("IMG_0001", "/d")], Some(prev));
    assert_eq!(s.shots.len(), 1);
    assert_eq!(s.current, 0);
    assert_eq!(s.decision(0).tier, Some(Tier::Best));
    assert_eq!(s.decision(0).tags, vec!["hero".to_string()]);
    assert!(s.undo.is_empty());
}

#[test]
fn reattach_carries_the_crash_breadcrumb() {
    let prev = session_with("/d", Some("/d/sorted"));
    let s = reattach("/d", vec![mk_shot("IMG_0001", "/d")], Some(prev));
    assert_eq!(s.pending_apply, Some("/d/sorted".to_string()));
}

#[test]
fn reattach_none_starts_fresh() {
    let s = reattach("/d", vec![mk_shot("IMG_0001", "/d")], None);
    assert_eq!(s.current, 0);
    assert!(s.decisions.is_empty());
    assert_eq!(s.source_dir, "/d");
}

#[test]
fn resolve_buckets_defaults_and_overrides() {
    let d = default_buckets();
    assert_eq!(
        d,
        ["00_rejected", "01_rest", "02_keep", "03_picks", "04_bests"].map(String::from)
    );
    let cli = Cli {
        source: Some("/x".into()),
        no_auto_advance: false,
        bucket_rejected: Some("trash".into()),
        bucket_rest: None,
        bucket_keep: None,
        bucket_picks: None,
        bucket_bests: None,
    };
    let b = resolve_buckets(&cli);
    assert_eq!(b[0], "trash");
    assert_eq!(b[1], "01_rest");
}

#[test]
fn find_crashed_apply_detects_and_report_summarizes_counts() {
    let disk = Disk::new();
    write_journal_fixture(&disk, "/dest", vec![OpState::Done, OpState::Pending]);
    let found = find_crashed_apply("/dest", &mut FsLog::new(&disk)).unwrap();
    let report = journal_report(&found, &mut FsLog::new(&disk)).unwrap();
    assert!(report.contains("done: 1"), "report was: {report}");
    assert!(report.contains("pending: 1"), "report was: {report}");
    assert!(report.contains("failed: 0"), "report was: {report}");
    assert_eq!(
        report,
        "Interrupted apply into /dest\n  done: 1  pending: 1  failed: 0"
    );
}

#[test]
fn find_crashed_apply_still_some_on_all_done_journal() {
    let disk = Disk::new();
    write_journal_fixture(&disk, "/dest", vec![OpState::Done, OpState::Done]);
    assert!(find_crashed_apply("/dest", &mut FsLog::new(&disk)).is_some());
}

#[test]
fn journal_report_counts_published_as_pending_awaiting_unlink() {
    let disk = Disk::new();
    write_journal_fixture(
        &disk,
        "/dest",
        vec![OpState::Done, OpState::Published, OpState::Pending],
    );
    let found = find_crashed_apply("/dest", &mut FsLog::new(&disk)).unwrap();
    let report = journal_report(&found, &mut FsLog::new(&disk)).unwrap();
    assert!(report.contains("done: 1"), "report was: {report}");
    assert!(report.contains("pending: 2"), "report was: {report}");
    assert!(report.contains("failed: 0"), "report was: {report}");
    assert!(
        report.contains("published-awaiting-unlink"),
        "report was: {report}"
    );
}

#[test]
fn no_breadcrumb_when_pending_apply_is_none() {
    let disk = Disk::new();
    let mut s = session_with("/source", None);
    assert!(matches!(
        probe_breadcrumb(&mut s, &mut FsLog::new(&disk)),
        BreadcrumbProbe::NoBreadcrumb
    ));
    assert_eq!(s.pending_apply, None);
}

#[test]
fn crashed_journal_kept_when_dest_has_a_journal() {
    let disk = Disk::new();
    disk.put("/sorted/.fastcull-apply.json", b"{}".to_vec());
    let mut s = session_with("/source", Some("/sorted"));
    match probe_breadcrumb(&mut s, &mut FsLog::new(&disk)) {
        BreadcrumbProbe::CrashedJournal(j) => assert_eq!(j, "/sorted/.fastcull-apply.json"),
        other => panic!("expected CrashedJournal, got {other:?}"),
    }
    assert_eq!(s.pending_apply, Some("/sorted".to_string()));
}

#[test]
fn stale_breadcrumb_cleared_when_no_journal_at_dest() {
    let disk = Disk::new();
    let mut s = session_with("/source", Some("/sorted"));
    match probe_breadcrumb(&mut s, &mut FsLog::new(&disk)) {
        BreadcrumbProbe::StaleCleared(d) => assert_eq!(d, "/sorted"),
        other => panic!("expected StaleCleared, got {other:?}"),
    }
    assert!(s.pending_apply.is_none());
}

#[test]
fn a_refused_bucket_is_quoted() {
    let mut b = default_buckets();
    b[3] = "a\\b".to_string();
    assert_eq!(
        validate_buckets(&b).unwrap_err(),
        "invalid bucket name \"a\\\\b\": must be a single plain path component \
         (non-empty, not \".\"/\"..\", no path separators)"
    );
}

#[test]
fn the_first_refused_bucket_is_named() {
    let mut b = default_buckets();
    b[1] = "..".to_string();
    b[4] = "x/y".to_string();
    let err = validate_buckets(&b).unwrap_err();
    assert_eq!(err, bucket_refusal("\"..\""));
}

#[test]
fn a_typed_destination_is_checked() {
    let disk = Disk::new();
    disk.make_dir("/src");
    let mut fs = FsLog::new(&disk);
    let blank = check_dest("/src", "", &mut fs);
    assert_eq!((blank.error.as_str(), blank.resume_mode), ("", false));
    let same = check_dest("/src", "/src", &mut fs);
    assert_eq!(
        same.error,
        "Destination cannot be the source folder itself (a subfolder is fine)."
    );
    assert!(!same.resume_mode);
    let fresh = check_dest("/src", "/dst", &mut fs);
    assert_eq!((fresh.error.as_str(), fresh.resume_mode), ("", false));
    write_journal_fixture(&disk, "/dst", vec![OpState::Pending]);
    let crashed = check_dest("/src", "/dst", &mut fs);
    assert!(crashed.resume_mode);
    assert_eq!(
        crashed.error,
        "Interrupted apply into /dst\n  done: 0  pending: 1  failed: 0\n\
         Confirm to RESUME this interrupted apply."
    );
}

#[test]
fn no_preview_into_the_source_or_nowhere() {
    let (disk, session) = two_shots();
    let mut fs = FsLog::new(&disk);
    let b = default_buckets();
    assert!(refresh_preview(&session, "", &b, &mut fs).is_none());
    assert!(refresh_preview(&session, "/src", &b, &mut fs).is_none());
    let p = refresh_preview(&session, "/dst", &b, &mut fs).unwrap();
    assert_eq!(p.total_bytes, 10);
}

#[test]
fn an_apply_is_noted_before_it_starts() {
    let (disk, mut session) = two_shots();
    match confirm_apply(&mut session, "/src", &mut FsLog::new(&disk)) {
        Confirmed::Ignored => {}
        other => panic!("expected Ignored, got {other:?}"),
    }
    assert_eq!(session.pending_apply, None);
    match confirm_apply(&mut session, "/dst", &mut FsLog::new(&disk)) {
        Confirmed::Start(None) => {}
        other => panic!("expected Start, got {other:?}"),
    }
    assert_eq!(
        disk.session_at("/src/.fastcull.json").pending_apply,
        Some("/dst".to_string())
    );
    disk.deny("write", "/src/.fastcull.json.tmp");
    match confirm_apply(&mut session, "/dst", &mut FsLog::new(&disk)) {
        Confirmed::Refused(words) => assert!(words.contains("NOT started"), "{words}"),
        other => panic!("expected Refused, got {other:?}"),
    }
    assert_eq!(session.pending_apply, None);
    assert!(disk.holds("/src/IMG_1.JPG"));
}

#[test]
fn a_confirmed_apply_runs_or_resumes() {
    let (disk, session) = two_shots();
    let (ok, words) = apply_on_worker(
        &None,
        "/dst",
        session,
        &default_buckets(),
        &mut FsLog::new(&disk),
    );
    assert!(ok);
    assert_eq!(words, "Applied: 2 shots, 2 files moved, 2 sidecars written.");

    let (disk, session) = resume_fixture();
    let (ok, words) = apply_on_worker(
        &Some("/dest/.fastcull-apply.json".to_string()),
        "/dest",
        session,
        &default_buckets(),
        &mut FsLog::new(&disk),
    );
    assert!(ok);
    assert_eq!(words, "Applied: 1 shots, 0 files moved, 0 sidecars written.");
    assert!(disk.holds("/dest/.fastcull.json"));
}

#[test]
fn the_dialog_takes_in_the_end_of_an_apply() {
    let mut dialog = ApplyDialog {
        open: true,
        running: true,
        resume_mode: true,
        error: String::new(),
    };
    let mut session = session_with("/src", Some("/dst"));
    let mut applied = false;
    let toast = apply_finished(
        &mut dialog,
        &mut session,
        &mut applied,
        false,
        "Move failed".to_string(),
    );
    assert!(toast.is_none() && dialog.open && !dialog.running && !applied);
    assert_eq!(dialog.error, "Move failed");
    assert_eq!(session.pending_apply, Some("/dst".to_string()));
    let toast = apply_finished(
        &mut dialog,
        &mut session,
        &mut applied,
        true,
        "Applied".to_string(),
    )
    .unwrap();
    assert_eq!((toast.text.as_str(), toast.code), ("\u{2713} apply complete", 1));
    assert!(!dialog.open && !dialog.resume_mode && applied);
    assert_eq!(session.pending_apply, None);
}

#[test]
fn the_panel_takes_in_the_end_of_a_recovery() {
    let crash = |from_breadcrumb| CrashInfo {
        journal: AT.to_string(),
        dest: "/dest".to_string(),
        from_breadcrumb,
    };
    let mut panel = CrashPanel {
        open: true,
        resuming: true,
        report: String::new(),
        report_open: false,
    };
    let mut session = session_with("/src", Some("/dest"));
    let mut applied = false;
    crash_finished(
        &mut panel,
        &mut session,
        &mut applied,
        &crash(true),
        false,
        "no".to_string(),
    );
    assert!(panel.open && panel.report_open && panel.report == "no" && !applied);
    crash_finished(
        &mut panel,
        &mut session,
        &mut applied,
        &crash(false),
        true,
        String::new(),
    );
    assert!(!panel.open && !applied);
    assert_eq!(session.pending_apply, Some("/dest".to_string()));
    let toast = crash_finished(
        &mut panel,
        &mut session,
        &mut applied,
        &crash(true),
        true,
        String::new(),
    );
    assert_eq!(toast.unwrap().text, "\u{2713} recovery complete");
    assert!(applied);
    assert_eq!(session.pending_apply, None);
}

#[test]
fn a_recovery_reports_and_resumes() {
    let (disk, session) = resume_fixture();
    let crash = CrashInfo {
        journal: AT.to_string(),
        dest: "/dest".to_string(),
        from_breadcrumb: false,
    };
    assert_eq!(
        panel_report(&crash, &mut FsLog::new(&disk)),
        "Interrupted apply into /dest\n  done: 1  pending: 0  failed: 0"
    );
    let (ok, words) = recover_on_worker(&crash, session, &mut FsLog::new(&disk));
    assert!(ok);
    assert_eq!(words, "Recovered: 1 shots, 0 files moved, 0 sidecars written.");
    assert_eq!(
        panel_report(&crash, &mut FsLog::new(&disk)),
        "could not read journal: No such file or directory"
    );
}

#[test]
fn default_buckets_pass_validation() {
    assert!(validate_buckets(&default_buckets()).is_ok());
}

#[test]
fn rejects_parent_dir_escape() {
    let mut b = default_buckets();
    b[0] = "../x".to_string();
    let err = validate_buckets(&b).unwrap_err();
    assert!(err.contains("../x"), "error was: {err}");
}

#[test]
fn rejects_nested_path() {
    let mut b = default_buckets();
    b[0] = "a/b".to_string();
    let err = validate_buckets(&b).unwrap_err();
    assert!(err.contains("a/b"), "error was: {err}");
}

#[test]
fn rejects_empty_name() {
    let mut b = default_buckets();
    b[0] = "".to_string();
    assert!(validate_buckets(&b).is_err());
}

#[test]
fn rejects_absolute_path() {
    let mut b = default_buckets();
    b[0] = "/abs".to_string();
    let err = validate_buckets(&b).unwrap_err();
    assert!(err.contains("/abs"), "error was: {err}");
}

#[test]
fn rejects_current_dir() {
    let mut b = default_buckets();
    b[0] = ".".to_string();
    assert!(validate_buckets(&b).is_err());
}

#[test]
fn opening_takes_up_what_was_decided() {
    let (disk, session) = two_shots();
    let mut log = FsLog::new(&disk);
    save(&session, "/src/.fastcull.json", &mut log).unwrap();
    disk.put("/src/IMG_3.JPG", b"cc".to_vec());
    let opened = open_session("/src", &mut log).unwrap();
    assert_eq!(opened.source_dir, "/src");
    assert_eq!(opened.shots.len(), 3);
    assert_eq!(opened.decision(0).tier, Some(Tier::Keep));
    assert_eq!(opened.decision(1).tier, Some(Tier::Reject));
    assert_eq!(opened.decision(2).tier, None);
}

#[test]
fn a_folder_that_cannot_be_opened_says_why() {
    let disk = Disk::new();
    let mut log = FsLog::new(&disk);
    let e = open_session("/nowhere", &mut log).unwrap_err();
    assert_eq!(e, OpenError::Folder(ScanError::NotADir("/nowhere".to_string())));
    assert_eq!(e.describe(), "not a directory: /nowhere");
    let e = OpenError::Record(PersistError::Io(eacces()));
    assert!(e.describe().contains("Permission denied"));
}

#[test]
fn a_launch_without_a_crash_has_nothing_to_tell() {
    let (disk, _) = two_shots();
    let mut log = FsLog::new(&disk);
    let l = launch("/src", &mut log).unwrap();
    assert!(l.crash.is_none());
    assert!(l.notes.is_empty());
    assert_eq!(l.session.shots.len(), 2);
}

#[test]
fn a_launch_tells_of_an_apply_that_was_interrupted() {
    let (disk, mut session) = two_shots();
    let mut log = FsLog::new(&disk);
    session.pending_apply = Some("/dst".to_string());
    save(&session, "/src/.fastcull.json", &mut log).unwrap();
    write_journal_fixture(&disk, "/dst", vec![OpState::Done, OpState::Pending]);
    let l = launch("/src", &mut log).unwrap();
    let crash = l.crash.unwrap();
    assert_eq!(crash.dest, "/dst");
    assert!(crash.from_breadcrumb);
    assert_eq!(l.session.pending_apply, Some("/dst".to_string()));
    assert_eq!(
        l.notes,
        vec!["Interrupted apply into /dst\n  done: 1  pending: 1  failed: 0"]
    );
}

#[test]
fn a_launch_tells_of_a_journal_that_cannot_be_read() {
    let (disk, _) = two_shots();
    disk.put("/src/.fastcull-apply.json", b"garbage".to_vec());
    let mut log = FsLog::new(&disk);
    let l = launch("/src", &mut log).unwrap();
    assert!(!l.crash.unwrap().from_breadcrumb);
    assert_eq!(
        l.notes,
        vec![
            "Interrupted apply found at /src/.fastcull-apply.json but the journal could not be \
             read: expected a journal"
        ]
    );
}

#[test]
fn a_stale_note_is_cleared_for_good() {
    let (disk, mut session) = two_shots();
    let mut log = FsLog::new(&disk);
    session.pending_apply = Some("/gone".to_string());
    save(&session, "/src/.fastcull.json", &mut log).unwrap();
    let l = launch("/src", &mut log).unwrap();
    assert!(l.crash.is_none());
    assert_eq!(l.session.pending_apply, None);
    assert_eq!(
        l.notes,
        vec!["stale pending_apply breadcrumb cleared (no journal at /gone); proceeding"]
    );
    assert_eq!(disk.session_at("/src/.fastcull.json").pending_apply, None);
    assert!(launch("/src", &mut log).unwrap().notes.is_empty());
}

#[test]
fn every_photo_is_whole_after_an_apply_that_stops() {
    let (disk, session) = two_shots();
    disk.deny("rename", "/src/IMG_2.JPG");
    let mut log = FsLog::new(&disk);
    let out = run_apply(session, "/dst", &default_buckets(), &mut log);
    assert!(out.is_err());
    assert_eq!(disk.bytes("/dst/02_keep/IMG_1.JPG"), Some(b"aaaa".to_vec()));
    assert!(!disk.holds("/src/IMG_1.JPG"));
    assert_eq!(disk.bytes("/src/IMG_2.JPG"), Some(b"bbbbbb".to_vec()));
    assert!(!disk.holds("/dst/00_rejected/IMG_2.JPG"));
}
