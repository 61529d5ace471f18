#![allow(dead_code)]
use culler::apply::{apply, resume};
use culler::fsops::{CodingError, DirEntry, EntryType, FsError, FsErrorKind, FsLog, FsOps};
use culler::journal::{ApplyError, Journal, OpState};
use culler::model::{
    CaptureTime, Decision, Session, Shot, Tier, BUCKET_BESTS, BUCKET_KEEP, BUCKET_PICKS,
    BUCKET_REJECTED, BUCKET_REST,
};
use culler::persist::{load, load_or_fresh, save, PersistError};
use culler::plan::{ApplyPlan, FileMove, ShotOp, SidecarWrite, TierCountsPlan};
use culler::records::write_sidecar;
use std::cell::RefCell;
use std::collections::{BTreeMap, BTreeSet};

/// A disk in memory, with faults that can be armed and a log of what was done to it.
#[derive(Default)]
struct State {
    files: BTreeMap<String, Vec<u8>>,
    dirs: BTreeSet<String>,
    odd: Vec<(String, DirEntry)>,
    free: u64,
    cross_fs: bool,
    enospc_on_copy: bool,
    denied: BTreeSet<(String, String)>,
    events: Vec<String>,
    journals: Vec<Journal>,
    sessions: Vec<Session>,
}

struct Disk {
    st: RefCell<State>,
}

fn error(kind: FsErrorKind, os: Option<i32>, message: &str) -> FsError {
    FsError {
        kind,
        os,
        message: message.to_string(),
        debug: format!("Os {{ code: {}, message: {message:?} }}", os.unwrap_or(0)),
    }
}

fn enoent() -> FsError {
    error(FsErrorKind::NotFound, Some(2), "No such file or directory")
}

fn eexist() -> FsError {
    error(FsErrorKind::AlreadyExists, Some(17), "File exists")
}

fn eacces() -> FsError {
    error(FsErrorKind::PermissionDenied, Some(13), "Permission denied")
}

fn enospc() -> FsError {
    error(FsErrorKind::Other, Some(28), "No space left on device")
}

fn exdev() -> FsError {
    error(FsErrorKind::Other, Some(18), "Invalid cross-device link")
}

fn device_of(path: &str) -> String {
    path.split('/').find(|p| !p.is_empty()).unwrap_or("").to_string()
}

fn copy_of(journal: &Journal) -> Journal {
    Journal {
        plan: journal.plan.clone(),
        statuses: journal.statuses.clone(),
    }
}

impl Disk {
    fn new() -> Disk {
        let disk = Disk {
            st: RefCell::new(State::default()),
        };
        disk.st.borrow_mut().free = u64::MAX;
        disk
    }

    fn put(&self, path: &str, bytes: Vec<u8>) {
        self.st.borrow_mut().files.insert(path.to_string(), bytes);
    }

    fn touch(&self, path: &str) {
        self.put(path, Vec::new());
    }

    fn seed_file(&self, path: &str, len: usize) {
        self.put(path, vec![0u8; len]);
    }

    fn make_dir(&self, path: &str) {
        self.st.borrow_mut().dirs.insert(path.to_string());
    }

    fn remove(&self, path: &str) {
        self.st.borrow_mut().files.remove(path);
    }

    fn put_journal(&self, path: &str, journal: &Journal) {
        let bytes = self.encode_journal(journal).unwrap();
        self.put(path, bytes);
    }

    fn journal_at(&self, path: &str) -> Journal {
        let bytes = self.bytes(path).unwrap();
        self.decode_journal(&bytes).unwrap()
    }

    fn session_at(&self, path: &str) -> Session {
        let bytes = self.bytes(path).unwrap();
        self.decode_session(&bytes).unwrap()
    }

    fn deny(&self, operation: &str, path: &str) {
        self.st
            .borrow_mut()
            .denied
            .insert((operation.to_string(), path.to_string()));
    }

    fn clear_faults(&self) {
        let mut s = self.st.borrow_mut();
        s.cross_fs = false;
        s.enospc_on_copy = false;
        s.denied.clear();
    }

    fn denies(&self, operation: &str, path: &str) -> bool {
        self.st
            .borrow()
            .denied
            .contains(&(operation.to_string(), path.to_string()))
    }

    fn holds(&self, path: &str) -> bool {
        self.st.borrow().files.contains_key(path)
    }

    fn len_of(&self, path: &str) -> Option<usize> {
        self.st.borrow().files.get(path).map(|b| b.len())
    }

    fn bytes(&self, path: &str) -> Option<Vec<u8>> {
        self.st.borrow().files.get(path).cloned()
    }

    fn events(&self) -> Vec<String> {
        self.st.borrow().events.clone()
    }

    fn log(&self, event: String) {
        self.st.borrow_mut().events.push(event);
    }

    fn below(&self, dir: &str) -> Vec<String> {
        let front = format!("{dir}/");
        let s = self.st.borrow();
        s.files
            .keys()
            .chain(s.dirs.iter())
            .filter(|p| p.starts_with(&front))
            .map(|p| p[front.len()..].to_string())
            .collect()
    }
}

impl FsOps for Disk {
    fn mkdir_p(&self, path: &str) -> Result<(), FsError> {
        if self.denies("mkdir", path) {
            return Err(eacces());
        }
        self.make_dir(path);
        Ok(())
    }

    fn same_filesystem(&self, a: &str, b: &str) -> Result<bool, FsError> {
        Ok(!self.st.borrow().cross_fs || device_of(a) == device_of(b))
    }

    fn rename_noreplace(&self, from: &str, to: &str) -> Result<(), FsError> {
        if self.st.borrow().cross_fs && device_of(from) != device_of(to) {
            return Err(exdev());
        }
        if self.denies("rename", from) || self.denies("write", to) {
            return Err(eacces());
        }
        if self.holds(to) {
            return Err(eexist());
        }
        let bytes = self.st.borrow_mut().files.remove(from).ok_or_else(enoent)?;
        self.put(to, bytes);
        self.log(format!("rename:{from}->{to}"));
        Ok(())
    }

    fn copy_create_new(&self, from: &str, to: &str) -> Result<u64, FsError> {
        let bytes = self.bytes(from).ok_or_else(enoent)?;
        if self.holds(to) {
            return Err(eexist());
        }
        if self.st.borrow().enospc_on_copy || bytes.len() as u64 > self.st.borrow().free {
            return Err(enospc());
        }
        let len = bytes.len() as u64;
        self.put(to, bytes);
        self.log(format!("copy:{from}->{to}"));
        Ok(len)
    }

    fn fsync_file(&self, path: &str) -> Result<(), FsError> {
        if !self.holds(path) {
            return Err(enoent());
        }
        self.log(format!("fsync_file:{path}"));
        Ok(())
    }

    fn fsync_dir(&self, path: &str) -> Result<(), FsError> {
        if self.denies("fsync", path) {
            return Err(eacces());
        }
        self.log(format!("fsync_dir:{path}"));
        Ok(())
    }

    fn remove_file(&self, path: &str) -> Result<(), FsError> {
        if self.denies("remove", path) {
            return Err(eacces());
        }
        self.st.borrow_mut().files.remove(path).ok_or_else(enoent)?;
        self.log(format!("remove:{path}"));
        Ok(())
    }

    fn file_len(&self, path: &str) -> Result<u64, FsError> {
        self.len_of(path).map(|n| n as u64).ok_or_else(enoent)
    }

    fn free_space(&self, _path: &str) -> Result<u64, FsError> {
        Ok(self.st.borrow().free)
    }

    fn is_there(&self, path: &str) -> bool {
        self.holds(path) || self.is_dir(path)
    }

    fn is_dir(&self, path: &str) -> bool {
        self.st.borrow().dirs.contains(path) || !self.below(path).is_empty()
    }

    fn is_file(&self, path: &str) -> bool {
        self.holds(path)
    }

    fn list_dir(&self, path: &str) -> Result<Vec<Result<DirEntry, FsError>>, FsError> {
        if !self.is_dir(path) {
            return Err(enoent());
        }
        let names: BTreeSet<String> = self
            .below(path)
            .iter()
            .map(|p| p.split('/').next().unwrap().to_string())
            .collect();
        let mut out = Vec::new();
        for name in names.into_iter().rev() {
            let is_file = self.holds(&format!("{path}/{name}"));
            out.push(Ok(DirEntry {
                hidden: name.starts_with('.'),
                is_file,
                entry_type: if is_file {
                    EntryType::NotDir
                } else {
                    EntryType::Dir
                },
                name: Some(name),
            }));
        }
        for (dir, e) in &self.st.borrow().odd {
            if dir == path {
                out.push(Ok(DirEntry {
                    name: e.name.clone(),
                    hidden: e.hidden,
                    is_file: e.is_file,
                    entry_type: e.entry_type,
                }));
            }
        }
        Ok(out)
    }

    fn canonicalize(&self, path: &str) -> Result<String, FsError> {
        if self.is_there(path) {
            Ok(path.to_string())
        } else {
            Err(enoent())
        }
    }

    fn read(&self, path: &str) -> Result<Vec<u8>, FsError> {
        self.bytes(path).ok_or_else(enoent)
    }

    fn write_file(&self, path: &str, content: &[u8], sync: bool) -> Result<(), FsError> {
        if self.denies("write", path) {
            return Err(eacces());
        }
        self.put(path, content.to_vec());
        self.log(format!("write:{path}"));
        if sync {
            self.log(format!("fsync_file:{path}"));
        }
        Ok(())
    }

    fn rename(&self, from: &str, to: &str) -> Result<(), FsError> {
        if self.denies("rename", from) {
            return Err(eacces());
        }
        let bytes = self.st.borrow_mut().files.remove(from).ok_or_else(enoent)?;
        self.put(to, bytes);
        self.log(format!("replace:{from}->{to}"));
        Ok(())
    }

    fn process_id(&self) -> u32 {
        4711
    }

    fn encode_journal(&self, journal: &Journal) -> Result<Vec<u8>, String> {
        let mut s = self.st.borrow_mut();
        s.journals.push(copy_of(journal));
        Ok(format!("journal {}", s.journals.len() - 1).into_bytes())
    }

    fn decode_journal(&self, bytes: &Vec<u8>) -> Result<Journal, String> {
        let text = String::from_utf8_lossy(bytes).into_owned();
        let number = text.strip_prefix("journal ").and_then(|n| n.parse::<usize>().ok());
        match number.and_then(|n| self.st.borrow().journals.get(n).map(copy_of)) {
            Some(j) => Ok(j),
            None => Err("expected a journal".to_string()),
        }
    }

    fn encode_session(&self, session: &Session) -> Result<Vec<u8>, CodingError> {
        let mut s = self.st.borrow_mut();
        s.sessions.push(session.clone());
        Ok(format!("session {}", s.sessions.len() - 1).into_bytes())
    }

    fn decode_session(&self, bytes: &Vec<u8>) -> Result<Session, CodingError> {
        let text = String::from_utf8_lossy(bytes).into_owned();
        let number = text.strip_prefix("session ").and_then(|n| n.parse::<usize>().ok());
        match number.and_then(|n| self.st.borrow().sessions.get(n).cloned()) {
            Some(s) => Ok(s),
            None => Err(CodingError {
                message: "expected a session".to_string(),
                debug: "Error(\"expected a session\")".to_string(),
            }),
        }
    }
}

const JOURNAL: &str = "/journal/.fastcull-apply.json";

fn at(dest: &str, bucket: &str, name: &str) -> String {
    format!("{dest}/{bucket}/{name}")
}

fn buckets() -> [String; 5] {
    [
        BUCKET_REJECTED.into(),
        BUCKET_REST.into(),
        BUCKET_KEEP.into(),
        BUCKET_PICKS.into(),
        BUCKET_BESTS.into(),
    ]
}

fn shot(stem: &str, bucket: &str, srcs: &[(&str, u64)], dest: &str) -> (ShotOp, u64) {
    let mut moves = Vec::new();
    let mut bytes = 0u64;
    for (name, len) in srcs {
        moves.push(FileMove {
            from: format!("/src/{name}"),
            to: at(dest, bucket, name),
        });
        bytes += *len;
    }
    (
        ShotOp {
            stem: stem.into(),
            bucket: bucket.into(),
            moves,
            write_sidecar: None,
            suffix: None,
        },
        bytes,
    )
}

fn plan_of(dest: &str, ops: Vec<ShotOp>, total_bytes: u64) -> ApplyPlan {
    ApplyPlan {
        dest: dest.to_string(),
        buckets: buckets(),
        ops,
        per_bucket_counts: TierCountsPlan::default(),
        skipped_sidecar_writes: Vec::new(),
        stale: Vec::new(),
        total_bytes,
    }
}

fn seed_sources(fs: &Disk, ops: &[ShotOp]) {
    for op in ops {
        for m in &op.moves {
            fs.seed_file(&m.from, 100);
        }
    }
}

impl Disk {
    fn set_free(&self, v: u64) {
        self.st.borrow_mut().free = v;
    }

    fn set_cross_fs(&self, v: bool) {
        self.st.borrow_mut().cross_fs = v;
    }

    fn set_enospc_on_copy(&self, v: bool) {
        self.st.borrow_mut().enospc_on_copy = v;
    }
}

fn sidecar_plan(sidecar: &str) -> ApplyPlan {
    let op = ShotOp {
        stem: "IMG_0700".into(),
        bucket: BUCKET_KEEP.into(),
        moves: vec![FileMove {
            from: "/src/IMG_0700.JPG".to_string(),
            to: at("/dst", BUCKET_KEEP, "IMG_0700.JPG"),
        }],
        write_sidecar: Some(SidecarWrite {
            path: sidecar.to_string(),
            tags: vec!["portrait".into(), "golden-hour".into()],
            rating: Some(3),
        }),
        suffix: None,
    };
    plan_of("/dst", vec![op], 128)
}

#[test]
fn apply_writes_fresh_sidecar_into_bucket_realfs() {
    let fs = Disk::new();
    fs.seed_file("/src/IMG_0700.JPG", 128);
    let sidecar = at("/dst", BUCKET_KEEP, "IMG_0700.xmp");
    let report = apply(&sidecar_plan(&sidecar), &mut FsLog::new(&fs), JOURNAL).unwrap();

    assert!(fs.holds(&at("/dst", BUCKET_KEEP, "IMG_0700.JPG")));
    assert!(!fs.holds("/src/IMG_0700.JPG"));
    assert_eq!(report.sidecars_written, 1);
    let xmp = String::from_utf8(fs.bytes(&sidecar).unwrap()).unwrap();
    assert!(xmp.contains("portrait"), "dc:subject keyword present");
    assert!(xmp.contains("golden-hour"));
    assert!(xmp.contains("3"), "xmp:Rating present");
}

#[test]
fn sidecars_are_durable_before_the_journal_goes() {
    let fs = Disk::new();
    fs.seed_file("/src/IMG_0700.JPG", 128);
    let sidecar = at("/dst", BUCKET_KEEP, "IMG_0700.xmp");
    apply(&sidecar_plan(&sidecar), &mut FsLog::new(&fs), JOURNAL).unwrap();

    let events = fs.events();
    let synced = format!("fsync_dir:/dst/{BUCKET_KEEP}");
    let at_sync = events.iter().position(|e| *e == synced).unwrap();
    let gone = format!("remove:{JOURNAL}");
    assert_eq!(events.iter().position(|e| *e == gone), Some(at_sync + 1));
    assert_eq!(events.len(), at_sync + 2);
}

#[test]
fn a_sidecar_that_is_not_durable_keeps_the_journal() {
    let fs = Disk::new();
    fs.seed_file("/src/IMG_0700.JPG", 128);
    let sidecar = at("/dst", BUCKET_KEEP, "IMG_0700.xmp");
    let dir = format!("/dst/{BUCKET_KEEP}");
    fs.deny("fsync", &dir);
    match apply(&sidecar_plan(&sidecar), &mut FsLog::new(&fs), JOURNAL).unwrap_err() {
        ApplyError::Fs { path, .. } => assert_eq!(path, dir),
        other => panic!("expected an fs error, got {other:?}"),
    }
    assert!(fs.holds(JOURNAL));

    fs.clear_faults();
    let report = resume(JOURNAL, &mut FsLog::new(&fs)).unwrap();
    assert_eq!(report.moved_files, 0);
    assert_eq!(report.sidecars_written, 0);
    assert!(!fs.holds(JOURNAL));
    assert!(fs.events().contains(&format!("fsync_dir:{dir}")));
}

#[test]
fn a_published_move_whose_source_is_gone_is_done() {
    let fs = Disk::new();
    let sidecar = at("/dst", BUCKET_KEEP, "IMG_0700.xmp");
    fs.seed_file(&at("/dst", BUCKET_KEEP, "IMG_0700.JPG"), 128);
    let journal = Journal {
        plan: sidecar_plan(&sidecar),
        statuses: vec![OpState::Published],
    };
    fs.put_journal(JOURNAL, &journal);
    let report = resume(JOURNAL, &mut FsLog::new(&fs)).unwrap();
    assert_eq!(report.moved_files, 0);
    assert!(!fs.holds(JOURNAL));
}

#[test]
fn apply_skips_existing_sidecar_target_never_clobbers_realfs() {
    let fs = Disk::new();
    fs.seed_file("/src/IMG_0700.JPG", 128);
    let sidecar = at("/dst", BUCKET_KEEP, "IMG_0700.xmp");
    let sentinel = b"SENTINEL - user's existing sidecar".to_vec();
    fs.put(&sidecar, sentinel.clone());
    let report = apply(&sidecar_plan(&sidecar), &mut FsLog::new(&fs), JOURNAL).unwrap();

    assert_eq!(report.sidecars_written, 0);
    assert_eq!(fs.bytes(&sidecar), Some(sentinel));
    assert!(fs.holds(&at("/dst", BUCKET_KEEP, "IMG_0700.JPG")));
    assert!(!fs.holds("/src/IMG_0700.JPG"));
}

#[test]
fn write_sidecar_writes_atomically_and_parses_back() {
    let fs = Disk::new();
    let path = "/box/IMG_1234.xmp";
    write_sidecar(path, &vec!["red".to_string()], Some(5), &mut FsLog::new(&fs)).unwrap();

    let content = String::from_utf8(fs.bytes(path).unwrap()).unwrap();
    assert!(content.contains("<rdf:li>red</rdf:li>"), "content: {content}");
    assert!(
        content.contains("<xmp:Rating>5</xmp:Rating>"),
        "content: {content}"
    );
    assert_eq!(fs.below("/box"), vec!["IMG_1234.xmp".to_string()]);

    let before = fs.bytes(path);
    let err = write_sidecar(path, &vec!["other".to_string()], Some(1), &mut FsLog::new(&fs))
        .unwrap_err();
    assert_eq!(err.kind(), FsErrorKind::AlreadyExists);
    assert_eq!(fs.bytes(path), before);
    assert_eq!(fs.below("/box").len(), 1);
}

#[test]
fn write_sidecar_fsyncs_before_publish() {
    let fs = Disk::new();
    let path = "/box/IMG_9012.xmp";
    write_sidecar(path, &vec!["red".to_string()], Some(2), &mut FsLog::new(&fs)).unwrap();
    assert_eq!(
        fs.events(),
        vec![
            "write:/box/.IMG_9012.xmp.4711.tmp".to_string(),
            "fsync_file:/box/.IMG_9012.xmp.4711.tmp".to_string(),
            "rename:/box/.IMG_9012.xmp.4711.tmp->/box/IMG_9012.xmp".to_string(),
        ]
    );
}

#[test]
fn write_sidecar_cleans_up_temp_on_write_failure() {
    let fs = Disk::new();
    fs.make_dir("/box");
    let path = "/box/IMG_5678.xmp";
    fs.deny("write", "/box/.IMG_5678.xmp.4711.tmp");
    let err = write_sidecar(path, &vec!["red".to_string()], Some(3), &mut FsLog::new(&fs))
        .unwrap_err();
    assert_eq!(err.kind(), FsErrorKind::PermissionDenied);
    assert!(fs.below("/box").is_empty());
}

#[test]
fn a_sidecar_needs_a_file_name() {
    let fs = Disk::new();
    let err = write_sidecar("/", &vec![], None, &mut FsLog::new(&fs)).unwrap_err();
    assert_eq!(err.kind(), FsErrorKind::InvalidInput);
    assert!(fs.events().is_empty());
}

#[test]
fn a_journal_with_too_few_states_is_refused() {
    let fs = Disk::new();
    let (s1, b1) = shot("IMG_1", BUCKET_KEEP, &[("IMG_1.JPG", 100)], "/dst");
    let plan = plan_of("/dst", vec![s1], b1);
    fs.seed_file("/src/IMG_1.JPG", 100);
    fs.put_journal(
        JOURNAL,
        &Journal {
            plan,
            statuses: vec![],
        },
    );
    let err = resume(JOURNAL, &mut FsLog::new(&fs)).unwrap_err();
    assert_eq!(
        err.describe(),
        "preflight failed: the journal is corrupt: 0 states for 1 moves"
    );
    assert!(fs.holds("/src/IMG_1.JPG"));
}

#[test]
fn a_journal_that_cannot_be_read_is_named() {
    let fs = Disk::new();
    match resume(JOURNAL, &mut FsLog::new(&fs)).unwrap_err() {
        ApplyError::Fs { path, source } => {
            assert_eq!(path, JOURNAL);
            assert_eq!(source.kind(), FsErrorKind::NotFound);
        }
        other => panic!("expected Fs error, got {other:?}"),
    }
    fs.put(JOURNAL, b"{ not a journal".to_vec());
    match resume(JOURNAL, &mut FsLog::new(&fs)).unwrap_err() {
        ApplyError::Fs { path, source } => {
            assert_eq!(path, JOURNAL);
            assert_eq!(source.kind(), FsErrorKind::InvalidData);
        }
        other => panic!("expected Fs error, got {other:?}"),
    }
}

fn session_in(dir: &str) -> Session {
    Session {
        source_dir: dir.to_string(),
        ..Session::default()
    }
}

#[test]
fn save_then_load_round_trips() {
    let fs = Disk::new();
    let path = "/shoot/.fastcull.json";
    let mut session = session_in("/shoot");
    session.shots.push(Shot {
        stem: "IMG_0001".to_string(),
        jpeg: Some("/shoot/IMG_0001.JPG".to_string()),
        raw: Some("/shoot/IMG_0001.CR3".to_string()),
        sidecar: None,
        capture: CaptureTime {
            datetime: Some("2026:07:08 10:00:00".to_string()),
            subsec: Some(1),
        },
        exif: None,
    });
    session.decisions.insert(
        "IMG_0001".to_string(),
        Decision {
            tier: Some(Tier::Pick),
            tags: vec!["portrait".to_string()],
            visited: true,
        },
    );
    save(&session, path, &mut FsLog::new(&fs)).unwrap();
    assert!(!fs.holds("/shoot/.fastcull.json.tmp"));
    let loaded = load(path, &mut FsLog::new(&fs)).unwrap();
    assert_eq!(loaded.source_dir, session.source_dir);
    assert_eq!(loaded.shots, session.shots);
    assert_eq!(
        format!("{:?}", loaded.decisions),
        format!("{:?}", session.decisions)
    );
    assert_eq!(loaded.decision(0), session.decision(0));
    assert_eq!(loaded.current, 0);
}

#[test]
fn a_record_is_durable_before_it_takes_its_place() {
    let fs = Disk::new();
    save(
        &session_in("/shoot"),
        "/shoot/.fastcull.json",
        &mut FsLog::new(&fs),
    )
    .unwrap();
    assert_eq!(
        fs.events(),
        vec![
            "write:/shoot/.fastcull.json.tmp".to_string(),
            "fsync_file:/shoot/.fastcull.json.tmp".to_string(),
            "replace:/shoot/.fastcull.json.tmp->/shoot/.fastcull.json".to_string(),
        ]
    );
}

#[test]
fn save_replaces_existing_sidecar_on_resave() {
    let fs = Disk::new();
    let path = "/shoot/.fastcull.json";
    save(&session_in("/shoot"), path, &mut FsLog::new(&fs)).unwrap();
    let mut second = session_in("/shoot");
    second.current = 7;
    save(&second, path, &mut FsLog::new(&fs)).unwrap();
    assert_eq!(load(path, &mut FsLog::new(&fs)).unwrap().current, 7);
    assert!(!fs.holds("/shoot/.fastcull.json.tmp"));
}

#[test]
fn load_reports_corrupt_json_as_corrupt_error() {
    let fs = Disk::new();
    fs.put("/shoot/.fastcull.json", b"{ not valid json ".to_vec());
    match load("/shoot/.fastcull.json", &mut FsLog::new(&fs)) {
        Err(PersistError::Corrupt(e)) => assert_eq!(e.message, "expected a session"),
        other => panic!("expected Corrupt, got {other:?}"),
    }
}

#[test]
fn load_missing_file_is_an_io_error() {
    let fs = Disk::new();
    match load("/shoot/.fastcull.json", &mut FsLog::new(&fs)) {
        Err(PersistError::Io(e)) => assert_eq!(e.kind(), FsErrorKind::NotFound),
        other => panic!("expected Io(NotFound), got {other:?}"),
    }
}

#[test]
fn load_or_fresh_missing_returns_none() {
    let fs = Disk::new();
    assert!(load_or_fresh("/shoot", &mut FsLog::new(&fs)).unwrap().is_none());
}

#[test]
fn load_or_fresh_valid_returns_session() {
    let fs = Disk::new();
    save(
        &session_in("/shoot"),
        "/shoot/.fastcull.json",
        &mut FsLog::new(&fs),
    )
    .unwrap();
    let loaded = load_or_fresh("/shoot", &mut FsLog::new(&fs)).unwrap().unwrap();
    assert_eq!(loaded.source_dir, "/shoot");
}

#[test]
fn load_or_fresh_corrupt_renames_to_bad_and_returns_none() {
    let fs = Disk::new();
    let path = "/shoot/.fastcull.json";
    fs.put(path, b"{ this is not valid json ".to_vec());
    assert!(load_or_fresh("/shoot", &mut FsLog::new(&fs)).unwrap().is_none());
    assert!(!fs.holds(path));
    assert_eq!(
        fs.bytes("/shoot/.fastcull.json.bad"),
        Some(b"{ this is not valid json ".to_vec())
    );
}

#[test]
fn load_or_fresh_repeated_corruption_preserves_all_evidence() {
    let fs = Disk::new();
    let path = "/shoot/.fastcull.json";
    for evidence in ["corrupt evidence A", "corrupt evidence B", "corrupt evidence C"] {
        fs.put(path, evidence.as_bytes().to_vec());
        assert!(load_or_fresh("/shoot", &mut FsLog::new(&fs)).unwrap().is_none());
    }
    assert_eq!(
        fs.bytes("/shoot/.fastcull.json.bad"),
        Some(b"corrupt evidence A".to_vec())
    );
    assert_eq!(
        fs.bytes("/shoot/.fastcull.json.bad.1"),
        Some(b"corrupt evidence B".to_vec())
    );
    assert_eq!(
        fs.bytes("/shoot/.fastcull.json.bad.2"),
        Some(b"corrupt evidence C".to_vec())
    );
}

#[test]
fn a_persist_error_has_its_debug_text() {
    assert_eq!(
        PersistError::Io(eacces()).debug_text(),
        "Io(Os { code: 13, message: \"Permission denied\" })"
    );
    assert_eq!(
        PersistError::Corrupt(CodingError {
            message: "expected value at line 1 column 1".to_string(),
            debug: "Error(\"expected value\", line: 1, column: 1)".to_string(),
        })
        .debug_text(),
        "Corrupt(Error(\"expected value\", line: 1, column: 1))"
    );
}

#[test]
fn errors_have_their_words() {
    assert_eq!(
        PersistError::Io(eacces()).describe(),
        "session I/O error: Permission denied"
    );
    assert_eq!(
        PersistError::Corrupt(CodingError {
            message: "expected value".to_string(),
            debug: "Error(\"expected value\", line: 1, column: 1)".to_string(),
        })
        .describe(),
        "corrupt session file: expected value"
    );
    assert_eq!(
        ApplyError::Collision("/dst/a".to_string()).describe(),
        "collision: /dst/a already exists"
    );
    assert_eq!(
        ApplyError::Fs {
            path: "/dst/a".to_string(),
            source: enoent()
        }
        .describe(),
        "fs error on /dst/a: No such file or directory"
    );
}

#[test]
fn apply_same_fs_moves_every_file_and_journals_all_done() {
    let dest = "/dst";
    let (s1, b1) = shot(
        "IMG_0001",
        BUCKET_KEEP,
        &[("IMG_0001.JPG", 100), ("IMG_0001.CR3", 100)],
        dest,
    );
    let (s2, b2) = shot("IMG_0002", BUCKET_PICKS, &[("IMG_0002.JPG", 100)], dest);
    let plan = plan_of(dest, vec![s1, s2], b1 + b2);

    let fs = Disk::new();
    seed_sources(&fs, &plan.ops);


    let report = apply(&plan, &mut FsLog::new(&fs), JOURNAL).unwrap();

    assert!(!fs.holds("/src/IMG_0001.JPG"));
    assert_eq!(
        fs.len_of(&at(dest, BUCKET_KEEP, "IMG_0001.JPG")),
        Some(100)
    );
    assert_eq!(
        fs.len_of(&at(dest, BUCKET_KEEP, "IMG_0001.CR3")),
        Some(100)
    );
    assert_eq!(
        fs.len_of(&at(dest, BUCKET_PICKS, "IMG_0002.JPG")),
        Some(100)
    );

    assert!(fs.is_dir(&format!("{dest}/{}", BUCKET_REJECTED)));
    assert!(fs.is_dir(&format!("{dest}/{}", BUCKET_BESTS)));

    assert_eq!(report.moved_shots, 2);
    assert_eq!(report.moved_files, 3);
    assert_eq!(report.stopped_at, None);

    assert!(!fs.holds(JOURNAL), "journal removed on full success");
}


#[test]
fn journal_persists_incrementally_and_before_first_move() {
    let dest = "/dst";
    let (s1, b1) = shot(
        "IMG_0007",
        BUCKET_KEEP,
        &[
            ("IMG_0007.JPG", 100),
            ("IMG_0007.CR3", 100),
            ("IMG_0007.xmp", 100),
        ],
        dest,
    );
    let plan = plan_of(dest, vec![s1], b1);

    let fs = Disk::new();
    seed_sources(&fs, &plan.ops);
    fs.deny("rename", "/src/IMG_0007.CR3");


    let err = apply(&plan, &mut FsLog::new(&fs), JOURNAL).unwrap_err();
    assert!(matches!(err, ApplyError::Fs { .. }));

    let j = fs.journal_at(JOURNAL);
    assert_eq!(
        j.statuses,
        vec![OpState::Done, OpState::Failed, OpState::Pending]
    );

    assert!(!fs.holds("/src/IMG_0007.JPG"));
    assert!(fs.holds("/src/IMG_0007.CR3"));
    assert!(fs.holds("/src/IMG_0007.xmp"));
}

#[test]
fn journal_exists_even_when_the_very_first_move_fails() {
    let dest = "/dst";
    let (s1, b1) = shot("IMG_0009", BUCKET_KEEP, &[("IMG_0009.JPG", 100)], dest);
    let plan = plan_of(dest, vec![s1], b1);

    let fs = Disk::new();
    seed_sources(&fs, &plan.ops);
    fs.deny("rename", "/src/IMG_0009.JPG");


    let _ = apply(&plan, &mut FsLog::new(&fs), JOURNAL).unwrap_err();
    assert!(fs.holds(JOURNAL), "journal was written before the first move");
    let j = fs.journal_at(JOURNAL);
    assert_eq!(j.statuses, vec![OpState::Failed]);
}

#[test]
fn apply_cross_fs_copies_verifies_then_removes_source() {
    let dest = "/dst";
    let (s1, b1) = shot(
        "IMG_0100",
        BUCKET_BESTS,
        &[("IMG_0100.JPG", 100), ("IMG_0100.CR3", 100)],
        dest,
    );
    let plan = plan_of(dest, vec![s1], b1);

    let fs = Disk::new();
    seed_sources(&fs, &plan.ops);
    fs.set_free(u64::MAX);
    fs.set_cross_fs(true);


    let report = apply(&plan, &mut FsLog::new(&fs), JOURNAL).unwrap();
    assert_eq!(report.moved_files, 2);

    let jpg_final = at(dest, BUCKET_BESTS, "IMG_0100.JPG");
    let jpg_partial = at(dest, BUCKET_BESTS, ".IMG_0100.JPG.partial");

    assert_eq!(fs.len_of(&jpg_final), Some(100));
    assert!(
        !fs.holds("/src/IMG_0100.JPG"),
        "verified source removed"
    );
    assert!(
        !fs.holds(&jpg_partial),
        "partial published, not left behind"
    );

    assert!(fs.events().contains(&format!("fsync_file:{jpg_partial}")));
    assert!(fs.events().contains(&format!("fsync_dir:{dest}/{BUCKET_BESTS}")));

    let ev = fs.events();
    let pos = |needle: &str| {
        ev.iter()
            .position(|e| e == needle)
            .unwrap_or_else(|| panic!("missing {needle} in {ev:?}"))
    };
    let publish = pos(&format!(
        "rename:{}->{}",
        jpg_partial,
        jpg_final
    ));
    let dirsync = pos(&format!("fsync_dir:{}", format!("{dest}/{}", BUCKET_BESTS)));
    let unlink = pos("remove:/src/IMG_0100.JPG");
    assert!(
        publish < dirsync,
        "dir fsync must FOLLOW the publish rename: {ev:?}"
    );
    assert!(
        dirsync < unlink,
        "source unlink must follow the dir fsync: {ev:?}"
    );
}

#[test]
fn apply_collision_between_plan_and_apply_fails_loudly() {
    let dest = "/dst";
    let (s1, b1) = shot("IMG_0200", BUCKET_KEEP, &[("IMG_0200.JPG", 100)], dest);
    let plan = plan_of(dest, vec![s1], b1);

    let fs = Disk::new();
    seed_sources(&fs, &plan.ops);
    let target = at(dest, BUCKET_KEEP, "IMG_0200.JPG");
    fs.seed_file(&target, 999);


    let err = apply(&plan, &mut FsLog::new(&fs), JOURNAL).unwrap_err();
    match err {
        ApplyError::Collision(p) => assert_eq!(p, target),
        other => panic!("expected Collision, got {other:?}"),
    }
    assert_eq!(
        fs.len_of(&target),
        Some(999),
        "existing dest file untouched"
    );
    assert!(
        fs.holds("/src/IMG_0200.JPG"),
        "source not moved"
    );
}

fn stopped_stem(j: &Journal) -> Option<String> {
    let mut gidx = 0usize;
    for op in &j.plan.ops {
        for _ in &op.moves {
            if j.statuses[gidx] != OpState::Done {
                return Some(op.stem.clone());
            }
            gidx += 1;
        }
    }
    None
}

#[test]
fn apply_group_atomicity_stops_and_records_partial() {
    let dest = "/dst";
    let (a, ba) = shot("IMG_0300", BUCKET_KEEP, &[("IMG_0300.JPG", 100)], dest);
    let (b, bb) = shot(
        "IMG_0301",
        BUCKET_PICKS,
        &[
            ("IMG_0301.JPG", 100),
            ("IMG_0301.CR3", 100),
            ("IMG_0301.xmp", 100),
        ],
        dest,
    );
    let plan = plan_of(dest, vec![a, b], ba + bb);

    let fs = Disk::new();
    seed_sources(&fs, &plan.ops);
    fs.deny("rename", "/src/IMG_0301.CR3");


    let err = apply(&plan, &mut FsLog::new(&fs), JOURNAL).unwrap_err();
    assert!(matches!(err, ApplyError::Fs { .. }));

    assert!(!fs.holds("/src/IMG_0300.JPG"));
    assert!(!fs.holds("/src/IMG_0301.JPG"));
    assert!(fs.holds("/src/IMG_0301.CR3"));
    assert!(fs.holds("/src/IMG_0301.xmp"));

    let j = fs.journal_at(JOURNAL);
    assert_eq!(
        j.statuses,
        vec![
            OpState::Done,
            OpState::Done,
            OpState::Failed,
            OpState::Pending
        ]
    );
    assert_eq!(stopped_stem(&j), Some("IMG_0301".to_string()));
}

#[test]
fn resume_continues_a_crashed_run_from_the_journal() {
    let dest = "/dst";
    let (s1, b1) = shot(
        "IMG_0400",
        BUCKET_KEEP,
        &[
            ("IMG_0400.JPG", 100),
            ("IMG_0400.CR3", 100),
            ("IMG_0400.xmp", 100),
        ],
        dest,
    );
    let plan = plan_of(dest, vec![s1], b1);

    let fs = Disk::new();
    seed_sources(&fs, &plan.ops);
    fs.deny("rename", "/src/IMG_0400.CR3");


    let _ = apply(&plan, &mut FsLog::new(&fs), JOURNAL).unwrap_err();
    assert!(!fs.holds("/src/IMG_0400.JPG"));
    assert!(fs.holds("/src/IMG_0400.CR3"));

    fs.clear_faults();
    let report = resume(JOURNAL, &mut FsLog::new(&fs)).unwrap();

    assert_eq!(report.moved_files, 2);
    assert!(!fs.holds("/src/IMG_0400.CR3"));
    assert!(!fs.holds("/src/IMG_0400.xmp"));
    assert_eq!(
        fs.len_of(&at(dest, BUCKET_KEEP, "IMG_0400.CR3")),
        Some(100)
    );

    assert!(!fs.holds(JOURNAL), "journal removed once the resume completes");
}

#[test]
fn resume_reconciles_crash_between_move_and_journal_update() {
    let dest = "/dst";
    let (s1, b1) = shot(
        "IMG_0410",
        BUCKET_KEEP,
        &[("IMG_0410.JPG", 100), ("IMG_0410.CR3", 100)],
        dest,
    );
    let plan = plan_of(dest, vec![s1], b1);

    let fs = Disk::new();
    fs.seed_file(&at(dest, BUCKET_KEEP, "IMG_0410.JPG"), 100);
    fs.seed_file("/src/IMG_0410.CR3", 100);

    let stale = Journal {
        plan: plan.clone(),
        statuses: vec![OpState::Pending, OpState::Pending],
    };
    fs.put_journal(JOURNAL, &stale);

    let report = resume(JOURNAL, &mut FsLog::new(&fs)).unwrap();
    assert_eq!(
        report.moved_files, 1,
        "only the CR3 actually moved this run"
    );
    assert_eq!(
        fs.len_of(&at(dest, BUCKET_KEEP, "IMG_0410.CR3")),
        Some(100)
    );
    assert!(!fs.holds(JOURNAL), "journal removed on success");
}

#[test]
fn resume_reexecutes_a_done_move_the_disk_never_saw() {
    let dest = "/dst";
    let (s1, b1) = shot("IMG_0420", BUCKET_KEEP, &[("IMG_0420.JPG", 100)], dest);
    let plan = plan_of(dest, vec![s1], b1);

    let fs = Disk::new();
    fs.seed_file("/src/IMG_0420.JPG", 100);

    let stale = Journal {
        plan: plan.clone(),
        statuses: vec![OpState::Done],
    };
    fs.put_journal(JOURNAL, &stale);

    let report = resume(JOURNAL, &mut FsLog::new(&fs)).unwrap();
    assert_eq!(report.moved_files, 1);
    assert_eq!(
        fs.len_of(&at(dest, BUCKET_KEEP, "IMG_0420.JPG")),
        Some(100)
    );
    assert!(!fs.holds("/src/IMG_0420.JPG"));
}

#[test]
fn resume_on_all_done_journal_is_a_safe_noop() {
    let dest = "/dst";
    let (s1, b1) = shot(
        "IMG_0900",
        BUCKET_KEEP,
        &[("IMG_0900.JPG", 100), ("IMG_0900.CR3", 100)],
        dest,
    );
    let plan = plan_of(dest, vec![s1], b1);

    let fs = Disk::new();
    fs.seed_file(&at(dest, BUCKET_KEEP, "IMG_0900.JPG"), 100);
    fs.seed_file(&at(dest, BUCKET_KEEP, "IMG_0900.CR3"), 100);

    let done = Journal {
        plan: plan.clone(),
        statuses: vec![OpState::Done, OpState::Done],
    };
    fs.put_journal(JOURNAL, &done);

    let report = resume(JOURNAL, &mut FsLog::new(&fs)).unwrap();

    assert_eq!(report.moved_files, 0, "an all-Done journal replays nothing");
    assert_eq!(
        fs.len_of(&at(dest, BUCKET_KEEP, "IMG_0900.JPG")),
        Some(100)
    );
    assert_eq!(
        fs.len_of(&at(dest, BUCKET_KEEP, "IMG_0900.CR3")),
        Some(100)
    );
    assert!(!fs.holds(JOURNAL), "journal retired even though nothing ran");
}

#[test]
fn preflight_refuses_when_cross_fs_and_not_enough_space() {
    let dest = "/dst";
    let (s1, b1) = shot(
        "IMG_0500",
        BUCKET_KEEP,
        &[("IMG_0500.JPG", 100), ("IMG_0500.CR3", 100)],
        dest,
    );
    let plan = plan_of(dest, vec![s1], b1);

    let fs = Disk::new();
    seed_sources(&fs, &plan.ops);
    fs.set_cross_fs(true);
    fs.set_free(150);


    let err = apply(&plan, &mut FsLog::new(&fs), JOURNAL).unwrap_err();
    assert!(matches!(err, ApplyError::Preflight(_)));
    assert!(fs.holds("/src/IMG_0500.JPG"));
    assert!(fs.holds("/src/IMG_0500.CR3"));
    assert!(!fs.holds(JOURNAL), "no journal written when preflight refuses");
}

#[test]
fn same_fs_never_free_space_gated() {
    let dest = "/dst";
    let (s1, b1) = shot("IMG_0501", BUCKET_KEEP, &[("IMG_0501.JPG", 100)], dest);
    let plan = plan_of(dest, vec![s1], b1);

    let fs = Disk::new();
    seed_sources(&fs, &plan.ops);
    fs.set_free(0);

    apply(&plan, &mut FsLog::new(&fs), JOURNAL).unwrap();
    assert!(!fs.holds("/src/IMG_0501.JPG"));
}

#[test]
fn mid_copy_enospc_leaves_source_untouched() {
    let dest = "/dst";
    let (s1, b1) = shot("IMG_0502", BUCKET_KEEP, &[("IMG_0502.JPG", 100)], dest);
    let plan = plan_of(dest, vec![s1], b1);

    let fs = Disk::new();
    seed_sources(&fs, &plan.ops);
    fs.set_cross_fs(true);
    fs.set_free(u64::MAX);
    fs.set_enospc_on_copy(true);


    let err = apply(&plan, &mut FsLog::new(&fs), JOURNAL).unwrap_err();
    assert!(matches!(err, ApplyError::Fs { .. }));
    assert!(fs.holds("/src/IMG_0502.JPG"));
    assert!(!fs.holds(&at(dest, BUCKET_KEEP, "IMG_0502.JPG")));
    assert!(!fs.holds(&at(dest, BUCKET_KEEP, ".IMG_0502.JPG.partial")));
}

#[test]
fn permission_error_is_surfaced_per_file() {
    let dest = "/dst";
    let (s1, b1) = shot("IMG_0600", BUCKET_KEEP, &[("IMG_0600.JPG", 100)], dest);
    let plan = plan_of(dest, vec![s1], b1);

    let fs = Disk::new();
    seed_sources(&fs, &plan.ops);
    fs.deny("rename", "/src/IMG_0600.JPG");


    let err = apply(&plan, &mut FsLog::new(&fs), JOURNAL).unwrap_err();
    match err {
        ApplyError::Fs { path, source } => {
            assert_eq!(path, "/src/IMG_0600.JPG");
            assert_eq!(source.kind(), FsErrorKind::PermissionDenied);
        }
        other => panic!("expected Fs error, got {other:?}"),
    }
    assert!(
        fs.holds("/src/IMG_0600.JPG"),
        "no data lost"
    );
}

#[test]
fn cross_fs_permission_on_source_remove_surfaces_but_copy_is_published() {
    let dest = "/dst";
    let (s1, b1) = shot("IMG_0601", BUCKET_KEEP, &[("IMG_0601.JPG", 100)], dest);
    let plan = plan_of(dest, vec![s1], b1);

    let fs = Disk::new();
    seed_sources(&fs, &plan.ops);
    fs.set_cross_fs(true);
    fs.set_free(u64::MAX);
    fs.deny("remove", "/src/IMG_0601.JPG");


    let err = apply(&plan, &mut FsLog::new(&fs), JOURNAL).unwrap_err();
    match err {
        ApplyError::Fs { path, source } => {
            assert_eq!(path, "/src/IMG_0601.JPG");
            assert_eq!(source.kind(), FsErrorKind::PermissionDenied);
        }
        other => panic!("expected Fs error, got {other:?}"),
    }
    assert_eq!(
        fs.len_of(&at(dest, BUCKET_KEEP, "IMG_0601.JPG")),
        Some(100)
    );
    assert!(fs.holds("/src/IMG_0601.JPG"));
}
