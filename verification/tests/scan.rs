#![allow(dead_code)]
use culler::exif_data::parse_subsec;
use culler::fsops::{CodingError, DirEntry, EntryType, FsError, FsErrorKind, FsLog, FsOps};
use culler::journal::Journal;
use culler::model::{CaptureTime, ExifSummary, Session, Shot};
use culler::scan::{scan, scan_report, ScanError};
use std::cell::RefCell;
use std::collections::{BTreeMap, BTreeSet};

/// A disk in memory, with faults that can be armed and a log of what was done to it.
#[derive(Default)]
struct State {
    files: BTreeMap<String, Vec<u8>>,
    dirs: BTreeSet<String>,
    odd: Vec<(String, DirEntry)>,
    free: u64,
    cross_fs: bool,
    enospc_on_copy: bool,
    denied: BTreeSet<(String, String)>,
    events: Vec<String>,
    journals: Vec<Journal>,
    sessions: Vec<Session>,
}

struct Disk {
    st: RefCell<State>,
}

fn error(kind: FsErrorKind, os: Option<i32>, message: &str) -> FsError {
    FsError {
        kind,
        os,
        message: message.to_string(),
        debug: format!("Os {{ code: {}, message: {message:?} }}", os.unwrap_or(0)),
    }
}

fn enoent() -> FsError {
    error(FsErrorKind::NotFound, Some(2), "No such file or directory")
}

fn eexist() -> FsError {
    error(FsErrorKind::AlreadyExists, Some(17), "File exists")
}

fn eacces() -> FsError {
    error(FsErrorKind::PermissionDenied, Some(13), "Permission denied")
}

fn enospc() -> FsError {
    error(FsErrorKind::Other, Some(28), "No space left on device")
}

fn exdev() -> FsError {
    error(FsErrorKind::Other, Some(18), "Invalid cross-device link")
}

fn device_of(path: &str) -> String {
    path.split('/').find(|p| !p.is_empty()).unwrap_or("").to_string()
}

fn copy_of(journal: &Journal) -> Journal {
    Journal {
        plan: journal.plan.clone(),
        statuses: journal.statuses.clone(),
    }
}

impl Disk {
    fn new() -> Disk {
        let disk = Disk {
            st: RefCell::new(State::default()),
        };
        disk.st.borrow_mut().free = u64::MAX;
        disk
    }

    fn put(&self, path: &str, bytes: Vec<u8>) {
        self.st.borrow_mut().files.insert(path.to_string(), bytes);
    }

    fn touch(&self, path: &str) {
        self.put(path, Vec::new());
    }

    fn seed_file(&self, path: &str, len: usize) {
        self.put(path, vec![0u8; len]);
    }

    fn make_dir(&self, path: &str) {
        self.st.borrow_mut().dirs.insert(path.to_string());
    }

    fn remove(&self, path: &str) {
        self.st.borrow_mut().files.remove(path);
    }

    fn put_journal(&self, path: &str, journal: &Journal) {
        let bytes = self.encode_journal(journal).unwrap();
        self.put(path, bytes);
    }

    fn journal_at(&self, path: &str) -> Journal {
        let bytes = self.bytes(path).unwrap();
        self.decode_journal(&bytes).unwrap()
    }

    fn session_at(&self, path: &str) -> Session {
        let bytes = self.bytes(path).unwrap();
        self.decode_session(&bytes).unwrap()
    }

    fn deny(&self, operation: &str, path: &str) {
        self.st
            .borrow_mut()
            .denied
            .insert((operation.to_string(), path.to_string()));
    }

    fn clear_faults(&self) {
        let mut s = self.st.borrow_mut();
        s.cross_fs = false;
        s.enospc_on_copy = false;
        s.denied.clear();
    }

    fn denies(&self, operation: &str, path: &str) -> bool {
        self.st
            .borrow()
            .denied
            .contains(&(operation.to_string(), path.to_string()))
    }

    fn holds(&self, path: &str) -> bool {
        self.st.borrow().files.contains_key(path)
    }

    fn len_of(&self, path: &str) -> Option<usize> {
        self.st.borrow().files.get(path).map(|b| b.len())
    }

    fn bytes(&self, path: &str) -> Option<Vec<u8>> {
        self.st.borrow().files.get(path).cloned()
    }

    fn events(&self) -> Vec<String> {
        self.st.borrow().events.clone()
    }

    fn log(&self, event: String) {
        self.st.borrow_mut().events.push(event);
    }

    fn below(&self, dir: &str) -> Vec<String> {
        let front = format!("{dir}/");
        let s = self.st.borrow();
        s.files
            .keys()
            .chain(s.dirs.iter())
            .filter(|p| p.starts_with(&front))
            .map(|p| p[front.len()..].to_string())
            .collect()
    }
}

impl FsOps for Disk {
    fn mkdir_p(&self, path: &str) -> Result<(), FsError> {
        if self.denies("mkdir", path) {
            return Err(eacces());
        }
        self.make_dir(path);
        Ok(())
    }

    fn same_filesystem(&self, a: &str, b: &str) -> Result<bool, FsError> {
        Ok(!self.st.borrow().cross_fs || device_of(a) == device_of(b))
    }

    fn rename_noreplace(&self, from: &str, to: &str) -> Result<(), FsError> {
        if self.st.borrow().cross_fs && device_of(from) != device_of(to) {
            return Err(exdev());
        }
        if self.denies("rename", from) || self.denies("write", to) {
            return Err(eacces());
        }
        if self.holds(to) {
            return Err(eexist());
        }
        let bytes = self.st.borrow_mut().files.remove(from).ok_or_else(enoent)?;
        self.put(to, bytes);
        self.log(format!("rename:{from}->{to}"));
        Ok(())
    }

    fn copy_create_new(&self, from: &str, to: &str) -> Result<u64, FsError> {
        let bytes = self.bytes(from).ok_or_else(enoent)?;
        if self.holds(to) {
            return Err(eexist());
        }
        if self.st.borrow().enospc_on_copy || bytes.len() as u64 > self.st.borrow().free {
            return Err(enospc());
        }
        let len = bytes.len() as u64;
        self.put(to, bytes);
        self.log(format!("copy:{from}->{to}"));
        Ok(len)
    }

    fn fsync_file(&self, path: &str) -> Result<(), FsError> {
        if !self.holds(path) {
            return Err(enoent());
        }
        self.log(format!("fsync_file:{path}"));
        Ok(())
    }

    fn fsync_dir(&self, path: &str) -> Result<(), FsError> {
        self.log(format!("fsync_dir:{path}"));
        Ok(())
    }

    fn remove_file(&self, path: &str) -> Result<(), FsError> {
        if self.denies("remove", path) {
            return Err(eacces());
        }
        self.st.borrow_mut().files.remove(path).ok_or_else(enoent)?;
        self.log(format!("remove:{path}"));
        Ok(())
    }

    fn file_len(&self, path: &str) -> Result<u64, FsError> {
        self.len_of(path).map(|n| n as u64).ok_or_else(enoent)
    }

    fn free_space(&self, _path: &str) -> Result<u64, FsError> {
        Ok(self.st.borrow().free)
    }

    fn is_there(&self, path: &str) -> bool {
        self.holds(path) || self.is_dir(path)
    }

    fn is_dir(&self, path: &str) -> bool {
        self.st.borrow().dirs.contains(path) || !self.below(path).is_empty()
    }

    fn is_file(&self, path: &str) -> bool {
        self.holds(path)
    }

    fn list_dir(&self, path: &str) -> Result<Vec<Result<DirEntry, FsError>>, FsError> {
        if !self.is_dir(path) {
            return Err(enoent());
        }
        let names: BTreeSet<String> = self
            .below(path)
            .iter()
            .map(|p| p.split('/').next().unwrap().to_string())
            .collect();
        let mut out = Vec::new();
        for name in names.into_iter().rev() {
            let is_file = self.holds(&format!("{path}/{name}"));
            out.push(Ok(DirEntry {
                hidden: name.starts_with('.'),
                is_file,
                entry_type: if is_file {
                    EntryType::NotDir
                } else {
                    EntryType::Dir
                },
                name: Some(name),
            }));
        }
        for (dir, e) in &self.st.borrow().odd {
            if dir == path {
                out.push(Ok(DirEntry {
                    name: e.name.clone(),
                    hidden: e.hidden,
                    is_file: e.is_file,
                    entry_type: e.entry_type,
                }));
            }
        }
        Ok(out)
    }

    fn canonicalize(&self, path: &str) -> Result<String, FsError> {
        if self.is_there(path) {
            Ok(path.to_string())
        } else {
            Err(enoent())
        }
    }

    fn read(&self, path: &str) -> Result<Vec<u8>, FsError> {
        self.bytes(path).ok_or_else(enoent)
    }

    fn write_file(&self, path: &str, content: &[u8], sync: bool) -> Result<(), FsError> {
        if self.denies("write", path) {
            return Err(eacces());
        }
        self.put(path, content.to_vec());
        self.log(format!("write:{path}"));
        if sync {
            self.log(format!("fsync_file:{path}"));
        }
        Ok(())
    }

    fn rename(&self, from: &str, to: &str) -> Result<(), FsError> {
        if self.denies("rename", from) {
            return Err(eacces());
        }
        let bytes = self.st.borrow_mut().files.remove(from).ok_or_else(enoent)?;
        self.put(to, bytes);
        self.log(format!("replace:{from}->{to}"));
        Ok(())
    }

    fn process_id(&self) -> u32 {
        4711
    }

    fn encode_journal(&self, journal: &Journal) -> Result<Vec<u8>, String> {
        let mut s = self.st.borrow_mut();
        s.journals.push(copy_of(journal));
        Ok(format!("journal {}", s.journals.len() - 1).into_bytes())
    }

    fn decode_journal(&self, bytes: &Vec<u8>) -> Result<Journal, String> {
        let text = String::from_utf8_lossy(bytes).into_owned();
        let number = text.strip_prefix("journal ").and_then(|n| n.parse::<usize>().ok());
        match number.and_then(|n| self.st.borrow().journals.get(n).map(copy_of)) {
            Some(j) => Ok(j),
            None => Err("expected a journal".to_string()),
        }
    }

    fn encode_session(&self, session: &Session) -> Result<Vec<u8>, CodingError> {
        let mut s = self.st.borrow_mut();
        s.sessions.push(session.clone());
        Ok(format!("session {}", s.sessions.len() - 1).into_bytes())
    }

    fn decode_session(&self, bytes: &Vec<u8>) -> Result<Session, CodingError> {
        let text = String::from_utf8_lossy(bytes).into_owned();
        let number = text.strip_prefix("session ").and_then(|n| n.parse::<usize>().ok());
        match number.and_then(|n| self.st.borrow().sessions.get(n).cloned()) {
            Some(s) => Ok(s),
            None => Err(CodingError {
                message: "expected a session".to_string(),
                debug: "Error(\"expected a session\")".to_string(),
            }),
        }
    }
}

fn at(dir: &str, name: &str) -> String {
    format!("{dir}/{name}")
}

fn scanned(disk: &Disk, dir: &str) -> Result<Vec<Shot>, ScanError> {
    scan(dir, &mut FsLog::new(disk))
}

fn reported(disk: &Disk, dir: &str) -> Result<(Vec<Shot>, Vec<String>), ScanError> {
    scan_report(dir, &mut FsLog::new(disk))
}

#[test]
fn not_a_dir_path_is_an_error() {
    let disk = Disk::new();
    disk.touch("/shoot/IMG_0001.JPG");
    match scanned(&disk, "/shoot/IMG_0001.JPG") {
        Err(ScanError::NotADir(p)) => assert_eq!(p, "/shoot/IMG_0001.JPG"),
        other => panic!("expected NotADir, got {other:?}"),
    }
}

#[test]
fn empty_dir_yields_no_shots() {
    let disk = Disk::new();
    disk.make_dir("/shoot");
    assert!(scanned(&disk, "/shoot").unwrap().is_empty());
}

#[test]
fn fifo_named_like_a_jpeg_is_skipped_not_opened() {
    let disk = Disk::new();
    disk.touch("/shoot/IMG_0001.JPG");
    disk.st.borrow_mut().odd.push((
        "/shoot".to_string(),
        DirEntry {
            name: Some("IMG_0002.jpg".to_string()),
            hidden: false,
            is_file: false,
            entry_type: EntryType::NotDir,
        },
    ));
    let shots = scanned(&disk, "/shoot").unwrap();
    assert_eq!(stems(&shots), vec!["IMG_0001".to_string()]);
}

#[test]
fn non_utf8_file_names_are_skipped_without_contaminating_shots() {
    let disk = Disk::new();
    disk.touch("/shoot/IMG_0001.JPG");
    for _ in 0..3 {
        disk.st.borrow_mut().odd.push((
            "/shoot".to_string(),
            DirEntry {
                name: None,
                hidden: false,
                is_file: true,
                entry_type: EntryType::NotDir,
            },
        ));
    }
    let (shots, raw_only) = reported(&disk, "/shoot").unwrap();
    assert_eq!(stems(&shots), vec!["IMG_0001".to_string()]);
    assert!(raw_only.is_empty());
}

#[test]
fn subdirectory_is_ignored() {
    let disk = Disk::new();
    disk.touch("/shoot/TOP.JPG");
    disk.touch("/shoot/nested/INNER.JPG");
    let shots = scanned(&disk, "/shoot").unwrap();
    assert_eq!(stems(&shots), vec!["TOP".to_string()]);
}




fn stems(shots: &[Shot]) -> Vec<String> {
    shots.iter().map(|s| s.stem.clone()).collect()
}

#[test]
fn duplicate_stem_display_files_keep_first_in_path_order() {
    let disk = Disk::new();
    let dir = "/shoot";
    disk.touch(&at(dir, "IMG_0001.jpg"));
    disk.touch(&at(dir, "IMG_0001.jpeg"));

    let shots = scanned(&disk, dir).unwrap();
    assert_eq!(shots.len(), 1);
    assert_eq!(shots[0].jpeg, Some(at(dir, "IMG_0001.jpeg")));
}

#[test]
fn jpeg_files_become_shots_case_insensitive() {
    let disk = Disk::new();
    let dir = "/shoot";
    disk.touch(&at(dir, "IMG_0001.JPG"));
    disk.touch(&at(dir, "IMG_0002.jpeg"));
    disk.touch(&at(dir, "IMG_0003.JpG"));

    let shots = scanned(&disk, dir).unwrap();
    assert_eq!(
        stems(&shots),
        vec![
            "IMG_0001".to_string(),
            "IMG_0002".to_string(),
            "IMG_0003".to_string()
        ]
    );
    assert_eq!(shots[0].jpeg, Some(at(dir, "IMG_0001.JPG")));
}

#[test]
fn non_image_files_are_ignored() {
    let disk = Disk::new();
    let dir = "/shoot";
    disk.touch(&at(dir, "IMG_0001.JPG"));
    disk.touch(&at(dir, "notes.txt"));
    disk.touch(&at(dir, "clip.mov"));
    disk.touch(&at(dir, ".fastcull.json"));

    let shots = scanned(&disk, dir).unwrap();
    assert_eq!(stems(&shots), vec!["IMG_0001".to_string()]);
}

#[test]
fn raw_only_stem_is_reported_and_is_not_a_shot() {
    let disk = Disk::new();
    let dir = "/shoot";
    disk.touch(&at(dir, "IMG_0001.JPG"));
    disk.touch(&at(dir, "IMG_0002.CR3"));

    let (shots, raw_only) = reported(&disk, dir).unwrap();
    assert_eq!(stems(&shots), vec!["IMG_0001".to_string()]);
    assert_eq!(raw_only, vec![at(dir, "IMG_0002.CR3")]);

    assert_eq!(stems(&scanned(&disk, dir).unwrap()), vec!["IMG_0001".to_string()]);
}

#[test]
fn jpeg_and_raw_sharing_a_stem_are_one_shot() {
    let disk = Disk::new();
    let dir = "/shoot";
    disk.touch(&at(dir, "IMG_0001.JPG"));
    disk.touch(&at(dir, "IMG_0001.CR3"));

    let (shots, raw_only) = reported(&disk, dir).unwrap();
    assert_eq!(stems(&shots), vec!["IMG_0001".to_string()]);
    assert!(raw_only.is_empty());
}

#[test]
fn raw_sibling_is_attached_to_its_shot() {
    let disk = Disk::new();
    let dir = "/shoot";
    disk.touch(&at(dir, "IMG_0001.JPG"));
    disk.touch(&at(dir, "IMG_0001.CR3"));

    let shots = scanned(&disk, dir).unwrap();
    assert_eq!(shots.len(), 1);
    assert_eq!(shots[0].raw, Some(at(dir, "IMG_0001.CR3")));
}

#[test]
fn raw_sibling_matches_case_insensitively() {
    let disk = Disk::new();
    let dir = "/shoot";
    disk.touch(&at(dir, "IMG_0001.jpg"));
    disk.touch(&at(dir, "IMG_0001.Nef"));

    let shots = scanned(&disk, dir).unwrap();
    assert_eq!(shots.len(), 1);
    assert_eq!(shots[0].raw, Some(at(dir, "IMG_0001.Nef")));
}

#[test]
fn jpeg_without_raw_has_no_sibling() {
    let disk = Disk::new();
    let dir = "/shoot";
    disk.touch(&at(dir, "IMG_0001.JPG"));
    let shots = scanned(&disk, dir).unwrap();
    assert_eq!(shots[0].raw, None);
}

#[test]
fn adobe_sidecar_is_detected() {
    let disk = Disk::new();
    let dir = "/shoot";
    disk.touch(&at(dir, "IMG_0001.JPG"));
    disk.touch(&at(dir, "IMG_0001.xmp"));

    let shots = scanned(&disk, dir).unwrap();
    assert_eq!(shots.len(), 1);
    assert_eq!(shots[0].sidecar, Some(at(dir, "IMG_0001.xmp")));
}

#[test]
fn darktable_sidecar_is_detected() {
    let disk = Disk::new();
    let dir = "/shoot";
    disk.touch(&at(dir, "IMG_0001.JPG"));
    disk.touch(&at(dir, "IMG_0001.CR3"));
    disk.touch(&at(dir, "IMG_0001.CR3.xmp"));

    let shots = scanned(&disk, dir).unwrap();
    assert_eq!(shots.len(), 1);
    assert_eq!(shots[0].raw, Some(at(dir, "IMG_0001.CR3")));
    assert_eq!(shots[0].sidecar, Some(at(dir, "IMG_0001.CR3.xmp")));
}

#[test]
fn darktable_sidecar_inner_ext_is_case_insensitive() {
    let disk = Disk::new();
    let dir = "/shoot";
    disk.touch(&at(dir, "IMG_0001.JPG"));
    disk.touch(&at(dir, "IMG_0001.jpg.XMP"));

    let shots = scanned(&disk, dir).unwrap();
    assert_eq!(shots.len(), 1);
    assert_eq!(shots[0].sidecar, Some(at(dir, "IMG_0001.jpg.XMP")));
}

#[test]
fn orphan_sidecar_without_jpeg_is_ignored() {
    let disk = Disk::new();
    let dir = "/shoot";
    disk.touch(&at(dir, "IMG_0001.xmp"));

    let (shots, raw_only) = reported(&disk, dir).unwrap();
    assert!(shots.is_empty());
    assert!(raw_only.is_empty());
}

fn jpeg_with_exif(datetime: &str, subsec: &str) -> Vec<u8> {
    fn be16(v: u16) -> [u8; 2] {
        v.to_be_bytes()
    }
    fn be32(v: u32) -> [u8; 4] {
        v.to_be_bytes()
    }

    let mut dt = datetime.as_bytes().to_vec();
    dt.push(0);
    let dt_count = dt.len() as u32;

    let mut ss = subsec.as_bytes().to_vec();
    ss.push(0);
    let ss_count = ss.len() as u32;
    assert!(ss_count <= 4, "subsec must fit inline (<= 3 chars)");

    const IFD0_OFF: u32 = 8;
    const EXIF_IFD_OFF: u32 = 26;
    const DT_STR_OFF: u32 = 56;

    let mut tiff: Vec<u8> = Vec::new();
    tiff.extend_from_slice(b"MM");
    tiff.extend_from_slice(&be16(42));
    tiff.extend_from_slice(&be32(IFD0_OFF));

    tiff.extend_from_slice(&be16(1));
    tiff.extend_from_slice(&be16(0x8769));
    tiff.extend_from_slice(&be16(4));
    tiff.extend_from_slice(&be32(1));
    tiff.extend_from_slice(&be32(EXIF_IFD_OFF));
    tiff.extend_from_slice(&be32(0));

    tiff.extend_from_slice(&be16(2));
    tiff.extend_from_slice(&be16(0x9003));
    tiff.extend_from_slice(&be16(2));
    tiff.extend_from_slice(&be32(dt_count));
    tiff.extend_from_slice(&be32(DT_STR_OFF));
    tiff.extend_from_slice(&be16(0x9291));
    tiff.extend_from_slice(&be16(2));
    tiff.extend_from_slice(&be32(ss_count));
    let mut inline = [0u8; 4];
    inline[..ss.len()].copy_from_slice(&ss);
    tiff.extend_from_slice(&inline);
    tiff.extend_from_slice(&be32(0));

    assert_eq!(tiff.len() as u32, DT_STR_OFF);
    tiff.extend_from_slice(&dt);

    let mut jpeg: Vec<u8> = Vec::new();
    jpeg.extend_from_slice(&[0xFF, 0xD8]);
    jpeg.extend_from_slice(&[0xFF, 0xE1]);
    let seg_len = (2 + 6 + tiff.len()) as u16;
    jpeg.extend_from_slice(&be16(seg_len));
    jpeg.extend_from_slice(b"Exif\0\0");
    jpeg.extend_from_slice(&tiff);
    jpeg.extend_from_slice(&[0xFF, 0xD9]);
    jpeg
}

fn wrap_raf(jpeg: &[u8]) -> Vec<u8> {
    let off = 128usize;
    let mut raf = Vec::new();
    raf.extend_from_slice(b"FUJIFILMCCD-RAW ");
    raf.resize(off, 0);
    raf[84..88].copy_from_slice(&(off as u32).to_be_bytes());
    raf[88..92].copy_from_slice(&(jpeg.len() as u32).to_be_bytes());
    raf.extend_from_slice(jpeg);
    raf
}

#[test]
fn raf_only_stem_is_promoted_with_embedded_capture_time() {
    let disk = Disk::new();
    let dir = "/shoot";
    disk.put(&at(dir, "DSCF0001.RAF"), wrap_raf(&jpeg_with_exif("2026:07:08 10:11:12", "42")));

    let (shots, raw_only) = reported(&disk, dir).unwrap();
    assert_eq!(stems(&shots), vec!["DSCF0001".to_string()]);
    assert!(
        raw_only.is_empty(),
        "a previewable RAF-only stem is a shot, not raw_only"
    );
    assert_eq!(shots[0].jpeg, None);
    assert_eq!(shots[0].raw, Some(at(dir, "DSCF0001.RAF")));
    assert_eq!(
        shots[0].capture.datetime,
        Some("2026:07:08 10:11:12".to_string())
    );
    assert_eq!(shots[0].capture.subsec, Some(420));
}

#[test]
fn cr3_only_stem_stays_raw_only_not_a_shot() {
    let disk = Disk::new();
    let dir = "/shoot";
    disk.touch(&at(dir, "IMG_0001.CR3"));
    let (shots, raw_only) = reported(&disk, dir).unwrap();
    assert!(shots.is_empty());
    assert_eq!(raw_only, vec![at(dir, "IMG_0001.CR3")]);
}

#[test]
fn jpeg_and_raf_sharing_a_stem_are_one_shot() {
    let disk = Disk::new();
    let dir = "/shoot";
    disk.touch(&at(dir, "DSCF0002.JPG"));
    disk.put(&at(dir, "DSCF0002.RAF"), wrap_raf(&jpeg_with_exif("2026:07:08 09:00:00", "10")));
    let (shots, raw_only) = reported(&disk, dir).unwrap();
    assert_eq!(stems(&shots), vec!["DSCF0002".to_string()]);
    assert!(raw_only.is_empty());
    assert_eq!(shots[0].raw, Some(at(dir, "DSCF0002.RAF")));
}

#[test]
fn raf_only_shot_sorts_by_embedded_capture_time() {
    let disk = Disk::new();
    let dir = "/shoot";
    disk.put(&at(dir, "B_late.RAF"), wrap_raf(&jpeg_with_exif("2026:07:08 10:00:00", "00")));
    disk.put(&at(dir, "A_early.RAF"), wrap_raf(&jpeg_with_exif("2026:07:08 09:00:00", "00")));
    let shots = scanned(&disk, dir).unwrap();
    assert_eq!(
        stems(&shots),
        vec!["A_early".to_string(), "B_late".to_string()]
    );
}

#[test]
fn reads_datetime_and_subsec_from_exif() {
    let disk = Disk::new();
    let dir = "/shoot";
    disk.put(&at(dir, "IMG_0001.JPG"), jpeg_with_exif("2026:07:08 10:11:12", "42"));

    let shots = scanned(&disk, dir).unwrap();
    assert_eq!(shots.len(), 1);
    assert_eq!(
        shots[0].capture.datetime,
        Some("2026:07:08 10:11:12".to_string())
    );
    assert_eq!(shots[0].capture.subsec, Some(420));
}

#[test]
fn undecodable_jpeg_scans_with_default_capture() {
    let disk = Disk::new();
    let dir = "/shoot";
    disk.touch(&at(dir, "IMG_0001.JPG"));

    let shots = scanned(&disk, dir).unwrap();
    assert_eq!(shots.len(), 1);
    assert_eq!(shots[0].capture, CaptureTime::default());
    assert_eq!(shots[0].exif, None);
}


struct RawEntry {
    tag: u16,
    type_code: u16,
    count: u32,
    data: Vec<u8>,
}

fn ascii_entry(tag: u16, s: &str) -> RawEntry {
    let mut data = s.as_bytes().to_vec();
    data.push(0);
    RawEntry {
        tag,
        type_code: 2,
        count: data.len() as u32,
        data,
    }
}

fn short_entry(tag: u16, v: u16) -> RawEntry {
    RawEntry {
        tag,
        type_code: 3,
        count: 1,
        data: v.to_be_bytes().to_vec(),
    }
}

fn rational_entry(tag: u16, num: u32, denom: u32) -> RawEntry {
    let mut data = num.to_be_bytes().to_vec();
    data.extend_from_slice(&denom.to_be_bytes());
    RawEntry {
        tag,
        type_code: 5,
        count: 1,
        data,
    }
}

fn build_tiff(entries: &[RawEntry]) -> Vec<u8> {
    fn be16(v: u16) -> [u8; 2] {
        v.to_be_bytes()
    }
    fn be32(v: u32) -> [u8; 4] {
        v.to_be_bytes()
    }

    const IFD0_OFF: u32 = 8;
    let exif_ifd_off: u32 = IFD0_OFF + 2 + 12 + 4;
    let exif_ifd_len: u32 = 2 + 12 * entries.len() as u32 + 4;
    let external_start: u32 = exif_ifd_off + exif_ifd_len;

    let mut external: Vec<u8> = Vec::new();
    let mut offsets: Vec<u32> = Vec::with_capacity(entries.len());
    for e in entries {
        if e.data.len() <= 4 {
            offsets.push(0);
        } else {
            offsets.push(external_start + external.len() as u32);
            external.extend_from_slice(&e.data);
        }
    }

    let mut tiff = Vec::new();
    tiff.extend_from_slice(b"MM");
    tiff.extend_from_slice(&be16(42));
    tiff.extend_from_slice(&be32(IFD0_OFF));

    tiff.extend_from_slice(&be16(1));
    tiff.extend_from_slice(&be16(0x8769));
    tiff.extend_from_slice(&be16(4));
    tiff.extend_from_slice(&be32(1));
    tiff.extend_from_slice(&be32(exif_ifd_off));
    tiff.extend_from_slice(&be32(0));
    assert_eq!(tiff.len() as u32, exif_ifd_off, "IFD0 layout drifted");

    tiff.extend_from_slice(&be16(entries.len() as u16));
    for (e, &off) in entries.iter().zip(&offsets) {
        tiff.extend_from_slice(&be16(e.tag));
        tiff.extend_from_slice(&be16(e.type_code));
        tiff.extend_from_slice(&be32(e.count));
        if e.data.len() <= 4 {
            let mut inline = [0u8; 4];
            inline[..e.data.len()].copy_from_slice(&e.data);
            tiff.extend_from_slice(&inline);
        } else {
            tiff.extend_from_slice(&be32(off));
        }
    }
    tiff.extend_from_slice(&be32(0));
    assert_eq!(tiff.len() as u32, external_start, "Exif IFD layout drifted");

    tiff.extend_from_slice(&external);
    tiff
}

fn wrap_jpeg_exif(tiff: &[u8]) -> Vec<u8> {
    let mut jpeg: Vec<u8> = Vec::new();
    jpeg.extend_from_slice(&[0xFF, 0xD8]);
    jpeg.extend_from_slice(&[0xFF, 0xE1]);
    let seg_len = (2 + 6 + tiff.len()) as u16;
    jpeg.extend_from_slice(&seg_len.to_be_bytes());
    jpeg.extend_from_slice(b"Exif\0\0");
    jpeg.extend_from_slice(tiff);
    jpeg.extend_from_slice(&[0xFF, 0xD9]);
    jpeg
}

#[test]
fn exif_summary_parses_all_four_fields() {
    let disk = Disk::new();
    let dir = "/shoot";
    let entries = vec![
        rational_entry(0x829a, 1, 250),
        rational_entry(0x829d, 28, 10),
        short_entry(0x8827, 400),
        rational_entry(0x920a, 850, 10),
    ];
    disk.put(&at(dir, "IMG_0001.JPG"), wrap_jpeg_exif(&build_tiff(&entries)));

    let shots = scanned(&disk, dir).unwrap();
    assert_eq!(shots.len(), 1);
    assert_eq!(
        shots[0].exif,
        Some(ExifSummary {
            exposure: Some((1, 250)),
            f_number: Some((28, 10)),
            iso: Some(400),
            focal_length_mm: Some((850, 10)),
        })
    );
}

#[test]
fn exif_summary_partial_fields_present() {
    let disk = Disk::new();
    let dir = "/shoot";
    let entries = vec![rational_entry(0x829d, 18, 10), short_entry(0x8827, 100)];
    disk.put(&at(dir, "IMG_0001.JPG"), wrap_jpeg_exif(&build_tiff(&entries)));

    let shots = scanned(&disk, dir).unwrap();
    assert_eq!(
        shots[0].exif,
        Some(ExifSummary {
            exposure: None,
            f_number: Some((18, 10)),
            iso: Some(100),
            focal_length_mm: None,
        })
    );
}

#[test]
fn exif_summary_coexists_with_capture_time_from_one_parse() {
    let disk = Disk::new();
    let dir = "/shoot";
    let entries = vec![
        rational_entry(0x829a, 1, 125),
        short_entry(0x8827, 200),
        ascii_entry(0x9003, "2026:07:08 10:11:12"),
    ];
    disk.put(&at(dir, "IMG_0001.JPG"), wrap_jpeg_exif(&build_tiff(&entries)));

    let shots = scanned(&disk, dir).unwrap();
    assert_eq!(
        shots[0].capture.datetime,
        Some("2026:07:08 10:11:12".to_string())
    );
    assert_eq!(
        shots[0].exif,
        Some(ExifSummary {
            exposure: Some((1, 125)),
            f_number: None,
            iso: Some(200),
            focal_length_mm: None,
        })
    );
}

#[test]
fn exif_summary_none_when_exif_present_but_no_relevant_tags() {
    let disk = Disk::new();
    let dir = "/shoot";
    let entries = vec![ascii_entry(0x9003, "2026:07:08 10:11:12")];
    disk.put(&at(dir, "IMG_0001.JPG"), wrap_jpeg_exif(&build_tiff(&entries)));

    let shots = scanned(&disk, dir).unwrap();
    assert_eq!(
        shots[0].capture.datetime,
        Some("2026:07:08 10:11:12".to_string())
    );
    assert_eq!(shots[0].exif, None);
}

#[test]
fn exif_summary_odd_typed_tag_degrades_to_none_without_panicking() {
    let disk = Disk::new();
    let dir = "/shoot";
    let entries = vec![ascii_entry(0x829a, "not-a-rational"), short_entry(0x8827, 800)];
    disk.put(&at(dir, "IMG_0001.JPG"), wrap_jpeg_exif(&build_tiff(&entries)));

    let shots = scanned(&disk, dir).unwrap();
    assert_eq!(
        shots[0].exif,
        Some(ExifSummary {
            exposure: None,
            f_number: None,
            iso: Some(800),
            focal_length_mm: None,
        })
    );
}

#[test]
fn exif_summary_zero_denominator_rational_degrades_to_none() {
    let disk = Disk::new();
    let dir = "/shoot";
    let entries = vec![rational_entry(0x829d, 5, 0), short_entry(0x8827, 100)];
    disk.put(&at(dir, "IMG_0001.JPG"), wrap_jpeg_exif(&build_tiff(&entries)));

    let shots = scanned(&disk, dir).unwrap();
    assert_eq!(
        shots[0].exif,
        Some(ExifSummary {
            exposure: None,
            f_number: None,
            iso: Some(100),
            focal_length_mm: None,
        })
    );
}

#[test]
fn parse_subsec_normalizes_fraction_digits() {
    assert_eq!(parse_subsec("5"), Some(500));
    assert_eq!(parse_subsec("05"), Some(50));
    assert_eq!(parse_subsec("42"), Some(420));
    assert_eq!(parse_subsec("123"), Some(123));
    assert_eq!(parse_subsec("123456"), Some(123));
    assert!(parse_subsec("9") > parse_subsec("10"));
    assert_eq!(parse_subsec(""), None);
    assert_eq!(parse_subsec("abc"), None);
    assert_eq!(parse_subsec(" 42 "), Some(420));
}

#[test]
fn shots_sort_by_capture_time_with_stable_tiebreakers() {
    let disk = Disk::new();
    let dir = "/shoot";

    disk.put(&at(dir, "a_same.jpg"), jpeg_with_exif("2026:07:08 09:00:00", "20"));
    disk.put(&at(dir, "b_same.jpg"), jpeg_with_exif("2026:07:08 09:00:00", "20"));
    disk.put(&at(dir, "sub_hi.jpg"), jpeg_with_exif("2026:07:08 09:00:01", "50"));
    disk.put(&at(dir, "sub_lo.jpg"), jpeg_with_exif("2026:07:08 09:00:01", "05"));
    disk.put(&at(dir, "late.jpg"), jpeg_with_exif("2026:07:08 10:00:00", "00"));
    disk.touch(&at(dir, "undated_a.jpg"));
    disk.touch(&at(dir, "undated_b.jpg"));

    let shots = scanned(&disk, dir).unwrap();
    assert_eq!(
        stems(&shots),
        vec![
            "a_same".to_string(),
            "b_same".to_string(),
            "sub_lo".to_string(),
            "sub_hi".to_string(),
            "late".to_string(),
            "undated_a".to_string(),
            "undated_b".to_string(),
        ]
    );
}

#[test]
fn missing_subsec_sorts_before_present_subsec_at_same_datetime() {
    let disk = Disk::new();
    let dir = "/shoot";
    disk.put(&at(dir, "z_nosub.jpg"), jpeg_with_exif("2026:07:08 09:00:00", ""));
    disk.put(&at(dir, "a_sub.jpg"), jpeg_with_exif("2026:07:08 09:00:00", "10"));

    let shots = scanned(&disk, dir).unwrap();
    assert_eq!(shots[0].capture.subsec, None);
    assert_eq!(shots[1].capture.subsec, Some(100));
    assert_eq!(
        stems(&shots),
        vec!["z_nosub".to_string(), "a_sub".to_string()]
    );
}

#[test]
fn scan_report_itself_returns_shots_in_capture_time_order() {
    let disk = Disk::new();
    let dir = "/shoot";
    disk.put(&at(dir, "a_late.jpg"), jpeg_with_exif("2026:07:08 10:00:00", "00"));
    disk.put(&at(dir, "b_early.jpg"), jpeg_with_exif("2026:07:08 09:00:00", "00"));

    let (shots, _raw_only) = reported(&disk, dir).unwrap();
    assert_eq!(
        stems(&shots),
        vec!["b_early".to_string(), "a_late".to_string()]
    );
}

#[test]
fn undated_shots_alone_sort_by_filename() {
    let disk = Disk::new();
    let dir = "/shoot";
    disk.touch(&at(dir, "IMG_0003.JPG"));
    disk.touch(&at(dir, "IMG_0001.JPG"));
    disk.touch(&at(dir, "IMG_0002.JPG"));

    let shots = scanned(&disk, dir).unwrap();
    assert_eq!(
        stems(&shots),
        vec![
            "IMG_0001".to_string(),
            "IMG_0002".to_string(),
            "IMG_0003".to_string()
        ]
    );
}
