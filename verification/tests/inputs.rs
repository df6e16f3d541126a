use mbx_cache::capture::{CaptureEvidence, CaptureNeed, CaptureRun, Inspection};
use mbx_cache::content::{digest_reader, ContentStep, DigestedContent, DigestedFile};
use mbx_cache::digest::CacheDigest;
use mbx_cache::error::{input_unreadable, CcBypassReason, IoError, IoErrorKind};
use mbx_cache::identity::{
    FileIdentity, FileMetadata, FileTime, PathReading, PlatformDetails, UnixDetails,
};
use mbx_cache::inputs::{
    observation_error, CcActionContext, CcActionInput, CcDiscoveredInputs, InputDiscovery,
    InputLimits,
};
use mbx_cache::ledger::{
    FileDigestCache, FileDigestResolution, FileDigestScope, NoFileDigestCache, RecordedFileDigest,
};
use mbx_cache::manifest_memo::IncludeManifest;
use mbx_cache::observation::{FileObservation, FileObservationResolution, FileSnapshot};
use mbx_cache::path::FilePath;
use mbx_cache::path_map::{PathMap, PathSet};
use std::sync::Mutex;

fn path(text: &str) -> FilePath {
    FilePath::from_text(text)
}

fn set(paths: &[&str]) -> PathSet {
    let mut set = PathSet::new();
    for text in paths {
        set = set.insert(path(text));
    }
    set
}

fn time(seconds: i64) -> FileTime {
    FileTime { seconds, nanos: 0 }
}

fn failure(message: &str) -> IoError {
    IoError { kind: IoErrorKind::Other, code: None, message: message.to_string() }
}

fn metadata(inode: u64, len: u64, seconds: i64) -> FileMetadata {
    FileMetadata {
        is_file: true,
        is_dir: false,
        len,
        modified: Ok(time(seconds)),
        details: PlatformDetails::Linux(UnixDetails {
            device: 1,
            inode,
            modified: (seconds, 0),
            changed: (seconds, 0),
            mode: 0o100644,
        }),
    }
}

/// Metadata of a filesystem that tells neither a change time nor an object.
fn bare_metadata(len: u64, seconds: i64) -> FileMetadata {
    FileMetadata {
        is_file: true,
        is_dir: false,
        len,
        modified: Ok(time(seconds)),
        details: PlatformDetails::Other,
    }
}

const LIMITS: InputLimits = InputLimits { inputs: 4, bytes: 100, manifest_entries: 10 };

fn digest_bytes(scope: FileDigestScope, bytes: &[u8]) -> DigestedContent {
    let scan = match digest_reader(scope).read(Ok(bytes)) {
        ContentStep::More(scan) => scan,
        ContentStep::Finished(_) => panic!("bytes must not end the scan"),
    };
    match scan.read(Ok(&[])) {
        ContentStep::Finished(Ok(content)) => content,
        _ => panic!("the end must end the scan"),
    }
}

/// A file as it stands on disk.
struct Disk {
    name: &'static str,
    inode: u64,
    seconds: i64,
    bytes: &'static [u8],
    bare: bool,
}

impl Disk {
    fn metadata(&self) -> FileMetadata {
        let len = self.bytes.len() as u64;
        if self.bare {
            bare_metadata(len, self.seconds)
        } else {
            metadata(self.inode, len, self.seconds)
        }
    }

    fn reading(&self) -> PathReading {
        PathReading { metadata: Ok(self.metadata()), status: None }
    }

    fn inspection(&self) -> Inspection {
        Inspection { path: path(self.name), reading: self.reading(), unreliable: Ok(false) }
    }

    fn observation(&self) -> FileObservation {
        FileObservation {
            identity: FileIdentity::describe(&path(self.name), &self.metadata()).unwrap(),
            digest: CacheDigest::blake3(self.bytes),
        }
    }
}

fn disk(name: &'static str, inode: u64, seconds: i64, bytes: &'static [u8]) -> Disk {
    Disk { name, inode, seconds, bytes, bare: false }
}

fn run_to_end(mut run: CaptureRun, disks: &[&Disk]) -> Result<CaptureRun, IoError> {
    loop {
        let find = |wanted: &FilePath| *disks.iter().find(|disk| path(disk.name) == *wanted).unwrap();
        let evidence = match run.need() {
            None => return Ok(run),
            Some(CaptureNeed::Nothing) => CaptureEvidence::Nothing,
            Some(CaptureNeed::Look { path, .. }) => CaptureEvidence::Look(find(&path).reading()),
            Some(CaptureNeed::Read { path, .. }) => {
                let disk = find(&path);
                CaptureEvidence::Read {
                    file: Ok(DigestedFile {
                        before: disk.metadata(),
                        content: digest_bytes(run.scope(), disk.bytes),
                        after: disk.metadata(),
                    }),
                    reading: disk.reading(),
                }
            }
        };
        run = run.settle(evidence)?;
    }
}

fn discover(
    disks: &[&Disk],
    directories: &[&str],
    limits: InputLimits,
) -> Result<CcDiscoveredInputs, CcBypassReason> {
    let names: Vec<&str> = disks.iter().map(|disk| disk.name).collect();
    let discovery = CcDiscoveredInputs::collect(
        &path("/work/./dir"),
        &set(&names),
        &set(directories),
        &PathSet::new(),
        limits,
    )?;
    let on_disk = |wanted: &FilePath| *disks.iter().find(|disk| path(disk.name) == *wanted).unwrap();
    let sizes: Vec<_> =
        discovery.files().iter().map(|path| Ok(on_disk(path).metadata())).collect();
    let inspections: Vec<_> =
        discovery.files().iter().map(|path| on_disk(path).inspection()).collect();
    let regular = vec![true; inspections.len()];
    let run = discovery.observe(&sizes, &inspections, &regular, &NoFileDigestCache)?;
    let results = run_to_end(run, disks).unwrap().finish(&NoFileDigestCache);
    let observed = discovery.take_results(results)?;
    let mut run = observed.manifests();
    while let Some(directory) = run.next() {
        let digest = CacheDigest::blake3(directory.as_bytes());
        let budget = run.budget() + 1;
        run = run.settle(Ok(IncludeManifest { digest, budget }))?;
    }
    Ok(observed.complete(run))
}

fn collected(disks: &[&Disk]) -> CcDiscoveredInputs {
    discover(disks, &["/inc"], LIMITS).unwrap()
}

#[test]
fn discovered_inputs_hold_files_and_manifests() {
    let a = disk("/a.c", 1, 10, b"int a;");
    let b = disk("/b.h", 2, 20, b"int b;");
    let inputs = discover(&[&b, &a], &["/inc", "/usr"], LIMITS).unwrap();
    assert_eq!(
        inputs.inputs,
        vec![
            CcActionInput { path: path("/a.c"), digest: CacheDigest::blake3(b"int a;") },
            CcActionInput { path: path("/b.h"), digest: CacheDigest::blake3(b"int b;") },
            CcActionInput {
                path: path("@include-manifest:/inc"),
                digest: CacheDigest::blake3(b"/inc"),
            },
            CcActionInput {
                path: path("@include-manifest:/usr"),
                digest: CacheDigest::blake3(b"/usr"),
            },
        ]
    );
    let files: Vec<String> =
        inputs.files().iter().map(|input| input.path.to_text_lossy()).collect();
    assert_eq!(files, ["/a.c", "/b.h"]);
    assert!(inputs.identity_to_confirm(0).is_some());
    assert!(inputs.identity_to_confirm(2).is_none());
}

#[test]
fn a_directory_that_is_not_text_is_shown_with_replacements() {
    let directories = PathSet::new().insert(FilePath::from_bytes(b"/inc\xff".to_vec()));
    let discovery = CcDiscoveredInputs::collect(
        &path("/w"),
        &PathSet::new(),
        &directories,
        &PathSet::new(),
        LIMITS,
    )
    .unwrap();
    let observed = discovery.take_results(Vec::new()).unwrap();
    let digest = CacheDigest::blake3(b"");
    let run =
        observed.manifests().settle(Ok(IncludeManifest { digest: digest.clone(), budget: 0 }));
    let inputs = observed.complete(run.unwrap());
    assert_eq!(
        inputs.inputs,
        vec![CcActionInput { path: path("@include-manifest:/inc\u{fffd}"), digest }]
    );
}

fn begin(files: &[&str], directories: &[&str], limits: InputLimits) -> Result<InputDiscovery, CcBypassReason> {
    CcDiscoveredInputs::collect(
        &path("/w"),
        &set(files),
        &set(directories),
        &set(&["/d/e"]),
        limits,
    )
}

#[test]
fn a_working_directory_must_be_absolute() {
    let outcome = CcDiscoveredInputs::collect(
        &path("work"),
        &PathSet::new(),
        &PathSet::new(),
        &PathSet::new(),
        LIMITS,
    );
    assert_eq!(outcome.err(), Some(CcBypassReason::RelativeWorkingDirectory(path("work"))));
}

#[test]
fn files_and_uncovered_directories_are_counted() {
    assert!(begin(&["/a", "/b", "/c"], &["/d", "/d/e"], LIMITS).is_ok());
    assert_eq!(
        begin(&["/a", "/b", "/c"], &["/d", "/f"], LIMITS).err(),
        Some(CcBypassReason::TooManyInputs)
    );
    assert_eq!(
        begin(&["/a", "/b", "/c", "/g", "/h"], &[], LIMITS).err(),
        Some(CcBypassReason::TooManyInputs)
    );
    let none = InputLimits { inputs: 0, bytes: 0, manifest_entries: 0 };
    assert!(begin(&[], &[], none).is_ok());
    assert_eq!(begin(&[], &["/d"], none).err(), Some(CcBypassReason::TooManyInputs));
}

#[test]
fn the_byte_budget_is_kept_before_anything_is_read() {
    let discovery = begin(&["/a", "/b"], &[], LIMITS).unwrap();
    assert_eq!(discovery.check_sizes(&[Ok(metadata(1, 60, 0)), Ok(metadata(2, 40, 0))]), Ok(()));
    assert_eq!(
        discovery.check_sizes(&[Ok(metadata(1, 60, 0)), Ok(metadata(2, 41, 0))]),
        Err(CcBypassReason::TooManyInputs)
    );
    assert_eq!(
        discovery.check_sizes(&[Ok(metadata(1, 60, 0)), Ok(metadata(2, u64::MAX, 0))]),
        Err(CcBypassReason::TooManyInputs)
    );
    assert_eq!(
        discovery.check_sizes(&[Ok(metadata(1, 60, 0)), Err(failure("gone"))]),
        Err(CcBypassReason::InputRead { path: path("/b"), message: "gone".to_string() })
    );
    let mut directory = metadata(1, 0, 0);
    directory.is_file = false;
    assert_eq!(
        discovery.check_sizes(&[Ok(directory), Err(failure("gone"))]),
        Err(CcBypassReason::InputRead {
            path: path("/a"),
            message: "input is not a regular file".to_string(),
        })
    );
}

/// A cache that must not be asked for anything.
struct SilentCache;

impl FileDigestCache for SilentCache {
    fn resolve(&self, _: FileDigestScope, _: &[FileIdentity]) -> Vec<FileDigestResolution> {
        panic!("files over the budget must not be resolved")
    }

    fn find(&self, _: FileDigestScope, _: &[FileIdentity]) -> Vec<Option<CacheDigest>> {
        panic!("files over the budget must not be looked up")
    }

    fn record(&self, _: FileDigestScope, _: Vec<RecordedFileDigest>) {
        panic!("files over the budget must not be recorded")
    }
}

#[test]
fn files_over_the_budget_are_not_observed() {
    let a = disk("/a", 1, 10, b"int a;");
    let b = disk("/b", 2, 20, b"int b;");
    let observe = |limits: InputLimits, sizes: &[Result<FileMetadata, IoError>]| {
        let discovery = begin(&["/a", "/b"], &[], limits).unwrap();
        let inspections = [a.inspection(), b.inspection()];
        discovery.observe(sizes, &inspections, &[true, true], &SilentCache).err()
    };
    let tight = InputLimits { inputs: 4, bytes: 11, manifest_entries: 10 };
    assert_eq!(
        observe(tight, &[Ok(a.metadata()), Ok(b.metadata())]),
        Some(CcBypassReason::TooManyInputs)
    );
    assert_eq!(
        observe(LIMITS, &[Err(failure("gone")), Ok(b.metadata())]),
        Some(CcBypassReason::InputRead { path: path("/a"), message: "gone".to_string() })
    );
    let enough = InputLimits { inputs: 4, bytes: 12, manifest_entries: 10 };
    assert_eq!(discover(&[&a, &b], &[], enough).unwrap().inputs.len(), 2);
    assert_eq!(discover(&[&a, &b], &[], tight).err(), Some(CcBypassReason::TooManyInputs));
}

#[test]
fn files_without_an_observation_are_no_inputs() {
    let observed =
        || Some(FileObservationResolution::Observation(disk("/a", 1, 1, b"a").observation()));
    let take = |results: Vec<Option<FileObservationResolution>>| {
        begin(&["/a", "/b"], &[], LIMITS).unwrap().take_results(results).err()
    };
    assert_eq!(take(vec![observed(), observed()]), None);
    assert_eq!(
        take(vec![observed(), None]),
        Some(CcBypassReason::InputRead {
            path: path("/b"),
            message: "could not establish a file observation".to_string(),
        })
    );
    assert_eq!(
        take(vec![Some(FileObservationResolution::EmbeddedTimestampMacro), None]),
        Some(CcBypassReason::EmbeddedTimestampMacro(path("/a")))
    );
}

#[test]
fn a_timestamp_macro_keeps_a_compilation_out_of_the_cache() {
    let stamped = disk("/a.c", 1, 10, b"char *t = __DATE__;");
    assert_eq!(
        discover(&[&stamped], &[], LIMITS).err(),
        Some(CcBypassReason::EmbeddedTimestampMacro(path("/a.c")))
    );
}

#[test]
fn a_failed_capture_blames_a_path() {
    let paths = [path("/a"), path("/b"), path("/c")];
    let blame = |regular: &[bool]| match observation_error(&paths, regular, failure("unstable")) {
        CcBypassReason::InputRead { path, message } => {
            assert_eq!(message, "unstable");
            path.to_text_lossy()
        }
        _ => panic!("a failed capture is an unreadable input"),
    };
    assert_eq!(blame(&[true, false, false]), "/b");
    assert_eq!(blame(&[true, true, true]), "/a");
    assert_eq!(blame(&[true]), "/b");
    assert_eq!(
        observation_error(&[], &[], failure("empty")),
        CcBypassReason::InputRead { path: path(""), message: "empty".to_string() }
    );
    assert_eq!(
        input_unreadable(&path("/x"), failure("why")),
        CcBypassReason::InputRead { path: path("/x"), message: "why".to_string() }
    );
}

#[test]
fn a_failed_inspection_blames_a_path() {
    let discovery = begin(&["/a", "/b"], &[], LIMITS).unwrap();
    let inspection = |at: &str, message: &str| Inspection {
        path: path(at),
        reading: PathReading { metadata: Err(failure(message)), status: None },
        unreliable: Ok(false),
    };
    let inspections = [inspection("/a", "lost"), inspection("/b", "lost too")];
    let sizes = [Ok(metadata(1, 3, 0)), Ok(metadata(2, 3, 0))];
    let outcome = discovery.observe(&sizes, &inspections, &[true, false], &NoFileDigestCache);
    assert_eq!(
        outcome.err(),
        Some(CcBypassReason::InputRead { path: path("/b"), message: "lost".to_string() })
    );
}

#[test]
fn newly_discovered_inputs_must_be_older_than_the_compiler() {
    let a = disk("/a.c", 1, 10, b"int a;");
    let inputs = collected(&[&a]);
    let check = |modified: Result<FileTime, IoError>, started: FileTime| {
        inputs.verify_not_modified_since(started, &[modified, Err(failure("manifests are no files"))])
    };
    assert_eq!(check(Ok(time(10)), time(11)), Ok(()));
    assert_eq!(
        check(Ok(time(10)), time(10)),
        Err(CcBypassReason::InputModifiedDuringCompilation(path("/a.c")))
    );
    assert_eq!(
        check(Ok(time(12)), time(11)),
        Err(CcBypassReason::InputModifiedDuringCompilation(path("/a.c")))
    );
    assert_eq!(
        check(Err(failure("gone")), time(11)),
        Err(CcBypassReason::InputRead { path: path("/a.c"), message: "gone".to_string() })
    );
}

#[test]
fn known_inputs_are_compared_with_their_observations() {
    let a = disk("/a.c", 1, 10, b"int a;");
    let inputs = collected(&[&a]);
    let check = |before: FileObservation| {
        let before = PathMap::new().insert(path("//a.c"), before);
        inputs.verify_not_modified_since_with_observations(
            time(0),
            &before,
            &[Err(failure("not asked")), Err(failure("not asked"))],
        )
    };
    assert_eq!(check(a.observation()), Ok(()));
    assert_eq!(check(disk("/a.c", 1, 3, b"int a;").observation()), Ok(()));
    assert_eq!(
        check(disk("/a.c", 1, 10, b"int b;").observation()),
        Err(CcBypassReason::InputChanged(path("/a.c")))
    );
    assert_eq!(
        check(disk("/a.c", 2, 10, b"int a;").observation()),
        Err(CcBypassReason::InputModifiedDuringCompilation(path("/a.c")))
    );
}

#[test]
fn known_inputs_are_compared_with_their_snapshots() {
    let a = disk("/a.c", 1, 10, b"int a;");
    let inputs = collected(&[&a]);
    let check = |before: FileSnapshot, modified: i64| {
        let before = PathMap::new().insert(path("/a.c"), before);
        inputs.verify_not_modified_since_with_snapshots(
            time(20),
            &before,
            &[Ok(time(modified)), Err(failure("not asked"))],
        )
    };
    let changed = Err(CcBypassReason::InputModifiedDuringCompilation(path("/a.c")));
    assert_eq!(check(FileSnapshot::of_observation(a.observation()), 99), Ok(()));
    assert_eq!(
        check(FileSnapshot::of_observation(disk("/a.c", 1, 10, b"int b;").observation()), 1),
        changed
    );
    assert_eq!(check(FileSnapshot::from(a.observation().identity), 99), Ok(()));
    assert_eq!(
        check(FileSnapshot::from(disk("/a.c", 1, 11, b"int a;").observation().identity), 1),
        changed
    );
    let mut bare = a.observation().identity;
    bare.changed = None;
    assert_eq!(check(FileSnapshot::from(bare.clone()), 19), Ok(()));
    assert_eq!(check(FileSnapshot::from(bare), 20), changed);
}

#[test]
fn known_inputs_are_compared_with_their_identities() {
    let a = disk("/a.c", 1, 10, b"int a;");
    let b = disk("/b.c", 2, 10, b"int b;");
    let inputs = collected(&[&a, &b]);
    let check = |identity: FileIdentity| {
        let before = PathMap::new().insert(path("/a.c"), identity);
        inputs.verify_not_modified_since_with_identities(
            time(20),
            &before,
            &[Err(failure("not asked")), Ok(time(19)), Err(failure("not asked"))],
        )
    };
    assert_eq!(check(a.observation().identity), Ok(()));
    assert_eq!(
        check(b.observation().identity),
        Err(CcBypassReason::InputModifiedDuringCompilation(path("/a.c")))
    );
}

/// Knows what it was told, and answers nothing else.
struct Ledger {
    digest: Option<CacheDigest>,
    recorded: Mutex<Vec<RecordedFileDigest>>,
}

impl FileDigestCache for Ledger {
    fn resolve(&self, scope: FileDigestScope, files: &[FileIdentity]) -> Vec<FileDigestResolution> {
        assert_eq!(scope, FileDigestScope::CcInput);
        files
            .iter()
            .map(|_| match &self.digest {
                Some(digest) => FileDigestResolution::Digest(digest.clone()),
                None => FileDigestResolution::Unresolved,
            })
            .collect()
    }

    fn find(&self, _: FileDigestScope, _: &[FileIdentity]) -> Vec<Option<CacheDigest>> {
        panic!("capture must use the explicit resolution outcome")
    }

    fn record(&self, _: FileDigestScope, entries: Vec<RecordedFileDigest>) {
        self.recorded.lock().unwrap().extend(entries);
    }
}

fn verify_against(
    inputs: &CcDiscoveredInputs,
    still: &[Result<bool, IoError>],
    now: &[&Disk],
    cache: &Ledger,
) -> Result<(), CcBypassReason> {
    let verification = inputs.verify_with_cache(cache, still)?;
    let paths = verification.paths();
    let inspections: Vec<_> = paths
        .iter()
        .map(|wanted| {
            now.iter().find(|disk| path(disk.name) == *wanted).unwrap().inspection()
        })
        .collect();
    let run = verification.observe(&inspections, &vec![true; paths.len()])?;
    let captured = run_to_end(run, now).unwrap().finish(cache);
    verification.conclude(&captured)
}

fn no_ledger() -> Ledger {
    Ledger { digest: None, recorded: Mutex::new(Vec::new()) }
}

#[test]
fn inputs_whose_identities_stand_are_confirmed_unread() {
    let a = disk("/a.c", 1, 10, b"int a;");
    let b = disk("/b.c", 2, 10, b"int b;");
    let inputs = collected(&[&a, &b]);
    let verification = inputs.verify(&[Ok(true), Ok(true), Ok(false)]).ok().unwrap();
    assert!(verification.paths().is_empty());
    assert_eq!(verification.conclude(&[]), Ok(()));
    let verification = inputs.verify(&[Ok(true), Ok(false), Ok(false)]).ok().unwrap();
    let paths: Vec<String> =
        verification.paths().iter().map(|path| path.to_text_lossy()).collect();
    assert_eq!(paths, ["/b.c"]);
}

#[test]
fn inputs_are_read_again_where_their_identity_changed() {
    let a = disk("/a.c", 1, 10, b"int a;");
    let inputs = collected(&[&a]);
    let still = [Ok(false), Ok(false)];
    let cache = no_ledger();
    let touched = disk("/a.c", 1, 30, b"int a;");
    assert_eq!(verify_against(&inputs, &still, &[&touched], &cache), Ok(()));
    assert_eq!(cache.recorded.lock().unwrap().len(), 1);
    assert_eq!(
        verify_against(&inputs, &still, &[&disk("/a.c", 1, 30, b"int b;")], &no_ledger()),
        Err(CcBypassReason::InputChanged(path("/a.c")))
    );
    assert_eq!(
        verify_against(&inputs, &still, &[&disk("/a.c", 9, 30, b"int a;")], &no_ledger()),
        Err(CcBypassReason::InputModifiedDuringCompilation(path("/a.c")))
    );
    assert_eq!(
        verify_against(&inputs, &still, &[&disk("/a.c", 1, 30, b"__TIME__")], &no_ledger()),
        Err(CcBypassReason::EmbeddedTimestampMacro(path("/a.c")))
    );
}

#[test]
fn session_digests_spare_a_second_read() {
    let a = disk("/a.c", 1, 10, b"int a;");
    let inputs = collected(&[&a]);
    let still = [Ok(false), Ok(false)];
    let known = Ledger {
        digest: Some(CacheDigest::blake3(b"int a;")),
        recorded: Mutex::new(Vec::new()),
    };
    assert_eq!(verify_against(&inputs, &still, &[&disk("/a.c", 1, 30, b"int a;")], &known), Ok(()));
    assert!(known.recorded.lock().unwrap().is_empty());
}

#[test]
fn a_weak_identity_never_spares_a_read() {
    let bare = Disk { name: "/a.c", inode: 0, seconds: 10, bytes: b"int a;", bare: true };
    let inputs = collected(&[&bare]);
    assert!(inputs.identity_to_confirm(0).is_none());
    let verification = inputs.verify(&[Ok(true), Ok(true)]).ok().unwrap();
    assert_eq!(verification.paths().len(), 1);
    assert_eq!(verify_against(&inputs, &[Ok(true), Ok(true)], &[&bare], &no_ledger()), Ok(()));
}

#[test]
fn an_input_that_cannot_be_looked_at_is_not_confirmed() {
    let a = disk("/a.c", 1, 10, b"int a;");
    let inputs = collected(&[&a]);
    assert_eq!(
        inputs.verify(&[Err(failure("gone")), Ok(false)]).err(),
        Some(CcBypassReason::InputRead { path: path("/a.c"), message: "gone".to_string() })
    );
    let verification = inputs.verify(&[Ok(false), Ok(false)]).ok().unwrap();
    assert_eq!(
        verification.conclude(&[None]),
        Err(CcBypassReason::InputModifiedDuringCompilation(path("/a.c")))
    );
    let lost = Inspection {
        path: path("/a.c"),
        reading: PathReading { metadata: Err(failure("lost")), status: None },
        unreliable: Ok(false),
    };
    assert_eq!(
        verification.observe(&[lost], &[false]).err(),
        Some(CcBypassReason::InputRead { path: path("/a.c"), message: "lost".to_string() })
    );
}

#[test]
fn inputs_added_by_hand_were_never_observed() {
    let a = disk("/a.c", 1, 10, b"int a;");
    let mut inputs = discover(&[&a], &[], LIMITS).unwrap();
    inputs.inputs.push(CcActionInput { path: path("/x.h"), digest: CacheDigest::blake3(b"x") });
    assert_eq!(
        inputs.verify(&[Ok(true), Ok(true)]).err(),
        Some(CcBypassReason::InputModifiedDuringCompilation(path("/x.h")))
    );
    assert_eq!(
        inputs.verify_not_modified_since(time(99), &[Ok(time(1)), Ok(time(1))]),
        Err(CcBypassReason::InputModifiedDuringCompilation(path("/x.h")))
    );
    let none: PathMap<FileSnapshot> = PathMap::new();
    assert_eq!(
        inputs.verify_not_modified_since_with_snapshots(
            time(99),
            &none,
            &[Ok(time(1)), Ok(time(1))]
        ),
        Ok(())
    );
}

#[test]
fn inputs_apply_under_their_own_working_directory() {
    let a = disk("/a.c", 1, 10, b"int a;");
    let earlier = CcActionInput { path: path("/flags"), digest: CacheDigest::blake3(b"-O2") };
    let context = |working_dir: &str| CcActionContext {
        working_dir: path(working_dir),
        inputs: vec![earlier.clone()],
    };
    for spelling in ["/work/dir", "/work//dir/", "/work/other/../dir"] {
        let mut target = context(spelling);
        assert_eq!(collected(&[&a]).apply_to(&mut target), Ok(()));
        assert_eq!(target.inputs.len(), 3);
        assert_eq!(target.inputs[0], earlier);
        assert_eq!(target.inputs[1].path, path("/a.c"));
        assert_eq!(target.inputs[2].path, path("@include-manifest:/inc"));
    }
    for spelling in ["/work", "work/dir", "/work/dir/x"] {
        let mut target = context(spelling);
        assert_eq!(
            collected(&[&a]).apply_to(&mut target),
            Err(CcBypassReason::DiscoveryWorkingDirectory)
        );
        assert_eq!(target, context(spelling));
    }
}
