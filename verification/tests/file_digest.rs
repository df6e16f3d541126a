use mbx_cache::capture::{
    CaptureEvidence, CaptureNeed, CaptureRun, Inspection, OpenedContents,
};
use mbx_cache::content::{
    digest_file, digest_file_for_identity, digest_reader, ContentScan, ContentStep, DigestedContent,
    DigestedFile,
};
use mbx_cache::digest::CacheDigest;
use mbx_cache::error::{IoError, IoErrorKind};
use mbx_cache::identity::{
    current_file_identity, digest_cache_identity, handle_observation_is_stable, kernel_path,
    metadata_object_identity, nfs_file_identity, nfs_identity_from_statx, system_time,
    FileIdentity, FileMetadata, FileObjectIdentity, FileTime, FilesystemPolicies, LinuxStatx,
    LinuxStatxTimestamp, PathReading, PlatformDetails, UnixDetails, EINVAL, ENOSYS, EOPNOTSUPP,
    STATX_IDENTITY_MASK,
};
use mbx_cache::ledger::{
    FileDigestCache, FileDigestResolution, FileDigestScope, NoFileDigestCache, RecordedFileDigest,
};
use mbx_cache::observation::{
    FileObservation, FileObservationMatch, FileObservationResolution, FileSnapshot,
};
use mbx_cache::path::FilePath;
use std::sync::Mutex;

fn path(text: &str) -> FilePath {
    FilePath::from_text(text)
}

fn time(seconds: i64) -> FileTime {
    FileTime { seconds, nanos: 0 }
}

fn unix(inode: u64, seconds: i64) -> UnixDetails {
    UnixDetails {
        device: 0x801,
        inode,
        modified: (seconds, 1),
        changed: (seconds, 2),
        mode: 0o100644,
    }
}

fn metadata(inode: u64, len: u64, seconds: i64) -> FileMetadata {
    FileMetadata {
        is_file: true,
        is_dir: false,
        len,
        modified: Ok(time(seconds)),
        details: PlatformDetails::Linux(unix(inode, seconds)),
    }
}

fn reading(inode: u64, len: u64, seconds: i64) -> PathReading {
    PathReading { metadata: Ok(metadata(inode, len, seconds)), status: None }
}

fn gone() -> IoError {
    IoError { kind: IoErrorKind::NotFound, code: Some(2), message: "no such file".to_string() }
}

fn inspection(name: &str, inode: u64, len: u64, seconds: i64) -> Inspection {
    Inspection { path: path(name), reading: reading(inode, len, seconds), unreliable: Ok(false) }
}

fn digest_pieces(scope: FileDigestScope, pieces: &[&[u8]]) -> DigestedContent {
    let mut scan: ContentScan = digest_reader(scope);
    for piece in pieces {
        scan = match scan.read(Ok(piece)) {
            ContentStep::More(scan) => scan,
            ContentStep::Finished(_) => panic!("a piece must not end the scan"),
        };
    }
    match scan.read(Ok(&[])) {
        ContentStep::Finished(Ok(content)) => content,
        _ => panic!("the end must end the scan"),
    }
}

fn digested(scope: FileDigestScope, inode: u64, seconds: i64, bytes: &[u8]) -> DigestedFile {
    DigestedFile {
        before: metadata(inode, bytes.len() as u64, seconds),
        content: digest_pieces(scope, &[bytes]),
        after: metadata(inode, bytes.len() as u64, seconds),
    }
}

fn read_evidence(
    scope: FileDigestScope,
    inode: u64,
    seconds: i64,
    bytes: &[u8],
) -> CaptureEvidence {
    CaptureEvidence::Read {
        file: Ok(digested(scope, inode, seconds, bytes)),
        reading: reading(inode, bytes.len() as u64, seconds),
    }
}

/// Answers every query with one resolution and keeps what is recorded.
struct AnsweringCache {
    answer: FileDigestResolution,
    resolves: Mutex<Vec<usize>>,
    recorded: Mutex<Vec<RecordedFileDigest>>,
}

impl AnsweringCache {
    fn new(answer: FileDigestResolution) -> Self {
        AnsweringCache { answer, resolves: Mutex::new(Vec::new()), recorded: Mutex::new(Vec::new()) }
    }
}

impl FileDigestCache for AnsweringCache {
    fn resolve(&self, _: FileDigestScope, files: &[FileIdentity]) -> Vec<FileDigestResolution> {
        self.resolves.lock().unwrap().push(files.len());
        files.iter().map(|_| self.answer.clone()).collect()
    }

    fn find(&self, _: FileDigestScope, _: &[FileIdentity]) -> Vec<Option<CacheDigest>> {
        panic!("capture must use the explicit resolution outcome")
    }

    fn record(&self, _: FileDigestScope, entries: Vec<RecordedFileDigest>) {
        self.recorded.lock().unwrap().extend(entries);
    }
}

/// Knows one digest and answers through the default resolution.
struct FindingCache {
    digest: CacheDigest,
}

impl FileDigestCache for FindingCache {
    fn find(&self, _: FileDigestScope, files: &[FileIdentity]) -> Vec<Option<CacheDigest>> {
        files
            .iter()
            .map(|file| if file.len == self.digest.size { Some(self.digest.clone()) } else { None })
            .collect()
    }

    fn record(&self, _: FileDigestScope, _: Vec<RecordedFileDigest>) {}
}

fn settle(run: CaptureRun, evidence: CaptureEvidence) -> Result<CaptureRun, IoError> {
    assert!(run.need().is_some());
    run.settle(evidence)
}

#[test]
fn observation_comparison_distinguishes_changed_and_indeterminate_files() {
    let identity = FileIdentity {
        path: path("/tmp/input.rlib"),
        len: 4,
        modified: time(0),
        changed: Some((1, 0)),
        object: None,
    };
    let observation = FileObservation {
        identity: identity.clone(),
        digest: CacheDigest::blake3(b"same"),
    };
    assert_eq!(
        observation.compare(Some(&identity), &observation.digest),
        FileObservationMatch::Reusable
    );

    let mut timestamp_changed = identity.clone();
    timestamp_changed.modified = time(1);
    assert_eq!(
        observation.compare(Some(&timestamp_changed), &observation.digest),
        FileObservationMatch::Indeterminate
    );
    assert_eq!(
        observation.compare(Some(&identity), &CacheDigest::blake3(b"diff")),
        FileObservationMatch::Changed
    );
}

#[test]
fn incomplete_statx_metadata_falls_back_to_content_hashing() {
    let status = LinuxStatx::default();
    assert!(nfs_identity_from_statx(&path("/nfs/input.rlib"), &status).unwrap().is_none());
}

fn complete_statx() -> LinuxStatx {
    LinuxStatx {
        mask: STATX_IDENTITY_MASK,
        inode: 7,
        size: 12,
        modified: LinuxStatxTimestamp { seconds: 5, nanos: 6 },
        device_major: 1,
        device_minor: 2,
        mount_id: 3,
    }
}

#[test]
fn complete_statx_metadata_identifies_an_object_without_a_change_time() {
    let identity =
        nfs_identity_from_statx(&path("/nfs/input.rlib"), &complete_statx()).unwrap().unwrap();
    assert_eq!(
        identity,
        FileIdentity {
            path: path("/nfs/input.rlib"),
            len: 12,
            modified: FileTime { seconds: 5, nanos: 6 },
            changed: None,
            object: Some(FileObjectIdentity {
                device_major: 1,
                device_minor: 2,
                mount_id: 3,
                inode: 7,
            }),
        }
    );
    let mut broken = complete_statx();
    broken.modified.nanos = 1_000_000_000;
    assert_eq!(nfs_identity_from_statx(&path("/nfs/a"), &broken).unwrap(), None);
    let mut partial = complete_statx();
    partial.mask = STATX_IDENTITY_MASK & !0x1000;
    assert_eq!(nfs_identity_from_statx(&path("/nfs/a"), &partial).unwrap(), None);
}

#[test]
fn a_kernel_without_statx_gives_no_identity() {
    let failed = |code: i32| {
        Some(Err(IoError {
            kind: IoErrorKind::Other,
            code: Some(code),
            message: "statx".to_string(),
        }))
    };
    for code in [38, 22, 95] {
        assert_eq!(nfs_file_identity(&path("/nfs/a"), &failed(code)).unwrap(), None);
    }
    assert_eq!(nfs_file_identity(&path("/nfs/a"), &None).unwrap(), None);
    assert_eq!(
        nfs_file_identity(&path("/nfs/a"), &failed(2)).unwrap_err().code,
        Some(2)
    );
    assert!(nfs_file_identity(&path("/nfs/a"), &Some(Ok(complete_statx()))).unwrap().is_some());
}

#[test]
fn kernel_times_carry_and_overflow() {
    assert_eq!(system_time(5, 1_500_000_000).unwrap(), FileTime { seconds: 6, nanos: 500_000_000 });
    assert_eq!(system_time(-3, 7).unwrap(), FileTime { seconds: -3, nanos: 7 });
    assert_eq!(system_time(i64::MIN, 0).unwrap(), FileTime { seconds: i64::MIN, nanos: 0 });
    assert_eq!(
        system_time(i64::MAX, 999_999_999).unwrap(),
        FileTime { seconds: i64::MAX, nanos: 999_999_999 }
    );
    let error = system_time(i64::MAX, 1_000_000_000).unwrap_err();
    assert_eq!(error.kind, IoErrorKind::InvalidData);
    assert_eq!(error.message, "file timestamp is out of range");
    assert!(time(1).is_before(time(2)));
    assert!(FileTime { seconds: 1, nanos: 1 }.is_before(FileTime { seconds: 1, nanos: 2 }));
    assert!(!time(1).is_before(time(1)));
}

#[test]
fn device_numbers_are_split_as_the_platform_splits_them() {
    let details = UnixDetails {
        device: 0x1234_5678_9abc_def0,
        inode: 9,
        modified: (0, 0),
        changed: (0, 0),
        mode: 0,
    };
    assert_eq!(
        metadata_object_identity(PlatformDetails::Linux(details)),
        Some(FileObjectIdentity {
            device_major: 0x1234_5def & 0xffff_f000 | 0xcde,
            device_minor: 0x6789_ab00 | 0xf0,
            mount_id: 0,
            inode: 9,
        })
    );
    assert_eq!(
        metadata_object_identity(PlatformDetails::Unix(details)),
        Some(FileObjectIdentity {
            device_major: 0x1234_5678,
            device_minor: 0x9abc_def0,
            mount_id: 0,
            inode: 9,
        })
    );
    assert_eq!(metadata_object_identity(PlatformDetails::Other), None);
}

#[test]
fn digests_are_the_hash_and_the_length() {
    let digest = CacheDigest::blake3(b"");
    assert_eq!(digest.algorithm, "blake3");
    assert_eq!(digest.hash, "af1349b9f5f9a1a6a0404dea36dcc9499bcb25c9adc112b7cc9a93cae41f3262");
    assert_eq!(digest.size, 0);
    let digest = CacheDigest::blake3(b"some bytes");
    assert_eq!(digest.hash, blake3::hash(b"some bytes").to_hex().to_string());
    assert_eq!(digest.size, 10);
}

#[test]
fn contents_are_digested_alike_however_they_are_divided() {
    let whole = b"const char *text = \"nothing to see\";";
    let expected = FileDigestResolution::Digest(CacheDigest::blake3(whole));
    for cut in 1..whole.len() {
        let content =
            digest_pieces(FileDigestScope::CcInput, &[&whole[..cut], &whole[cut..]]);
        assert_eq!(content.size(), whole.len() as u64);
        assert_eq!(content.resolution(), expected);
    }
}

#[test]
fn a_timestamp_macro_is_found_across_reads() {
    for name in ["__DATE__", "__TIME__", "__TIMESTAMP__"] {
        let whole = format!("x = {name};");
        let bytes = whole.as_bytes();
        for cut in 1..bytes.len() {
            let content =
                digest_pieces(FileDigestScope::CcInput, &[&bytes[..cut], &bytes[cut..]]);
            assert_eq!(content.resolution(), FileDigestResolution::EmbeddedTimestampMacro);
        }
        let plain = digest_pieces(FileDigestScope::Content, &[bytes]);
        assert_eq!(
            plain.resolution(),
            FileDigestResolution::Digest(CacheDigest::blake3(bytes))
        );
    }
    let almost = digest_pieces(FileDigestScope::CcInput, &[b"__date__ __TIM", b"E_ _"]);
    assert!(almost.resolution().into_digest().is_some());
}

#[test]
fn a_failed_read_ends_the_scan_with_its_failure() {
    let scan = digest_reader(FileDigestScope::Content);
    match scan.read(Err(gone())) {
        ContentStep::Finished(Err(error)) => assert_eq!(error, gone()),
        _ => panic!("a failure must end the scan"),
    }
}

#[test]
fn scoped_observation_preserves_timestamp_macro_bypass() {
    let bytes = b"const char *build = __TIME__;\n";
    let scope = FileDigestScope::CcInput;
    let run = FileObservation::capture_with_scope(
        inspection("/src/input.h", 1, bytes.len() as u64, 10),
        scope,
        &NoFileDigestCache,
    )
    .unwrap();
    let run = settle(run, read_evidence(scope, 1, 10, bytes)).unwrap();
    assert!(run.need().is_none());
    assert_eq!(
        run.finish_one(&NoFileDigestCache),
        Some(FileObservationResolution::EmbeddedTimestampMacro)
    );
}

#[test]
fn observations_resolve_a_batch_and_record_only_validated_pairs() {
    let cache = AnsweringCache::new(FileDigestResolution::Unresolved);
    let inspections =
        [inspection("/a/first.rlib", 1, 5, 10), inspection("/a/second.rlib", 2, 6, 11)];
    let run = FileObservation::capture_many(&inspections, &cache).unwrap();
    assert_eq!(*cache.resolves.lock().unwrap(), vec![2]);
    let run = settle(run, read_evidence(FileDigestScope::Content, 1, 10, b"first")).unwrap();
    let run = settle(run, read_evidence(FileDigestScope::Content, 2, 11, b"second")).unwrap();
    assert!(cache.recorded.lock().unwrap().is_empty());
    let observations = run.finish_contents(&cache);
    assert_eq!(observations.len(), 2);
    assert_eq!(observations[0].as_ref().unwrap().digest, CacheDigest::blake3(b"first"));
    assert_eq!(observations[1].as_ref().unwrap().digest, CacheDigest::blake3(b"second"));
    let recorded = cache.recorded.lock().unwrap();
    assert_eq!(recorded.len(), 2);
    assert_eq!(recorded[1].file, observations[1].as_ref().unwrap().identity);
    assert_eq!(recorded[1].digest, CacheDigest::blake3(b"second"));
}

#[test]
fn a_failed_batch_records_no_partial_observations() {
    let cache = AnsweringCache::new(FileDigestResolution::Unresolved);
    let inspections =
        [inspection("/a/first.rlib", 1, 5, 10), inspection("/a/second.rlib", 2, 6, 11)];
    let run = FileObservation::capture_many(&inspections, &cache).unwrap();
    let run = settle(run, read_evidence(FileDigestScope::Content, 1, 10, b"first")).unwrap();
    let failed = settle(
        run,
        CaptureEvidence::Read { file: Err(gone()), reading: reading(2, 6, 11) },
    );
    assert_eq!(failed.err().unwrap(), gone());
    assert!(cache.recorded.lock().unwrap().is_empty());
}

#[test]
fn an_indeterminate_shared_observation_is_not_retried_locally() {
    let cache = AnsweringCache::new(FileDigestResolution::Indeterminate);
    let run =
        FileObservation::capture_with_cache(inspection("/a/input.rlib", 1, 12, 10), &cache)
            .unwrap();
    assert!(matches!(run.need(), Some(CaptureNeed::Nothing)));
    let error = run.settle(CaptureEvidence::Nothing).err().unwrap();
    assert_eq!(error.kind, IoErrorKind::WouldBlock);
    assert_eq!(error.message, "file changed while capturing its content observation");
    assert!(cache.recorded.lock().unwrap().is_empty());
}

#[test]
fn a_cached_digest_is_reused_while_the_identity_stands() {
    let cache = FindingCache { digest: CacheDigest::blake3(b"before") };
    let run =
        FileObservation::capture_with_cache(inspection("/a/input", 1, 6, 10), &cache).unwrap();
    assert!(matches!(run.need(), Some(CaptureNeed::Look { unreliable: false, .. })));
    let run = run.settle(CaptureEvidence::Look(reading(1, 6, 10))).unwrap();
    let observation = run.finish_content(&cache).unwrap();
    assert_eq!(observation.digest, CacheDigest::blake3(b"before"));
    assert_eq!(observation.identity.path, path("/a/input"));
}

#[test]
fn a_cached_digest_changed_during_resolution_is_not_reused() {
    let cache = FindingCache { digest: CacheDigest::blake3(b"before") };
    let run =
        FileObservation::capture_with_cache(inspection("/a/input", 1, 6, 10), &cache).unwrap();
    let error = run.settle(CaptureEvidence::Look(reading(1, 6, 0))).err().unwrap();
    assert_eq!(error.kind, IoErrorKind::WouldBlock);
}

#[test]
fn a_cached_digest_of_another_length_is_unstable() {
    let cache = AnsweringCache::new(FileDigestResolution::Digest(CacheDigest::blake3(b"short")));
    let run =
        FileObservation::capture_with_cache(inspection("/a/input", 1, 60, 10), &cache).unwrap();
    assert!(matches!(run.need(), Some(CaptureNeed::Nothing)));
    assert_eq!(
        run.settle(CaptureEvidence::Nothing).err().unwrap().kind,
        IoErrorKind::WouldBlock
    );
}

#[test]
fn observation_uses_the_replacement_identity_after_resolution() {
    for contents in [b"original bytes".as_slice(), b"a different replacement".as_slice()] {
        let cache = AnsweringCache::new(FileDigestResolution::Unresolved);
        let inspected = inspection("/a/input.rmeta", 1, 14, 10);
        let run = FileObservation::capture_with_cache(inspected, &cache).unwrap();
        let run = settle(run, read_evidence(FileDigestScope::Content, 2, 20, contents)).unwrap();
        let observation = run.finish_content(&cache).unwrap();
        let current = FileIdentity::describe(
            &path("/a/input.rmeta"),
            &metadata(2, contents.len() as u64, 20),
        )
        .unwrap();
        let digest = CacheDigest::blake3(contents);
        assert!(observation.matches(Some(&current), &digest));
        assert_eq!(
            *cache.recorded.lock().unwrap(),
            vec![RecordedFileDigest { file: current, digest }],
            "a digest must never be published under the replaced file's identity"
        );
    }
}

#[test]
fn a_cached_macro_counts_only_for_compiler_inputs() {
    let cache = AnsweringCache::new(FileDigestResolution::EmbeddedTimestampMacro);
    let run = FileObservation::capture_with_scope(
        inspection("/a/input.h", 1, 3, 10),
        FileDigestScope::CcInput,
        &cache,
    )
    .unwrap();
    let run = run.settle(CaptureEvidence::Look(reading(1, 3, 10))).unwrap();
    assert_eq!(
        run.finish_one(&cache),
        Some(FileObservationResolution::EmbeddedTimestampMacro)
    );

    let run =
        FileObservation::capture_with_cache(inspection("/a/input.h", 1, 3, 10), &cache).unwrap();
    let error = run.settle(CaptureEvidence::Nothing).err().unwrap();
    assert_eq!(error.kind, IoErrorKind::InvalidData);
    assert_eq!(error.message, "content digest resolver returned a cc-only outcome");
}

#[test]
fn inspections_fail_in_order() {
    let mut directory = inspection("/a/dir", 1, 3, 10);
    if let Ok(found) = &mut directory.reading.metadata {
        found.is_file = false;
    }
    let mut missing = inspection("/a/missing", 2, 3, 10);
    missing.reading.metadata = Err(gone());
    let cache = AnsweringCache::new(FileDigestResolution::Unresolved);
    let error =
        FileObservation::capture_many(&[directory, missing], &cache).err().unwrap();
    assert_eq!(error.kind, IoErrorKind::InvalidInput);
    assert_eq!(error.message, "observation path is not a regular file: /a/dir");
    assert!(cache.resolves.lock().unwrap().is_empty());
}

#[test]
fn a_file_without_a_modification_time_is_not_observed() {
    let mut untimed = inspection("/a/untimed", 1, 3, 10);
    if let Ok(found) = &mut untimed.reading.metadata {
        found.modified = Err(gone());
    }
    let run = FileObservation::capture(untimed).unwrap();
    assert!(matches!(run.need(), Some(CaptureNeed::Nothing)));
    let run = run.settle(CaptureEvidence::Nothing).unwrap();
    assert_eq!(run.finish_content(&NoFileDigestCache), None);
}

#[test]
fn capturing_without_a_cache_reads_the_file() {
    let run = FileObservation::capture(inspection("/a/input", 1, 5, 10)).unwrap();
    assert_eq!(run.scope(), FileDigestScope::Content);
    assert!(matches!(run.need(), Some(CaptureNeed::Read { unreliable: false, .. })));
    let run = settle(run, read_evidence(FileDigestScope::Content, 1, 10, b"bytes")).unwrap();
    let observation = run.finish_content(&NoFileDigestCache).unwrap();
    assert_eq!(observation.digest, CacheDigest::blake3(b"bytes"));
}

#[test]
fn handle_validation_rejects_a_path_replaced_after_open() {
    let before = metadata(1, 9, 10);
    let after = metadata(1, 9, 10);
    let at = path("/a/input.rlib");
    let current = current_file_identity(&at, &reading(2, 9, 12), false).unwrap().unwrap();
    assert!(!handle_observation_is_stable(&at, &before, &after, &current, false, 9).unwrap());
    let same = current_file_identity(&at, &reading(1, 9, 10), false).unwrap().unwrap();
    assert!(handle_observation_is_stable(&at, &before, &after, &same, false, 9).unwrap());
    assert!(!handle_observation_is_stable(&at, &before, &after, &same, false, 8).unwrap());
}

fn network_reading(seconds: i64) -> PathReading {
    let mut status = complete_statx();
    status.inode = 1;
    status.size = 9;
    status.device_major = 8;
    status.device_minor = 1;
    status.modified = LinuxStatxTimestamp { seconds, nanos: 0 };
    PathReading { metadata: Ok(metadata(1, 9, seconds)), status: Some(Ok(status)) }
}

#[test]
fn unreliable_metadata_is_judged_by_object_and_modification_time() {
    let at = path("/nfs/input");
    let current = current_file_identity(&at, &network_reading(10), true).unwrap().unwrap();
    assert_eq!(current.changed, None);
    let handle = metadata(1, 9, 10);
    assert!(handle_observation_is_stable(&at, &handle, &metadata(1, 9, 10), &current, true, 9)
        .unwrap());
    // Another modification time, another object, or another platform.
    assert!(!handle_observation_is_stable(&at, &handle, &metadata(1, 9, 11), &current, true, 9)
        .unwrap());
    assert!(!handle_observation_is_stable(&at, &handle, &metadata(3, 9, 10), &current, true, 9)
        .unwrap());
    let mut elsewhere = metadata(1, 9, 10);
    elsewhere.details = PlatformDetails::Unix(unix(1, 10));
    assert!(
        !handle_observation_is_stable(&at, &handle, &elsewhere, &current, true, 9).unwrap()
    );
    let mut untimed = metadata(1, 9, 10);
    untimed.modified = Err(gone());
    assert_eq!(
        handle_observation_is_stable(&at, &untimed, &handle, &current, true, 9).unwrap_err(),
        gone()
    );
}

#[test]
fn an_identity_describes_the_file_until_it_is_written_or_removed() {
    let at = path("/src/input.rs");
    let identity = FileIdentity::describe(&at, &metadata(1, 12, 10)).unwrap();
    assert!(identity.can_skip_content_verification());
    assert!(identity.still_describes(&reading(1, 12, 10), Ok(false)).unwrap());
    assert!(!identity.still_describes(&reading(1, 13, 11), Ok(false)).unwrap());
    assert!(!identity.still_describes(&reading(2, 12, 10), Ok(false)).unwrap());
    let removed = PathReading { metadata: Err(gone()), status: None };
    assert_eq!(identity.still_describes(&removed, Ok(false)).unwrap_err(), gone());
    assert_eq!(identity.still_describes(&reading(1, 12, 10), Err(gone())).unwrap_err(), gone());
}

#[test]
fn reliable_metadata_keeps_the_native_identity() {
    let at = path("/src/input.rs");
    let identity =
        digest_cache_identity(&at, &metadata(1, 12, 10), false, &None).unwrap().unwrap();
    assert_eq!(identity.path, at);
    assert_eq!(identity.len, 12);
    assert!(identity.object.is_some());
    assert_eq!(digest_cache_identity(&at, &metadata(1, 12, 10), true, &None).unwrap(), None);
}

#[test]
fn a_file_resolves_only_for_the_identity_that_is_expected() {
    let at = path("/a/input");
    let scope = FileDigestScope::Content;
    let expected = FileIdentity::describe(&at, &metadata(1, 5, 10)).unwrap();
    let resolve = |file: Result<DigestedFile, IoError>, reading: &PathReading| {
        digest_file_for_identity(&at, &expected, file, reading)
    };
    assert_eq!(
        resolve(Ok(digested(scope, 1, 10, b"bytes")), &reading(1, 5, 10)).unwrap(),
        FileDigestResolution::Digest(CacheDigest::blake3(b"bytes"))
    );
    assert_eq!(
        resolve(Ok(digested(scope, 1, 10, b"bytes")), &reading(1, 5, 11)).unwrap_err().kind,
        IoErrorKind::WouldBlock
    );
    assert_eq!(
        resolve(Ok(digested(scope, 2, 10, b"bytes")), &reading(1, 5, 10)).unwrap_err().kind,
        IoErrorKind::WouldBlock
    );
    assert_eq!(resolve(Err(gone()), &reading(1, 5, 10)).unwrap_err(), gone());
}

#[test]
fn captured_contents_are_returned_with_their_observation() {
    let look = inspection("/a/output", 1, 5, 10);
    let opened = || OpenedContents {
        before: metadata(1, 5, 10),
        contents: b"bytes".to_vec(),
        after: metadata(1, 5, 10),
    };
    let (observation, contents) =
        FileObservation::capture_with_contents(&look, Ok(opened()), &reading(1, 5, 10))
            .unwrap()
            .unwrap();
    assert_eq!(contents, b"bytes");
    assert_eq!(observation.digest, CacheDigest::blake3(b"bytes"));
    let error = FileObservation::capture_with_contents(&look, Ok(opened()), &reading(1, 5, 11))
        .unwrap_err();
    assert_eq!(error.kind, IoErrorKind::WouldBlock);
    let error =
        FileObservation::capture_with_contents(&look, Err(gone()), &reading(1, 5, 10)).unwrap_err();
    assert_eq!(error, gone());
}

#[test]
fn only_regular_files_are_to_be_read() {
    assert!(!inspection("/a/output", 1, 5, 10).qualify().unwrap());
    let mut look = inspection("/a/output", 1, 5, 10);
    look.unreliable = Ok(true);
    assert!(look.qualify().unwrap());
    look.unreliable = Err(gone());
    assert_eq!(look.qualify().unwrap_err(), gone());
    if let Ok(metadata) = &mut look.reading.metadata {
        metadata.is_file = false;
    }
    let error = look.qualify().unwrap_err();
    assert_eq!(error.kind, IoErrorKind::InvalidInput);
    assert_eq!(error.message, "observation path is not a regular file: /a/output");
    look.reading.metadata = Err(gone());
    assert_eq!(look.qualify().unwrap_err(), gone());
}

#[test]
fn filesystems_are_asked_once_for_each_device() {
    let mut policies = FilesystemPolicies::new();
    let details = PlatformDetails::Linux(unix(1, 10));
    assert_eq!(policies.recall(details), None);
    assert_eq!(policies.learn(0x801, Err(gone())).unwrap_err(), gone());
    assert_eq!(policies.recall(details), None);
    assert!(policies.learn(0x801, Ok(0x6969)).unwrap());
    assert_eq!(policies.recall(details), Some(true));
    assert!(!policies.learn(0x802, Ok(0xef53)).unwrap());
    assert_eq!(policies.recall(PlatformDetails::Unix(unix(1, 10))), Some(false));
    assert_eq!(policies.recall(PlatformDetails::Other), Some(false));
}

#[test]
fn a_path_with_a_nul_byte_is_not_handed_to_the_kernel() {
    assert_eq!(kernel_path(&path("/a")).unwrap(), b"/a".to_vec());
    let error = kernel_path(&FilePath::from_bytes(vec![b'a', 0, b'b'])).unwrap_err();
    assert_eq!(error.kind, IoErrorKind::InvalidInput);
    assert_eq!(error.message, "path contains a NUL byte");
}

#[test]
fn object_identity_tolerates_timestamp_churn() {
    let earlier = FileObservation {
        identity: FileIdentity::describe(&path("/a/b"), &metadata(1, 4, 10)).unwrap(),
        digest: CacheDigest::blake3(b"same"),
    };
    let later = FileIdentity::describe(&path("/a//b"), &metadata(1, 4, 99)).unwrap();
    assert!(earlier.matches(Some(&later), &CacheDigest::blake3(b"same")));
    let replaced = FileIdentity::describe(&path("/a/b"), &metadata(2, 4, 10)).unwrap();
    assert_eq!(
        earlier.compare(Some(&replaced), &earlier.digest),
        FileObservationMatch::Indeterminate
    );
    assert_eq!(earlier.compare(None, &earlier.digest), FileObservationMatch::Indeterminate);
    assert_eq!(
        earlier.compare(None, &CacheDigest::blake3(b"diff")),
        FileObservationMatch::Changed
    );
    let mut misfit = earlier.clone();
    misfit.identity.len = 5;
    assert_eq!(
        misfit.compare(Some(&misfit.identity), &misfit.digest),
        FileObservationMatch::Indeterminate
    );
}

#[test]
fn snapshots_compare_by_observation_or_by_identity() {
    let identity = FileIdentity::describe(&path("/a/b"), &metadata(1, 4, 10)).unwrap();
    let later = FileIdentity::describe(&path("/a/b"), &metadata(1, 4, 11)).unwrap();
    let digest = CacheDigest::blake3(b"same");
    let bare = FileSnapshot::from(identity.clone());
    assert!(bare.proves_content_change());
    assert!(bare.matches(Some(&identity), &CacheDigest::blake3(b"diff")));
    assert!(!bare.matches(Some(&later), &digest));
    assert!(!bare.matches(None, &digest));
    let mut weak = identity.clone();
    weak.changed = None;
    assert!(!FileSnapshot::from(weak).proves_content_change());
    let full = FileSnapshot::of_observation(FileObservation { identity, digest: digest.clone() });
    assert!(full.matches(Some(&later), &digest));
    assert!(!full.matches(Some(&later), &CacheDigest::blake3(b"diff")));
}

#[test]
fn snapshots_are_captured_as_observations() {
    let run = FileSnapshot::capture(inspection("/a/input", 1, 5, 10)).unwrap();
    let run = settle(run, read_evidence(FileDigestScope::Content, 1, 10, b"bytes")).unwrap();
    let snapshot = FileSnapshot::finish(run, &NoFileDigestCache).unwrap();
    let identity = FileIdentity::describe(&path("/a/input"), &metadata(1, 5, 10)).unwrap();
    assert!(snapshot.matches(Some(&identity), &CacheDigest::blake3(b"bytes")));

    let cache = FindingCache { digest: CacheDigest::blake3(b"bytes") };
    let run =
        FileSnapshot::capture_with_cache(inspection("/a/input", 1, 5, 10), &cache).unwrap();
    let run = run.settle(CaptureEvidence::Look(reading(1, 5, 10))).unwrap();
    assert!(FileSnapshot::finish(run, &cache).unwrap().proves_content_change());
}

#[test]
fn the_empty_cache_finds_nothing() {
    let identity = FileIdentity::describe(&path("/a/b"), &metadata(1, 4, 10)).unwrap();
    let files = [identity.clone(), identity];
    let scope = FileDigestScope::Content;
    assert_eq!(NoFileDigestCache.find(scope, &files), vec![None, None]);
    assert_eq!(
        NoFileDigestCache.resolve(scope, &files),
        vec![FileDigestResolution::Unresolved, FileDigestResolution::Unresolved]
    );
    NoFileDigestCache.record(scope, Vec::new());
    let finding = FindingCache { digest: CacheDigest::blake3(b"four") };
    assert_eq!(
        finding.resolve(scope, &files)[0],
        FileDigestResolution::Digest(CacheDigest::blake3(b"four"))
    );
    assert_eq!(FileDigestResolution::Indeterminate.into_digest(), None);
}

#[test]
fn an_unstable_cached_digest_returns_would_block_without_retrying() {
    let cache = AnsweringCache::new(FileDigestResolution::Digest(CacheDigest::blake3(b"before!")));
    let run =
        FileObservation::capture_with_cache(inspection("/tmp/input.rmeta", 1, 7, 1), &cache).unwrap();
    // A shorter write completed before the cached digest was returned.
    let result = settle(run, CaptureEvidence::Look(reading(1, b"after!".len() as u64, 2)));
    assert_eq!(result.err().unwrap().kind, IoErrorKind::WouldBlock);
    assert_eq!(*cache.resolves.lock().unwrap(), vec![1]);
    assert!(cache.recorded.lock().unwrap().is_empty());
}

#[test]
fn observation_accepts_timestamp_reconciliation_before_hashing() {
    let cache = AnsweringCache::new(FileDigestResolution::Unresolved);
    let bytes = b"original bytes";
    let run = FileObservation::capture_with_cache(
        inspection("/tmp/input.rmeta", 1, bytes.len() as u64, 9),
        &cache,
    )
    .unwrap();
    // Only the times moved between the first look and the read.
    let run = settle(run, read_evidence(FileDigestScope::Content, 1, 0, bytes)).unwrap();
    let observation = run.finish_content(&cache).unwrap();
    let current = FileIdentity::describe(
        &path("/tmp/input.rmeta"),
        &metadata(1, bytes.len() as u64, 0),
    )
    .unwrap();
    let digest = CacheDigest::blake3(bytes);
    assert!(observation.matches(Some(&current), &digest));
    assert_eq!(
        *cache.recorded.lock().unwrap(),
        vec![RecordedFileDigest { file: current, digest }],
        "only the reconciled cache identity should be published"
    );
}

#[test]
fn a_file_is_resolved_from_one_read() {
    let content = digest_pieces(FileDigestScope::CcInput, &[b"int x;"]);
    assert_eq!(
        digest_file(Ok(content)).unwrap(),
        FileDigestResolution::Digest(CacheDigest::blake3(b"int x;"))
    );
    let content = digest_pieces(FileDigestScope::CcInput, &[b"__DATE__"]);
    assert_eq!(digest_file(Ok(content)).unwrap(), FileDigestResolution::EmbeddedTimestampMacro);
    assert_eq!(digest_file(Err(gone())).unwrap_err(), gone());
}

#[test]
fn any_digest_cache_can_be_consulted() {
    let known = FindingCache { digest: CacheDigest::blake3(b"known") };
    let caches: [(&dyn FileDigestCache, bool); 2] = [(&known, true), (&NoFileDigestCache, false)];
    for (cache, knows) in caches {
        let run = FileObservation::capture_many(&[inspection("/a", 1, 5, 1)], cache).unwrap();
        assert_eq!(matches!(run.need(), Some(CaptureNeed::Look { .. })), knows);
        let evidence = if knows {
            CaptureEvidence::Look(reading(1, 5, 1))
        } else {
            read_evidence(FileDigestScope::Content, 1, 1, b"known")
        };
        let observations = settle(run, evidence).unwrap().finish_contents(cache);
        assert_eq!(observations.len(), 1);
        assert_eq!(observations[0].as_ref().unwrap().digest, CacheDigest::blake3(b"known"));
    }
}

#[test]
fn error_numbers_are_the_kernels() {
    assert_eq!([ENOSYS, EINVAL, EOPNOTSUPP], [libc::ENOSYS, libc::EINVAL, libc::EOPNOTSUPP]);
}
