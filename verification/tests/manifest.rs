use mbx_cache::coverage::{manifest_probes, minimal_manifest_directories};
use mbx_cache::digest::CacheDigest;
use mbx_cache::error::{CcBypassReason, IoError, IoErrorKind};
use mbx_cache::identity::{
    FileMetadata, FileTime, LinuxStatx, LinuxStatxTimestamp, PathReading, PlatformDetails,
    UnixDetails, STATX_IDENTITY_MASK,
};
use mbx_cache::manifest::{is_includable, is_manifest_input, INCLUDE_MANIFEST_PREFIX};
use mbx_cache::manifest_memo::{
    recall, DirectoryIdentity, ManifestMemos, MAX_DIRECTORIES, MAX_ROOTS,
};
use mbx_cache::manifest_run::{manifest_snapshot, ManifestRun};
use mbx_cache::manifest_walk::{
    include_manifest, DirectoryEntry, FinishedWalk, Listing, ManifestWalk,
};
use mbx_cache::path::FilePath;
use mbx_cache::path_map::PathSet;

fn path(text: &str) -> FilePath {
    FilePath::from_text(text)
}

fn set(paths: &[&str]) -> PathSet {
    let mut set = PathSet::new();
    for text in paths {
        set = set.insert(path(text));
    }
    set
}

fn texts(paths: &[FilePath]) -> Vec<String> {
    paths.iter().map(|path| path.to_text_lossy()).collect()
}

fn failure(kind: IoErrorKind, message: &str) -> IoError {
    IoError { kind, code: None, message: message.to_string() }
}

fn file(name: &str) -> Result<DirectoryEntry, IoError> {
    Ok(DirectoryEntry { name: name.as_bytes().to_vec(), is_dir: Ok(false) })
}

fn directory(name: &str) -> Result<DirectoryEntry, IoError> {
    Ok(DirectoryEntry { name: name.as_bytes().to_vec(), is_dir: Ok(true) })
}

/// A tree of directories with their entries; what is not listed does not exist.
fn listing(tree: &[(&str, &[&str])], at: &FilePath) -> Listing {
    let here = at.to_text_lossy();
    match tree.iter().find(|(name, _)| *name == here) {
        Some((_, names)) => Ok(names
            .iter()
            .map(|name| match name.strip_suffix('/') {
                Some(name) => directory(name),
                None => file(name),
            })
            .collect()),
        None => Err(failure(IoErrorKind::NotFound, "no such directory")),
    }
}

fn walk_tree(
    mut walk: ManifestWalk,
    tree: &[(&str, &[&str])],
) -> Result<FinishedWalk, CcBypassReason> {
    loop {
        let listed = match walk.next() {
            Some(next) => listing(tree, next),
            None => return Ok(walk.finish()),
        };
        walk = walk.visit(None, listed)?;
    }
}

fn digest_of(names: &[&str]) -> CacheDigest {
    CacheDigest::blake3(names.join("\n").as_bytes())
}

#[test]
fn plausible_include_targets_are_includable() {
    for name in [
        "a.c", "a.c++", "a.cc", "a.cpp", "a.cxx", "a.def", "a.h.gch", "a.h", "a.h++", "a.hh",
        "a.hpp", "a.hxx", "a.inc", "a.inl", "a.ipp", "a.pch", "a.s", "a.tcc", "A.H", "a.CpP",
        "vector", "", "x.y.hpp", "..h",
    ] {
        assert!(is_includable(name), "{name}");
    }
    for name in [
        "a.o", "a.d", "lib.a", "a.", ".keep", ".h", ".", "a.hx", "a.ha", "notes.txt", "a.h.bak",
        "a.\u{212a}",
    ] {
        assert!(!is_includable(name), "{name}");
    }
}

#[test]
fn manifest_inputs_are_told_by_their_prefix() {
    assert_eq!(INCLUDE_MANIFEST_PREFIX, "@include-manifest:");
    assert!(is_manifest_input(&path("@include-manifest:/usr/include")));
    assert!(is_manifest_input(&path("@include-manifest:")));
    assert!(!is_manifest_input(&path("@include-manifest")));
    assert!(!is_manifest_input(&path("/usr/@include-manifest:")));
    let mut bytes = b"@include-manifest:".to_vec();
    bytes.push(0xff);
    assert!(!is_manifest_input(&FilePath::from_bytes(bytes)));
}

#[test]
fn a_manifest_digests_the_sorted_includable_names() {
    let tree: &[(&str, &[&str])] = &[
        ("/inc", &["z.h", "sub/", "a.h", "a.o", ".keep", "vector"]),
        ("/inc/sub", &["deep/", "b.hpp"]),
        ("/inc/sub/deep", &["c.inc"]),
    ];
    let finished = walk_tree(include_manifest(&path("/inc"), 5, 100), tree).unwrap();
    assert_eq!(
        finished.manifest.digest,
        digest_of(&["a.h", "sub/b.hpp", "sub/deep/c.inc", "vector", "z.h"])
    );
    assert_eq!(finished.entries, 5);
    assert_eq!(finished.manifest.budget, 10);
    let visited: Vec<String> =
        finished.visited.iter().map(|(path, _)| path.to_text_lossy()).collect();
    assert_eq!(visited, ["/inc", "/inc/sub", "/inc/sub/deep"]);
}

#[test]
fn manifests_do_not_depend_on_the_order_of_listings() {
    let first: &[(&str, &[&str])] = &[("/i", &["a.h", "b.h", "s/"]), ("/i/s", &["c.h", "d.h"])];
    let second: &[(&str, &[&str])] =
        &[("/i", &["s/", "x.o", "b.h", "a.h"]), ("/i/s", &["d.h", "c.h"])];
    let left = walk_tree(include_manifest(&path("/i"), 0, 10), first).unwrap();
    let right = walk_tree(include_manifest(&path("/i"), 0, 10), second).unwrap();
    assert_eq!(left.manifest.digest, right.manifest.digest);
    assert_eq!(left.entries, 4);
    let third: &[(&str, &[&str])] = &[("/i", &["a.h", "b.h", "s/", "new.h"]), ("/i/s", &["c.h", "d.h"])];
    let more = walk_tree(include_manifest(&path("/i"), 0, 10), third).unwrap();
    assert_ne!(left.manifest.digest, more.manifest.digest);
}

#[test]
fn a_missing_directory_has_an_empty_manifest() {
    let finished = walk_tree(include_manifest(&path("/none"), 0, 0), &[]).unwrap();
    assert_eq!(finished.manifest.digest, CacheDigest::blake3(b""));
    assert_eq!(finished.entries, 0);
    let empty = walk_tree(include_manifest(&path("/none"), 0, 0), &[("/none", &[])]).unwrap();
    assert_eq!(finished.manifest.digest, empty.manifest.digest);
}

#[test]
fn a_manifest_keeps_to_its_limit() {
    let tree: &[(&str, &[&str])] = &[("/i", &["a.h", "b.h", "c.o"])];
    assert!(walk_tree(include_manifest(&path("/i"), 0, 2), tree).is_ok());
    assert_eq!(
        walk_tree(include_manifest(&path("/i"), 0, 1), tree).err(),
        Some(CcBypassReason::TooManyInputs)
    );
    assert_eq!(
        walk_tree(include_manifest(&path("/i"), 1, 2), tree).err(),
        Some(CcBypassReason::TooManyInputs)
    );
}

#[test]
fn a_failed_listing_is_reported_with_its_path() {
    let begin = || include_manifest(&path("/i"), 0, 10);
    assert_eq!(
        begin().visit(None, Err(failure(IoErrorKind::Other, "denied"))).err(),
        Some(CcBypassReason::InputRead { path: path("/i"), message: "denied".to_string() })
    );
    assert_eq!(
        begin()
            .visit(None, Ok(vec![file("a.h"), Err(failure(IoErrorKind::NotFound, "lost"))]))
            .err(),
        Some(CcBypassReason::InputRead { path: path("/i"), message: "lost".to_string() })
    );
    let strange = Ok(DirectoryEntry {
        name: b"a.h".to_vec(),
        is_dir: Err(failure(IoErrorKind::Other, "no type")),
    });
    assert_eq!(
        begin().visit(None, Ok(vec![strange])).err(),
        Some(CcBypassReason::InputRead { path: path("/i/a.h"), message: "no type".to_string() })
    );
    let garbled = Ok(DirectoryEntry { name: vec![b'a', 0xff], is_dir: Ok(false) });
    assert_eq!(
        begin().visit(None, Ok(vec![garbled])).err(),
        Some(CcBypassReason::NonUtf8Path(FilePath::from_bytes(b"/i/a\xff".to_vec())))
    );
}

fn directory_reading(seconds: i64, nanos: i64) -> PathReading {
    PathReading {
        metadata: Ok(FileMetadata {
            is_file: false,
            is_dir: true,
            len: 4096,
            modified: Ok(FileTime { seconds, nanos: 1 }),
            details: PlatformDetails::Linux(UnixDetails {
                device: 1,
                inode: 2,
                modified: (seconds, nanos),
                changed: (seconds, nanos),
                mode: 0o40755,
            }),
        }),
        status: None,
    }
}

fn identity(seconds: i64) -> Option<DirectoryIdentity> {
    DirectoryIdentity::read(&path("/i"), &directory_reading(seconds, 7), Ok(false))
}

#[test]
fn directories_are_identified_by_precise_reliable_times() {
    assert!(identity(5).is_some());
    assert_eq!(identity(5), identity(5));
    assert_ne!(identity(5), identity(6));
    let whole = directory_reading(5, 0);
    assert_eq!(DirectoryIdentity::read(&path("/i"), &whole, Ok(false)), None);
    let mut nfs = directory_reading(5, 7);
    nfs.status = Some(Ok(LinuxStatx {
        mask: STATX_IDENTITY_MASK,
        inode: 2,
        size: 4096,
        modified: LinuxStatxTimestamp { seconds: 5, nanos: 7 },
        device_major: 0,
        device_minor: 1,
        mount_id: 1,
    }));
    assert_eq!(DirectoryIdentity::read(&path("/i"), &nfs, Ok(true)), None);
    assert_eq!(
        DirectoryIdentity::read(
            &path("/i"),
            &directory_reading(5, 7),
            Err(failure(IoErrorKind::Other, "statfs"))
        ),
        None
    );
    let gone = PathReading {
        metadata: Err(failure(IoErrorKind::NotFound, "gone")),
        status: None,
    };
    assert_eq!(DirectoryIdentity::read(&path("/i"), &gone, Ok(false)), None);
    let mut plain = directory_reading(5, 7);
    if let Ok(metadata) = &mut plain.metadata {
        metadata.is_dir = false;
    }
    assert_eq!(DirectoryIdentity::read(&path("/i"), &plain, Ok(false)), None);
}

#[test]
fn a_manifest_is_remembered_while_its_directories_stand() {
    let digest = digest_of(&["a.h"]);
    let visited = || vec![(path("/i"), identity(5)), (path("/i/s"), identity(6))];
    let current = [identity(5), identity(6)];
    let memos = ManifestMemos::new().record(&path("/i"), &digest, 3, visited(), &current);
    let memo = memos.find(&path("/i/")).unwrap();
    assert_eq!(memo.directory_count(), 2);
    assert_eq!(memo.directory(1).to_text_lossy(), "/i/s");
    assert!(recall(Some(memo), &[identity(5), identity(7)], 4, 10).is_none());
    assert!(recall(Some(memo), &[identity(5), None], 4, 10).is_none());
    assert!(recall(Some(memo), &[identity(5)], 4, 10).is_none());
    assert!(recall(None, &current, 4, 10).is_none());
    assert!(memos.find(&path("/other")).is_none());

    let reused = recall(Some(memo), &current, 4, 10).unwrap().unwrap();
    assert_eq!(reused.digest, digest);
    assert_eq!(reused.budget, 7);
    let counted = |budget: usize| recall(Some(memo), &current, budget, 10).unwrap();
    assert!(counted(7).is_ok());
    assert_eq!(counted(8).err(), Some(CcBypassReason::TooManyInputs));
    assert_eq!(counted(usize::MAX).err(), Some(CcBypassReason::TooManyInputs));
}

#[test]
fn a_reused_manifest_counts_as_a_walk_would() {
    let tree: &[(&str, &[&str])] = &[("/i", &["b.h", "a.h"])];
    let first = walk_tree(include_manifest(&path("/i"), 0, 9), tree).unwrap();
    let visited = vec![(path("/i"), identity(5))];
    let memos = ManifestMemos::new().record(
        &path("/i"),
        &first.manifest.digest,
        first.entries,
        visited,
        &[identity(5)],
    );
    let memo = memos.find(&path("/i")).unwrap();
    for budget in 0..10 {
        let walked = walk_tree(include_manifest(&path("/i"), budget, 9), tree);
        match (walked, recall(Some(memo), &[identity(5)], budget, 9).unwrap()) {
            (Ok(walked), Ok(reused)) => {
                assert_eq!(walked.manifest.digest, reused.digest);
                assert_eq!(walked.manifest.budget, reused.budget);
            }
            (Err(walked), Err(reused)) => assert_eq!(walked, reused),
            _ => panic!("a walk and its memo must agree at {budget}"),
        }
    }
}

#[test]
fn an_uncertain_walk_is_not_remembered() {
    let digest = digest_of(&["a.h"]);
    let one = || vec![(path("/i"), identity(5))];
    let memos = ManifestMemos::new();
    let memos = memos.record(&path("/i"), &digest, 1, Vec::new(), &[]);
    assert!(memos.find(&path("/i")).is_none());
    let memos = memos.record(&path("/i"), &digest, 1, vec![(path("/i"), None)], &[identity(5)]);
    assert!(memos.find(&path("/i")).is_none());
    let memos = memos.record(&path("/i"), &digest, 1, one(), &[identity(6)]);
    assert!(memos.find(&path("/i")).is_none());
    let many: Vec<_> = (0..=MAX_DIRECTORIES).map(|_| (path("/i"), identity(5))).collect();
    let now: Vec<_> = (0..=MAX_DIRECTORIES).map(|_| identity(5)).collect();
    let memos = memos.record(&path("/i"), &digest, 1, many, &now);
    assert!(memos.find(&path("/i")).is_none());
    let memos = memos.record(&path("/i"), &digest, 1, one(), &[identity(5)]);
    assert!(memos.find(&path("/i")).is_some());
}

#[test]
fn only_so_many_manifests_are_remembered() {
    let digest = digest_of(&["a.h"]);
    let mut memos = ManifestMemos::new();
    for at in 0..MAX_ROOTS {
        let root = path(&format!("/r{at}"));
        memos = memos.record(&root, &digest, 1, vec![(path("/i"), identity(5))], &[identity(5)]);
    }
    assert!(memos.find(&path("/r0")).is_some());
    let memos = memos.record(
        &path("/last"),
        &digest,
        1,
        vec![(path("/i"), identity(5))],
        &[identity(5)],
    );
    assert!(memos.find(&path("/last")).is_some());
    assert!(memos.find(&path("/r0")).is_none());
}

fn minimal(directories: &[&str], solid: &[&str]) -> Vec<String> {
    texts(&minimal_manifest_directories(&set(directories), &set(solid)))
}

#[test]
fn covered_directories_need_no_manifest() {
    assert_eq!(
        minimal(&["/a/b/c", "/a", "/b", "/a/b"], &["/a/b", "/a/b/c"]),
        ["/a", "/b"]
    );
    assert_eq!(minimal(&["/a/b/c", "/a"], &["/a/b", "/a/b/c"]), ["/a"]);
    assert_eq!(minimal(&["/a", "/ab"], &["/ab"]), ["/a", "/ab"]);
    assert_eq!(minimal(&[], &[]), Vec::<String>::new());
}

#[test]
fn a_symlink_on_the_way_keeps_a_directory() {
    assert_eq!(minimal(&["/a", "/a/link/c"], &["/a/link/c"]), ["/a", "/a/link/c"]);
    assert_eq!(minimal(&["/a", "/a/b"], &[]), ["/a", "/a/b"]);
}

#[test]
fn a_prefix_that_escapes_covers_nothing() {
    assert_eq!(minimal(&["/a", "/a/../b"], &["/a", "/b"]), ["/a", "/a/../b"]);
    assert_eq!(minimal(&["/a", "/b/../a/c"], &["/a/c"]), ["/a"]);
}

#[test]
fn directories_are_ordered_by_depth_then_place() {
    assert_eq!(minimal(&["/z", "/a/b", "/b/../y/x/..", "/y"], &[]), [
        "/b/../y/x/..",
        "/y",
        "/z",
        "/a/b"
    ]);
}

#[test]
fn every_step_on_the_way_is_probed() {
    let probes = manifest_probes(&set(&["/a", "/a/b/../b/c", "/d"]));
    assert_eq!(probes.len(), 2);
    assert!(probes.contains(&path("/a/b")));
    assert!(probes.contains(&path("/a/b/c")));
    assert!(!probes.contains(&path("/a")));
    assert_eq!(manifest_probes(&set(&["/a", "/b"])).len(), 0);
}

#[test]
fn a_snapshot_takes_each_uncovered_manifest_under_one_limit() {
    let tree: &[(&str, &[&str])] =
        &[("/a", &["x.h", "b/"]), ("/a/b", &["y.h"]), ("/c", &["z.h"])];
    let take = |limit: usize| -> Result<ManifestRun, CcBypassReason> {
        let mut run = manifest_snapshot(&set(&["/c", "/a", "/a/b"]), &set(&["/a/b"]), limit);
        assert_eq!(run.limit(), limit);
        while let Some(walk) = run.walk() {
            let manifest = walk_tree(walk, tree).map(|finished| finished.manifest);
            run = run.settle(manifest)?;
        }
        Ok(run)
    };
    let run = take(3).unwrap();
    assert!(run.next().is_none());
    assert_eq!(run.budget(), 3);
    let snapshot = run.finish_snapshot();
    assert_eq!(snapshot.len(), 2);
    assert_eq!(snapshot.get(&path("/a")), Some(&digest_of(&["b/y.h", "x.h"])));
    assert_eq!(snapshot.get(&path("/c")), Some(&digest_of(&["z.h"])));
    assert_eq!(snapshot.get(&path("/a/b")), None);
    assert_eq!(take(2).err(), Some(CcBypassReason::TooManyInputs));
}

fn snapshot(tree: &[(&str, &[&str])]) -> Vec<Option<CacheDigest>> {
    let mut run = manifest_snapshot(&set(&["/c", "/a", "/a/b"]), &set(&["/a/b"]), 10);
    while let Some(walk) = run.walk() {
        run = run.settle(walk_tree(walk, tree).map(|finished| finished.manifest)).unwrap();
    }
    let taken = run.finish_snapshot();
    assert_eq!(taken.len(), 2);
    ["/a", "/c"].iter().map(|at| taken.get(&path(at)).cloned()).collect()
}

#[test]
fn snapshots_change_with_the_names_that_can_be_included() {
    let before = snapshot(&[("/a", &["x.h", "b/"]), ("/a/b", &["y.h"]), ("/c", &["z.h"])]);
    assert_eq!(before, vec![Some(digest_of(&["b/y.h", "x.h"])), Some(digest_of(&["z.h"]))]);
    let others = snapshot(&[
        ("/a", &["b/", "x.o", "x.h"]),
        ("/a/b", &["notes.txt", "y.h"]),
        ("/c", &["z.h", ".keep"]),
    ]);
    assert_eq!(others, before);
    let covered =
        snapshot(&[("/a", &["x.h", "b/"]), ("/a/b", &["y.h", "new.h"]), ("/c", &["z.h"])]);
    assert_ne!(covered, before);
    assert_ne!(covered[0].as_ref().map(|digest| digest.size), before[0].as_ref().map(|d| d.size));
    assert_eq!(covered[1], before[1]);
    let renamed = snapshot(&[("/a", &["w.h", "b/"]), ("/a/b", &["y.h"]), ("/c", &["z.h"])]);
    assert_ne!(renamed, before);
}
