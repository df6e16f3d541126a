//! Remembered manifests.
//!
//! A wrapper checks the same manifests during prediction, discovery, and
//! publication. Their exact name digest is reused while every directory is unchanged.
//! Memos stay within one process: no persisted timestamps can outlive a filesystem mount.

use crate::digest::{CacheDigest, DigestModel};
use crate::error::{BypassModel, CcBypassReason, IoError, IoErrorModel};
use crate::identity::{
    cache_identity, FileIdentity, PathReading, PlatformDetails, ReadingModel, UnixDetails,
};
use crate::path::{path_parts, FilePath, PathPart};
use crate::path_map::PathMap;
use crate::views::{outcome_view, result_view};
use vstd::prelude::*;

verus! {

/// The number of directories whose manifests are remembered at once.
pub const MAX_ROOTS: usize = 32;

/// The number of directories that a remembered manifest may have visited.
pub const MAX_DIRECTORIES: usize = 4096;

/// What identifies the list of names in a directory.
#[derive(Debug, Clone, Copy, PartialEq, Eq)]
pub struct DirectoryIdentity {
    device: u64,
    inode: u64,
    modified: (i64, i64),
    changed: (i64, i64),
    mode: u32,
}

/// The Unix details of a file, on any Unix.
pub open spec fn unix_details(details: PlatformDetails) -> Option<UnixDetails> {
    match details {
        PlatformDetails::Linux(unix) => Some(unix),
        PlatformDetails::Unix(unix) => Some(unix),
        PlatformDetails::Other => None,
    }
}

/// The identity that a directory's details and its qualified change time make up.
pub closed spec fn identity_of(unix: UnixDetails, changed: (i64, i64)) -> DirectoryIdentity {
    DirectoryIdentity {
        device: unix.device,
        inode: unix.inode,
        modified: unix.modified,
        changed,
        mode: unix.mode,
    }
}

/// Directory identities hold everything that they are made of.
pub proof fn directory_identities_are_faithful(
    left: UnixDetails,
    left_changed: (i64, i64),
    right: UnixDetails,
    right_changed: (i64, i64),
)
    requires
        identity_of(left, left_changed) == identity_of(right, right_changed),
    ensures
        left.device == right.device,
        left.inode == right.inode,
        left.modified == right.modified,
        left_changed == right_changed,
        left.mode == right.mode,
{
}

/// What identifies the list of names in a directory, from a look at it.
///
/// Whole-second timestamps cannot distinguish rapid edits, so they identify nothing; nor does
/// metadata without a reliable change time.
pub open spec fn directory_identity(
    path: Seq<u8>,
    reading: ReadingModel,
    unreliable: Result<bool, IoErrorModel>,
) -> Option<DirectoryIdentity> {
    match (reading.metadata, unreliable) {
        (Ok(metadata), Ok(unreliable)) => match (
            unix_details(metadata.details),
            cache_identity(path, metadata, unreliable, reading.status),
        ) {
            (Some(unix), Ok(Some(identity))) => match identity.changed {
                Some(changed) => if metadata.is_dir && unix.modified.1 != 0 && unix.changed.1 != 0 {
                    Some(identity_of(unix, changed))
                } else {
                    None
                },
                None => None,
            },
            _ => None,
        },
        _ => None,
    }
}

impl DirectoryIdentity {
    /// What identifies the list of names in a directory, from a look at it.
    pub fn read(
        path: &FilePath,
        reading: &PathReading,
        unreliable: Result<bool, IoError>,
    ) -> (identity: Option<DirectoryIdentity>)
        ensures
            identity == directory_identity(path@, reading@, outcome_view(unreliable)),
    {
        let metadata = match &reading.metadata {
            Ok(metadata) => metadata,
            Err(_) => {
                return None;
            },
        };
        let unix = match metadata.details {
            PlatformDetails::Linux(unix) => unix,
            PlatformDetails::Unix(unix) => unix,
            PlatformDetails::Other => {
                return None;
            },
        };
        if !metadata.is_dir || unix.modified.1 == 0 || unix.changed.1 == 0 {
            return None;
        }
        match FileIdentity::for_digest_cache(path, metadata, unreliable, &reading.status) {
            Ok(Some(identity)) => match identity.changed {
                Some(changed) => Some(
                    DirectoryIdentity {
                        device: unix.device,
                        inode: unix.inode,
                        modified: unix.modified,
                        changed,
                        mode: unix.mode,
                    },
                ),
                None => None,
            },
            _ => None,
        }
    }

    fn same_as(&self, other: &DirectoryIdentity) -> (same: bool)
        ensures
            same == (*self == *other),
    {
        self.device == other.device && self.inode == other.inode && self.modified.0
            == other.modified.0 && self.modified.1 == other.modified.1 && self.changed.0
            == other.changed.0 && self.changed.1 == other.changed.1 && self.mode == other.mode
    }
}

/// A manifest's digest, and how many names have been counted with it.
#[derive(Debug)]
pub struct IncludeManifest {
    pub digest: CacheDigest,
    /// The names counted so far, over all the manifests that share a limit.
    pub budget: usize,
}

/// What an [`IncludeManifest`] says.
pub struct ManifestModel {
    pub digest: DigestModel,
    pub budget: usize,
}

impl View for IncludeManifest {
    type V = ManifestModel;

    open spec fn view(&self) -> ManifestModel {
        ManifestModel { digest: self.digest@, budget: self.budget }
    }
}

/// A remembered manifest.
#[derive(Debug, Clone)]
pub struct Memo {
    digest: CacheDigest,
    entries: usize,
    directories: Vec<(FilePath, DirectoryIdentity)>,
}

/// What a [`Memo`] says.
pub struct MemoModel {
    pub digest: DigestModel,
    pub entries: usize,
    pub directories: Seq<(Seq<u8>, DirectoryIdentity)>,
}

impl View for Memo {
    type V = MemoModel;

    closed spec fn view(&self) -> MemoModel {
        MemoModel {
            digest: self.digest@,
            entries: self.entries,
            directories: self.directories@.map_values(
                |directory: (FilePath, DirectoryIdentity)| (directory.0@, directory.1),
            ),
        }
    }
}

/// Whether every directory that a manifest visited has the identity that it had then.
pub open spec fn all_unchanged(
    directories: Seq<(Seq<u8>, DirectoryIdentity)>,
    current: Seq<Option<DirectoryIdentity>>,
) -> bool {
    &&& directories.len() <= current.len()
    &&& forall|i: int|
        0 <= i < directories.len() ==> #[trigger] current[i] == Some(directories[i].1)
}

/// What reusing a remembered manifest yields: its names count against the limit as if they had
/// been listed.
pub open spec fn manifest_reused(memo: MemoModel, budget: usize, limit: usize) -> Result<
    ManifestModel,
    BypassModel,
> {
    let total = budget + memo.entries;
    let counted = if total > usize::MAX { usize::MAX } else { total as usize };
    if counted > limit {
        Err(BypassModel::TooManyInputs)
    } else {
        Ok(ManifestModel { digest: memo.digest, budget: counted })
    }
}

impl Memo {
    /// The number of directories that the manifest visited.
    pub fn directory_count(&self) -> (count: usize)
        ensures
            count == self@.directories.len(),
    {
        self.directories.len()
    }

    /// A directory that the manifest visited.
    pub fn directory(&self, at: usize) -> (path: &FilePath)
        requires
            at < self@.directories.len(),
        ensures
            path@ == self@.directories[at as int].0,
    {
        &self.directories[at].0
    }

    /// Whether every directory that the manifest visited has the identity that it had then.
    fn valid(&self, current: &[Option<DirectoryIdentity>]) -> (valid: bool)
        ensures
            valid == all_unchanged(self@.directories, current@),
    {
        unchanged(&self.directories, current)
    }

    /// Reuse the manifest, counting its names against the limit.
    fn reuse(&self, budget: usize, limit: usize) -> (manifest: Result<
        IncludeManifest,
        CcBypassReason,
    >)
        ensures
            result_view(manifest) == manifest_reused(self@, budget, limit),
    {
        let counted: usize = match budget.checked_add(self.entries) {
            Some(counted) => counted,
            None => usize::MAX,
        };
        if counted > limit {
            Err(CcBypassReason::TooManyInputs)
        } else {
            Ok(IncludeManifest { digest: self.digest.duplicate(), budget: counted })
        }
    }
}

/// Reuse a remembered manifest while it stands; where there is none, or a directory that it
/// visited has changed, the directory is to be walked.
///
/// `current` are the identities of the directories that the memo visited, in their order.
pub fn recall(
    memo: Option<&Memo>,
    current: &[Option<DirectoryIdentity>],
    budget: usize,
    limit: usize,
) -> (manifest: Option<Result<IncludeManifest, CcBypassReason>>)
    ensures
        manifest is Some <==> (memo matches Some(memo) && all_unchanged(
            memo@.directories,
            current@,
        )),
        manifest matches Some(manifest) ==> result_view(manifest) == manifest_reused(
            memo->Some_0@,
            budget,
            limit,
        ),
{
    match memo {
        Some(memo) => if memo.valid(current) {
            Some(memo.reuse(budget, limit))
        } else {
            None
        },
        None => None,
    }
}

fn unchanged(
    directories: &Vec<(FilePath, DirectoryIdentity)>,
    current: &[Option<DirectoryIdentity>],
) -> (same: bool)
    ensures
        same == all_unchanged(
            directories@.map_values(
                |directory: (FilePath, DirectoryIdentity)| (directory.0@, directory.1),
            ),
            current@,
        ),
{
    let ghost list = directories@.map_values(
        |directory: (FilePath, DirectoryIdentity)| (directory.0@, directory.1),
    );
    if directories.len() > current.len() {
        return false;
    }
    let mut i: usize = 0;
    while i < directories.len()
        invariant
            i <= directories@.len() <= current@.len(),
            list.len() == directories@.len(),
            forall|j: int| 0 <= j < list.len() ==> (#[trigger] list[j]).1 == directories@[j].1,
            forall|j: int| 0 <= j < i ==> #[trigger] current@[j] == Some(list[j].1),
        decreases directories@.len() - i,
    {
        let same = match &current[i] {
            Some(identity) => identity.same_as(&directories[i].1),
            None => false,
        };
        assert(list[i as int].1 == directories@[i as int].1);
        if !same {
            assert(current@[i as int] != Some(list[i as int].1));
            return false;
        }
        i += 1;
    }
    true
}

/// Directories that a walk visited, each with the identity it had before it was listed.
pub open spec fn visited_view(
    visited: Seq<(FilePath, Option<DirectoryIdentity>)>,
) -> Seq<(Seq<u8>, Option<DirectoryIdentity>)> {
    visited.map_values(|visit: (FilePath, Option<DirectoryIdentity>)| (visit.0@, visit.1))
}

/// The identities of directories that all have one.
pub open spec fn identified(
    visited: Seq<(Seq<u8>, Option<DirectoryIdentity>)>,
) -> Seq<(Seq<u8>, DirectoryIdentity)> {
    visited.map_values(
        |visit: (Seq<u8>, Option<DirectoryIdentity>)| (visit.0, visit.1->Some_0),
    )
}

/// Whether a walk can be remembered: it visited some directories but not too many, each had an
/// identity, and none has changed since it was listed.
pub open spec fn can_be_remembered(
    visited: Seq<(Seq<u8>, Option<DirectoryIdentity>)>,
    current: Seq<Option<DirectoryIdentity>>,
) -> bool {
    &&& 0 < visited.len() <= MAX_DIRECTORIES
    &&& forall|i: int| 0 <= i < visited.len() ==> (#[trigger] visited[i]).1 is Some
    &&& all_unchanged(identified(visited), current)
}

/// The manifests that are remembered, by the directory they are of.
pub struct ManifestMemos {
    memos: PathMap<Memo>,
}

impl ManifestMemos {
    #[verifier::type_invariant]
    spec fn well_formed(self) -> bool {
        self.memos.keys().len() <= MAX_ROOTS
    }

    /// The number of manifests that are remembered.
    pub closed spec fn count(&self) -> nat {
        self.memos.keys().len()
    }

    /// The manifest remembered of a place.
    pub closed spec fn recalled(&self, place: Seq<PathPart>) -> Option<MemoModel> {
        if self.memos@.contains_key(place) {
            Some(self.memos@[place]@)
        } else {
            None
        }
    }

    /// With nothing remembered.
    pub fn new() -> (memos: ManifestMemos)
        ensures
            memos.count() == 0,
            forall|place: Seq<PathPart>| memos.recalled(place) is None,
    {
        ManifestMemos { memos: PathMap::new() }
    }

    /// The manifest remembered of a directory. It may be reused only while it is valid.
    pub fn find(&self, directory: &FilePath) -> (memo: Option<&Memo>)
        ensures
            match memo {
                Some(memo) => self.recalled(path_parts(directory@)) == Some(memo@),
                None => self.recalled(path_parts(directory@)) is None,
            },
            self.count() <= MAX_ROOTS,
    {
        proof {
            use_type_invariant(self);
        }
        self.memos.get(directory)
    }

    /// Remember a manifest, if the walk that made it allows that.
    pub fn record(
        self,
        directory: &FilePath,
        digest: &CacheDigest,
        entries: usize,
        visited: Vec<(FilePath, Option<DirectoryIdentity>)>,
        current: &[Option<DirectoryIdentity>],
    ) -> (memos: ManifestMemos)
        ensures
            memos.count() <= MAX_ROOTS,
            can_be_remembered(visited_view(visited@), current@) ==> {
                &&& memos.recalled(path_parts(directory@)) == Some(
                    MemoModel {
                        digest: digest@,
                        entries,
                        directories: identified(visited_view(visited@)),
                    },
                )
                &&& forall|place: Seq<PathPart>|
                    place != path_parts(directory@) ==> #[trigger] memos.recalled(place) == (
                    if self.count() >= MAX_ROOTS {
                        None
                    } else {
                        self.recalled(place)
                    })
            },
            !can_be_remembered(visited_view(visited@), current@) ==> {
                &&& memos.count() == self.count()
                &&& forall|place: Seq<PathPart>| #[trigger]
                    memos.recalled(place) == self.recalled(place)
            },
    {
        proof {
            use_type_invariant(&self);
        }
        if visited.len() == 0 || visited.len() > MAX_DIRECTORIES {
            return self;
        }
        let ghost all = visited_view(visited@);
        let ghost given = visited@;
        let mut directories: Vec<(FilePath, DirectoryIdentity)> = Vec::new();
        let mut i: usize = 0;
        while i < visited.len()
            invariant
                i <= visited@.len(),
                self.count() <= MAX_ROOTS,
                visited@ == given,
                all == visited_view(given),
                directories@.len() == i,
                forall|j: int| 0 <= j < i ==> (#[trigger] all[j]).1 is Some,
                forall|j: int|
                    0 <= j < i ==> (#[trigger] directories@[j]).0@ == all[j].0 && Some(
                        directories@[j].1,
                    ) == all[j].1,
            decreases visited@.len() - i,
        {
            assert(all[i as int] == (given[i as int].0@, given[i as int].1));
            match visited[i].1 {
                Some(identity) => {
                    directories.push((visited[i].0.duplicate(), identity));
                },
                None => {
                    return self;
                },
            }
            i += 1;
        }
        proof {
            assert(directories@.map_values(
                |directory: (FilePath, DirectoryIdentity)| (directory.0@, directory.1),
            ) =~= identified(all));
        }
        if !unchanged(&directories, current) {
            return self;
        }
        let memo = Memo { digest: digest.duplicate(), entries, directories };
        let memos = if self.memos.len() >= MAX_ROOTS {
            PathMap::new()
        } else {
            self.memos
        };
        let ghost before = memos;
        let memos = memos.insert(directory.duplicate(), memo);
        proof {
            let place = path_parts(directory@);
            if before@.contains_key(place) {
                assert(memos.keys() == before.keys());
            } else {
                let at = choose|at: int|
                    0 <= at <= before.keys().len() && memos.keys()
                        == #[trigger] before.keys().insert(at, directory@);
                assert(memos.keys().len() == before.keys().len() + 1);
            }
        }
        ManifestMemos { memos }
    }
}

} // verus!
