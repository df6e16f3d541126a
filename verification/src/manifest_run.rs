//! Manifests of several include directories under one limit.

use crate::coverage::{is_minimal, minimal_manifest_directories};
use crate::digest::{CacheDigest, DigestModel};
use crate::error::{BypassModel, CcBypassReason};
use crate::manifest_memo::{IncludeManifest, ManifestModel};
use crate::manifest_walk::{include_manifest, walk_begun, ManifestWalk};
use crate::path::{path_parts, FilePath, PathPart};
use crate::path_map::{PathMap, PathSet};
use crate::views::{result_view, seq_view};
use vstd::prelude::*;

verus! {

/// Manifests of several directories, taken one after another.
pub struct ManifestRun {
    directories: Vec<FilePath>,
    digests: Vec<CacheDigest>,
    budget: usize,
    limit: usize,
}

/// What a [`ManifestRun`] says.
#[verifier::ext_equal]
pub struct ManifestsModel {
    /// The directories, in the order in which their manifests are taken.
    pub directories: Seq<Seq<u8>>,
    /// The manifests that have been taken.
    pub digests: Seq<DigestModel>,
    /// The names counted so far.
    pub budget: usize,
    /// How many names may be counted over all the manifests.
    pub limit: usize,
}

impl View for ManifestRun {
    type V = ManifestsModel;

    closed spec fn view(&self) -> ManifestsModel {
        ManifestsModel {
            directories: seq_view(self.directories@),
            digests: seq_view(self.digests@),
            budget: self.budget,
            limit: self.limit,
        }
    }
}

/// A run before any manifest is taken.
pub open spec fn manifests_begun(directories: Seq<Seq<u8>>, limit: usize) -> ManifestsModel {
    ManifestsModel { directories, digests: Seq::empty(), budget: 0, limit }
}

/// The run once the next manifest is taken, or why there is none.
pub open spec fn manifest_taken(
    run: ManifestsModel,
    manifest: Result<ManifestModel, BypassModel>,
) -> Result<ManifestsModel, BypassModel> {
    match manifest {
        Ok(manifest) => Ok(
            ManifestsModel {
                digests: run.digests.push(manifest.digest),
                budget: manifest.budget,
                ..run
            },
        ),
        Err(reason) => Err(reason),
    }
}

/// What directories map to, each to its own manifest. A later directory at the same place wins.
pub open spec fn manifests_map(directories: Seq<Seq<u8>>, digests: Seq<DigestModel>) -> Map<
    Seq<PathPart>,
    DigestModel,
>
    decreases directories.len(),
{
    if directories.len() == 0 {
        Map::empty()
    } else {
        manifests_map(directories.drop_last(), digests.drop_last()).insert(
            path_parts(directories.last()),
            digests.last(),
        )
    }
}

/// A map of digests, viewed.
pub open spec fn digests_view(map: Map<Seq<PathPart>, CacheDigest>) -> Map<
    Seq<PathPart>,
    DigestModel,
> {
    map.map_values(|digest: CacheDigest| digest@)
}

impl ManifestRun {
    #[verifier::type_invariant]
    spec fn well_formed(self) -> bool {
        self.digests@.len() <= self.directories@.len()
    }

    /// Begin to take the manifests of directories.
    pub fn begin(directories: Vec<FilePath>, limit: usize) -> (run: ManifestRun)
        ensures
            run@ == manifests_begun(seq_view(directories@), limit),
    {
        let run = ManifestRun { directories, digests: Vec::new(), budget: 0, limit };
        assert(run@ =~= manifests_begun(seq_view(directories@), limit));
        run
    }

    /// The directory whose manifest is to be taken next; none once all have been.
    pub fn next(&self) -> (directory: Option<&FilePath>)
        ensures
            match directory {
                Some(path) => self@.digests.len() < self@.directories.len() && path@
                    == self@.directories[self@.digests.len() as int],
                None => self@.digests.len() == self@.directories.len(),
            },
    {
        proof {
            use_type_invariant(self);
        }
        let at: usize = self.digests.len();
        if at < self.directories.len() {
            assert(self@.directories[at as int] == self.directories@[at as int]@);
            Some(&self.directories[at])
        } else {
            None
        }
    }

    /// The names counted so far.
    pub fn budget(&self) -> (budget: usize)
        ensures
            budget == self@.budget,
    {
        self.budget
    }

    /// How many names may be counted over all the manifests.
    pub fn limit(&self) -> (limit: usize)
        ensures
            limit == self@.limit,
    {
        self.limit
    }

    /// Begin to walk the next directory, counting on from what has been counted.
    pub fn walk(&self) -> (walk: Option<ManifestWalk>)
        ensures
            match walk {
                Some(walk) => {
                    &&& self@.digests.len() < self@.directories.len()
                    &&& walk@ == walk_begun(
                        self@.directories[self@.digests.len() as int],
                        self@.budget,
                        self@.limit,
                    )
                    &&& walk.initial() == self@.budget
                    &&& walk.visited().len() == 0
                },
                None => self@.digests.len() == self@.directories.len(),
            },
    {
        match self.next() {
            Some(directory) => Some(include_manifest(directory, self.budget, self.limit)),
            None => None,
        }
    }

    /// Take the next manifest.
    pub fn settle(self, manifest: Result<IncludeManifest, CcBypassReason>) -> (run: Result<
        ManifestRun,
        CcBypassReason,
    >)
        requires
            self@.digests.len() < self@.directories.len(),
        ensures
            result_view(run) == manifest_taken(self@, result_view(manifest)),
    {
        let ghost before = self@;
        let ManifestRun { directories, digests, budget: _, limit } = self;
        let mut digests = digests;
        match manifest {
            Ok(manifest) => {
                let IncludeManifest { digest, budget } = manifest;
                let ghost model = digest@;
                digests.push(digest);
                assert(seq_view(digests@) =~= before.digests.push(model));
                Ok(ManifestRun { directories, digests, budget, limit })
            },
            Err(reason) => Err(reason),
        }
    }

    /// End the run: the directories, and their manifests.
    pub fn finish(self) -> (manifests: (Vec<FilePath>, Vec<CacheDigest>))
        requires
            self@.digests.len() == self@.directories.len(),
        ensures
            seq_view(manifests.0@) == self@.directories,
            seq_view(manifests.1@) == self@.digests,
            manifests.0@.len() == manifests.1@.len(),
    {
        let ManifestRun { directories, digests, budget: _, limit: _ } = self;
        assert(directories@.len() == seq_view(directories@).len());
        assert(digests@.len() == seq_view(digests@).len());
        (directories, digests)
    }

    /// End a snapshot: each directory with its manifest.
    pub fn finish_snapshot(self) -> (snapshot: PathMap<CacheDigest>)
        requires
            self@.digests.len() == self@.directories.len(),
        ensures
            digests_view(snapshot@) == manifests_map(self@.directories, self@.digests),
    {
        let ghost run = self@;
        let (directories, digests) = self.finish();
        let mut snapshot: PathMap<CacheDigest> = PathMap::new();
        let mut i: usize = 0;
        proof {
            assert(run.directories.take(0) =~= Seq::<Seq<u8>>::empty());
            assert(digests_view(snapshot@) =~= manifests_map(
                run.directories.take(0),
                run.digests.take(0),
            ));
        }
        while i < directories.len()
            invariant
                i <= directories@.len(),
                directories@.len() == digests@.len(),
                seq_view(directories@) == run.directories,
                seq_view(digests@) == run.digests,
                digests_view(snapshot@) == manifests_map(
                    run.directories.take(i as int),
                    run.digests.take(i as int),
                ),
            decreases directories@.len() - i,
        {
            let ghost before = snapshot@;
            let digest = digests[i].duplicate();
            snapshot = snapshot.insert(directories[i].duplicate(), digest);
            proof {
                assert(run.directories[i as int] == directories@[i as int]@);
                assert(run.digests[i as int] == digests@[i as int]@);
                assert(run.directories.take(i + 1).drop_last() =~= run.directories.take(i as int));
                assert(run.digests.take(i + 1).drop_last() =~= run.digests.take(i as int));
                assert(digests_view(snapshot@) =~= digests_view(before).insert(
                    path_parts(directories@[i as int]@),
                    digest@,
                ));
            }
            i += 1;
        }
        proof {
            assert(run.directories.take(i as int) =~= run.directories);
            assert(run.digests.take(i as int) =~= run.digests);
        }
        snapshot
    }
}

/// Begin to digest the includable names in each directory, reading no file contents.
///
/// Taken once before the compiler runs and again before publishing, this is
/// what detects a header that appeared in a search directory *while* the
/// compilation was in flight. The manifest recorded in the key is the one from
/// after the compile, and without this check that later state would be claimed
/// as the state the compiler saw.
pub fn manifest_snapshot(directories: &PathSet, solid: &PathSet, limit: usize) -> (run: ManifestRun)
    ensures
        is_minimal(run@.directories, directories@, solid.places()),
        run@ == manifests_begun(run@.directories, limit),
{
    let minimal = minimal_manifest_directories(directories, solid);
    ManifestRun::begin(minimal, limit)
}

} // verus!
