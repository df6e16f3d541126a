//! Recorded digests, and who may answer for them.

use crate::digest::{CacheDigest, DigestModel};
use crate::identity::{FileIdentity, IdentityModel};
use crate::views::{opts_view, seq_view};
use vstd::prelude::*;

verus! {

/// What a recorded file digest may stand in for.
///
/// Adapters prove different things when they read a file: the cc adapter's
/// input scan also establishes that a source embeds no timestamp macro, which
/// a digest recorded by the rustc adapter never checked. Scoping the ledger
/// keeps one adapter's shortcut from resting on a property another adapter
/// never established.
#[derive(Debug, Clone, Copy, PartialEq, Eq, PartialOrd, Ord, Structural)]
pub enum FileDigestScope {
    /// The digest describes the file's contents and nothing more.
    Content,
    /// The digest describes a cc compiler input that also passed the
    /// timestamp-macro scan.
    CcInput,
}

/// The outcome of resolving one file under a digest scope.
#[derive(Debug, Clone, PartialEq, Eq)]
pub enum FileDigestResolution {
    /// The file's content digest, with any scope-specific checks complete.
    Digest(CacheDigest),
    /// A C/C++ input contains a time-dependent preprocessor macro.
    EmbeddedTimestampMacro,
    /// A resolver attempted to observe the file, but could not associate the
    /// result with a stable identity. Callers must bypass rather than retry.
    Indeterminate,
    /// No shared resolver was available; the caller must read the file.
    Unresolved,
}

/// What a [`FileDigestResolution`] says.
pub enum ResolutionModel {
    Digest(DigestModel),
    EmbeddedTimestampMacro,
    Indeterminate,
    Unresolved,
}

impl View for FileDigestResolution {
    type V = ResolutionModel;

    open spec fn view(&self) -> ResolutionModel {
        match self {
            FileDigestResolution::Digest(digest) => ResolutionModel::Digest(digest@),
            FileDigestResolution::EmbeddedTimestampMacro => ResolutionModel::EmbeddedTimestampMacro,
            FileDigestResolution::Indeterminate => ResolutionModel::Indeterminate,
            FileDigestResolution::Unresolved => ResolutionModel::Unresolved,
        }
    }
}

impl FileDigestResolution {
    /// Extract the digest when resolution succeeded.
    pub fn into_digest(self) -> (digest: Option<CacheDigest>)
        ensures
            crate::views::opt_view(digest) == (match self@ {
                ResolutionModel::Digest(digest) => Some(digest),
                _ => None,
            }),
    {
        match self {
            FileDigestResolution::Digest(digest) => Some(digest),
            FileDigestResolution::EmbeddedTimestampMacro | FileDigestResolution::Indeterminate
            | FileDigestResolution::Unresolved => None,
        }
    }

    /// A copy of the outcome.
    pub fn duplicate(&self) -> (copy: FileDigestResolution)
        ensures
            copy@ == self@,
    {
        match self {
            FileDigestResolution::Digest(digest) => FileDigestResolution::Digest(
                digest.duplicate(),
            ),
            FileDigestResolution::EmbeddedTimestampMacro => {
                FileDigestResolution::EmbeddedTimestampMacro
            },
            FileDigestResolution::Indeterminate => FileDigestResolution::Indeterminate,
            FileDigestResolution::Unresolved => FileDigestResolution::Unresolved,
        }
    }
}

/// A file digest recorded against the identity it was read under.
#[derive(Debug, Clone, PartialEq, Eq)]
pub struct RecordedFileDigest {
    /// Identity of the file when its contents were hashed.
    pub file: FileIdentity,
    /// Digest of those contents.
    pub digest: CacheDigest,
}

/// What a [`RecordedFileDigest`] says.
pub struct RecordModel {
    pub file: IdentityModel,
    pub digest: DigestModel,
}

impl View for RecordedFileDigest {
    type V = RecordModel;

    open spec fn view(&self) -> RecordModel {
        RecordModel { file: self.file@, digest: self.digest@ }
    }
}

/// What a found digest resolves to.
pub open spec fn found_resolution(found: Option<DigestModel>) -> ResolutionModel {
    match found {
        Some(digest) => ResolutionModel::Digest(digest),
        None => ResolutionModel::Unresolved,
    }
}

/// What found digests resolve to, in their order.
pub open spec fn found_resolutions(found: Seq<Option<DigestModel>>) -> Seq<ResolutionModel> {
    found.map_values(|digest: Option<DigestModel>| found_resolution(digest))
}

/// Resolve files by the digests that were found for them.
pub fn resolve_found(found: Vec<Option<CacheDigest>>) -> (resolutions: Vec<FileDigestResolution>)
    ensures
        seq_view(resolutions@) == found_resolutions(opts_view(found@)),
{
    let ghost all = found@;
    let mut resolutions: Vec<FileDigestResolution> = Vec::new();
    for digest in iter: found
        invariant
            iter.seq() == all,
            resolutions@.len() == iter.index(),
            forall|i: int|
                0 <= i < resolutions@.len() ==> (#[trigger] resolutions@[i])@ == found_resolution(
                    crate::views::opt_view(all[i]),
                ),
    {
        match digest {
            Some(digest) => {
                resolutions.push(FileDigestResolution::Digest(digest));
            },
            None => {
                resolutions.push(FileDigestResolution::Unresolved);
            },
        }
    }
    assert(seq_view(resolutions@) =~= found_resolutions(opts_view(all)));
    resolutions
}

/// Recorded digests a session may consult instead of rehashing a file.
///
/// The agent's file-digest ledger answers through this everywhere a caller
/// holds one; the no-op implementation stands in where reuse must not happen,
/// such as under verification.
pub trait FileDigestCache: Send + Sync {
    /// Resolve these identities, coalescing concurrent misses where supported.
    fn resolve(&self, scope: FileDigestScope, files: &[FileIdentity]) -> (resolutions: Vec<
        FileDigestResolution,
    >)
        default_ensures
            exists|found: Vec<Option<CacheDigest>>|
                #[trigger] call_ensures(Self::find, (self, scope, files), found) && seq_view(
                    resolutions@,
                ) == found_resolutions(opts_view(found@)),
    {
        let found = self.find(scope, files);
        resolve_found(found)
    }

    /// Recorded digests for these identities, in request order.
    fn find(&self, scope: FileDigestScope, files: &[FileIdentity]) -> Vec<Option<CacheDigest>>;

    /// Record digests for files read under these identities.
    fn record(&self, scope: FileDigestScope, entries: Vec<RecordedFileDigest>);
}

/// A [`FileDigestCache`] that remembers nothing and finds nothing.
pub struct NoFileDigestCache;

impl FileDigestCache for NoFileDigestCache {
    fn resolve(&self, _scope: FileDigestScope, files: &[FileIdentity]) -> (resolutions: Vec<
        FileDigestResolution,
    >)
        ensures
            resolutions@.len() == files@.len(),
            forall|i: int|
                0 <= i < resolutions@.len() ==> (#[trigger] resolutions@[i])@
                    == ResolutionModel::Unresolved,
    {
        let mut resolutions: Vec<FileDigestResolution> = Vec::new();
        while resolutions.len() < files.len()
            invariant
                resolutions@.len() <= files@.len(),
                forall|i: int|
                    0 <= i < resolutions@.len() ==> (#[trigger] resolutions@[i])@
                        == ResolutionModel::Unresolved,
            decreases files@.len() - resolutions@.len(),
        {
            resolutions.push(FileDigestResolution::Unresolved);
        }
        resolutions
    }

    fn find(&self, _scope: FileDigestScope, files: &[FileIdentity]) -> (found: Vec<
        Option<CacheDigest>,
    >)
        ensures
            found@.len() == files@.len(),
            forall|i: int| 0 <= i < found@.len() ==> #[trigger] found@[i] is None,
    {
        let mut found: Vec<Option<CacheDigest>> = Vec::new();
        while found.len() < files.len()
            invariant
                found@.len() <= files@.len(),
                forall|i: int| 0 <= i < found@.len() ==> #[trigger] found@[i] is None,
            decreases files@.len() - found@.len(),
        {
            found.push(None);
        }
        found
    }

    fn record(&self, _scope: FileDigestScope, _entries: Vec<RecordedFileDigest>) {
    }
}

} // verus!
