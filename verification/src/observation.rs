//! What a file held when it was observed, and how a later look compares.

use crate::digest::{CacheDigest, DigestModel};
use crate::identity::{is_identity, same_identity, FileIdentity, IdentityModel};
use crate::path::same_place;
use crate::views::opt_view;
use vstd::prelude::*;

verus! {

/// A content observation established for one file object.
///
/// An observation is the unit used when a caller needs to compare a file
/// before and after an operation. The digest is never returned (or recorded in
/// a digest cache) until the read that produced it has been associated
/// with the identity of the file that was read. A changing file therefore
/// yields a would-block failure instead of a potentially mismatched
/// identity/digest pair. As with ordinary build-tool freshness checks, this
/// assumes inputs are not adversarially changed and restored, including their
/// observable timestamps, entirely between observations.
#[derive(Debug, Clone, PartialEq, Eq)]
pub struct FileObservation {
    /// Identity of the file object observed while reading its contents.
    pub identity: FileIdentity,
    /// Content digest read from that file object.
    pub digest: CacheDigest,
}

/// What a [`FileObservation`] says.
pub struct ObservationModel {
    pub identity: IdentityModel,
    pub digest: DigestModel,
}

impl View for FileObservation {
    type V = ObservationModel;

    open spec fn view(&self) -> ObservationModel {
        ObservationModel { identity: self.identity@, digest: self.digest@ }
    }
}

/// How a later input observation compares with an earlier one.
#[derive(Debug, Clone, Copy, PartialEq, Eq, Structural)]
pub enum FileObservationMatch {
    /// The bytes and file object are compatible with reuse.
    Reusable,
    /// The later digest proves that the input bytes differ.
    Changed,
    /// The bytes match, but the available identity cannot establish that the
    /// same file object was observed (for example, a local replacement where
    /// no object identity is available).
    Indeterminate,
}

/// Result of observing an input under a digest scope.
///
/// C/C++ input scanning has one additional result: a timestamp preprocessor
/// macro makes the digest unsuitable for action reuse. Keeping that result in
/// the shared observation layer lets both compiler adapters use the same
/// identity/read validation without duplicating the scan.
#[derive(Debug, Clone, PartialEq, Eq)]
pub enum FileObservationResolution {
    /// A validated file observation.
    Observation(FileObservation),
    /// A C/C++ input contains a time-dependent preprocessor macro.
    EmbeddedTimestampMacro,
}

/// What a [`FileObservationResolution`] says.
pub enum ObservedModel {
    Observation(ObservationModel),
    EmbeddedTimestampMacro,
}

impl View for FileObservationResolution {
    type V = ObservedModel;

    open spec fn view(&self) -> ObservedModel {
        match self {
            FileObservationResolution::Observation(observation) => ObservedModel::Observation(
                observation@,
            ),
            FileObservationResolution::EmbeddedTimestampMacro => {
                ObservedModel::EmbeddedTimestampMacro
            },
        }
    }
}

/// Whether two identities are of one file object at one place, of one length.
pub open spec fn same_file_object(left: IdentityModel, right: IdentityModel) -> bool {
    &&& same_place(left.path, right.path)
    &&& left.len == right.len
    &&& left.object is Some
    &&& left.object == right.object
}

/// How a later identity and digest compare with an observation.
pub open spec fn comparison(
    observation: ObservationModel,
    identity: Option<IdentityModel>,
    digest: DigestModel,
) -> FileObservationMatch {
    if observation.digest != digest {
        FileObservationMatch::Changed
    } else {
        match identity {
            Some(identity) => if observation.digest.size == observation.identity.len && digest.size
                == identity.len && (same_identity(observation.identity, identity)
                || same_file_object(observation.identity, identity)) {
                FileObservationMatch::Reusable
            } else {
                FileObservationMatch::Indeterminate
            },
            None => FileObservationMatch::Indeterminate,
        }
    }
}

/// An optional identity by reference, viewed.
pub open spec fn identity_given(identity: Option<&FileIdentity>) -> Option<IdentityModel> {
    match identity {
        Some(identity) => Some(identity@),
        None => None,
    }
}

impl FileObservation {
    /// Classify a later identity and digest against this observation.
    ///
    /// Timestamps are intentionally excluded from this comparison. The digest
    /// establishes the bytes, while the path, length, and object
    /// identity ensure that the comparison did not silently cross a replaced
    /// file. Cache lookup still uses the complete platform-specific identity.
    /// Matching endpoints cannot prove that a writer briefly changed and then
    /// restored the same object while the compiler ran; normal builds are
    /// assumed not to perform that adversarial sequence.
    pub fn compare(
        &self,
        identity: Option<&FileIdentity>,
        digest: &CacheDigest,
    ) -> (outcome: FileObservationMatch)
        ensures
            outcome == comparison(self@, identity_given(identity), digest@),
    {
        let identity = match identity {
            Some(identity) => identity,
            None => {
                return if self.digest == *digest {
                    FileObservationMatch::Indeterminate
                } else {
                    FileObservationMatch::Changed
                };
            },
        };
        if self.digest != *digest {
            return FileObservationMatch::Changed;
        }
        if self.digest.size != self.identity.len || digest.size != identity.len {
            return FileObservationMatch::Indeterminate;
        }
        if self.identity == *identity || (self.identity.path == identity.path && self.identity.len
            == identity.len && self.identity.names_object_of(identity)) {
            FileObservationMatch::Reusable
        } else {
            FileObservationMatch::Indeterminate
        }
    }

    /// Whether `identity` and `digest` describe a reusable version of this
    /// observation.
    pub fn matches(&self, identity: Option<&FileIdentity>, digest: &CacheDigest) -> (reusable: bool)
        ensures
            reusable == (comparison(self@, identity_given(identity), digest@)
                == FileObservationMatch::Reusable),
    {
        self.compare(identity, digest) == FileObservationMatch::Reusable
    }
}

/// What a file looked like at one moment: its identity, and what was observed of its contents
/// where they were read. Where only the identity is known, a later look is compared by that alone.
#[derive(Debug, Clone, PartialEq, Eq)]
pub struct FileSnapshot {
    identity: FileIdentity,
    observation: Option<FileObservation>,
}

/// What a [`FileSnapshot`] says.
pub struct SnapshotModel {
    pub identity: IdentityModel,
    pub observation: Option<ObservationModel>,
}

impl View for FileSnapshot {
    type V = SnapshotModel;

    closed spec fn view(&self) -> SnapshotModel {
        SnapshotModel { identity: self.identity@, observation: opt_view(self.observation) }
    }
}

/// Whether a later identity and digest match a snapshot: as its observation says where it has
/// one, and otherwise where the identity is the snapshot's own.
pub open spec fn snapshot_matches(
    snapshot: SnapshotModel,
    identity: Option<IdentityModel>,
    content: DigestModel,
) -> bool {
    match snapshot.observation {
        Some(observation) => comparison(observation, identity, content)
            == FileObservationMatch::Reusable,
        None => is_identity(identity, snapshot.identity),
    }
}

/// The snapshot of an observation.
pub open spec fn observed_snapshot(observation: ObservationModel) -> SnapshotModel {
    SnapshotModel { identity: observation.identity, observation: Some(observation) }
}

impl FileSnapshot {
    /// The snapshot of an observation.
    pub fn of_observation(observation: FileObservation) -> (snapshot: FileSnapshot)
        ensures
            snapshot@ == observed_snapshot(observation@),
    {
        FileSnapshot {
            identity: observation.identity.duplicate(),
            observation: Some(observation),
        }
    }

    /// Whether a later identity and digest still match this snapshot.
    pub fn matches(&self, identity: Option<&FileIdentity>, content: &CacheDigest) -> (reusable:
        bool)
        ensures
            reusable == snapshot_matches(self@, identity_given(identity), content@),
    {
        match &self.observation {
            Some(observation) => observation.matches(identity, content),
            None => match identity {
                Some(identity) => *identity == self.identity,
                None => false,
            },
        }
    }

    /// Whether this snapshot carries content evidence for a later comparison.
    pub fn proves_content_change(&self) -> (proves: bool)
        ensures
            proves == (self@.observation is Some || self@.identity.changed is Some),
    {
        self.observation.is_some() || self.identity.changed.is_some()
    }
}

impl From<FileIdentity> for FileSnapshot {
    fn from(identity: FileIdentity) -> (snapshot: FileSnapshot)
        ensures
            snapshot@ == (SnapshotModel { identity: identity@, observation: None }),
    {
        FileSnapshot { identity, observation: None }
    }
}

impl vstd::std_specs::convert::FromSpecImpl<FileIdentity> for FileSnapshot {
    open spec fn obeys_from_spec() -> bool {
        true
    }

    closed spec fn from_spec(identity: FileIdentity) -> FileSnapshot {
        FileSnapshot { identity, observation: None }
    }
}

} // verus!
