//! What models say of the values that they stand for.

use crate::capture::{
    contents_view, next_need, needed, CaptureEvidence, CaptureNeed, EvidenceModel, Inspection,
    NeedModel, OpenedContents, RunModel,
};
use crate::content::{piece_model, DigestedFile};
use crate::depfile::DepfileTarget;
use crate::diagnostics::{AgentRequest, RequestModel};
use crate::digest::{CacheDigest, DigestModel};
use crate::directives::{outcome_model, read_model};
use crate::error::{BypassModel, CcBypassReason, IoError, IoErrorModel};
use crate::identity::{
    status_view, FileIdentity, FileMetadata, FileTime, LinuxStatx, MetadataModel, PathReading,
};
use crate::inputs::{inputs_given, CcActionInput};
use crate::ledger::RecordedFileDigest;
use crate::manifest_memo::{visited_view, DirectoryIdentity, IncludeManifest};
use crate::manifest_run::{digests_view, manifests_map};
use crate::manifest_walk::{entries_view, listing_view, DirectoryEntry, EntryModel};
use crate::observation::{
    identity_given, FileObservation, FileObservationResolution, ObservationModel, ObservedModel,
};
use crate::path::{path_parts, FilePath, PathComponent, PathPart};
use crate::text::{lossy_text, shown_text};
use vstd::prelude::*;
use vstd::utf8::{encode_utf8, valid_utf8};

verus! {

/// Metadata, looks and identities say field by field what they hold.
pub proof fn looks_say_what_they_hold(
    metadata: FileMetadata,
    reading: PathReading,
    identity: FileIdentity,
    inspection: Inspection,
)
    ensures
        metadata@.is_file == metadata.is_file,
        metadata@.is_dir == metadata.is_dir,
        metadata@.len == metadata.len,
        metadata@.details == metadata.details,
        match metadata.modified {
            Ok(time) => metadata@.modified == Ok::<FileTime, IoErrorModel>(time),
            Err(error) => metadata@.modified == Err::<FileTime, IoErrorModel>(error@),
        },
        match reading.metadata {
            Ok(metadata) => reading@.metadata == Ok::<MetadataModel, IoErrorModel>(metadata@),
            Err(error) => reading@.metadata == Err::<MetadataModel, IoErrorModel>(error@),
        },
        match reading.status {
            None => reading@.status is None,
            Some(Ok(status)) => reading@.status == Some(Ok::<LinuxStatx, IoErrorModel>(status)),
            Some(Err(error)) => reading@.status == Some(Err::<LinuxStatx, IoErrorModel>(error@)),
        },
        status_view(reading.status) == reading@.status,
        identity@.path == identity.path@,
        identity@.len == identity.len,
        identity@.modified == identity.modified,
        identity@.changed == identity.changed,
        identity@.object == identity.object,
        identity_given(Some(&identity)) == Some(identity@),
        identity_given(None) is None,
        inspection@.path == inspection.path@,
        inspection@.reading == inspection.reading@,
        match inspection.unreliable {
            Ok(unreliable) => inspection@.unreliable == Ok::<bool, IoErrorModel>(unreliable),
            Err(error) => inspection@.unreliable == Err::<bool, IoErrorModel>(error@),
        },
{
}

/// Observations, digests and inputs say field by field what they hold.
pub proof fn observations_say_what_they_hold(
    observation: FileObservation,
    observed: FileObservationResolution,
    digest: CacheDigest,
    record: RecordedFileDigest,
    input: CcActionInput,
    inputs: Seq<&CcActionInput>,
    at: int,
)
    ensures
        observation@.identity == observation.identity@,
        observation@.digest == observation.digest@,
        match observed {
            FileObservationResolution::Observation(observation) => observed@
                == ObservedModel::Observation(observation@),
            FileObservationResolution::EmbeddedTimestampMacro => observed@
                == ObservedModel::EmbeddedTimestampMacro,
        },
        digest@.algorithm == digest.algorithm@,
        digest@.hash == digest.hash@,
        digest@.size == digest.size,
        record@.file == record.file@,
        record@.digest == record.digest@,
        input@.path == input.path@,
        input@.digest == input.digest@,
        inputs_given(inputs).len() == inputs.len(),
        0 <= at < inputs.len() ==> inputs_given(inputs)[at] == inputs[at]@,
{
}

/// Needs and evidence say what they are, and what a run needs next is what its next input does.
pub proof fn captures_say_what_they_need(
    need: CaptureNeed,
    evidence: CaptureEvidence,
    run: RunModel,
    file: DigestedFile,
    opened: OpenedContents,
)
    ensures
        match need {
            CaptureNeed::Nothing => need@ == NeedModel::Nothing,
            CaptureNeed::Look { path, unreliable } => need@ == (NeedModel::Look {
                path: path@,
                unreliable,
            }),
            CaptureNeed::Read { path, unreliable } => need@ == (NeedModel::Read {
                path: path@,
                unreliable,
            }),
        },
        match evidence {
            CaptureEvidence::Nothing => evidence@ == EvidenceModel::Nothing,
            CaptureEvidence::Look(reading) => evidence@ == EvidenceModel::Look(reading@),
            CaptureEvidence::Read { file: Ok(file), reading } => evidence@ == (
            EvidenceModel::Read { file: Ok(file@), reading: reading@ }),
            CaptureEvidence::Read { file: Err(error), reading } => evidence@ == (
            EvidenceModel::Read { file: Err(error@), reading: reading@ }),
        },
        next_need(run) == needed(
            run.scope,
            run.inputs[run.observed.len() as int],
            run.resolutions[run.observed.len() as int],
        ),
        file@.before == file.before@,
        file@.after == file.after@,
        file@.scope == file.content.scope(),
        file@.content == file.content.content(),
        opened@.before == opened.before@,
        opened@.contents == opened.contents@,
        opened@.after == opened.after@,
{
}

/// A capture that keeps the contents says what was observed and what was kept.
pub proof fn kept_contents_say_what_they_are(
    observation: FileObservation,
    contents: Vec<u8>,
    error: IoError,
)
    ensures
        contents_view(Ok(Some((observation, contents)))) == Ok::<
            Option<(ObservationModel, Seq<u8>)>,
            IoErrorModel,
        >(Some((observation@, contents@))),
        contents_view(Ok(None)) == Ok::<Option<(ObservationModel, Seq<u8>)>, IoErrorModel>(None),
        contents_view(Err(error)) == Err::<Option<(ObservationModel, Seq<u8>)>, IoErrorModel>(
            error@,
        ),
{
}

/// Reads say which bytes they gave, or how they failed.
pub proof fn reads_say_what_they_gave(piece: &[u8], error: IoError, reason: CcBypassReason)
    ensures
        piece_model(Ok(piece)) == Ok::<Seq<u8>, IoErrorModel>(piece@),
        piece_model(Err(error)) == Err::<Seq<u8>, IoErrorModel>(error@),
        read_model(Ok(piece)) == Ok::<Seq<u8>, Seq<char>>(piece@),
        read_model(Err(error)) == Err::<Seq<u8>, Seq<char>>(error@.message),
        outcome_model(Ok(true)) == Ok::<bool, BypassModel>(true),
        outcome_model(Ok(false)) == Ok::<bool, BypassModel>(false),
        outcome_model(Err(reason)) == Err::<bool, BypassModel>(reason@),
{
}

/// Listings and visits say entry by entry what they hold.
pub proof fn listings_say_what_they_hold(
    entry: DirectoryEntry,
    entries: Vec<Result<DirectoryEntry, IoError>>,
    visited: Seq<(FilePath, Option<DirectoryIdentity>)>,
    error: IoError,
    at: int,
)
    ensures
        entry@.name == entry.name@,
        match entry.is_dir {
            Ok(is_dir) => entry@.is_dir == Ok::<bool, IoErrorModel>(is_dir),
            Err(error) => entry@.is_dir == Err::<bool, IoErrorModel>(error@),
        },
        listing_view(Ok(entries)) == Ok::<Seq<Result<EntryModel, IoErrorModel>>, IoErrorModel>(
            entries_view(entries@),
        ),
        listing_view(Err(error)) == Err::<Seq<Result<EntryModel, IoErrorModel>>, IoErrorModel>(
            error@,
        ),
        entries_view(entries@).len() == entries@.len(),
        0 <= at < entries@.len() ==> (match entries@[at] {
            Ok(entry) => entries_view(entries@)[at] == Ok::<EntryModel, IoErrorModel>(entry@),
            Err(error) => entries_view(entries@)[at] == Err::<EntryModel, IoErrorModel>(error@),
        }),
        visited_view(visited).len() == visited.len(),
        0 <= at < visited.len() ==> visited_view(visited)[at] == (visited[at].0@, visited[at].1),
{
}

/// Manifests map each directory's place to its own digest, the last of several at one place.
pub proof fn manifests_are_mapped_by_place(
    manifest: IncludeManifest,
    directories: Seq<Seq<u8>>,
    digests: Seq<DigestModel>,
    directory: Seq<u8>,
    digest: DigestModel,
    map: Map<Seq<PathPart>, CacheDigest>,
    place: Seq<PathPart>,
)
    requires
        digests.len() == directories.len(),
    ensures
        manifest@.digest == manifest.digest@,
        manifest@.budget == manifest.budget,
        manifests_map(Seq::empty(), Seq::empty()) == Map::<Seq<PathPart>, DigestModel>::empty(),
        ({
            let longer = manifests_map(directories.push(directory), digests.push(digest));
            &&& longer.contains_key(path_parts(directory))
            &&& longer[path_parts(directory)] == digest
            &&& place != path_parts(directory) ==> longer.contains_key(place) == manifests_map(
                directories,
                digests,
            ).contains_key(place) && longer[place] == manifests_map(directories, digests)[place]
        }),
        digests_view(map).contains_key(place) == map.contains_key(place),
        map.contains_key(place) ==> digests_view(map)[place] == map[place]@,
{
    assert(directories.push(directory).drop_last() =~= directories);
    assert(digests.push(digest).drop_last() =~= digests);
}

/// Components, targets and requests say what they are.
pub proof fn components_say_what_they_are(
    component: PathComponent,
    target: DepfileTarget,
    request: AgentRequest,
)
    ensures
        match component {
            PathComponent::RootDir => component@ == PathPart::Root,
            PathComponent::CurDir => component@ == PathPart::Current,
            PathComponent::ParentDir => component@ == PathPart::Parent,
            PathComponent::Normal(name) => component@ == PathPart::Name(name@),
        },
        target@.name == target.name@,
        target@.quoted == target.quoted,
        match request {
            AgentRequest::RecordWarning { message } => request@ == RequestModel::RecordWarning(
                message@,
            ),
            AgentRequest::RecordError { message } => request@ == RequestModel::RecordError(message@),
        },
{
}

/// Bytes are shown as the text that they encode, and else with replacements.
pub proof fn bytes_are_shown_as_text(text: Seq<char>, bytes: Seq<u8>)
    ensures
        shown_text(encode_utf8(text)) == text,
        !valid_utf8(bytes) ==> shown_text(bytes) == lossy_text(bytes),
{
    vstd::utf8::encode_utf8_valid_utf8(text);
    vstd::utf8::encode_utf8_decode_utf8(text);
}

} // verus!
