//! Capturing content observations of files.
//!
//! A capture alternates between deciding and looking at the disk. The decisions are here: a
//! [`CaptureRun`] says what it needs next and takes in what was found.

use crate::content::{content_resolution, DigestedFile, FileModel};
use crate::digest::{content_digest, CacheDigest};
use crate::error::{own_error, own_io_error, IoError, IoErrorKind, IoErrorModel};
use crate::identity::{
    cache_identity, current_file_identity, described, digest_cache_identity, handle_is_stable,
    handle_observation_is_stable, identity_read, is_identity, unstable_capture,
    unstable_capture_error, FileIdentity, FileMetadata, IdentityModel, MetadataModel, PathReading,
    ReadingModel,
};
use crate::ledger::{
    FileDigestCache, FileDigestResolution, FileDigestScope, NoFileDigestCache, RecordModel,
    RecordedFileDigest, ResolutionModel,
};
use crate::observation::{
    observed_snapshot, FileObservation, FileObservationResolution, FileSnapshot, ObservationModel,
    ObservedModel, SnapshotModel,
};
use crate::path::FilePath;
use crate::text::shown_text;
use crate::views::{opt_view, opts_view, outcome_view, result_view, seq_view};
use vstd::prelude::*;

verus! {

// Inspection

/// A first look at a path that is to be captured.
#[derive(Debug)]
pub struct Inspection {
    pub path: FilePath,
    pub reading: PathReading,
    /// Whether the path's filesystem has metadata that cannot be relied on.
    pub unreliable: Result<bool, IoError>,
}

/// What an [`Inspection`] says.
pub struct InspectionModel {
    pub path: Seq<u8>,
    pub reading: ReadingModel,
    pub unreliable: Result<bool, IoErrorModel>,
}

impl View for Inspection {
    type V = InspectionModel;

    open spec fn view(&self) -> InspectionModel {
        InspectionModel {
            path: self.path@,
            reading: self.reading@,
            unreliable: outcome_view(self.unreliable),
        }
    }
}

/// A path that is to be captured, once it has been inspected.
struct CaptureInput {
    path: FilePath,
    unreliable: bool,
    cache_identity: Option<FileIdentity>,
    identity: Option<FileIdentity>,
}

/// What is known of a path that is to be captured.
pub struct InputModel {
    pub path: Seq<u8>,
    pub unreliable: bool,
    /// The identity under which a recorded digest may be looked up.
    pub cache_identity: Option<IdentityModel>,
    /// The identity that the path had when it was inspected.
    pub identity: Option<IdentityModel>,
}

impl View for CaptureInput {
    type V = InputModel;

    closed spec fn view(&self) -> InputModel {
        InputModel {
            path: self.path@,
            unreliable: self.unreliable,
            cache_identity: opt_view(self.cache_identity),
            identity: opt_view(self.identity),
        }
    }
}

/// The failure to capture what is not a regular file.
pub open spec fn not_regular(path: Seq<u8>) -> IoErrorModel {
    own_error(
        IoErrorKind::InvalidInput,
        "observation path is not a regular file: "@ + shown_text(path),
    )
}

/// The metadata of a regular file and whether it cannot be relied on, or why neither is known.
pub open spec fn qualified(inspection: InspectionModel) -> Result<
    (MetadataModel, bool),
    IoErrorModel,
> {
    match inspection.reading.metadata {
        Err(error) => Err(error),
        Ok(metadata) => if !metadata.is_file {
            Err(not_regular(inspection.path))
        } else {
            match inspection.unreliable {
                Err(error) => Err(error),
                Ok(unreliable) => Ok((metadata, unreliable)),
            }
        },
    }
}

/// What an inspection establishes of a path, or why it cannot be captured.
pub open spec fn inspected(inspection: InspectionModel) -> Result<InputModel, IoErrorModel> {
    match qualified(inspection) {
        Err(error) => Err(error),
        Ok((metadata, unreliable)) => match cache_identity(
            inspection.path,
            metadata,
            unreliable,
            inspection.reading.status,
        ) {
            Err(error) => Err(error),
            Ok(found) => Ok(
                InputModel {
                    path: inspection.path,
                    unreliable,
                    cache_identity: found,
                    identity: if found is Some {
                        found
                    } else {
                        described(inspection.path, metadata)
                    },
                },
            ),
        },
    }
}

/// What inspections establish of their paths, or the failure of the first that fails.
pub open spec fn all_inspected(inspections: Seq<InspectionModel>) -> Result<
    Seq<InputModel>,
    IoErrorModel,
>
    decreases inspections.len(),
{
    if inspections.len() == 0 {
        Ok(Seq::empty())
    } else {
        match inspected(inspections[0]) {
            Err(error) => Err(error),
            Ok(input) => match all_inspected(inspections.skip(1)) {
                Err(error) => Err(error),
                Ok(inputs) => Ok(seq![input] + inputs),
            },
        }
    }
}

/// The identities that a digest cache is asked for, in the order of the inputs.
pub open spec fn queries(inputs: Seq<InputModel>) -> Seq<IdentityModel>
    decreases inputs.len(),
{
    if inputs.len() == 0 {
        Seq::empty()
    } else {
        match inputs[0].cache_identity {
            Some(identity) => seq![identity] + queries(inputs.skip(1)),
            None => queries(inputs.skip(1)),
        }
    }
}

/// The resolution of each input: the cache's answer for those that it was asked for, as far as it
/// answered.
pub open spec fn assigned(
    inputs: Seq<InputModel>,
    resolutions: Seq<ResolutionModel>,
) -> Seq<ResolutionModel>
    decreases inputs.len(),
{
    if inputs.len() == 0 {
        Seq::empty()
    } else if inputs[0].cache_identity is Some && resolutions.len() > 0 {
        seq![resolutions[0]] + assigned(inputs.skip(1), resolutions.skip(1))
    } else {
        seq![ResolutionModel::Unresolved] + assigned(inputs.skip(1), resolutions)
    }
}

// Settling one input

/// What has to be found out to settle an input.
#[derive(Debug)]
pub enum CaptureNeed {
    /// Nothing more.
    Nothing,
    /// Another look at the path.
    Look { path: FilePath, unreliable: bool },
    /// The file's contents through one handle, and then another look at the path.
    Read { path: FilePath, unreliable: bool },
}

/// What was found out to settle an input.
pub enum CaptureEvidence {
    Nothing,
    Look(PathReading),
    Read { file: Result<DigestedFile, IoError>, reading: PathReading },
}

/// What a [`CaptureNeed`] says.
pub enum NeedModel {
    Nothing,
    Look { path: Seq<u8>, unreliable: bool },
    Read { path: Seq<u8>, unreliable: bool },
}

/// What a [`CaptureEvidence`] says.
pub enum EvidenceModel {
    Nothing,
    Look(ReadingModel),
    Read { file: Result<FileModel, IoErrorModel>, reading: ReadingModel },
}

impl View for CaptureNeed {
    type V = NeedModel;

    open spec fn view(&self) -> NeedModel {
        match self {
            CaptureNeed::Nothing => NeedModel::Nothing,
            CaptureNeed::Look { path, unreliable } => NeedModel::Look {
                path: path@,
                unreliable: *unreliable,
            },
            CaptureNeed::Read { path, unreliable } => NeedModel::Read {
                path: path@,
                unreliable: *unreliable,
            },
        }
    }
}

impl View for CaptureEvidence {
    type V = EvidenceModel;

    open spec fn view(&self) -> EvidenceModel {
        match self {
            CaptureEvidence::Nothing => EvidenceModel::Nothing,
            CaptureEvidence::Look(reading) => EvidenceModel::Look(reading@),
            CaptureEvidence::Read { file, reading } => EvidenceModel::Read {
                file: result_view(*file),
                reading: reading@,
            },
        }
    }
}

/// What has to be found out to settle an input with this resolution.
pub open spec fn needed(
    scope: FileDigestScope,
    input: InputModel,
    resolution: ResolutionModel,
) -> NeedModel {
    match input.identity {
        None => NeedModel::Nothing,
        Some(identity) => match resolution {
            ResolutionModel::Digest(digest) => if digest.size == identity.len {
                NeedModel::Look { path: input.path, unreliable: input.unreliable }
            } else {
                NeedModel::Nothing
            },
            ResolutionModel::EmbeddedTimestampMacro => if scope == FileDigestScope::CcInput {
                NeedModel::Look { path: input.path, unreliable: input.unreliable }
            } else {
                NeedModel::Nothing
            },
            ResolutionModel::Indeterminate => NeedModel::Nothing,
            ResolutionModel::Unresolved => NeedModel::Read {
                path: input.path,
                unreliable: input.unreliable,
            },
        },
    }
}

/// Whether evidence answers a need. Contents count only when they were digested under the scope.
pub open spec fn answers(
    scope: FileDigestScope,
    need: NeedModel,
    evidence: EvidenceModel,
) -> bool {
    match need {
        NeedModel::Nothing => true,
        NeedModel::Look { .. } => evidence is Look,
        NeedModel::Read { .. } => evidence matches EvidenceModel::Read { file, reading } && (
        file matches Ok(file) ==> file.scope == scope),
    }
}

/// What settling an input yields: what was observed, and the pairs that were newly established.
pub struct SettledModel {
    pub observed: Option<ObservedModel>,
    pub fresh: Seq<RecordModel>,
}

/// An input settled without anything new.
pub open spec fn reused(observed: Option<ObservedModel>) -> SettledModel {
    SettledModel { observed, fresh: Seq::empty() }
}

/// A cached outcome, which stands only while the path has the identity it was looked up under.
pub open spec fn cached_outcome(
    input: InputModel,
    identity: IdentityModel,
    observed: ObservedModel,
    evidence: EvidenceModel,
) -> Result<SettledModel, IoErrorModel> {
    match identity_read(input.path, evidence->Look_0, input.unreliable) {
        Err(error) => Err(error),
        Ok(current) => if is_identity(current, identity) {
            Ok(reused(Some(observed)))
        } else {
            Err(unstable_capture())
        },
    }
}

/// The outcome of reading a file, which stands only if the handle and the path agree throughout.
pub open spec fn read_outcome(
    input: InputModel,
    file: FileModel,
    reading: ReadingModel,
) -> Result<SettledModel, IoErrorModel> {
    match identity_read(input.path, reading, input.unreliable) {
        Err(error) => Err(error),
        Ok(None) => Ok(reused(None)),
        Ok(Some(current)) => match handle_is_stable(
            input.path,
            file.before,
            file.after,
            current,
            input.unreliable,
            file.content.len() as u64,
        ) {
            Err(error) => Err(error),
            Ok(false) => Err(unstable_capture()),
            Ok(true) => match content_resolution(file.scope, file.content) {
                ResolutionModel::Digest(digest) => Ok(
                    SettledModel {
                        observed: Some(
                            ObservedModel::Observation(
                                ObservationModel { identity: current, digest },
                            ),
                        ),
                        fresh: seq![RecordModel { file: current, digest }],
                    },
                ),
                _ => Ok(reused(Some(ObservedModel::EmbeddedTimestampMacro))),
            },
        },
    }
}

/// What settling an input yields, or why the whole capture fails.
pub open spec fn settled(
    scope: FileDigestScope,
    input: InputModel,
    resolution: ResolutionModel,
    evidence: EvidenceModel,
) -> Result<SettledModel, IoErrorModel> {
    match input.identity {
        None => Ok(reused(None)),
        Some(identity) => match resolution {
            ResolutionModel::Digest(digest) => if digest.size != identity.len {
                Err(unstable_capture())
            } else {
                cached_outcome(
                    input,
                    identity,
                    ObservedModel::Observation(ObservationModel { identity, digest }),
                    evidence,
                )
            },
            ResolutionModel::EmbeddedTimestampMacro => if scope == FileDigestScope::CcInput {
                cached_outcome(input, identity, ObservedModel::EmbeddedTimestampMacro, evidence)
            } else {
                Err(
                    own_error(
                        IoErrorKind::InvalidData,
                        "content digest resolver returned a cc-only outcome"@,
                    ),
                )
            },
            ResolutionModel::Indeterminate => Err(unstable_capture()),
            ResolutionModel::Unresolved => match evidence->file {
                Err(error) => Err(error),
                Ok(file) => read_outcome(input, file, evidence->Read_reading),
            },
        },
    }
}

// Runs

/// A capture that is under way.
pub struct CaptureRun {
    scope: FileDigestScope,
    inputs: Vec<CaptureInput>,
    resolutions: Vec<FileDigestResolution>,
    observations: Vec<Option<FileObservationResolution>>,
    fresh: Vec<RecordedFileDigest>,
}

/// What a [`CaptureRun`] says.
#[verifier::ext_equal]
pub struct RunModel {
    pub scope: FileDigestScope,
    /// The inputs, in the order in which they were given.
    pub inputs: Seq<InputModel>,
    /// How each input was resolved.
    pub resolutions: Seq<ResolutionModel>,
    /// What has been observed of the inputs that are settled.
    pub observed: Seq<Option<ObservedModel>>,
    /// The pairs that were newly established.
    pub fresh: Seq<RecordModel>,
}

impl View for CaptureRun {
    type V = RunModel;

    closed spec fn view(&self) -> RunModel {
        RunModel {
            scope: self.scope,
            inputs: seq_view(self.inputs@),
            resolutions: seq_view(self.resolutions@),
            observed: opts_view(self.observations@),
            fresh: seq_view(self.fresh@),
        }
    }
}

/// Whether every input is settled.
pub open spec fn is_finished(run: RunModel) -> bool {
    run.observed.len() == run.inputs.len()
}

/// A run before anything is settled.
pub open spec fn started(
    scope: FileDigestScope,
    inputs: Seq<InputModel>,
    resolutions: Seq<ResolutionModel>,
) -> RunModel {
    RunModel {
        scope,
        inputs,
        resolutions: assigned(inputs, resolutions),
        observed: Seq::empty(),
        fresh: Seq::empty(),
    }
}

/// What the next input needs.
pub open spec fn next_need(run: RunModel) -> NeedModel {
    let next = run.observed.len() as int;
    needed(run.scope, run.inputs[next], run.resolutions[next])
}

/// The run once its next input is settled, or why the capture fails.
pub open spec fn next_run(run: RunModel, evidence: EvidenceModel) -> Result<
    RunModel,
    IoErrorModel,
> {
    let next = run.observed.len() as int;
    match settled(run.scope, run.inputs[next], run.resolutions[next], evidence) {
        Err(error) => Err(error),
        Ok(step) => Ok(
            RunModel {
                scope: run.scope,
                inputs: run.inputs,
                resolutions: run.resolutions,
                observed: run.observed.push(step.observed),
                fresh: run.fresh + step.fresh,
            },
        ),
    }
}

/// Whether nothing that was observed is a timestamp macro.
pub open spec fn holds_no_macro(observed: Seq<Option<ObservedModel>>) -> bool {
    forall|i: int|
        0 <= i < observed.len() ==> #[trigger] observed[i] != Some(
            ObservedModel::EmbeddedTimestampMacro,
        )
}

/// The observations among results that hold no timestamp macro.
pub open spec fn observations_of(observed: Seq<Option<ObservedModel>>) -> Seq<
    Option<ObservationModel>,
> {
    observed.map_values(
        |result: Option<ObservedModel>|
            match result {
                Some(ObservedModel::Observation(observation)) => Some(observation),
                _ => None,
            },
    )
}

/// The last of several results, if there is one.
pub open spec fn last_of<T>(results: Seq<Option<T>>) -> Option<T> {
    if results.len() == 0 {
        None
    } else {
        results.last()
    }
}

/// Whether a run began as it should: with the failure of the first inspection that fails, or
/// with the answers that the cache gave when it was asked for exactly the identities of the
/// inputs.
pub open spec fn began<D: FileDigestCache + ?Sized>(
    run: Result<CaptureRun, IoError>,
    scope: FileDigestScope,
    inspections: Seq<InspectionModel>,
    digests: &D,
) -> bool {
    match run {
        Err(error) => all_inspected(inspections) == Err::<Seq<InputModel>, IoErrorModel>(error@),
        Ok(run) => {
            &&& all_inspected(inspections) is Ok
            &&& exists|files: &[FileIdentity], answer: Vec<FileDigestResolution>|
                {
                    &&& #[trigger] call_ensures(D::resolve, (digests, scope, files), answer)
                    &&& seq_view(files@) == queries(all_inspected(inspections)->Ok_0)
                    &&& run@ == started(
                        scope,
                        all_inspected(inspections)->Ok_0,
                        seq_view(answer@),
                    )
                }
        },
    }
}

/// Whether the cache was handed exactly the pairs that a run newly established, if any.
pub open spec fn recorded<D: FileDigestCache + ?Sized>(
    digests: &D,
    scope: FileDigestScope,
    fresh: Seq<RecordModel>,
) -> bool {
    fresh.len() > 0 ==> exists|entries: Vec<RecordedFileDigest>|
        #[trigger] call_ensures(D::record, (digests, scope, entries), ()) && seq_view(entries@)
            == fresh
}

impl Inspection {
    /// The metadata of a regular file and whether it cannot be relied on, or why neither is known.
    fn metadata(&self) -> (outcome: Result<(&FileMetadata, bool), IoError>)
        ensures
            match outcome {
                Ok((metadata, unreliable)) => qualified(self@) == Ok::<
                    (MetadataModel, bool),
                    IoErrorModel,
                >((metadata@, unreliable)),
                Err(error) => qualified(self@) == Err::<(MetadataModel, bool), IoErrorModel>(
                    error@,
                ),
            },
    {
        match &self.reading.metadata {
            Err(error) => Err(error.duplicate()),
            Ok(metadata) => {
                if !metadata.is_file {
                    let mut message = "observation path is not a regular file: ".to_owned();
                    message.append(self.path.to_text_lossy().as_str());
                    return Err(own_io_error(IoErrorKind::InvalidInput, message.as_str()));
                }
                match &self.unreliable {
                    Err(error) => Err(error.duplicate()),
                    Ok(unreliable) => Ok((metadata, *unreliable)),
                }
            },
        }
    }

    /// Whether the metadata of what is to be read cannot be relied on, or why it must not be read.
    ///
    /// What is not a regular file is never opened.
    pub fn qualify(&self) -> (unreliable: Result<bool, IoError>)
        ensures
            outcome_view(unreliable) == (match qualified(self@) {
                Ok((_, unreliable)) => Ok::<bool, IoErrorModel>(unreliable),
                Err(error) => Err::<bool, IoErrorModel>(error),
            }),
    {
        match self.metadata() {
            Ok((_, unreliable)) => Ok(unreliable),
            Err(error) => Err(error),
        }
    }
}

/// What an inspection establishes of a path, or why it cannot be captured.
fn inspect(inspection: &Inspection) -> (input: Result<CaptureInput, IoError>)
    ensures
        result_view(input) == inspected(inspection@),
{
    let (metadata, unreliable) = match inspection.metadata() {
        Ok(outcome) => outcome,
        Err(error) => {
            return Err(error);
        },
    };
    let found = match digest_cache_identity(
        &inspection.path,
        metadata,
        unreliable,
        &inspection.reading.status,
    ) {
        Ok(found) => found,
        Err(error) => {
            return Err(error);
        },
    };
    let identity = match &found {
        Some(identity) => Some(identity.duplicate()),
        None => FileIdentity::describe(&inspection.path, metadata),
    };
    Ok(
        CaptureInput {
            path: inspection.path.duplicate(),
            unreliable,
            cache_identity: found,
            identity,
        },
    )
}

/// Inspections with some of their results put in front.
spec fn inspected_behind(
    done: Seq<InputModel>,
    rest: Seq<InspectionModel>,
) -> Result<Seq<InputModel>, IoErrorModel> {
    match all_inspected(rest) {
        Err(error) => Err(error),
        Ok(inputs) => Ok(done + inputs),
    }
}

/// What inspections establish of their paths, or the failure of the first that fails.
fn inspect_all(inspections: &[Inspection]) -> (inputs: Result<Vec<CaptureInput>, IoError>)
    ensures
        match inputs {
            Ok(inputs) => all_inspected(seq_view(inspections@)) == Ok::<
                Seq<InputModel>,
                IoErrorModel,
            >(seq_view(inputs@)),
            Err(error) => all_inspected(seq_view(inspections@)) == Err::<
                Seq<InputModel>,
                IoErrorModel,
            >(error@),
        },
{
    let ghost all = seq_view(inspections@);
    let mut inputs: Vec<CaptureInput> = Vec::new();
    let mut i: usize = 0;
    proof {
        assert(all.skip(0) =~= all);
        if let Ok(list) = all_inspected(all) {
            assert(seq_view(inputs@) + list =~= list);
        }
    }
    while i < inspections.len()
        invariant
            i <= inspections@.len(),
            all == seq_view(inspections@),
            all_inspected(all) == inspected_behind(seq_view(inputs@), all.skip(i as int)),
        decreases inspections@.len() - i,
    {
        let ghost before = seq_view(inputs@);
        proof {
            assert(all.skip(i as int)[0] == inspections@[i as int]@);
            assert(all.skip(i as int).skip(1) =~= all.skip(i + 1));
        }
        match inspect(&inspections[i]) {
            Err(error) => {
                return Err(error);
            },
            Ok(input) => {
                let ghost model = input@;
                inputs.push(input);
                proof {
                    assert(seq_view(inputs@) =~= before.push(model));
                    if let Ok(list) = all_inspected(all.skip(i + 1)) {
                        assert(before + (seq![model] + list) =~= seq_view(inputs@) + list);
                    }
                }
            },
        }
        i += 1;
    }
    assert(all.skip(i as int) =~= Seq::<InspectionModel>::empty());
    assert(seq_view(inputs@) + Seq::<InputModel>::empty() =~= seq_view(inputs@));
    Ok(inputs)
}

/// The identities that a digest cache is asked for.
fn list_queries(inputs: &Vec<CaptureInput>) -> (files: Vec<FileIdentity>)
    ensures
        seq_view(files@) == queries(seq_view(inputs@)),
{
    let ghost all = seq_view(inputs@);
    let mut files: Vec<FileIdentity> = Vec::new();
    let mut i: usize = 0;
    proof {
        assert(all.skip(0) =~= all);
        assert(seq_view(files@) + queries(all) =~= queries(all));
    }
    while i < inputs.len()
        invariant
            i <= inputs@.len(),
            all == seq_view(inputs@),
            queries(all) == seq_view(files@) + queries(all.skip(i as int)),
        decreases inputs@.len() - i,
    {
        let ghost before = seq_view(files@);
        proof {
            assert(all.skip(i as int)[0] == inputs@[i as int]@);
            assert(all.skip(i as int).skip(1) =~= all.skip(i + 1));
        }
        if let Some(identity) = &inputs[i].cache_identity {
            files.push(identity.duplicate());
            proof {
                assert(seq_view(files@) =~= before.push(identity@));
                assert(before + (seq![identity@] + queries(all.skip(i + 1))) =~= seq_view(files@)
                    + queries(all.skip(i + 1)));
            }
        }
        i += 1;
    }
    assert(all.skip(i as int) =~= Seq::<InputModel>::empty());
    assert(seq_view(files@) + Seq::<IdentityModel>::empty() =~= seq_view(files@));
    files
}

/// The resolution of each input, from the cache's answers.
fn assign(inputs: &Vec<CaptureInput>, answer: &Vec<FileDigestResolution>) -> (resolutions: Vec<
    FileDigestResolution,
>)
    ensures
        seq_view(resolutions@) == assigned(seq_view(inputs@), seq_view(answer@)),
{
    let ghost all = seq_view(inputs@);
    let ghost given = seq_view(answer@);
    let ghost goal = assigned(all, given);
    let mut resolutions: Vec<FileDigestResolution> = Vec::new();
    let mut i: usize = 0;
    let mut used: usize = 0;
    proof {
        assert(all.skip(0) =~= all);
        assert(given.skip(0) =~= given);
        assert(seq_view(resolutions@) + goal =~= goal);
    }
    while i < inputs.len()
        invariant
            i <= inputs@.len(),
            used <= answer@.len(),
            all == seq_view(inputs@),
            given == seq_view(answer@),
            goal == seq_view(resolutions@) + assigned(all.skip(i as int), given.skip(used as int)),
        decreases inputs@.len() - i,
    {
        let ghost before = seq_view(resolutions@);
        proof {
            assert(all.skip(i as int)[0] == inputs@[i as int]@);
            assert(all.skip(i as int).skip(1) =~= all.skip(i + 1));
        }
        let ghost rest = given.skip(used as int);
        if inputs[i].cache_identity.is_some() && used < answer.len() {
            resolutions.push(answer[used].duplicate());
            proof {
                assert(rest[0] == answer@[used as int]@);
                assert(rest.skip(1) =~= given.skip(used + 1));
                assert(seq_view(resolutions@) =~= before.push(rest[0]));
                assert(before + (seq![rest[0]] + assigned(all.skip(i + 1), rest.skip(1)))
                    =~= seq_view(resolutions@) + assigned(all.skip(i + 1), rest.skip(1)));
            }
            used += 1;
        } else {
            resolutions.push(FileDigestResolution::Unresolved);
            proof {
                assert(seq_view(resolutions@) =~= before.push(ResolutionModel::Unresolved));
                assert(before + (seq![ResolutionModel::Unresolved] + assigned(
                    all.skip(i + 1),
                    rest,
                )) =~= seq_view(resolutions@) + assigned(all.skip(i + 1), rest));
            }
        }
        i += 1;
    }
    assert(all.skip(i as int) =~= Seq::<InputModel>::empty());
    assert(seq_view(resolutions@) + Seq::<ResolutionModel>::empty() =~= seq_view(resolutions@));
    resolutions
}

proof fn lemma_assigned_length(inputs: Seq<InputModel>, resolutions: Seq<ResolutionModel>)
    ensures
        assigned(inputs, resolutions).len() == inputs.len(),
    decreases inputs.len(),
{
    if inputs.len() > 0 {
        lemma_assigned_length(inputs.skip(1), resolutions);
        if resolutions.len() > 0 {
            lemma_assigned_length(inputs.skip(1), resolutions.skip(1));
        }
    }
}

/// A cached outcome, which stands only while the path has the identity it was looked up under.
fn confirm(
    input: &CaptureInput,
    identity: &FileIdentity,
    evidence: &CaptureEvidence,
) -> (confirmed: Result<(), IoError>)
    requires
        evidence@ is Look,
    ensures
        forall|observed: ObservedModel|
            #![trigger cached_outcome(input@, identity@, observed, evidence@)]
            cached_outcome(input@, identity@, observed, evidence@) == (match confirmed {
                Ok(_) => Ok::<SettledModel, IoErrorModel>(reused(Some(observed))),
                Err(error) => Err::<SettledModel, IoErrorModel>(error@),
            }),
{
    match evidence {
        CaptureEvidence::Look(reading) => match current_file_identity(
            &input.path,
            reading,
            input.unreliable,
        ) {
            Err(error) => Err(error),
            Ok(Some(current)) => if current == *identity {
                Ok(())
            } else {
                Err(unstable_capture_error())
            },
            Ok(None) => Err(unstable_capture_error()),
        },
        _ => Err(unstable_capture_error()),
    }
}

/// An observed result together with the pair that was newly established for it, if any.
type Settled = (Option<FileObservationResolution>, Option<RecordedFileDigest>);

/// The view of a settled input.
spec fn settled_view(step: Settled) -> SettledModel {
    SettledModel {
        observed: opt_view(step.0),
        fresh: match step.1 {
            Some(record) => seq![record@],
            None => Seq::empty(),
        },
    }
}

/// The view of an attempt to settle an input.
spec fn attempt_view(step: Result<Settled, IoError>) -> Result<SettledModel, IoErrorModel> {
    match step {
        Ok(step) => Ok(settled_view(step)),
        Err(error) => Err(error@),
    }
}

/// Settle an input from a read of its file.
fn settle_read(input: &CaptureInput, file: DigestedFile, reading: &PathReading) -> (step: Result<
    Settled,
    IoError,
>)
    ensures
        attempt_view(step) == read_outcome(input@, file@, reading@),
{
    let current = match current_file_identity(&input.path, reading, input.unreliable) {
        Ok(Some(current)) => current,
        Ok(None) => {
            return Ok((None, None));
        },
        Err(error) => {
            return Err(error);
        },
    };
    match handle_observation_is_stable(
        &input.path,
        &file.before,
        &file.after,
        &current,
        input.unreliable,
        file.content.size(),
    ) {
        Ok(true) => {},
        Ok(false) => {
            return Err(unstable_capture_error());
        },
        Err(error) => {
            return Err(error);
        },
    }
    match file.content.resolution().into_digest() {
        Some(digest) => {
            // The digest has now been checked against both the handle and the
            // pathname. Recording it under `current` is important on NFS,
            // where mtime may reconcile while a read is in progress: the
            // bytes belong to the object, length, and final identity observed.
            let record = RecordedFileDigest {
                file: current.duplicate(),
                digest: digest.duplicate(),
            };
            Ok(
                (
                    Some(
                        FileObservationResolution::Observation(
                            FileObservation { identity: current, digest },
                        ),
                    ),
                    Some(record),
                ),
            )
        },
        None => Ok((Some(FileObservationResolution::EmbeddedTimestampMacro), None)),
    }
}

/// Settle an input.
fn settle_input(
    scope: FileDigestScope,
    input: &CaptureInput,
    resolution: &FileDigestResolution,
    evidence: CaptureEvidence,
) -> (step: Result<Settled, IoError>)
    requires
        answers(scope, needed(scope, input@, resolution@), evidence@),
    ensures
        attempt_view(step) == settled(scope, input@, resolution@, evidence@),
{
    let identity = match &input.identity {
        Some(identity) => identity,
        None => {
            return Ok((None, None));
        },
    };
    match resolution {
        FileDigestResolution::Digest(digest) => {
            if digest.size != identity.len {
                return Err(unstable_capture_error());
            }
            let observation = FileObservation {
                identity: identity.duplicate(),
                digest: digest.duplicate(),
            };
            match confirm(input, identity, &evidence) {
                Ok(_) => Ok((Some(FileObservationResolution::Observation(observation)), None)),
                Err(error) => Err(error),
            }
        },
        FileDigestResolution::EmbeddedTimestampMacro => {
            if scope != FileDigestScope::CcInput {
                return Err(
                    own_io_error(
                        IoErrorKind::InvalidData,
                        "content digest resolver returned a cc-only outcome",
                    ),
                );
            }
            // A cached macro result carries no content digest, but it
            // is still valid only for the identity used to resolve
            // it. Do not rescan the file and lose batch coalescing.
            match confirm(input, identity, &evidence) {
                Ok(_) => Ok((Some(FileObservationResolution::EmbeddedTimestampMacro), None)),
                Err(error) => Err(error),
            }
        },
        FileDigestResolution::Indeterminate => Err(unstable_capture_error()),
        FileDigestResolution::Unresolved => match evidence {
            CaptureEvidence::Read { file: Ok(file), reading } => settle_read(input, file, &reading),
            CaptureEvidence::Read { file: Err(error), .. } => Err(error),
            _ => Err(unstable_capture_error()),
        },
    }
}

impl CaptureRun {
    #[verifier::type_invariant]
    spec fn well_formed(self) -> bool {
        &&& self.inputs@.len() == self.resolutions@.len()
        &&& self.observations@.len() <= self.inputs@.len()
        &&& self.scope == FileDigestScope::Content ==> holds_no_macro(opts_view(self.observations@))
    }

    /// The scope of the capture.
    pub fn scope(&self) -> (scope: FileDigestScope)
        ensures
            scope == self@.scope,
    {
        self.scope
    }

    /// What the next input needs; nothing once every input is settled.
    pub fn need(&self) -> (need: Option<CaptureNeed>)
        ensures
            need is None <==> is_finished(self@),
            need matches Some(need) ==> need@ == next_need(self@) && self@.observed.len()
                < self@.inputs.len(),
    {
        proof {
            use_type_invariant(self);
        }
        let next: usize = self.observations.len();
        if next == self.inputs.len() {
            return None;
        }
        let input = &self.inputs[next];
        proof {
            assert(self@.inputs[next as int] == input@);
            assert(self@.resolutions[next as int] == self.resolutions@[next as int]@);
        }
        let identity = match &input.identity {
            Some(identity) => identity,
            None => {
                return Some(CaptureNeed::Nothing);
            },
        };
        let look = match &self.resolutions[next] {
            FileDigestResolution::Digest(digest) => digest.size == identity.len,
            FileDigestResolution::EmbeddedTimestampMacro => self.scope == FileDigestScope::CcInput,
            FileDigestResolution::Indeterminate => false,
            FileDigestResolution::Unresolved => {
                return Some(
                    CaptureNeed::Read {
                        path: input.path.duplicate(),
                        unreliable: input.unreliable,
                    },
                );
            },
        };
        if look {
            Some(CaptureNeed::Look { path: input.path.duplicate(), unreliable: input.unreliable })
        } else {
            Some(CaptureNeed::Nothing)
        }
    }

    /// Settle the next input.
    ///
    /// A failure ends the capture: nothing that it observed is kept, and nothing was recorded.
    pub fn settle(self, evidence: CaptureEvidence) -> (next: Result<CaptureRun, IoError>)
        requires
            self@.observed.len() < self@.inputs.len(),
            answers(self@.scope, next_need(self@), evidence@),
        ensures
            result_view(next) == next_run(self@, evidence@),
    {
        proof {
            use_type_invariant(&self);
        }
        let ghost run = self@;
        let CaptureRun { scope, inputs, resolutions, observations, fresh } = self;
        let mut observations = observations;
        let mut fresh = fresh;
        let next: usize = observations.len();
        proof {
            assert(run.inputs[next as int] == inputs@[next as int]@);
            assert(run.resolutions[next as int] == resolutions@[next as int]@);
        }
        match settle_input(scope, &inputs[next], &resolutions[next], evidence) {
            Err(error) => Err(error),
            Ok((observed, record)) => {
                let ghost step = settled_view((observed, record));
                observations.push(observed);
                proof {
                    assert(opts_view(observations@) =~= run.observed.push(step.observed));
                    if scope == FileDigestScope::Content {
                        lemma_contents_hold_no_macro(
                            run.inputs[next as int],
                            run.resolutions[next as int],
                            evidence@,
                        );
                    }
                }
                if let Some(record) = record {
                    fresh.push(record);
                }
                assert(seq_view(fresh@) =~= run.fresh + step.fresh);
                Ok(CaptureRun { scope, inputs, resolutions, observations, fresh })
            },
        }
    }

    /// End the capture, recording the pairs that it newly established.
    ///
    /// The record waits until every input has validated, so that a
    /// later unstable input cannot leave a partial ledger update.
    pub fn finish<D: FileDigestCache + ?Sized>(self, digests: &D) -> (observations: Vec<
        Option<FileObservationResolution>,
    >)
        requires
            is_finished(self@),
        ensures
            opts_view(observations@) == self@.observed,
            recorded(digests, self@.scope, self@.fresh),
    {
        let CaptureRun { scope, inputs: _, resolutions: _, observations, fresh } = self;
        if fresh.len() > 0 {
            digests.record(scope, fresh);
        }
        observations
    }

    /// End a capture of contents, recording the pairs that it newly established.
    pub fn finish_contents<D: FileDigestCache + ?Sized>(self, digests: &D) -> (observations: Vec<
        Option<FileObservation>,
    >)
        requires
            is_finished(self@),
            self@.scope == FileDigestScope::Content,
        ensures
            holds_no_macro(self@.observed),
            opts_view(observations@) == observations_of(self@.observed),
            recorded(digests, self@.scope, self@.fresh),
    {
        proof {
            use_type_invariant(&self);
        }
        let ghost all = self@.observed;
        let results = self.finish(digests);
        let ghost given = results@;
        let mut observations: Vec<Option<FileObservation>> = Vec::new();
        for result in iter: results
            invariant
                iter.seq() == given,
                opts_view(given) == all,
                observations@.len() == iter.index(),
                forall|i: int|
                    0 <= i < observations@.len() ==> opt_view(#[trigger] observations@[i])
                        == observations_of(all)[i],
        {
            assert(all[iter.index() as int] == opt_view(result));
            match result {
                Some(FileObservationResolution::Observation(observation)) => {
                    observations.push(Some(observation));
                },
                _ => {
                    observations.push(None);
                },
            }
        }
        assert(opts_view(observations@) =~= observations_of(all));
        observations
    }

    /// End a capture of one path, recording the pair that it newly established.
    pub fn finish_one<D: FileDigestCache + ?Sized>(self, digests: &D) -> (observation: Option<
        FileObservationResolution,
    >)
        requires
            is_finished(self@),
        ensures
            opt_view(observation) == last_of(self@.observed),
            recorded(digests, self@.scope, self@.fresh),
    {
        let mut observations = self.finish(digests);
        let ghost all = observations@;
        assert(all.len() > 0 ==> opts_view(all).last() == opt_view(all.last()));
        match observations.pop() {
            Some(observation) => observation,
            None => None,
        }
    }

    /// End a capture of one path's contents, recording the pair that it newly established.
    pub fn finish_content<D: FileDigestCache + ?Sized>(self, digests: &D) -> (observation: Option<
        FileObservation,
    >)
        requires
            is_finished(self@),
            self@.scope == FileDigestScope::Content,
        ensures
            opt_view(observation) == last_of(observations_of(self@.observed)),
            recorded(digests, self@.scope, self@.fresh),
    {
        let mut observations = self.finish_contents(digests);
        let ghost all = observations@;
        assert(all.len() > 0 ==> opts_view(all).last() == opt_view(all.last()));
        match observations.pop() {
            Some(observation) => observation,
            None => None,
        }
    }
}

/// Reading contents for their own sake never finds a timestamp macro.
proof fn lemma_contents_hold_no_macro(
    input: InputModel,
    resolution: ResolutionModel,
    evidence: EvidenceModel,
)
    requires
        answers(
            FileDigestScope::Content,
            needed(FileDigestScope::Content, input, resolution),
            evidence,
        ),
    ensures
        settled(FileDigestScope::Content, input, resolution, evidence) matches Ok(step)
            ==> step.observed != Some(ObservedModel::EmbeddedTimestampMacro),
{
}

impl FileObservation {
    /// Begin to capture several paths under `scope`, resolving all available
    /// cached digests in one batch. Results retain input order. A single
    /// unstable path fails the batch with a would-block failure,
    /// allowing the caller to bypass cache publication without accepting any
    /// partial observations.
    pub fn capture_many_with_scope<D: FileDigestCache + ?Sized>(
        scope: FileDigestScope,
        inspections: &[Inspection],
        digests: &D,
    ) -> (run: Result<CaptureRun, IoError>)
        ensures
            began(run, scope, seq_view(inspections@), digests),
    {
        let inputs = match inspect_all(inspections) {
            Ok(inputs) => inputs,
            Err(error) => {
                return Err(error);
            },
        };
        let files = list_queries(&inputs);
        let answer = digests.resolve(scope, &files);
        let resolutions = assign(&inputs, &answer);
        proof {
            lemma_assigned_length(seq_view(inputs@), seq_view(answer@));
            assert(seq_view(resolutions@).len() == inputs@.len());
        }
        let run = CaptureRun {
            scope,
            inputs,
            resolutions,
            observations: Vec::new(),
            fresh: Vec::new(),
        };
        assert(run@ =~= started(scope, seq_view(inputs@), seq_view(answer@)));
        Ok(run)
    }

    /// Begin to capture several paths while resolving all available cached digests in
    /// one batch.
    pub fn capture_many<D: FileDigestCache + ?Sized>(inspections: &[Inspection], digests: &D) -> (run:
        Result<CaptureRun, IoError>)
        ensures
            began(run, FileDigestScope::Content, seq_view(inspections@), digests),
    {
        FileObservation::capture_many_with_scope(FileDigestScope::Content, inspections, digests)
    }

    /// Begin to capture one path under `scope`, preserving scope-specific outcomes such
    /// as [`FileObservationResolution::EmbeddedTimestampMacro`].
    pub fn capture_with_scope<D: FileDigestCache + ?Sized>(
        inspection: Inspection,
        scope: FileDigestScope,
        digests: &D,
    ) -> (run: Result<CaptureRun, IoError>)
        ensures
            began(run, scope, seq![inspection@], digests),
    {
        let inspections: Vec<Inspection> = vec![inspection];
        assert(seq_view(inspections@) =~= seq![inspection@]);
        FileObservation::capture_many_with_scope(scope, &inspections, digests)
    }

    /// Begin to capture one path, resolving one cached digest when available.
    ///
    /// A cached digest is accepted only when the path still has the exact
    /// identity used for the lookup. On a cache miss, the file is opened once,
    /// hashed through that handle, and checked against the path after the read
    /// completes. There are deliberately no retries: a would-block failure is an
    /// indeterminate cache-validation result and callers should continue with
    /// their ordinary compiler path.
    pub fn capture_with_cache<D: FileDigestCache + ?Sized>(inspection: Inspection, digests: &D) -> (run:
        Result<CaptureRun, IoError>)
        ensures
            began(run, FileDigestScope::Content, seq![inspection@], digests),
    {
        FileObservation::capture_with_scope(inspection, FileDigestScope::Content, digests)
    }

    /// Begin to capture and hash one path in one attempt without consulting a digest
    /// cache.
    pub fn capture(inspection: Inspection) -> (run: Result<CaptureRun, IoError>)
        ensures
            result_view(run) == uncached_run(inspection@),
    {
        let run = FileObservation::capture_with_cache(inspection, &NoFileDigestCache);
        proof {
            lemma_one_inspected(inspection@);
            if run is Ok {
                lemma_nothing_cached(run->Ok_0, inspection@);
            }
        }
        run
    }

    /// What a file held when its contents were read whole, together with those contents.
    ///
    /// Output publication uses this when it must inspect and hash the same
    /// bytes. Returning both avoids a second full-file read while preserving
    /// the identity checks used by ordinary observations.
    pub fn capture_with_contents(
        inspection: &Inspection,
        file: Result<OpenedContents, IoError>,
        reading: &PathReading,
    ) -> (capture: Result<Option<(FileObservation, Vec<u8>)>, IoError>)
        ensures
            contents_view(capture) == contents_captured(inspection@, result_view(file), reading@),
    {
        let unreliable = match inspection.qualify() {
            Ok(unreliable) => unreliable,
            Err(error) => {
                return Err(error);
            },
        };
        let OpenedContents { before, contents, after } = match file {
            Ok(file) => file,
            Err(error) => {
                return Err(error);
            },
        };
        let digest = CacheDigest::blake3(&contents);
        let current = match current_file_identity(&inspection.path, reading, unreliable) {
            Ok(Some(current)) => current,
            Ok(None) => {
                return Ok(None);
            },
            Err(error) => {
                return Err(error);
            },
        };
        match handle_observation_is_stable(
            &inspection.path,
            &before,
            &after,
            &current,
            unreliable,
            digest.size,
        ) {
            Ok(true) => Ok(Some((FileObservation { identity: current, digest }, contents))),
            Ok(false) => Err(unstable_capture_error()),
            Err(error) => Err(error),
        }
    }
}

/// A file whose contents were read whole through one handle, with the handle's metadata from
/// before and after.
pub struct OpenedContents {
    pub before: FileMetadata,
    pub contents: Vec<u8>,
    pub after: FileMetadata,
}

/// What an [`OpenedContents`] says.
pub struct OpenedModel {
    pub before: MetadataModel,
    pub contents: Seq<u8>,
    pub after: MetadataModel,
}

impl View for OpenedContents {
    type V = OpenedModel;

    open spec fn view(&self) -> OpenedModel {
        OpenedModel { before: self.before@, contents: self.contents@, after: self.after@ }
    }
}

/// What a capture that keeps the contents says.
pub open spec fn contents_view(
    capture: Result<Option<(FileObservation, Vec<u8>)>, IoError>,
) -> Result<Option<(ObservationModel, Seq<u8>)>, IoErrorModel> {
    match capture {
        Ok(Some((observation, contents))) => Ok(Some((observation@, contents@))),
        Ok(None) => Ok(None),
        Err(error) => Err(error@),
    }
}

/// What a capture that keeps the contents yields.
pub open spec fn contents_captured(
    inspection: InspectionModel,
    file: Result<OpenedModel, IoErrorModel>,
    reading: ReadingModel,
) -> Result<Option<(ObservationModel, Seq<u8>)>, IoErrorModel> {
    match (qualified(inspection), file) {
        (Err(error), _) => Err(error),
        (Ok(_), Err(error)) => Err(error),
        (Ok((_, unreliable)), Ok(file)) => match identity_read(
            inspection.path,
            reading,
            unreliable,
        ) {
            Err(error) => Err(error),
            Ok(None) => Ok(None),
            Ok(Some(current)) => match handle_is_stable(
                inspection.path,
                file.before,
                file.after,
                current,
                unreliable,
                file.contents.len() as u64,
            ) {
                Err(error) => Err(error),
                Ok(false) => Err(unstable_capture()),
                Ok(true) => Ok(
                    Some(
                        (
                            ObservationModel {
                                identity: current,
                                digest: content_digest(file.contents),
                            },
                            file.contents,
                        ),
                    ),
                ),
            },
        },
    }
}

/// How a capture of one path begins that consults no digest cache.
pub open spec fn uncached_run(inspection: InspectionModel) -> Result<RunModel, IoErrorModel> {
    match inspected(inspection) {
        Err(error) => Err(error),
        Ok(input) => Ok(
            RunModel {
                scope: FileDigestScope::Content,
                inputs: seq![input],
                resolutions: seq![ResolutionModel::Unresolved],
                observed: Seq::empty(),
                fresh: Seq::empty(),
            },
        ),
    }
}

proof fn lemma_one_inspected(inspection: InspectionModel)
    ensures
        all_inspected(seq![inspection]) == (match inspected(inspection) {
            Err(error) => Err::<Seq<InputModel>, IoErrorModel>(error),
            Ok(input) => Ok::<Seq<InputModel>, IoErrorModel>(seq![input]),
        }),
{
    let list = seq![inspection];
    assert(list.skip(1) =~= Seq::<InspectionModel>::empty());
    assert(all_inspected(list.skip(1)) == Ok::<Seq<InputModel>, IoErrorModel>(Seq::empty()));
    if let Ok(input) = inspected(inspection) {
        assert(seq![input] + Seq::<InputModel>::empty() =~= seq![input]);
    }
}

proof fn lemma_nothing_cached(run: CaptureRun, inspection: InspectionModel)
    requires
        began(
            Ok(run),
            FileDigestScope::Content,
            seq![inspection],
            &NoFileDigestCache,
        ),
    ensures
        Ok::<RunModel, IoErrorModel>(run@) == uncached_run(inspection),
{
    lemma_one_inspected(inspection);
    let inputs = all_inspected(seq![inspection])->Ok_0;
    let (files, answer) = choose|files: &[FileIdentity], answer: Vec<FileDigestResolution>|
        {
            &&& #[trigger] call_ensures(
                NoFileDigestCache::resolve,
                (&NoFileDigestCache, FileDigestScope::Content, files),
                answer,
            )
            &&& seq_view(files@) == queries(inputs)
            &&& run@ == started(FileDigestScope::Content, inputs, seq_view(answer@))
        };
    let given = seq_view(answer@);
    assert(inputs.skip(1) =~= Seq::<InputModel>::empty());
    assert(assigned(inputs.skip(1), given) =~= Seq::<ResolutionModel>::empty());
    assert(assigned(inputs.skip(1), given.skip(1)) =~= Seq::<ResolutionModel>::empty());
    if answer@.len() > 0 {
        assert(given[0] == answer@[0]@);
    }
    assert(assigned(inputs, given) =~= seq![ResolutionModel::Unresolved]);
}

impl FileSnapshot {
    /// Begin to capture a snapshot that carries a validated content observation.
    pub fn capture(inspection: Inspection) -> (run: Result<CaptureRun, IoError>)
        ensures
            result_view(run) == uncached_run(inspection@),
    {
        FileObservation::capture(inspection)
    }

    /// Begin to capture a snapshot using the session digest cache.
    pub fn capture_with_cache<D: FileDigestCache + ?Sized>(inspection: Inspection, digests: &D) -> (run:
        Result<CaptureRun, IoError>)
        ensures
            began(run, FileDigestScope::Content, seq![inspection@], digests),
    {
        FileObservation::capture_with_cache(inspection, digests)
    }

    /// End the capture of a snapshot.
    pub fn finish<D: FileDigestCache + ?Sized>(run: CaptureRun, digests: &D) -> (snapshot: Option<
        FileSnapshot,
    >)
        requires
            is_finished(run@),
            run@.scope == FileDigestScope::Content,
        ensures
            opt_view(snapshot) == (match last_of(observations_of(run@.observed)) {
                Some(observation) => Some(observed_snapshot(observation)),
                None => None::<SnapshotModel>,
            }),
            recorded(digests, run@.scope, run@.fresh),
    {
        match run.finish_content(digests) {
            Some(observation) => Some(FileSnapshot::of_observation(observation)),
            None => None,
        }
    }
}

} // verus!
