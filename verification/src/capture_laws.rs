//! What every capture keeps.

use crate::capture::{
    all_inspected, answers, assigned, began, holds_no_macro, inspected, is_finished, last_of,
    needed, next_run, observations_of, queries, read_outcome, settled, started, CaptureRun,
    EvidenceModel, InputModel, InspectionModel, NeedModel, RunModel,
};
use crate::content::{content_resolution, FileModel};
use crate::digest::{content_digest, DigestModel};
use crate::error::{IoErrorKind, IoErrorModel};
use crate::identity::{
    cache_identity, described, handle_is_stable, identity_read, network_identity, object_of,
    same_identity, still_stands, token_of, unstable_capture, FileIdentity, IdentityModel,
    LinuxStatx, MetadataModel, ReadingModel,
};
use crate::ledger::{FileDigestResolution, FileDigestScope, RecordModel, ResolutionModel};
use crate::observation::{
    comparison, same_file_object, FileObservationMatch, ObservationModel, ObservedModel,
};
use crate::text::shown_text;
use crate::views::seq_view;
use vstd::prelude::*;

verus! {

/// A run once evidence has been taken in, piece by piece, or why the capture fails.
pub open spec fn run_through(run: RunModel, evidence: Seq<EvidenceModel>) -> Result<
    RunModel,
    IoErrorModel,
>
    decreases evidence.len(),
{
    if evidence.len() == 0 {
        Ok(run)
    } else {
        match next_run(run, evidence[0]) {
            Err(error) => Err(error),
            Ok(next) => run_through(next, evidence.skip(1)),
        }
    }
}

/// Whether what an input was identified as belongs to its path.
pub open spec fn input_names_its_path(input: InputModel) -> bool {
    input.identity matches Some(identity) ==> identity.path == input.path
}

/// Whether a result is of an input: an observation names the input's path, and its digest covers
/// as many bytes as the file it identifies has.
pub open spec fn result_fits(input: InputModel, observed: Option<ObservedModel>) -> bool {
    observed matches Some(ObservedModel::Observation(observation)) ==> {
        &&& observation.identity.path == input.path
        &&& observation.digest.size == observation.identity.len
    }
}

/// Whether a pair to be recorded is one of the observations.
pub open spec fn is_observed(observed: Seq<Option<ObservedModel>>, record: RecordModel) -> bool {
    observed.contains(
        Some(
            ObservedModel::Observation(
                ObservationModel { identity: record.file, digest: record.digest },
            ),
        ),
    )
}

/// Whether every result of a run is of its input, and every pair that it would record is among
/// its results.
pub open spec fn run_is_sound(run: RunModel) -> bool {
    &&& run.observed.len() <= run.inputs.len()
    &&& forall|i: int|
        0 <= i < run.observed.len() ==> result_fits(run.inputs[i], #[trigger] run.observed[i])
    &&& forall|i: int|
        0 <= i < run.fresh.len() ==> is_observed(run.observed, #[trigger] run.fresh[i])
}

proof fn lemma_described_path(path: Seq<u8>, metadata: MetadataModel)
    ensures
        described(path, metadata) matches Some(identity) ==> identity.path == path,
{
}

proof fn lemma_cache_identity_path(
    path: Seq<u8>,
    metadata: MetadataModel,
    unreliable: bool,
    status: Option<Result<LinuxStatx, IoErrorModel>>,
)
    ensures
        cache_identity(path, metadata, unreliable, status) matches Ok(Some(identity))
            ==> identity.path == path,
{
    lemma_described_path(path, metadata);
}

proof fn lemma_identity_read_path(path: Seq<u8>, reading: ReadingModel, unreliable: bool)
    ensures
        identity_read(path, reading, unreliable) matches Ok(Some(identity)) ==> identity.path
            == path,
{
    if let Ok(metadata) = reading.metadata {
        lemma_cache_identity_path(path, metadata, unreliable, reading.status);
    }
}

proof fn lemma_settled_result_fits(
    scope: FileDigestScope,
    input: InputModel,
    resolution: ResolutionModel,
    evidence: EvidenceModel,
)
    requires
        input_names_its_path(input),
    ensures
        settled(scope, input, resolution, evidence) matches Ok(step) ==> result_fits(
            input,
            step.observed,
        ) && (step.fresh.len() > 0 ==> step.fresh.len() == 1 && step.observed == Some(
            ObservedModel::Observation(
                ObservationModel { identity: step.fresh[0].file, digest: step.fresh[0].digest },
            ),
        )),
{
    if input.identity is Some && resolution == ResolutionModel::Unresolved {
        if let Ok(file) = evidence->file {
            let reading = evidence->Read_reading;
            lemma_identity_read_path(input.path, reading, input.unreliable);
        }
    }
}

/// Taking in evidence keeps a run sound.
pub proof fn settling_keeps_a_run_sound(run: RunModel, evidence: EvidenceModel)
    requires
        run_is_sound(run),
        run.observed.len() < run.inputs.len(),
        input_names_its_path(run.inputs[run.observed.len() as int]),
    ensures
        next_run(run, evidence) matches Ok(next) ==> run_is_sound(next),
{
    let at = run.observed.len() as int;
    lemma_settled_result_fits(run.scope, run.inputs[at], run.resolutions[at], evidence);
    if let Ok(next) = next_run(run, evidence) {
        let step = settled(run.scope, run.inputs[at], run.resolutions[at], evidence)->Ok_0;
        assert forall|i: int| 0 <= i < next.fresh.len() implies is_observed(
            next.observed,
            #[trigger] next.fresh[i],
        ) by {
            if i < run.fresh.len() {
                assert(next.fresh[i] == run.fresh[i]);
                let found = Some(
                    ObservedModel::Observation(
                        ObservationModel {
                            identity: run.fresh[i].file,
                            digest: run.fresh[i].digest,
                        },
                    ),
                );
                let j = choose|j: int| 0 <= j < run.observed.len() && run.observed[j] == found;
                assert(next.observed[j] == found);
            } else {
                assert(next.fresh[i] == step.fresh[0]);
                assert(next.observed[at] == step.observed);
            }
        }
    }
}

/// Every capture that comes to its end has one result for each input, in the order of the
/// inputs; each observation names its input's path and covers exactly the bytes of the file that
/// it identifies; and the pairs to be recorded are among the observations.
pub proof fn captures_are_sound(run: RunModel, evidence: Seq<EvidenceModel>)
    requires
        run_is_sound(run),
        run.observed.len() + evidence.len() <= run.inputs.len(),
        forall|i: int| 0 <= i < run.inputs.len() ==> input_names_its_path(#[trigger] run.inputs[i]),
    ensures
        run_through(run, evidence) matches Ok(last) ==> {
            &&& run_is_sound(last)
            &&& last.inputs == run.inputs
            &&& last.observed.len() == run.observed.len() + evidence.len()
        },
    decreases evidence.len(),
{
    if evidence.len() > 0 {
        settling_keeps_a_run_sound(run, evidence[0]);
        if let Ok(next) = next_run(run, evidence[0]) {
            captures_are_sound(next, evidence.skip(1));
        }
    }
}

/// A capture begins sound, with inputs that name their own paths.
pub proof fn captures_begin_sound(
    scope: FileDigestScope,
    inspections: Seq<InspectionModel>,
    resolutions: Seq<ResolutionModel>,
)
    ensures
        all_inspected(inspections) matches Ok(inputs) ==> {
            &&& inputs.len() == inspections.len()
            &&& run_is_sound(started(scope, inputs, resolutions))
            &&& forall|i: int|
                0 <= i < inputs.len() ==> input_names_its_path(#[trigger] inputs[i])
                    && inputs[i].path == inspections[i].path
        },
    decreases inspections.len(),
{
    if inspections.len() > 0 {
        let first = inspections[0];
        let rest = inspections.skip(1);
        captures_begin_sound(scope, rest, resolutions);
        if let Ok(metadata) = first.reading.metadata {
            if let Ok(unreliable) = first.unreliable {
                lemma_cache_identity_path(first.path, metadata, unreliable, first.reading.status);
                lemma_described_path(first.path, metadata);
            }
        }
        if let Ok(inputs) = all_inspected(inspections) {
            let more = all_inspected(rest)->Ok_0;
            assert forall|i: int| 0 <= i < inputs.len() implies input_names_its_path(
                #[trigger] inputs[i],
            ) && inputs[i].path == inspections[i].path by {
                if i > 0 {
                    assert(inputs[i] == more[i - 1]);
                    assert(rest[i - 1] == inspections[i]);
                }
            }
        }
    }
}

/// The failure of one input is the failure of the whole capture, whatever the others held.
pub proof fn one_failure_fails_the_capture(
    run: RunModel,
    evidence: Seq<EvidenceModel>,
    at: int,
)
    requires
        0 <= at < evidence.len(),
        run_through(run, evidence.take(at)) is Ok,
        next_run(run_through(run, evidence.take(at))->Ok_0, evidence[at]) is Err,
    ensures
        run_through(run, evidence) == Err::<RunModel, IoErrorModel>(
            next_run(run_through(run, evidence.take(at))->Ok_0, evidence[at])->Err_0,
        ),
    decreases at,
{
    if at == 0 {
        assert(evidence.take(0) =~= Seq::<EvidenceModel>::empty());
    } else {
        let front = evidence.take(at);
        assert(front[0] == evidence[0]);
        assert(front.skip(1) =~= evidence.skip(1).take(at - 1));
        assert(evidence.skip(1)[at - 1] == evidence[at]);
        let next = next_run(run, evidence[0])->Ok_0;
        one_failure_fails_the_capture(next, evidence.skip(1), at - 1);
    }
}

/// A cached digest is accepted only while the path has the very identity that it was looked up
/// under, and is then returned as it was cached; nothing is recorded for it.
pub proof fn cached_digests_need_an_unchanged_identity(
    scope: FileDigestScope,
    input: InputModel,
    resolution: ResolutionModel,
    evidence: EvidenceModel,
)
    requires
        input.identity is Some,
        resolution is Digest,
        settled(scope, input, resolution, evidence) is Ok,
    ensures
        identity_read(input.path, evidence->Look_0, input.unreliable) matches Ok(Some(current))
            && same_identity(current, input.identity->Some_0),
        settled(scope, input, resolution, evidence)->Ok_0.observed == Some(
            ObservedModel::Observation(
                ObservationModel {
                    identity: input.identity->Some_0,
                    digest: resolution->Digest_0,
                },
            ),
        ),
        settled(scope, input, resolution, evidence)->Ok_0.fresh.len() == 0,
{
}

/// A resolver that could not stabilise a file is believed: the capture is given up at once.
pub proof fn indeterminate_resolutions_give_up(
    scope: FileDigestScope,
    input: InputModel,
    evidence: EvidenceModel,
)
    requires
        input.identity is Some,
    ensures
        settled(scope, input, ResolutionModel::Indeterminate, evidence) == Err::<
            crate::capture::SettledModel,
            IoErrorModel,
        >(unstable_capture()),
{
}

/// What is newly recorded of a file is the digest of the bytes that were read from it, under an
/// identity that the path had after the read.
pub proof fn fresh_digests_are_of_the_bytes_read(
    input: InputModel,
    file: FileModel,
    reading: ReadingModel,
    at: int,
)
    requires
        read_outcome(input, file, reading) is Ok,
        0 <= at < read_outcome(input, file, reading)->Ok_0.fresh.len(),
    ensures
        read_outcome(input, file, reading)->Ok_0.fresh[at].digest == content_digest(file.content),
        identity_read(input.path, reading, input.unreliable) == Ok::<
            Option<IdentityModel>,
            IoErrorModel,
        >(Some(read_outcome(input, file, reading)->Ok_0.fresh[at].file)),
{
}

/// A file that was replaced between opening and the look afterwards is not observed: its object
/// is another one.
pub proof fn replaced_files_are_not_observed(
    path: Seq<u8>,
    before: MetadataModel,
    after: MetadataModel,
    current: IdentityModel,
    unreliable: bool,
    digest_size: u64,
)
    requires
        object_of(before.details) matches Some(found) && current.object matches Some(object)
            && found.inode != object.inode,
    ensures
        handle_is_stable(path, before, after, current, unreliable, digest_size) != Ok::<
            bool,
            IoErrorModel,
        >(true),
{
}

/// A file that grew, shrank, or was read short while it was captured is not observed.
pub proof fn resized_files_are_not_observed(
    path: Seq<u8>,
    before: MetadataModel,
    after: MetadataModel,
    current: IdentityModel,
    unreliable: bool,
    digest_size: u64,
)
    requires
        before.len != after.len || after.len != digest_size || current.len != digest_size,
    ensures
        handle_is_stable(path, before, after, current, unreliable, digest_size) == Ok::<
            bool,
            IoErrorModel,
        >(false),
{
}

/// Where metadata can be relied on, an identity stands only while length, modification time,
/// change time, and object are all unchanged.
pub proof fn changed_metadata_ends_an_identity(
    identity: IdentityModel,
    reading: ReadingModel,
    metadata: MetadataModel,
)
    requires
        reading.metadata == Ok::<MetadataModel, IoErrorModel>(metadata),
        metadata.len != identity.len || metadata.modified != Ok::<
            crate::identity::FileTime,
            IoErrorModel,
        >(identity.modified) || token_of(metadata.details) != identity.changed || object_of(
            metadata.details,
        ) != identity.object,
    ensures
        still_stands(identity, reading, Ok(false)) == Ok::<bool, IoErrorModel>(false),
{
}

/// A file that is still described the same way still has its identity.
pub proof fn unchanged_metadata_keeps_an_identity(
    path: Seq<u8>,
    metadata: MetadataModel,
    reading: ReadingModel,
)
    requires
        described(path, metadata) is Some,
        reading.metadata == Ok::<MetadataModel, IoErrorModel>(metadata),
    ensures
        still_stands(described(path, metadata)->Some_0, reading, Ok(false)) == Ok::<
            bool,
            IoErrorModel,
        >(true),
{
}

/// A network filesystem's identities never hold a change time, and always an object.
pub proof fn network_identities_leave_the_change_time_out(
    path: Seq<u8>,
    status: Option<Result<LinuxStatx, IoErrorModel>>,
)
    ensures
        network_identity(path, status) matches Ok(Some(identity)) ==> identity.changed is None
            && identity.object is Some && identity.path == path,
{
}

/// An observation is reusable against itself exactly when its digest covers its whole file.
pub proof fn observations_match_themselves(observation: ObservationModel)
    ensures
        comparison(observation, Some(observation.identity), observation.digest) == (
        if observation.digest.size == observation.identity.len {
            FileObservationMatch::Reusable
        } else {
            FileObservationMatch::Indeterminate
        }),
{
}

/// Whether one observation can be reused for another does not depend on which came first.
pub proof fn comparison_is_symmetric(left: ObservationModel, right: ObservationModel)
    ensures
        comparison(left, Some(right.identity), right.digest) == comparison(
            right,
            Some(left.identity),
            left.digest,
        ),
{
}

/// Observations that can be reused for one another hold the same bytes, by digest and length.
pub proof fn reusable_observations_hold_the_same_bytes(
    earlier: ObservationModel,
    later: ObservationModel,
)
    requires
        comparison(earlier, Some(later.identity), later.digest) == FileObservationMatch::Reusable,
    ensures
        earlier.digest == later.digest,
        earlier.identity.len == later.identity.len,
        crate::path::same_place(earlier.identity.path, later.identity.path),
{
}

/// Timestamps alone never decide against reuse where the object is known.
pub proof fn timestamps_do_not_prevent_reuse(
    earlier: ObservationModel,
    later: IdentityModel,
)
    requires
        earlier.digest.size == earlier.identity.len,
        same_file_object(earlier.identity, later),
    ensures
        comparison(earlier, Some(later), earlier.digest) == FileObservationMatch::Reusable,
{
}

// Batches

/// Whether the cache is asked for an input: it has an identity to be looked up under.
pub open spec fn is_asked_for() -> spec_fn(InputModel) -> bool {
    |input: InputModel| input.cache_identity is Some
}

/// The cache is asked for each input that has a cache identity, in the order of the inputs, and
/// each of its answers goes to the very input that it was asked for: as many inputs with an
/// identity stand in front of that input as answers stand in front of its own.
pub proof fn cache_answers_go_to_their_own_inputs(
    inputs: Seq<InputModel>,
    answers: Seq<ResolutionModel>,
    at: int,
)
    requires
        0 <= at < inputs.len(),
    ensures
        assigned(inputs, answers).len() == inputs.len(),
        queries(inputs).len() == inputs.filter(
            |input: InputModel| input.cache_identity is Some,
        ).len(),
        ({
            let k = inputs.take(at).filter(
                |input: InputModel| input.cache_identity is Some,
            ).len() as int;
            match inputs[at].cache_identity {
                Some(identity) => {
                    &&& 0 <= k < queries(inputs).len()
                    &&& queries(inputs)[k] == identity
                    &&& assigned(inputs, answers)[at] == (if k < answers.len() {
                        answers[k]
                    } else {
                        ResolutionModel::Unresolved
                    })
                },
                None => assigned(inputs, answers)[at] == ResolutionModel::Unresolved,
            }
        }),
{
    lemma_answers_by_rank(inputs, answers, at);
    assert((|input: InputModel| input.cache_identity is Some) =~= is_asked_for());
}

proof fn lemma_answers_by_rank(
    inputs: Seq<InputModel>,
    answers: Seq<ResolutionModel>,
    at: int,
)
    requires
        0 <= at < inputs.len(),
    ensures
        assigned(inputs, answers).len() == inputs.len(),
        queries(inputs).len() == inputs.filter(is_asked_for()).len(),
        ({
            let k = inputs.take(at).filter(is_asked_for()).len() as int;
            match inputs[at].cache_identity {
                Some(identity) => {
                    &&& 0 <= k < queries(inputs).len()
                    &&& queries(inputs)[k] == identity
                    &&& assigned(inputs, answers)[at] == (if k < answers.len() {
                        answers[k]
                    } else {
                        ResolutionModel::Unresolved
                    })
                },
                None => assigned(inputs, answers)[at] == ResolutionModel::Unresolved,
            }
        }),
    decreases inputs.len(),
{
    let asked = is_asked_for();
    let first = inputs[0];
    let rest = inputs.skip(1);
    let left = if first.cache_identity is Some && answers.len() > 0 {
        answers.skip(1)
    } else {
        answers
    };
    assert(inputs =~= seq![first] + rest);
    rest.lemma_filter_prepend(first, asked);
    lemma_nothing_asked();
    if rest.len() == 0 {
        assert(rest =~= Seq::<InputModel>::empty());
    } else {
        lemma_answers_by_rank(rest, left, if at > 0 { at - 1 } else { 0 });
    }
    if at == 0 {
        assert(inputs.take(0) =~= Seq::<InputModel>::empty());
    } else {
        assert(inputs.take(at) =~= seq![first] + rest.take(at - 1));
        rest.take(at - 1).lemma_filter_prepend(first, asked);
        assert(rest[at - 1] == inputs[at]);
        if first.cache_identity is Some {
            let k = rest.take(at - 1).filter(asked).len() as int;
            if answers.len() > 0 && k < left.len() {
                assert(left[k] == answers[k + 1]);
            }
        }
    }
}

proof fn lemma_nothing_asked()
    ensures
        Seq::<InputModel>::empty().filter(is_asked_for()).len() == 0,
        queries(Seq::empty()).len() == 0,
        forall|answers: Seq<ResolutionModel>| #[trigger] assigned(Seq::empty(), answers).len() == 0,
{
    Seq::<InputModel>::empty().lemma_filter_len(is_asked_for());
}

/// Where every input has a cache identity and the cache answers every question, the answers are
/// the resolutions of the inputs, one for one.
pub proof fn complete_answers_are_taken_one_for_one(
    inputs: Seq<InputModel>,
    answers: Seq<ResolutionModel>,
)
    requires
        forall|i: int| 0 <= i < inputs.len() ==> (#[trigger] inputs[i]).cache_identity is Some,
        answers.len() == inputs.len(),
    ensures
        assigned(inputs, answers) == answers,
        queries(inputs).len() == inputs.len(),
        forall|i: int|
            0 <= i < inputs.len() ==> Some(#[trigger] queries(inputs)[i])
                == inputs[i].cache_identity,
    decreases inputs.len(),
{
    if inputs.len() > 0 {
        let rest = inputs.skip(1);
        assert forall|i: int| 0 <= i < rest.len() implies (
        #[trigger] rest[i]).cache_identity is Some by {
            assert(rest[i] == inputs[i + 1]);
        }
        complete_answers_are_taken_one_for_one(rest, answers.skip(1));
        assert(seq![answers[0]] + answers.skip(1) =~= answers);
        assert forall|i: int| 0 <= i < inputs.len() implies Some(#[trigger] queries(inputs)[i])
            == inputs[i].cache_identity by {
            if i > 0 {
                assert(queries(inputs)[i] == queries(rest)[i - 1]);
                assert(rest[i - 1] == inputs[i]);
            }
        }
    } else {
        assert(assigned(inputs, answers) =~= answers);
    }
}

/// What inspections establish, they establish one by one and in order; and the first that fails
/// fails the batch, whatever the others found.
pub proof fn batches_are_inspected_one_by_one(inspections: Seq<InspectionModel>, at: int)
    requires
        0 <= at < inspections.len(),
    ensures
        all_inspected(inspections) matches Ok(inputs) ==> inputs.len() == inspections.len()
            && inspected(inspections[at]) == Ok::<InputModel, IoErrorModel>(inputs[at]),
        (forall|j: int| 0 <= j < at ==> inspected(#[trigger] inspections[j]) is Ok) ==> (inspected(
            inspections[at],
        ) matches Err(error) ==> all_inspected(inspections) == Err::<
            Seq<InputModel>,
            IoErrorModel,
        >(error)),
        all_inspected(inspections) is Err ==> exists|j: int|
            0 <= j < inspections.len() && inspected(#[trigger] inspections[j]) is Err,
    decreases inspections.len(),
{
    let rest = inspections.skip(1);
    assert(forall|j: int| 0 <= j < rest.len() ==> #[trigger] rest[j] == inspections[j + 1]);
    if rest.len() == 0 {
        assert(all_inspected(rest) == Ok::<Seq<InputModel>, IoErrorModel>(Seq::empty()));
    } else {
        batches_are_inspected_one_by_one(rest, if at > 0 { at - 1 } else { 0 });
    }
    if at > 0 {
        assert(rest[at - 1] == inspections[at]);
        if forall|j: int| 0 <= j < at ==> inspected(#[trigger] inspections[j]) is Ok {
            assert(inspected(inspections[0]) is Ok);
            assert forall|j: int| 0 <= j < at - 1 implies inspected(#[trigger] rest[j]) is Ok by {
                assert(rest[j] == inspections[j + 1]);
            }
        }
    }
    if all_inspected(inspections) is Err && inspected(inspections[0]) is Ok {
        let j = choose|j: int| 0 <= j < rest.len() && inspected(#[trigger] rest[j]) is Err;
        assert(inspected(inspections[j + 1]) is Err);
    }
}

/// An inspection establishes a path exactly when its metadata is there and is of a regular file,
/// its filesystem is qualified, and its cache identity could be looked up; it then holds just
/// that, and falls back to a description where there is no cache identity.
pub proof fn inspections_establish_regular_files(inspection: InspectionModel)
    ensures
        match (inspection.reading.metadata, inspection.unreliable) {
            (Err(error), _) => inspected(inspection) == Err::<InputModel, IoErrorModel>(error),
            (Ok(metadata), unreliable) => if !metadata.is_file {
                inspected(inspection) matches Err(error) && error.kind == IoErrorKind::InvalidInput
                    && error.message == "observation path is not a regular file: "@ + shown_text(
                    inspection.path,
                )
            } else {
                match unreliable {
                    Err(error) => inspected(inspection) == Err::<InputModel, IoErrorModel>(error),
                    Ok(unreliable) => match cache_identity(
                        inspection.path,
                        metadata,
                        unreliable,
                        inspection.reading.status,
                    ) {
                        Err(error) => inspected(inspection) == Err::<InputModel, IoErrorModel>(
                            error,
                        ),
                        Ok(found) => inspected(inspection) matches Ok(input) && {
                            &&& input.path == inspection.path
                            &&& input.unreliable == unreliable
                            &&& input.cache_identity == found
                            &&& found is Some ==> input.identity == found
                            &&& found is None ==> input.identity == described(
                                inspection.path,
                                metadata,
                            )
                        },
                    },
                }
            },
        },
{
}

// Runs

/// The steps that evidence takes a run through, from a position on.
proof fn lemma_runs_settle_in_turn(run: RunModel, evidence: Seq<EvidenceModel>, at: int)
    requires
        run_through(run, evidence) is Ok,
        0 <= at < evidence.len(),
    ensures
        ({
            let n = run.observed.len() as int;
            let last = run_through(run, evidence)->Ok_0;
            let step = settled(
                run.scope,
                run.inputs[n + at],
                run.resolutions[n + at],
                evidence[at],
            );
            &&& last.observed.len() == n + evidence.len()
            &&& step is Ok
            &&& last.observed[n + at] == step->Ok_0.observed
            &&& forall|i: int| 0 <= i < n ==> #[trigger] last.observed[i] == run.observed[i]
            &&& last.scope == run.scope
            &&& last.inputs == run.inputs
            &&& last.resolutions == run.resolutions
        }),
    decreases evidence.len(),
{
    let n = run.observed.len() as int;
    let next = next_run(run, evidence[0])->Ok_0;
    let rest = evidence.skip(1);
    if rest.len() == 0 {
        assert(run_through(next, rest) == Ok::<RunModel, IoErrorModel>(next));
    } else {
        lemma_runs_settle_in_turn(next, rest, if at > 0 { at - 1 } else { 0 });
        let last = run_through(next, rest)->Ok_0;
        assert(last.observed[n] == next.observed[n]);
        assert forall|i: int| 0 <= i < n implies #[trigger] last.observed[i] == run.observed[i] by {
            assert(last.observed[i] == next.observed[i]);
        }
        if at > 0 {
            assert(rest[at - 1] == evidence[at]);
        }
    }
}

/// A capture that comes to its end has settled each input by that input's own resolution and
/// evidence, and holds the results in the order of the inputs.
pub proof fn runs_settle_each_input_by_its_own_evidence(
    run: RunModel,
    evidence: Seq<EvidenceModel>,
    at: int,
)
    requires
        run.observed.len() == 0,
        run_through(run, evidence) is Ok,
        0 <= at < evidence.len(),
    ensures
        run_through(run, evidence)->Ok_0.observed.len() == evidence.len(),
        settled(run.scope, run.inputs[at], run.resolutions[at], evidence[at]) is Ok,
        run_through(run, evidence)->Ok_0.observed[at] == settled(
            run.scope,
            run.inputs[at],
            run.resolutions[at],
            evidence[at],
        )->Ok_0.observed,
        run_through(run, evidence)->Ok_0.scope == run.scope,
        run_through(run, evidence)->Ok_0.inputs == run.inputs,
{
    lemma_runs_settle_in_turn(run, evidence, at);
}

/// A step adds its own result behind the others and what it newly established behind what was
/// established before, and changes nothing else.
pub proof fn runs_record_what_their_steps_established(run: RunModel, evidence: EvidenceModel)
    ensures
        next_run(run, evidence) is Ok <==> settled(
            run.scope,
            run.inputs[run.observed.len() as int],
            run.resolutions[run.observed.len() as int],
            evidence,
        ) is Ok,
        next_run(run, evidence) matches Ok(next) ==> next.fresh == run.fresh + settled(
            run.scope,
            run.inputs[run.observed.len() as int],
            run.resolutions[run.observed.len() as int],
            evidence,
        )->Ok_0.fresh,
        next_run(run, evidence) matches Ok(next) ==> {
            &&& next.observed == run.observed.push(
                settled(
                    run.scope,
                    run.inputs[run.observed.len() as int],
                    run.resolutions[run.observed.len() as int],
                    evidence,
                )->Ok_0.observed,
            )
            &&& next.scope == run.scope
            &&& next.inputs == run.inputs
            &&& next.resolutions == run.resolutions
        },
        next_run(run, evidence) matches Err(error) ==> settled(
            run.scope,
            run.inputs[run.observed.len() as int],
            run.resolutions[run.observed.len() as int],
            evidence,
        ) == Err::<crate::capture::SettledModel, IoErrorModel>(error),
{
}

/// In a batch that comes to its end, each file whose digest the cache answered is observed with
/// the digest that the cache answered for that file's own identity.
pub proof fn cached_digests_stay_with_their_files(
    scope: FileDigestScope,
    inputs: Seq<InputModel>,
    answers: Seq<ResolutionModel>,
    evidence: Seq<EvidenceModel>,
    at: int,
)
    requires
        0 <= at < inputs.len(),
        evidence.len() == inputs.len(),
        run_through(started(scope, inputs, answers), evidence) is Ok,
        inputs[at].cache_identity is Some,
        inputs[at].identity == inputs[at].cache_identity,
        inputs.take(at).filter(|input: InputModel| input.cache_identity is Some).len()
            < answers.len(),
        answers[inputs.take(at).filter(
            |input: InputModel| input.cache_identity is Some,
        ).len() as int] is Digest,
    ensures
        ({
            let k = inputs.take(at).filter(
                |input: InputModel| input.cache_identity is Some,
            ).len() as int;
            &&& queries(inputs)[k] == inputs[at].cache_identity->Some_0
            &&& run_through(started(scope, inputs, answers), evidence)->Ok_0.observed[at] == Some(
                ObservedModel::Observation(
                    ObservationModel { identity: queries(inputs)[k], digest: answers[k]->Digest_0 },
                ),
            )
        }),
{
    let run = started(scope, inputs, answers);
    cache_answers_go_to_their_own_inputs(inputs, answers, at);
    lemma_runs_settle_in_turn(run, evidence, at);
    cached_digests_need_an_unchanged_identity(
        scope,
        inputs[at],
        run.resolutions[at],
        evidence[at],
    );
}

/// A capture begins with nothing settled or recorded, under its scope, with one resolution for
/// each of its inputs.
pub proof fn captures_begin_unsettled<D: crate::ledger::FileDigestCache + ?Sized>(
    run: CaptureRun,
    scope: FileDigestScope,
    inspections: Seq<InspectionModel>,
    digests: &D,
    at: int,
)
    requires
        began(Ok(run), scope, inspections, digests),
        0 <= at < inspections.len(),
    ensures
        run@.scope == scope,
        run@.observed.len() == 0,
        run@.fresh.len() == 0,
        run@.inputs.len() == inspections.len(),
        run@.resolutions.len() == inspections.len(),
        inspected(inspections[at]) == Ok::<InputModel, IoErrorModel>(run@.inputs[at]),
        exists|files: &[FileIdentity], answer: Vec<FileDigestResolution>|
            {
                &&& #[trigger] call_ensures(D::resolve, (digests, scope, files), answer)
                &&& files@.len() == run@.inputs.filter(
                    |input: InputModel| input.cache_identity is Some,
                ).len()
                &&& run@.inputs[at].cache_identity is Some ==> {
                    let k = run@.inputs.take(at).filter(
                        |input: InputModel| input.cache_identity is Some,
                    ).len() as int;
                    &&& files@[k]@ == run@.inputs[at].cache_identity->Some_0
                    &&& k < answer@.len() ==> run@.resolutions[at] == answer@[k]@
                    &&& k >= answer@.len() ==> run@.resolutions[at] == ResolutionModel::Unresolved
                }
            },
        run@.inputs[at].cache_identity is None ==> run@.resolutions[at]
            == ResolutionModel::Unresolved,
{
    let inputs = all_inspected(inspections)->Ok_0;
    batches_are_inspected_one_by_one(inspections, at);
    let (files, answer) = choose|files: &[FileIdentity], answer: Vec<FileDigestResolution>|
        {
            &&& #[trigger] call_ensures(D::resolve, (digests, scope, files), answer)
            &&& seq_view(files@) == queries(inputs)
            &&& run@ == started(scope, inputs, seq_view(answer@))
        };
    cache_answers_go_to_their_own_inputs(inputs, seq_view(answer@), at);
    assert(seq_view(files@).len() == files@.len());
    let k = inputs.take(at).filter(|input: InputModel| input.cache_identity is Some).len() as int;
    if inputs[at].cache_identity is Some {
        assert(seq_view(files@)[k] == files@[k]@);
        if k < answer@.len() {
            assert(seq_view(answer@)[k] == answer@[k]@);
        }
    }
}

/// A capture fails at its beginning exactly as its first failing inspection does.
pub proof fn captures_fail_with_their_inspections<D: crate::ledger::FileDigestCache + ?Sized>(
    error: crate::error::IoError,
    scope: FileDigestScope,
    inspections: Seq<InspectionModel>,
    digests: &D,
    at: int,
)
    requires
        began(Err(error), scope, inspections, digests),
        0 <= at < inspections.len(),
        forall|j: int| 0 <= j < at ==> inspected(#[trigger] inspections[j]) is Ok,
        inspected(inspections[at]) is Err,
    ensures
        inspected(inspections[at]) == Err::<InputModel, IoErrorModel>(error@),
{
    batches_are_inspected_one_by_one(inspections, at);
}

// Settling

/// What settles an input: nothing where it cannot be identified, or where a cached outcome is
/// unusable as it stands; another look where it is usable; and a read where nothing is cached.
pub proof fn needs_follow_from_resolutions(
    scope: FileDigestScope,
    input: InputModel,
    digest: DigestModel,
)
    ensures
        input.identity is None ==> forall|resolution: ResolutionModel| #[trigger]
            needed(scope, input, resolution) == NeedModel::Nothing,
        input.identity matches Some(identity) ==> {
            let look = NeedModel::Look { path: input.path, unreliable: input.unreliable };
            &&& needed(scope, input, ResolutionModel::Digest(digest)) == (if digest.size
                == identity.len {
                look
            } else {
                NeedModel::Nothing
            })
            &&& needed(FileDigestScope::CcInput, input, ResolutionModel::EmbeddedTimestampMacro)
                == look
            &&& needed(FileDigestScope::Content, input, ResolutionModel::EmbeddedTimestampMacro)
                == NeedModel::Nothing
            &&& needed(scope, input, ResolutionModel::Indeterminate) == NeedModel::Nothing
            &&& needed(scope, input, ResolutionModel::Unresolved) == (NeedModel::Read {
                path: input.path,
                unreliable: input.unreliable,
            })
        },
{
}

/// Evidence answers a need of its own kind, and a read only under the scope of the capture.
pub proof fn needs_are_answered_in_kind(
    scope: FileDigestScope,
    path: Seq<u8>,
    unreliable: bool,
    evidence: EvidenceModel,
)
    ensures
        answers(scope, NeedModel::Nothing, evidence),
        answers(scope, NeedModel::Look { path, unreliable }, evidence) <==> evidence is Look,
        answers(scope, NeedModel::Read { path, unreliable }, evidence) <==> evidence is Read && (
        evidence->file is Ok ==> evidence->file->Ok_0.scope == scope),
{
}

/// A file that cannot be identified is not observed, and that is no failure.
pub proof fn unidentified_files_are_not_observed(
    scope: FileDigestScope,
    input: InputModel,
    resolution: ResolutionModel,
    evidence: EvidenceModel,
)
    requires
        input.identity is None,
    ensures
        settled(scope, input, resolution, evidence) matches Ok(step) && step.observed is None
            && step.fresh.len() == 0,
{
}

/// A cached digest is accepted exactly when it covers the file's length and another look finds the
/// same identity; a failed look fails the capture, and anything else makes it unstable.
pub proof fn cached_digests_stand_or_fail_by_identity(
    scope: FileDigestScope,
    input: InputModel,
    digest: DigestModel,
    reading: ReadingModel,
)
    requires
        input.identity is Some,
    ensures
        ({
            let identity = input.identity->Some_0;
            let outcome = settled(
                scope,
                input,
                ResolutionModel::Digest(digest),
                EvidenceModel::Look(reading),
            );
            if digest.size != identity.len {
                outcome == Err::<crate::capture::SettledModel, IoErrorModel>(unstable_capture())
            } else {
                match identity_read(input.path, reading, input.unreliable) {
                    Err(error) => outcome == Err::<crate::capture::SettledModel, IoErrorModel>(
                        error,
                    ),
                    Ok(Some(current)) if same_identity(current, identity) => outcome matches Ok(
                        step,
                    ) && step.observed == Some(
                        ObservedModel::Observation(ObservationModel { identity, digest }),
                    ) && step.fresh.len() == 0,
                    _ => outcome == Err::<crate::capture::SettledModel, IoErrorModel>(
                        unstable_capture(),
                    ),
                }
            }
        }),
{
}

/// A cached timestamp macro counts under the scope of compiler inputs alone, and there exactly
/// while the identity stands.
pub proof fn cached_macros_count_for_compiler_inputs(input: InputModel, reading: ReadingModel)
    requires
        input.identity is Some,
    ensures
        ({
            let identity = input.identity->Some_0;
            let outcome = settled(
                FileDigestScope::CcInput,
                input,
                ResolutionModel::EmbeddedTimestampMacro,
                EvidenceModel::Look(reading),
            );
            match identity_read(input.path, reading, input.unreliable) {
                Err(error) => outcome == Err::<crate::capture::SettledModel, IoErrorModel>(error),
                Ok(Some(current)) if same_identity(current, identity) => outcome matches Ok(step)
                    && step.observed == Some(ObservedModel::EmbeddedTimestampMacro)
                    && step.fresh.len() == 0,
                _ => outcome == Err::<crate::capture::SettledModel, IoErrorModel>(
                    unstable_capture(),
                ),
            }
        }),
        forall|evidence: EvidenceModel|
            #[trigger] settled(
                FileDigestScope::Content,
                input,
                ResolutionModel::EmbeddedTimestampMacro,
                evidence,
            ) matches Err(error) && error.kind == IoErrorKind::InvalidData && error.message
                == "content digest resolver returned a cc-only outcome"@,
{
}

/// A read settles an unresolved file: a failure of it, or of the look behind it, fails the
/// capture; an unidentified file is not observed; an unstable one fails the capture; and a stable
/// one is observed with the digest of exactly the bytes that were read, which is recorded, unless
/// they hold a timestamp macro, of which nothing is recorded.
pub proof fn reads_settle_unresolved_files(
    scope: FileDigestScope,
    input: InputModel,
    file: Result<FileModel, IoErrorModel>,
    reading: ReadingModel,
)
    requires
        input.identity is Some,
    ensures
        ({
            let outcome = settled(
                scope,
                input,
                ResolutionModel::Unresolved,
                EvidenceModel::Read { file, reading },
            );
            match (file, identity_read(input.path, reading, input.unreliable)) {
                (Err(error), _) => outcome == Err::<crate::capture::SettledModel, IoErrorModel>(
                    error,
                ),
                (Ok(_), Err(error)) => outcome == Err::<crate::capture::SettledModel, IoErrorModel>(
                    error,
                ),
                (Ok(_), Ok(None)) => outcome matches Ok(step) && step.observed is None
                    && step.fresh.len() == 0,
                (Ok(file), Ok(Some(current))) => match handle_is_stable(
                    input.path,
                    file.before,
                    file.after,
                    current,
                    input.unreliable,
                    file.content.len() as u64,
                ) {
                    Err(error) => outcome == Err::<crate::capture::SettledModel, IoErrorModel>(
                        error,
                    ),
                    Ok(false) => outcome == Err::<crate::capture::SettledModel, IoErrorModel>(
                        unstable_capture(),
                    ),
                    Ok(true) => match content_resolution(file.scope, file.content) {
                        ResolutionModel::Digest(digest) => outcome matches Ok(step) && step.observed
                            == Some(
                            ObservedModel::Observation(
                                ObservationModel { identity: current, digest },
                            ),
                        ) && step.fresh == seq![RecordModel { file: current, digest }],
                        _ => outcome matches Ok(step) && step.observed == Some(
                            ObservedModel::EmbeddedTimestampMacro,
                        ) && step.fresh.len() == 0,
                    },
                },
            }
        }),
{
}

// Ends

/// A capture of contents yields the observation of each input, where it has one, in order.
pub proof fn observations_are_taken_one_for_one(observed: Seq<Option<ObservedModel>>, at: int)
    requires
        0 <= at < observed.len(),
    ensures
        observations_of(observed).len() == observed.len(),
        match observed[at] {
            Some(ObservedModel::Observation(observation)) => observations_of(observed)[at] == Some(
                observation,
            ),
            _ => observations_of(observed)[at] is None,
        },
        holds_no_macro(observed) <==> !observed.contains(
            Some(ObservedModel::EmbeddedTimestampMacro),
        ),
        last_of(observed) == observed[observed.len() - 1],
        last_of(Seq::<Option<ObservedModel>>::empty()) is None,
        forall|run: RunModel| #[trigger]
            is_finished(run) <==> run.observed.len() == run.inputs.len(),
{
    if holds_no_macro(observed) && observed.contains(Some(ObservedModel::EmbeddedTimestampMacro)) {
        let i = choose|i: int|
            0 <= i < observed.len() && observed[i] == Some(ObservedModel::EmbeddedTimestampMacro);
        assert(observed[i] != Some(ObservedModel::EmbeddedTimestampMacro));
    }
    if !holds_no_macro(observed) {
        let i = choose|i: int|
            0 <= i < observed.len() && observed[i] == Some(ObservedModel::EmbeddedTimestampMacro);
        assert(observed.contains(observed[i]));
    }
}

/// What was newly established reaches the cache, pair by pair and in order.
pub proof fn records_reach_the_cache<D: crate::ledger::FileDigestCache + ?Sized>(
    digests: &D,
    scope: FileDigestScope,
    fresh: Seq<RecordModel>,
)
    requires
        crate::capture::recorded(digests, scope, fresh),
        fresh.len() > 0,
    ensures
        exists|entries: Vec<crate::ledger::RecordedFileDigest>|
            {
                &&& #[trigger] call_ensures(D::record, (digests, scope, entries), ())
                &&& entries@.len() == fresh.len()
                &&& forall|i: int|
                    0 <= i < fresh.len() ==> (#[trigger] entries@[i]).file@ == fresh[i].file
                        && entries@[i].digest@ == fresh[i].digest
            },
{
    let entries = choose|entries: Vec<crate::ledger::RecordedFileDigest>|
        #[trigger] call_ensures(D::record, (digests, scope, entries), ()) && seq_view(entries@)
            == fresh;
    assert(entries@.len() == fresh.len());
    assert forall|i: int| 0 <= i < fresh.len() implies (#[trigger] entries@[i]).file@
        == fresh[i].file && entries@[i].digest@ == fresh[i].digest by {
        assert(seq_view(entries@)[i] == entries@[i]@);
    }
}

/// A capture that consults no cache reads its file: it begins with that one input unresolved.
pub proof fn uncached_captures_read_their_file(inspection: InspectionModel)
    ensures
        match inspected(inspection) {
            Err(error) => crate::capture::uncached_run(inspection) == Err::<RunModel, IoErrorModel>(
                error,
            ),
            Ok(input) => crate::capture::uncached_run(inspection) matches Ok(run) && {
                &&& run.scope == FileDigestScope::Content
                &&& run.inputs == seq![input]
                &&& run.resolutions == seq![ResolutionModel::Unresolved]
                &&& run.observed.len() == 0
                &&& run.fresh.len() == 0
            },
        },
{
}

/// A capture that keeps the contents keeps exactly the bytes that were read, with their digest,
/// and only of a stable regular file.
pub proof fn kept_contents_are_what_was_digested(
    inspection: InspectionModel,
    file: crate::capture::OpenedModel,
    reading: ReadingModel,
)
    ensures
        match crate::capture::contents_captured(inspection, Ok(file), reading) {
            Ok(Some((observation, contents))) => {
                &&& contents == file.contents
                &&& observation.digest == content_digest(file.contents)
                &&& inspection.reading.metadata matches Ok(metadata) && metadata.is_file
                &&& inspection.unreliable is Ok
                &&& identity_read(inspection.path, reading, inspection.unreliable->Ok_0) == Ok::<
                    Option<IdentityModel>,
                    IoErrorModel,
                >(Some(observation.identity))
                &&& handle_is_stable(
                    inspection.path,
                    file.before,
                    file.after,
                    observation.identity,
                    inspection.unreliable->Ok_0,
                    file.contents.len() as u64,
                ) == Ok::<bool, IoErrorModel>(true)
            },
            Ok(None) => inspection.unreliable is Ok && identity_read(
                inspection.path,
                reading,
                inspection.unreliable->Ok_0,
            ) == Ok::<Option<IdentityModel>, IoErrorModel>(None),
            Err(error) => {
                ||| inspection.reading.metadata == Err::<MetadataModel, IoErrorModel>(error)
                ||| inspection.reading.metadata matches Ok(metadata) && !metadata.is_file
                ||| inspection.unreliable == Err::<bool, IoErrorModel>(error)
                ||| identity_read(inspection.path, reading, inspection.unreliable->Ok_0) == Err::<
                    Option<IdentityModel>,
                    IoErrorModel,
                >(error)
                ||| identity_read(inspection.path, reading, inspection.unreliable->Ok_0) matches Ok(
                    Some(current),
                ) && handle_is_stable(
                    inspection.path,
                    file.before,
                    file.after,
                    current,
                    inspection.unreliable->Ok_0,
                    file.contents.len() as u64,
                ) != Ok::<bool, IoErrorModel>(true)
            },
        },
{
}

} // verus!
