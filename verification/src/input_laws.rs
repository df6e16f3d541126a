//! What holds of discovered inputs as a whole.

use crate::capture::{all_inspected, started, CaptureRun, EvidenceModel, InspectionModel};
use crate::capture_laws::{captures_are_sound, captures_begin_sound, result_fits, run_through};
use crate::coverage::{is_minimal, minimal_directories_are_unique};
use crate::error::{BypassModel, CcBypassReason, IoError, IoErrorModel};
use crate::identity::{FileIdentity, FileMetadata, FileTime, IdentityModel, MetadataModel};
use crate::inputs::{
    capture_rejected, captures_rejected, comparison_rejected, discovery_begins, file_inputs,
    file_observations, first_irregular, identity_in_question, identity_snapshots,
    input_left_snapshot, input_modified, input_unconfirmable, inputs_differ, inputs_left_snapshots,
    inputs_modified, inputs_unconfirmable, inspected_paths, manifest_input, manifest_inputs,
    needs_reading, no_observations, observed_at, only_files, path_to_blame, pending_inputs,
    pending_paths, result_rejected, results_rejected, run_begins, sizes_fit, sizes_view,
    snapshot_at, stands_in, stills_view, time_rejected, times_view, verdict, verification_begins,
    ActionInputModel, DiscoveredModel, InputDiscovery, InputLimits, Verification,
};
use crate::ledger::{FileDigestCache, FileDigestScope, ResolutionModel};
use crate::manifest::{is_manifest, INCLUDE_MANIFEST_PREFIX};
use crate::observation::{
    comparison, snapshot_matches, FileObservation, FileObservationMatch, FileSnapshot,
    ObservationModel, ObservedModel, SnapshotModel,
};
use crate::path::{
    lemma_normalized_fits, lemma_path_parts_fit, lemma_path_text_reads_back, normalized, path_parts,
    path_text, PathPart,
};
use crate::text::shown_text;
use crate::views::result_view;
use vstd::prelude::*;
use vstd::utf8::{encode_utf8, encode_utf8_valid_utf8};

verus! {

/// Text is encoded one part after another.
proof fn lemma_encoding_divides(front: Seq<char>, back: Seq<char>)
    ensures
        encode_utf8(front + back) == encode_utf8(front) + encode_utf8(back),
    decreases front.len(),
{
    if front.len() == 0 {
        assert(front + back =~= back);
        assert(encode_utf8(front) + encode_utf8(back) =~= encode_utf8(back));
    } else {
        assert((front + back).drop_first() =~= front.drop_first() + back);
        lemma_encoding_divides(front.drop_first(), back);
        let first = vstd::utf8::encode_scalar(front[0] as u32);
        assert(first + (encode_utf8(front.drop_first()) + encode_utf8(back)) =~= (first
            + encode_utf8(front.drop_first())) + encode_utf8(back));
    }
}

/// The input of a directory's manifest is told apart from file inputs by its path.
pub proof fn manifest_inputs_are_recognized(
    directory: Seq<u8>,
    digest: crate::digest::DigestModel,
)
    ensures
        is_manifest(manifest_input(directory, digest).path),
{
    let prefix = INCLUDE_MANIFEST_PREFIX@;
    let text = prefix + shown_text(directory);
    lemma_encoding_divides(prefix, shown_text(directory));
    encode_utf8_valid_utf8(text);
    assert(encode_utf8(text).take(encode_utf8(prefix).len() as int) =~= encode_utf8(prefix));
}

/// Each file input of a discovery rests on the observation at its position, whose digest it
/// carries; behind them stands one manifest of each directory, in their order, which rests on
/// none.
pub proof fn discovered_inputs_align_with_observations(
    files: Seq<Seq<u8>>,
    results: Seq<Option<ObservedModel>>,
    directories: Seq<Seq<u8>>,
    digests: Seq<crate::digest::DigestModel>,
    at: int,
)
    requires
        results.len() == files.len(),
        directories.len() == digests.len(),
        0 <= at < files.len() + directories.len(),
    ensures
        ({
            let inputs = file_inputs(files, results) + manifest_inputs(directories, digests);
            let observations = file_observations(results) + no_observations(directories.len());
            &&& inputs.len() == observations.len()
            &&& at < files.len() ==> inputs[at].path == files[at]
            &&& at < files.len() ==> observed_at(observations, at) is Some
            &&& at < files.len() ==> inputs[at].digest == observed_at(
                observations,
                at,
            )->Some_0.digest
            &&& at >= files.len() ==> inputs[at] == manifest_input(
                directories[at - files.len()],
                digests[at - files.len()],
            )
            &&& at >= files.len() ==> is_manifest(inputs[at].path) && observed_at(
                observations,
                at,
            ) is None
        }),
{
    let inputs = file_inputs(files, results) + manifest_inputs(directories, digests);
    if at >= files.len() {
        let i = at - files.len();
        assert(inputs[at] == manifest_input(directories[i], digests[i]));
        manifest_inputs_are_recognized(directories[i], digests[i]);
    }
}

proof fn lemma_results_accepted(
    files: Seq<Seq<u8>>,
    results: Seq<Option<ObservedModel>>,
    from: int,
    at: int,
)
    requires
        0 <= from <= at < files.len(),
        results_rejected(files, results, from) is None,
    ensures
        results[at] matches Some(ObservedModel::Observation(_)),
    decreases at - from,
{
    if from < at {
        lemma_results_accepted(files, results, from + 1, at);
    }
}

/// Where a capture of the files of a discovery is run to its end and accepted, each file input
/// rests on an observation of the very file that it names, over as many bytes as that file has;
/// and the manifests are of the directories that were asked for.
pub proof fn collected_inputs_are_of_what_was_asked_for(
    files: Seq<Seq<u8>>,
    inspections: Seq<InspectionModel>,
    resolutions: Seq<ResolutionModel>,
    evidence: Seq<EvidenceModel>,
    directories: Seq<Seq<u8>>,
    digests: Seq<crate::digest::DigestModel>,
    at: int,
)
    requires
        inspected_paths(inspections) == files,
        all_inspected(inspections) is Ok,
        evidence.len() == files.len(),
        run_through(
            started(FileDigestScope::CcInput, all_inspected(inspections)->Ok_0, resolutions),
            evidence,
        ) is Ok,
        results_rejected(
            files,
            run_through(
                started(FileDigestScope::CcInput, all_inspected(inspections)->Ok_0, resolutions),
                evidence,
            )->Ok_0.observed,
            0,
        ) is None,
        directories.len() == digests.len(),
        0 <= at < files.len() + directories.len(),
    ensures
        ({
            let run = run_through(
                started(FileDigestScope::CcInput, all_inspected(inspections)->Ok_0, resolutions),
                evidence,
            )->Ok_0;
            let inputs = file_inputs(files, run.observed) + manifest_inputs(directories, digests);
            let observations = file_observations(run.observed) + no_observations(directories.len());
            if at < files.len() {
                &&& inputs[at].path == files[at]
                &&& observed_at(observations, at) matches Some(observation) && {
                    &&& observation.identity.path == files[at]
                    &&& observation.digest == inputs[at].digest
                    &&& observation.digest.size == observation.identity.len
                }
            } else {
                &&& inputs[at] == manifest_input(
                    directories[at - files.len()],
                    digests[at - files.len()],
                )
                &&& observed_at(observations, at) is None
            }
        }),
{
    let inputs = all_inspected(inspections)->Ok_0;
    let begun = started(FileDigestScope::CcInput, inputs, resolutions);
    captures_begin_sound(FileDigestScope::CcInput, inspections, resolutions);
    captures_are_sound(begun, evidence);
    let results = run_through(begun, evidence)->Ok_0.observed;
    discovered_inputs_align_with_observations(files, results, directories, digests, at);
    if at < files.len() {
        lemma_results_accepted(files, results, 0, at);
        assert(result_fits(inputs[at], results[at]));
        assert(files[at] == inspections[at].path);
    }
}

/// The sum of the lengths of files.
pub open spec fn total_size(sizes: Seq<Result<MetadataModel, IoErrorModel>>) -> nat
    decreases sizes.len(),
{
    if sizes.len() == 0 {
        0
    } else {
        total_size(sizes.drop_last()) + sizes.last()->Ok_0.len as nat
    }
}

proof fn lemma_sizes_fit(
    files: Seq<Seq<u8>>,
    sizes: Seq<Result<MetadataModel, IoErrorModel>>,
    limit: u64,
    total: u64,
    from: int,
)
    requires
        sizes.len() == files.len(),
        0 <= from <= files.len(),
        limit < u64::MAX,
        total <= limit,
        total == total_size(sizes.take(from)),
        forall|i: int|
            0 <= i < from ==> #[trigger] sizes[i] is Ok && sizes[i]->Ok_0.is_file,
        sizes_fit(files, sizes, limit, total, from) is Ok,
    ensures
        forall|i: int|
            0 <= i < sizes.len() ==> #[trigger] sizes[i] is Ok && sizes[i]->Ok_0.is_file,
        total_size(sizes) <= limit,
    decreases files.len() - from,
{
    if from == files.len() {
        assert(sizes.take(from) =~= sizes);
    } else {
        assert(sizes.take(from + 1).drop_last() =~= sizes.take(from));
        assert(sizes.take(from + 1).last() == sizes[from]);
        let sum = total + sizes[from]->Ok_0.len;
        lemma_sizes_fit(files, sizes, limit, sum as u64, from + 1);
    }
}

/// Files that pass the budget are all regular, and hold no more bytes together than they may.
pub proof fn accepted_files_keep_to_the_budget(
    files: Seq<Seq<u8>>,
    sizes: Seq<Result<MetadataModel, IoErrorModel>>,
    limit: u64,
)
    requires
        sizes.len() == files.len(),
        limit < u64::MAX,
        sizes_fit(files, sizes, limit, 0, 0) is Ok,
    ensures
        forall|i: int|
            0 <= i < sizes.len() ==> #[trigger] sizes[i] is Ok && sizes[i]->Ok_0.is_file,
        total_size(sizes) <= limit,
{
    assert(sizes.take(0) =~= Seq::<Result<MetadataModel, IoErrorModel>>::empty());
    lemma_sizes_fit(files, sizes, limit, 0, 0);
}

proof fn lemma_none_modified(
    discovered: DiscoveredModel,
    before: Map<Seq<PathPart>, FileObservation>,
    modified: Seq<Result<FileTime, IoErrorModel>>,
    started_at: FileTime,
    from: int,
    at: int,
)
    requires
        0 <= from <= at < discovered.inputs.len(),
        inputs_modified(discovered, before, modified, started_at, from) is None,
    ensures
        input_modified(
            discovered.inputs[at],
            observed_at(discovered.observations, at),
            before,
            modified[at],
            started_at,
        ) is None,
    decreases at - from,
{
    if from < at {
        lemma_none_modified(discovered, before, modified, started_at, from + 1, at);
    }
}

/// Inputs that pass as unmodified were each either observed before and hold the same bytes now,
/// or last modified before the compiler started.
pub proof fn accepted_inputs_were_not_modified(
    discovered: DiscoveredModel,
    before: Map<Seq<PathPart>, FileObservation>,
    modified: Seq<Result<FileTime, IoErrorModel>>,
    started_at: FileTime,
    at: int,
)
    requires
        inputs_modified(discovered, before, modified, started_at, 0) is None,
        0 <= at < discovered.inputs.len(),
        !is_manifest(discovered.inputs[at].path),
    ensures
        observed_at(discovered.observations, at) is Some,
        ({
            let current = observed_at(discovered.observations, at)->Some_0;
            let place = path_parts(discovered.inputs[at].path);
            if before.contains_key(place) {
                &&& comparison(before[place]@, Some(current.identity), current.digest)
                    == FileObservationMatch::Reusable
                &&& before[place]@.digest == current.digest
            } else {
                modified[at] matches Ok(time) && time.precedes(started_at)
            }
        }),
{
    lemma_none_modified(discovered, before, modified, started_at, 0, at);
}

proof fn lemma_none_left_snapshots(
    discovered: DiscoveredModel,
    snapshots: spec_fn(Seq<PathPart>) -> Option<SnapshotModel>,
    modified: Seq<Result<FileTime, IoErrorModel>>,
    started_at: FileTime,
    from: int,
    at: int,
)
    requires
        0 <= from <= at < discovered.inputs.len(),
        inputs_left_snapshots(discovered, snapshots, modified, started_at, from) is None,
    ensures
        input_left_snapshot(
            discovered.inputs[at],
            observed_at(discovered.observations, at),
            snapshots(path_parts(discovered.inputs[at].path)),
            modified[at],
            started_at,
        ) is None,
    decreases at - from,
{
    if from < at {
        lemma_none_left_snapshots(discovered, snapshots, modified, started_at, from + 1, at);
    }
}

/// Inputs that pass against snapshots were each observed as its snapshot says, where the snapshot
/// carries evidence, and else last modified before the compiler started.
pub proof fn accepted_inputs_left_no_snapshot(
    discovered: DiscoveredModel,
    snapshots: spec_fn(Seq<PathPart>) -> Option<SnapshotModel>,
    modified: Seq<Result<FileTime, IoErrorModel>>,
    started_at: FileTime,
    at: int,
)
    requires
        inputs_left_snapshots(discovered, snapshots, modified, started_at, 0) is None,
        0 <= at < discovered.inputs.len(),
        !is_manifest(discovered.inputs[at].path),
    ensures
        match snapshots(path_parts(discovered.inputs[at].path)) {
            Some(snapshot) if snapshot.observation is Some || snapshot.identity.changed is Some => {
                observed_at(discovered.observations, at) matches Some(current) && snapshot_matches(
                    snapshot,
                    Some(current.identity),
                    current.digest,
                )
            },
            _ => modified[at] matches Ok(time) && time.precedes(started_at),
        },
{
    lemma_none_left_snapshots(discovered, snapshots, modified, started_at, 0, at);
}

proof fn lemma_none_differ(
    discovered: DiscoveredModel,
    pending: Seq<bool>,
    captured: Seq<Option<ObservedModel>>,
    from: int,
    taken: int,
    at: int,
)
    requires
        pending.len() == discovered.inputs.len(),
        0 <= from <= at < discovered.inputs.len(),
        !is_manifest(discovered.inputs[at].path),
        forall|i: int|
            0 <= i < discovered.inputs.len() && is_manifest(
                (#[trigger] discovered.inputs[i]).path,
            ) ==> !pending[i],
        taken == pending_paths(discovered.inputs, pending.take(from)).len(),
        inputs_differ(discovered, pending, captured, from, taken) is None,
    ensures
        ({
            let previous = observed_at(discovered.observations, at)->Some_0;
            let current = if pending[at] {
                captured[pending_paths(
                    discovered.inputs,
                    pending.take(at),
                ).len() as int]->Some_0->Observation_0
            } else {
                previous
            };
            comparison(previous, Some(current.identity), current.digest)
                == FileObservationMatch::Reusable
        }),
    decreases at - from,
{
    if from < at {
        assert(pending.take(from + 1).drop_last() =~= pending.take(from));
        assert(pending.take(from + 1).last() == pending[from]);
        let next = if pending[from] { taken + 1 } else { taken };
        lemma_none_differ(discovered, pending, captured, from + 1, next, at);
    }
}

proof fn lemma_pending_path(inputs: Seq<ActionInputModel>, pending: Seq<bool>, at: int)
    requires
        0 <= at < pending.len(),
        pending[at],
    ensures
        ({
            let k = pending_paths(inputs, pending.take(at)).len() as int;
            &&& k < pending_paths(inputs, pending).len()
            &&& pending_paths(inputs, pending)[k] == inputs[at].path
        }),
    decreases pending.len(),
{
    let front = pending.drop_last();
    if at == pending.len() - 1 {
        assert(pending.take(at) =~= front);
    } else {
        assert(front.take(at) =~= pending.take(at));
        lemma_pending_path(inputs, front, at);
    }
}

/// Where the inputs to be read again are captured, each is compared with an observation of the
/// very file that it names, over as many bytes as that file has.
pub proof fn inputs_are_compared_with_their_own_files(
    inputs: Seq<ActionInputModel>,
    pending: Seq<bool>,
    inspections: Seq<InspectionModel>,
    resolutions: Seq<ResolutionModel>,
    evidence: Seq<EvidenceModel>,
    at: int,
)
    requires
        pending.len() == inputs.len(),
        inspected_paths(inspections) == pending_paths(inputs, pending),
        all_inspected(inspections) is Ok,
        evidence.len() == inspections.len(),
        run_through(
            started(FileDigestScope::CcInput, all_inspected(inspections)->Ok_0, resolutions),
            evidence,
        ) is Ok,
        0 <= at < inputs.len(),
        pending[at],
    ensures
        ({
            let captured = run_through(
                started(FileDigestScope::CcInput, all_inspected(inspections)->Ok_0, resolutions),
                evidence,
            )->Ok_0.observed;
            let k = pending_paths(inputs, pending.take(at)).len() as int;
            &&& k < captured.len()
            &&& captured[k] matches Some(ObservedModel::Observation(current)) ==> {
                &&& current.identity.path == inputs[at].path
                &&& current.digest.size == current.identity.len
            }
        }),
{
    let found = all_inspected(inspections)->Ok_0;
    let begun = started(FileDigestScope::CcInput, found, resolutions);
    captures_begin_sound(FileDigestScope::CcInput, inspections, resolutions);
    captures_are_sound(begun, evidence);
    lemma_pending_path(inputs, pending, at);
    let captured = run_through(begun, evidence)->Ok_0.observed;
    let k = pending_paths(inputs, pending.take(at)).len() as int;
    assert(result_fits(found[k], captured[k]));
    assert(inspected_paths(inspections)[k] == inspections[k].path);
}

/// Confirmed inputs hold what they held when they were discovered: each that was observed again
/// has the same digest, and the observations can be reused for one another.
pub proof fn confirmed_inputs_are_unchanged(
    discovered: DiscoveredModel,
    pending: Seq<bool>,
    captured: Seq<Option<ObservedModel>>,
    at: int,
)
    requires
        crate::inputs::can_be_confirmed(discovered, pending),
        inputs_differ(discovered, pending, captured, 0, 0) is None,
        0 <= at < discovered.inputs.len(),
        !is_manifest(discovered.inputs[at].path),
        pending[at],
    ensures
        ({
            let previous = observed_at(discovered.observations, at)->Some_0;
            let current = captured[pending_paths(
                discovered.inputs,
                pending.take(at),
            ).len() as int]->Some_0->Observation_0;
            &&& comparison(previous, Some(current.identity), current.digest)
                == FileObservationMatch::Reusable
            &&& previous.digest == current.digest
        }),
{
    assert(pending.take(0) =~= Seq::<bool>::empty());
    lemma_none_differ(discovered, pending, captured, 0, 0, at);
}

/// An input whose identity can stand in for a second read, and still describes it, is not read
/// again; every other file input is.
pub proof fn unchanged_identities_spare_a_read(
    discovered: DiscoveredModel,
    still: Seq<Result<bool, IoErrorModel>>,
    at: int,
)
    requires
        0 <= at < discovered.inputs.len(),
        !is_manifest(discovered.inputs[at].path),
        observed_at(discovered.observations, at) is Some,
    ensures
        pending_inputs(discovered, still)[at] == !(crate::inputs::stands_in(
            observed_at(discovered.observations, at)->Some_0.identity,
        ) && still[at] == Ok::<bool, IoErrorModel>(true)),
{
}

/// The file inputs are all of the inputs but the manifests.
pub proof fn file_inputs_are_the_others(inputs: Seq<ActionInputModel>, input: ActionInputModel)
    ensures
        only_files(inputs).contains(input) <==> inputs.contains(input) && !is_manifest(input.path),
    decreases inputs.len(),
{
    if inputs.len() > 0 {
        let front = inputs.drop_last();
        let last = inputs.last();
        file_inputs_are_the_others(front, input);
        let kept = only_files(front);
        assert(inputs =~= front.push(last));
        if inputs.contains(input) {
            let i = choose|i: int| 0 <= i < inputs.len() && inputs[i] == input;
            if i < front.len() {
                assert(front[i] == input);
            }
        }
        if front.contains(input) {
            let i = choose|i: int| 0 <= i < front.len() && front[i] == input;
            assert(inputs[i] == input);
        }
        if kept.contains(input) {
            let i = choose|i: int| 0 <= i < kept.len() && kept[i] == input;
            if !is_manifest(last.path) {
                assert(only_files(inputs)[i] == input);
            }
        }
        if !is_manifest(last.path) {
            assert(only_files(inputs)[kept.len() as int] == last);
            if only_files(inputs).contains(input) {
                let i = choose|i: int|
                    0 <= i < only_files(inputs).len() && only_files(inputs)[i] == input;
                if i < kept.len() {
                    assert(kept[i] == input);
                } else {
                    assert(inputs[inputs.len() - 1] == input);
                }
            }
        }
        assert(inputs[inputs.len() - 1] == last);
    }
}

/// Inputs can always be applied to a context with the working directory they were collected
/// under, however either is spelled.
pub proof fn inputs_apply_where_they_were_collected(collected: Seq<u8>, applied: Seq<u8>)
    requires
        normalized(path_parts(collected)) == normalized(path_parts(applied)),
    ensures
        normalized(path_parts(applied)) == path_parts(path_text(normalized(path_parts(collected)))),
{
    lemma_path_parts_fit(collected);
    lemma_normalized_fits(path_parts(collected));
    lemma_path_text_reads_back(normalized(path_parts(collected)));
}

/// Inputs whose identities all still stand are confirmed without any reading.
pub proof fn untouched_inputs_are_confirmed(
    discovered: DiscoveredModel,
    pending: Seq<bool>,
    captured: Seq<Option<ObservedModel>>,
    from: int,
    taken: int,
)
    requires
        crate::inputs::can_be_confirmed(discovered, pending),
        0 <= from <= discovered.inputs.len(),
        forall|i: int| 0 <= i < pending.len() ==> !#[trigger] pending[i],
        forall|i: int|
            0 <= i < discovered.inputs.len() && !is_manifest(
                (#[trigger] discovered.inputs[i]).path,
            ) ==> observed_at(discovered.observations, i)->Some_0.digest.size == observed_at(
                discovered.observations,
                i,
            )->Some_0.identity.len,
    ensures
        inputs_differ(discovered, pending, captured, from, taken) is None,
    decreases discovered.inputs.len() - from,
{
    if from < discovered.inputs.len() {
        untouched_inputs_are_confirmed(discovered, pending, captured, from + 1, taken);
        assert(!pending[from]);
        let input = discovered.inputs[from];
    }
}

// Blame and budget

/// A failed batch is blamed on the first path that is not known to be regular, and else on the
/// first of all.
pub proof fn the_first_irregular_path_is_blamed(
    paths: Seq<Seq<u8>>,
    regular: Seq<bool>,
    at: int,
)
    requires
        0 <= at < paths.len(),
        at <= regular.len(),
        forall|j: int| 0 <= j < at ==> #[trigger] regular[j],
    ensures
        !(at < regular.len() && regular[at]) ==> path_to_blame(paths, regular) == paths[at],
        at == paths.len() - 1 && at < regular.len() && regular[at] ==> path_to_blame(paths, regular)
            == paths[0],
        path_to_blame(Seq::empty(), regular) == Seq::<u8>::empty(),
{
    lemma_first_irregular(paths, regular, 0, at);
}

proof fn lemma_first_irregular(paths: Seq<Seq<u8>>, regular: Seq<bool>, from: int, at: int)
    requires
        0 <= from <= at < paths.len(),
        at <= regular.len(),
        forall|j: int| from <= j < at ==> #[trigger] regular[j],
    ensures
        !(at < regular.len() && regular[at]) ==> first_irregular(paths, regular, from) == Some(
            paths[at],
        ),
        at == paths.len() - 1 && at < regular.len() && regular[at] ==> first_irregular(
            paths,
            regular,
            from,
        ) is None,
    decreases at - from,
{
    if from < at {
        assert(regular[from]);
        lemma_first_irregular(paths, regular, from + 1, at);
    } else if at < regular.len() && regular[at] {
        assert(first_irregular(paths, regular, from) == first_irregular(paths, regular, from + 1));
    }
}

proof fn lemma_totals_grow(sizes: Seq<Result<MetadataModel, IoErrorModel>>, at: int, end: int)
    requires
        0 <= at <= end <= sizes.len(),
    ensures
        total_size(sizes.take(at)) <= total_size(sizes.take(end)),
    decreases end - at,
{
    if at < end {
        assert(sizes.take(end).drop_last() =~= sizes.take(end - 1));
        lemma_totals_grow(sizes, at, end - 1);
    }
}

proof fn lemma_sizes_up_to(
    files: Seq<Seq<u8>>,
    sizes: Seq<Result<MetadataModel, IoErrorModel>>,
    limit: u64,
    total: u64,
    from: int,
    at: int,
)
    requires
        sizes.len() == files.len(),
        0 <= from <= at <= files.len(),
        total == total_size(sizes.take(from)),
        total_size(sizes.take(at)) <= limit,
        forall|j: int| 0 <= j < at ==> #[trigger] sizes[j] is Ok && sizes[j]->Ok_0.is_file,
    ensures
        sizes_fit(files, sizes, limit, total, from) == sizes_fit(
            files,
            sizes,
            limit,
            total_size(sizes.take(at)) as u64,
            at,
        ),
    decreases at - from,
{
    if from < at {
        assert(sizes[from] is Ok);
        assert(sizes.take(from + 1).drop_last() =~= sizes.take(from));
        assert(sizes.take(from + 1).last() == sizes[from]);
        lemma_totals_grow(sizes, from + 1, at);
        let sum = total + sizes[from]->Ok_0.len;
        assert(sum == total_size(sizes.take(from + 1)));
        lemma_sizes_up_to(files, sizes, limit, sum as u64, from + 1, at);
    }
}

/// Regular files that hold no more bytes together than they may are accepted.
pub proof fn files_within_the_budget_are_accepted(
    files: Seq<Seq<u8>>,
    sizes: Seq<Result<MetadataModel, IoErrorModel>>,
    limit: u64,
)
    requires
        sizes.len() == files.len(),
        total_size(sizes) <= limit,
        forall|i: int|
            0 <= i < sizes.len() ==> #[trigger] sizes[i] is Ok && sizes[i]->Ok_0.is_file,
    ensures
        sizes_fit(files, sizes, limit, 0, 0) == Ok::<(), BypassModel>(()),
{
    assert(sizes.take(0) =~= Seq::<Result<MetadataModel, IoErrorModel>>::empty());
    assert(sizes.take(sizes.len() as int) =~= sizes);
    lemma_sizes_up_to(files, sizes, limit, 0, 0, files.len() as int);
}

/// Where there is no budget to speak of, every regular file is accepted.
pub proof fn boundless_budgets_accept_every_file(
    files: Seq<Seq<u8>>,
    sizes: Seq<Result<MetadataModel, IoErrorModel>>,
    total: u64,
    from: int,
)
    requires
        sizes.len() == files.len(),
        0 <= from <= files.len(),
        forall|i: int|
            0 <= i < sizes.len() ==> #[trigger] sizes[i] is Ok && sizes[i]->Ok_0.is_file,
    ensures
        sizes_fit(files, sizes, u64::MAX, total, from) == Ok::<(), BypassModel>(()),
    decreases files.len() - from,
{
    if from < files.len() {
        assert(sizes[from] is Ok);
        let sum = crate::inputs::saturated(total + sizes[from]->Ok_0.len);
        boundless_budgets_accept_every_file(files, sizes, sum, from + 1);
    }
}

/// The first file that has no metadata, is not regular, or exceeds the budget is what files are
/// refused for, in that order.
pub proof fn the_first_unfit_file_is_refused(
    files: Seq<Seq<u8>>,
    sizes: Seq<Result<MetadataModel, IoErrorModel>>,
    limit: u64,
    at: int,
)
    requires
        sizes.len() == files.len(),
        0 <= at < files.len(),
        limit < u64::MAX,
        total_size(sizes.take(at)) <= limit,
        forall|j: int| 0 <= j < at ==> #[trigger] sizes[j] is Ok && sizes[j]->Ok_0.is_file,
    ensures
        match sizes[at] {
            Err(error) => sizes_fit(files, sizes, limit, 0, 0) == Err::<(), BypassModel>(
                BypassModel::InputRead { path: files[at], message: error.message },
            ),
            Ok(metadata) => {
                &&& !metadata.is_file ==> sizes_fit(files, sizes, limit, 0, 0) == Err::<
                    (),
                    BypassModel,
                >(
                    BypassModel::InputRead {
                        path: files[at],
                        message: "input is not a regular file"@,
                    },
                )
                &&& metadata.is_file && total_size(sizes.take(at)) + metadata.len > limit
                    ==> sizes_fit(files, sizes, limit, 0, 0) == Err::<(), BypassModel>(
                    BypassModel::TooManyInputs,
                )
            },
        },
{
    assert(sizes.take(0) =~= Seq::<Result<MetadataModel, IoErrorModel>>::empty());
    lemma_sizes_up_to(files, sizes, limit, 0, 0, at);
}

// Discovery

/// A discovery begins under an absolute working directory with no more inputs than there may be,
/// with every file, and with the directories that need a manifest.
pub proof fn discoveries_begin_with_every_file(
    discovery: Result<InputDiscovery, CcBypassReason>,
    working_dir: Seq<u8>,
    files: Seq<Seq<u8>>,
    directories: Seq<Seq<u8>>,
    solid: Set<Seq<PathPart>>,
    limits: InputLimits,
    minimal: Seq<Seq<u8>>,
)
    requires
        discovery_begins(discovery, working_dir, files, directories, solid, limits),
        is_minimal(minimal, directories, solid),
    ensures
        working_dir.len() == 0 || working_dir[0] != 47 ==> (discovery matches Err(reason) && reason@
            == BypassModel::RelativeWorkingDirectory(working_dir)),
        working_dir.len() > 0 && working_dir[0] == 47 && files.len() + minimal.len()
            > limits.inputs ==> (discovery matches Err(reason) && reason@
            == BypassModel::TooManyInputs),
        working_dir.len() > 0 && working_dir[0] == 47 && files.len() + minimal.len()
            <= limits.inputs ==> (discovery matches Ok(found) && found@.files == files
            && found@.directories == minimal && found@.limits == limits && found@.working_dir
            == path_text(normalized(path_parts(working_dir)))),
{
    if working_dir.len() > 0 && working_dir[0] == 47 {
        let other = choose|other: Seq<Seq<u8>>|
            {
                &&& #[trigger] is_minimal(other, directories, solid)
                &&& if files.len() + other.len() > limits.inputs {
                    result_view(discovery) == Err::<crate::inputs::DiscoveryModel, BypassModel>(
                        BypassModel::TooManyInputs,
                    )
                } else {
                    &&& discovery matches Ok(discovery)
                    &&& discovery@.working_dir == path_text(normalized(path_parts(working_dir)))
                    &&& discovery@.files == files
                    &&& discovery@.directories == other
                    &&& discovery@.limits == limits
                }
            };
        minimal_directories_are_unique(minimal, other, directories, solid);
    }
}

/// An observation makes a file an input; a timestamp macro, and no observation, refuse it.
pub proof fn results_make_inputs_or_refuse_them(path: Seq<u8>, observation: ObservationModel)
    ensures
        result_rejected(path, Some(ObservedModel::Observation(observation))) is None,
        result_rejected(path, Some(ObservedModel::EmbeddedTimestampMacro)) == Some(
            BypassModel::EmbeddedTimestampMacro(path),
        ),
        result_rejected(path, None) == Some(
            BypassModel::InputRead { path, message: "could not establish a file observation"@ },
        ),
        capture_rejected(path, Some(ObservedModel::Observation(observation))) is None,
        capture_rejected(path, Some(ObservedModel::EmbeddedTimestampMacro)) == Some(
            BypassModel::EmbeddedTimestampMacro(path),
        ),
        capture_rejected(path, None) == Some(BypassModel::InputModifiedDuringCompilation(path)),
{
}

/// The first result that refuses its file refuses them all; without one there is no reason to.
pub proof fn the_first_refused_result_counts(
    files: Seq<Seq<u8>>,
    results: Seq<Option<ObservedModel>>,
    from: int,
    at: int,
)
    requires
        0 <= from <= at < files.len(),
        forall|j: int| from <= j < at ==> result_rejected(#[trigger] files[j], results[j]) is None,
        forall|j: int| from <= j < at ==> capture_rejected(#[trigger] files[j], results[j]) is None,
    ensures
        result_rejected(files[at], results[at]) is Some ==> results_rejected(files, results, from)
            == result_rejected(files[at], results[at]),
        at == files.len() - 1 && result_rejected(files[at], results[at]) is None
            ==> results_rejected(files, results, from) is None,
        capture_rejected(files[at], results[at]) is Some ==> captures_rejected(
            files,
            results,
            from,
        ) == capture_rejected(files[at], results[at]),
        at == files.len() - 1 && capture_rejected(files[at], results[at]) is None
            ==> captures_rejected(files, results, from) is None,
        results_rejected(files, results, files.len() as int) is None,
        captures_rejected(files, results, files.len() as int) is None,
    decreases at - from,
{
    if from < at {
        assert(result_rejected(files[from], results[from]) is None);
        the_first_refused_result_counts(files, results, from + 1, at);
    } else {
        assert(results_rejected(files, results, at + 1) is None || at + 1 < files.len());
        assert(captures_rejected(files, results, at + 1) is None || at + 1 < files.len());
    }
}

/// A manifest's input is named after its directory, behind the marker of manifests, and carries the
/// manifest's digest.
pub proof fn manifest_inputs_are_named_after_their_directories(
    directory: Seq<u8>,
    digest: crate::digest::DigestModel,
)
    ensures
        manifest_input(directory, digest).path == encode_utf8(
            "@include-manifest:"@ + shown_text(directory),
        ),
        manifest_input(directory, digest).digest == digest,
{
}

/// The file inputs are the inputs that are no manifests, in their order.
pub proof fn file_inputs_keep_their_order(inputs: Seq<ActionInputModel>)
    ensures
        only_files(inputs) == inputs.filter(
            |input: ActionInputModel| !is_manifest(input.path),
        ),
    decreases inputs.len(),
{
    reveal(Seq::filter);
    if inputs.len() > 0 {
        file_inputs_keep_their_order(inputs.drop_last());
        let is_file = |input: ActionInputModel| !is_manifest(input.path);
        assert(only_files(inputs.drop_last()) == inputs.drop_last().filter(is_file));
    }
}

// Modification

/// A file passes by its modification time exactly when that lies before the compiler's start, on
/// the line of nanoseconds; else the time, or the failure to get it, refuses the file.
pub proof fn modification_times_must_precede_the_compiler(
    path: Seq<u8>,
    modified: FileTime,
    started_at: FileTime,
    error: IoErrorModel,
)
    requires
        modified.nanos < 1_000_000_000,
        started_at.nanos < 1_000_000_000,
    ensures
        modified.seconds * 1_000_000_000 + modified.nanos < started_at.seconds * 1_000_000_000
            + started_at.nanos ==> time_rejected(path, Ok(modified), started_at) is None,
        modified.seconds * 1_000_000_000 + modified.nanos >= started_at.seconds * 1_000_000_000
            + started_at.nanos ==> time_rejected(path, Ok(modified), started_at) == Some(
            BypassModel::InputModifiedDuringCompilation(path),
        ),
        time_rejected(path, Err(error), started_at) == Some(
            BypassModel::InputRead { path, message: error.message },
        ),
{
    crate::identity_laws::times_are_ordered_by_instant(modified, started_at);
}

/// A reusable input passes, a changed one is refused as changed, and an undecided one as modified.
pub proof fn comparisons_pass_reusable_inputs(path: Seq<u8>, reason: BypassModel)
    ensures
        comparison_rejected(path, FileObservationMatch::Reusable) is None,
        comparison_rejected(path, FileObservationMatch::Changed) == Some(
            BypassModel::InputChanged(path),
        ),
        comparison_rejected(path, FileObservationMatch::Indeterminate) == Some(
            BypassModel::InputModifiedDuringCompilation(path),
        ),
        verdict(None) == Ok::<(), BypassModel>(()),
        verdict(Some(reason)) == Err::<(), BypassModel>(reason),
{
}

/// A manifest is not checked for modification. A file that was not observed is refused; one that
/// was observed before the compiler ran is compared with that; and any other passes by its time.
pub proof fn inputs_are_checked_by_their_best_evidence(
    input: ActionInputModel,
    observation: ObservationModel,
    before: Map<Seq<PathPart>, FileObservation>,
    modified: Result<FileTime, IoErrorModel>,
    started_at: FileTime,
)
    ensures
        is_manifest(input.path) ==> input_modified(
            input,
            None,
            before,
            modified,
            started_at,
        ) is None && input_modified(
            input,
            Some(observation),
            before,
            modified,
            started_at,
        ) is None,
        !is_manifest(input.path) ==> {
            &&& input_modified(input, None, before, modified, started_at) == Some(
                BypassModel::InputModifiedDuringCompilation(input.path),
            )
            &&& before.contains_key(path_parts(input.path)) ==> input_modified(
                input,
                Some(observation),
                before,
                modified,
                started_at,
            ) == comparison_rejected(
                input.path,
                comparison(
                    before[path_parts(input.path)]@,
                    Some(observation.identity),
                    observation.digest,
                ),
            )
            &&& !before.contains_key(path_parts(input.path)) ==> input_modified(
                input,
                Some(observation),
                before,
                modified,
                started_at,
            ) == time_rejected(input.path, modified, started_at)
        },
{
}

/// The first input that may have been modified is what the inputs are refused for.
pub proof fn the_first_modified_input_counts(
    discovered: DiscoveredModel,
    before: Map<Seq<PathPart>, FileObservation>,
    modified: Seq<Result<FileTime, IoErrorModel>>,
    started_at: FileTime,
    from: int,
    at: int,
)
    requires
        0 <= from <= at < discovered.inputs.len(),
        forall|j: int|
            from <= j < at ==> input_modified(
                #[trigger] discovered.inputs[j],
                observed_at(discovered.observations, j),
                before,
                modified[j],
                started_at,
            ) is None,
    ensures
        ({
            let found = input_modified(
                discovered.inputs[at],
                observed_at(discovered.observations, at),
                before,
                modified[at],
                started_at,
            );
            &&& found is Some ==> inputs_modified(discovered, before, modified, started_at, from)
                == found
            &&& found is None && at == discovered.inputs.len() - 1 ==> inputs_modified(
                discovered,
                before,
                modified,
                started_at,
                from,
            ) is None
        }),
    decreases at - from,
{
    if from < at {
        assert(input_modified(
            discovered.inputs[from],
            observed_at(discovered.observations, from),
            before,
            modified[from],
            started_at,
        ) is None);
        the_first_modified_input_counts(discovered, before, modified, started_at, from + 1, at);
    } else if at == discovered.inputs.len() - 1 {
        assert(inputs_modified(discovered, before, modified, started_at, at + 1) is None);
    }
}

/// An input without an observation from before is accepted only where its last modification lies
/// before the compiler's start, on the line of nanoseconds.
pub proof fn accepted_new_inputs_precede_the_compiler(
    discovered: DiscoveredModel,
    before: Map<Seq<PathPart>, FileObservation>,
    modified: Seq<Result<FileTime, IoErrorModel>>,
    started_at: FileTime,
    at: int,
)
    requires
        inputs_modified(discovered, before, modified, started_at, 0) is None,
        0 <= at < discovered.inputs.len(),
        !is_manifest(discovered.inputs[at].path),
        !before.contains_key(path_parts(discovered.inputs[at].path)),
        started_at.nanos < 1_000_000_000,
        modified[at] matches Ok(time) ==> time.nanos < 1_000_000_000,
    ensures
        modified[at] matches Ok(time) && time.seconds * 1_000_000_000 + time.nanos
            < started_at.seconds * 1_000_000_000 + started_at.nanos,
{
    accepted_inputs_were_not_modified(discovered, before, modified, started_at, at);
    crate::identity_laws::times_are_ordered_by_instant(modified[at]->Ok_0, started_at);
}

/// Against a snapshot that carries evidence an input passes exactly when what was observed of it
/// matches; against none, or one without, it passes by its time; and a manifest always passes.
pub proof fn snapshots_are_checked_by_their_evidence(
    input: ActionInputModel,
    observation: Option<ObservationModel>,
    snapshot: SnapshotModel,
    modified: Result<FileTime, IoErrorModel>,
    started_at: FileTime,
)
    ensures
        is_manifest(input.path) ==> input_left_snapshot(
            input,
            observation,
            Some(snapshot),
            modified,
            started_at,
        ) is None,
        !is_manifest(input.path) ==> {
            let found = input_left_snapshot(
                input,
                observation,
                Some(snapshot),
                modified,
                started_at,
            );
            &&& input_left_snapshot(input, observation, None, modified, started_at)
                == time_rejected(input.path, modified, started_at)
            &&& snapshot.observation is None && snapshot.identity.changed is None ==> found
                == time_rejected(input.path, modified, started_at)
            &&& snapshot.observation is Some || snapshot.identity.changed is Some ==> found == (
            if observation is Some && snapshot_matches(
                snapshot,
                Some(observation->Some_0.identity),
                observation->Some_0.digest,
            ) {
                None
            } else {
                Some(BypassModel::InputModifiedDuringCompilation(input.path))
            })
        },
{
}

/// The first input that may have left its snapshot is what the inputs are refused for.
pub proof fn the_first_left_snapshot_counts(
    discovered: DiscoveredModel,
    snapshots: spec_fn(Seq<PathPart>) -> Option<SnapshotModel>,
    modified: Seq<Result<FileTime, IoErrorModel>>,
    started_at: FileTime,
    from: int,
    at: int,
)
    requires
        0 <= from <= at < discovered.inputs.len(),
        forall|j: int|
            from <= j < at ==> input_left_snapshot(
                #[trigger] discovered.inputs[j],
                observed_at(discovered.observations, j),
                snapshots(path_parts(discovered.inputs[j].path)),
                modified[j],
                started_at,
            ) is None,
    ensures
        ({
            let found = input_left_snapshot(
                discovered.inputs[at],
                observed_at(discovered.observations, at),
                snapshots(path_parts(discovered.inputs[at].path)),
                modified[at],
                started_at,
            );
            &&& found is Some ==> inputs_left_snapshots(
                discovered,
                snapshots,
                modified,
                started_at,
                from,
            ) == found
            &&& found is None && at == discovered.inputs.len() - 1 ==> inputs_left_snapshots(
                discovered,
                snapshots,
                modified,
                started_at,
                from,
            ) is None
        }),
    decreases at - from,
{
    if from < at {
        assert(input_left_snapshot(
            discovered.inputs[from],
            observed_at(discovered.observations, from),
            snapshots(path_parts(discovered.inputs[from].path)),
            modified[from],
            started_at,
        ) is None);
        the_first_left_snapshot_counts(discovered, snapshots, modified, started_at, from + 1, at);
    } else if at == discovered.inputs.len() - 1 {
        assert(inputs_left_snapshots(discovered, snapshots, modified, started_at, at + 1) is None);
    }
}

/// Snapshots are looked up by place, and identities alone make snapshots without observations.
pub proof fn snapshots_are_looked_up_by_place(
    snapshots: Map<Seq<PathPart>, FileSnapshot>,
    identities: Map<Seq<PathPart>, FileIdentity>,
    place: Seq<PathPart>,
)
    ensures
        snapshot_at(snapshots, place) == (if snapshots.contains_key(place) {
            Some(snapshots[place]@)
        } else {
            None
        }),
        identities.contains_key(place) ==> (identity_snapshots(identities)(place) matches Some(
            snapshot,
        ) && snapshot.identity == identities[place]@ && snapshot.observation is None),
        !identities.contains_key(place) ==> identity_snapshots(identities)(place) is None,
{
}

// Confirmation

/// An identity stands in for a second read exactly when it has a change time or an object, and is
/// asked about exactly then.
pub proof fn strong_identities_stand_in(discovered: DiscoveredModel, at: int)
    requires
        0 <= at < discovered.inputs.len(),
    ensures
        forall|identity: IdentityModel| #[trigger]
            stands_in(identity) <==> identity.changed is Some || identity.object is Some,
        identity_in_question(discovered, at) == (if !is_manifest(discovered.inputs[at].path)
            && observed_at(discovered.observations, at) is Some && (observed_at(
            discovered.observations,
            at,
        )->Some_0.identity.changed is Some || observed_at(
            discovered.observations,
            at,
        )->Some_0.identity.object is Some) {
            Some(observed_at(discovered.observations, at)->Some_0.identity)
        } else {
            None
        }),
        observed_at(discovered.observations, at) == (if at < discovered.observations.len() {
            discovered.observations[at]
        } else {
            None
        }),
{
}

/// An input cannot be confirmed where it was never observed, or where its strong identity could
/// not be looked at; a manifest needs no confirmation.
pub proof fn unobserved_inputs_cannot_be_confirmed(
    input: ActionInputModel,
    observation: Option<ObservationModel>,
    still: Result<bool, IoErrorModel>,
)
    ensures
        input_unconfirmable(input, observation, still) == (if is_manifest(input.path) {
            None
        } else if observation is None {
            Some(BypassModel::InputModifiedDuringCompilation(input.path))
        } else if still is Err && (observation->Some_0.identity.changed is Some
            || observation->Some_0.identity.object is Some) {
            Some(BypassModel::InputRead { path: input.path, message: still->Err_0.message })
        } else {
            None
        }),
        needs_reading(input, observation, still) <==> !is_manifest(input.path) && !(
        observation is Some && (observation->Some_0.identity.changed is Some
            || observation->Some_0.identity.object is Some) && still == Ok::<bool, IoErrorModel>(
            true,
        )),
{
}

/// The first input that cannot be confirmed is what the inputs are refused for; without one, each
/// input is read again exactly when it needs to be.
pub proof fn the_first_unconfirmable_input_counts(
    discovered: DiscoveredModel,
    still: Seq<Result<bool, IoErrorModel>>,
    from: int,
    at: int,
)
    requires
        0 <= from <= at < discovered.inputs.len(),
        forall|j: int|
            from <= j < at ==> input_unconfirmable(
                #[trigger] discovered.inputs[j],
                observed_at(discovered.observations, j),
                still[j],
            ) is None,
    ensures
        ({
            let found = input_unconfirmable(
                discovered.inputs[at],
                observed_at(discovered.observations, at),
                still[at],
            );
            &&& found is Some ==> inputs_unconfirmable(discovered, still, from) == found
            &&& found is None && at == discovered.inputs.len() - 1 ==> inputs_unconfirmable(
                discovered,
                still,
                from,
            ) is None
        }),
        pending_inputs(discovered, still).len() == discovered.inputs.len(),
        pending_inputs(discovered, still)[at] == needs_reading(
            discovered.inputs[at],
            observed_at(discovered.observations, at),
            still[at],
        ),
    decreases at - from,
{
    if from < at {
        assert(input_unconfirmable(
            discovered.inputs[from],
            observed_at(discovered.observations, from),
            still[from],
        ) is None);
        the_first_unconfirmable_input_counts(discovered, still, from + 1, at);
    } else if at == discovered.inputs.len() - 1 {
        assert(inputs_unconfirmable(discovered, still, at + 1) is None);
    }
}

/// The inputs that are read again are those that are pending, in order, each by its own path.
pub proof fn pending_inputs_are_read_in_order(
    inputs: Seq<ActionInputModel>,
    pending: Seq<bool>,
    at: int,
)
    requires
        pending.len() == inputs.len(),
        0 <= at < pending.len(),
    ensures
        pending_paths(inputs, pending).len() == pending.filter(|flag: bool| flag).len(),
        pending[at] ==> {
            let k = pending.take(at).filter(|flag: bool| flag).len() as int;
            &&& 0 <= k < pending_paths(inputs, pending).len()
            &&& pending_paths(inputs, pending)[k] == inputs[at].path
        },
{
    let flagged = |flag: bool| flag;
    lemma_pending_count(inputs, pending);
    lemma_pending_count(inputs, pending.take(at));
    if pending[at] {
        lemma_pending_path(inputs, pending, at);
    }
}

proof fn lemma_pending_count(inputs: Seq<ActionInputModel>, pending: Seq<bool>)
    ensures
        pending_paths(inputs, pending).len() == pending.filter(|flag: bool| flag).len(),
    decreases pending.len(),
{
    reveal(Seq::filter);
    if pending.len() > 0 {
        lemma_pending_count(inputs, pending.drop_last());
    }
}

/// The first input that is not what it was is what the inputs are refused for: one that was read
/// again is compared with what was captured of it, and any other with itself.
pub proof fn the_first_different_input_counts(
    discovered: DiscoveredModel,
    pending: Seq<bool>,
    captured: Seq<Option<ObservedModel>>,
    from: int,
    taken: int,
)
    requires
        0 <= from < discovered.inputs.len(),
    ensures
        is_manifest(discovered.inputs[from].path) ==> inputs_differ(
            discovered,
            pending,
            captured,
            from,
            taken,
        ) == inputs_differ(discovered, pending, captured, from + 1, taken),
        !is_manifest(discovered.inputs[from].path) ==> {
            let previous = observed_at(discovered.observations, from)->Some_0;
            let current = if pending[from] {
                captured[taken]->Some_0->Observation_0
            } else {
                previous
            };
            let next = if pending[from] {
                taken + 1
            } else {
                taken
            };
            match comparison(previous, Some(current.identity), current.digest) {
                FileObservationMatch::Reusable => inputs_differ(
                    discovered,
                    pending,
                    captured,
                    from,
                    taken,
                ) == inputs_differ(discovered, pending, captured, from + 1, next),
                FileObservationMatch::Changed => inputs_differ(
                    discovered,
                    pending,
                    captured,
                    from,
                    taken,
                ) == Some(BypassModel::InputChanged(discovered.inputs[from].path)),
                FileObservationMatch::Indeterminate => inputs_differ(
                    discovered,
                    pending,
                    captured,
                    from,
                    taken,
                ) == Some(
                    BypassModel::InputModifiedDuringCompilation(discovered.inputs[from].path),
                ),
            }
        },
        inputs_differ(
            discovered,
            pending,
            captured,
            discovered.inputs.len() as int,
            taken,
        ) is None,
{
}

/// A confirmation begins exactly where no input is unconfirmable, with the inputs as they were
/// discovered and those pending that need to be read.
pub proof fn confirmations_begin_with_what_needs_reading<D: FileDigestCache + ?Sized>(
    verification: Result<Verification<D>, CcBypassReason>,
    discovered: DiscoveredModel,
    still: Seq<Result<bool, IoErrorModel>>,
    digests: &D,
)
    requires
        verification_begins(verification, discovered, still, digests),
    ensures
        verification is Ok <==> inputs_unconfirmable(discovered, still, 0) is None,
        verification matches Err(reason) ==> inputs_unconfirmable(discovered, still, 0) == Some(
            reason@,
        ),
        verification matches Ok(verification) ==> verification@.discovered == discovered
            && verification@.pending == pending_inputs(discovered, still) && verification.digests()
            == digests,
{
}

/// A capture of files begins as their inspections say, and its failure is blamed on a path.
pub proof fn observations_begin_or_are_blamed<D: FileDigestCache + ?Sized>(
    run: Result<CaptureRun, CcBypassReason>,
    paths: Seq<Seq<u8>>,
    scope: FileDigestScope,
    inspections: Seq<InspectionModel>,
    regular: Seq<bool>,
    digests: &D,
)
    requires
        run_begins(run, paths, scope, inspections, regular, digests),
    ensures
        run is Ok <==> all_inspected(inspections) is Ok,
        run matches Ok(run) ==> crate::capture::began(Ok(run), scope, inspections, digests),
        run matches Err(reason) ==> reason@ == (BypassModel::InputRead {
            path: path_to_blame(paths, regular),
            message: all_inspected(inspections)->Err_0.message,
        }),
{
}

/// What inspections are of is told by their paths, in order.
pub proof fn inspections_are_told_by_their_paths(inspections: Seq<InspectionModel>, at: int)
    requires
        0 <= at < inspections.len(),
    ensures
        inspected_paths(inspections).len() == inspections.len(),
        inspected_paths(inspections)[at] == inspections[at].path,
{
}

/// Lists of sizes, times, and answers say item by item what they hold.
pub proof fn lists_say_what_their_items_hold(
    sizes: Seq<Result<FileMetadata, IoError>>,
    times: Seq<Result<FileTime, IoError>>,
    still: Seq<Result<bool, IoError>>,
    at: int,
)
    ensures
        sizes_view(sizes).len() == sizes.len(),
        times_view(times).len() == times.len(),
        stills_view(still).len() == still.len(),
        0 <= at < sizes.len() ==> (match sizes[at] {
            Ok(metadata) => sizes_view(sizes)[at] == Ok::<MetadataModel, IoErrorModel>(metadata@),
            Err(error) => sizes_view(sizes)[at] == Err::<MetadataModel, IoErrorModel>(error@),
        }),
        0 <= at < times.len() ==> (match times[at] {
            Ok(time) => times_view(times)[at] == Ok::<FileTime, IoErrorModel>(time),
            Err(error) => times_view(times)[at] == Err::<FileTime, IoErrorModel>(error@),
        }),
        0 <= at < still.len() ==> (match still[at] {
            Ok(same) => stills_view(still)[at] == Ok::<bool, IoErrorModel>(same),
            Err(error) => stills_view(still)[at] == Err::<bool, IoErrorModel>(error@),
        }),
{
}

/// Reasons for a bypass, and failures, say what they are.
pub proof fn reasons_say_what_they_are(reason: CcBypassReason, error: IoError)
    ensures
        error@.kind == error.kind,
        error@.code == error.code,
        error@.message == error.message@,
        match reason {
            CcBypassReason::DepfileRead { path, message } => reason@ == (BypassModel::DepfileRead {
                path: path@,
                message: message@,
            }),
            CcBypassReason::MalformedDepfile(message) => reason@ == BypassModel::MalformedDepfile(
                message@,
            ),
            CcBypassReason::InputRead { path, message } => reason@ == (BypassModel::InputRead {
                path: path@,
                message: message@,
            }),
            CcBypassReason::RelativeWorkingDirectory(path) => reason@
                == BypassModel::RelativeWorkingDirectory(path@),
            CcBypassReason::TooManyInputs => reason@ == BypassModel::TooManyInputs,
            CcBypassReason::EmbeddedTimestampMacro(path) => reason@
                == BypassModel::EmbeddedTimestampMacro(path@),
            CcBypassReason::InputModifiedDuringCompilation(path) => reason@
                == BypassModel::InputModifiedDuringCompilation(path@),
            CcBypassReason::InputChanged(path) => reason@ == BypassModel::InputChanged(path@),
            CcBypassReason::DiscoveryWorkingDirectory => reason@
                == BypassModel::DiscoveryWorkingDirectory,
            CcBypassReason::NonUtf8Path(path) => reason@ == BypassModel::NonUtf8Path(path@),
        },
{
}

} // verus!
