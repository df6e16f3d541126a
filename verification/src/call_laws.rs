//! What calls answer, and how one call answers to another.

use crate::capture::{CaptureRun, InputModel, Inspection};
use crate::capture_laws::{captures_begin_unsettled, inspections_establish_regular_files};
use crate::content_laws::needles_are_found_wherever_they_stand;
use crate::depfile::{escaped, joined_lines, lines, source_dependencies, words_from, CcDepfile};
use crate::depfile_laws::{
    files_are_the_words_that_were_read, first_rules_are_read_whole, gaps_only_separate_words,
    source_dependencies_hold_every_include,
};
use crate::digest::CacheDigest;
use crate::error::{BypassModel, CcBypassReason, IoError};
use crate::identity::{FileIdentity, FileTime, FilesystemPolicies, PlatformDetails};
use crate::identity_laws::comparisons_weigh_bytes_then_objects;
use crate::input_laws::{accepted_new_inputs_precede_the_compiler, lists_say_what_their_items_hold};
use crate::inputs::{times_view, CcDiscoveredInputs};
use crate::json::{json_member, Json, JsonValue};
use crate::ledger::{FileDigestCache, FileDigestResolution, FileDigestScope, ResolutionModel};
use crate::manifest::{is_includable, is_manifest};
use crate::manifest_laws::{
    includable_names_are_told_by_their_extension, only_undisturbed_walks_are_remembered,
};
use crate::manifest_memo::{
    recall, visited_view, DirectoryIdentity, IncludeManifest, ManifestMemos, Memo,
};
use crate::observation::{FileObservation, FileSnapshot};
use crate::path::{path_parts, FilePath};
use crate::path_map::{PathMap, PathSet};
use crate::scan::{contains_subslice, contains_subslice_ascii_case_insensitive};
use crate::views::seq_view;
use vstd::prelude::*;
use vstd::utf8::encode_utf8;

verus! {

/// A time is found to lie before another exactly when it comes first in nanoseconds.
pub proof fn times_are_found_in_order(left: FileTime, right: FileTime, before: bool)
    requires
        call_ensures(FileTime::is_before, (left, right), before),
        left.nanos < 1_000_000_000,
        right.nanos < 1_000_000_000,
    ensures
        before <==> left.seconds * 1_000_000_000 + left.nanos < right.seconds * 1_000_000_000
            + right.nanos,
{
}

/// Whether a filesystem can be relied on is known of all but Linux, and there of each device as it
/// was learned.
pub proof fn filesystems_are_recalled_by_device(
    policies: &FilesystemPolicies,
    details: PlatformDetails,
    unreliable: Option<bool>,
)
    requires
        call_ensures(FilesystemPolicies::recall, (policies, details), unreliable),
    ensures
        !(details is Linux) ==> unreliable == Some(false),
        details matches PlatformDetails::Linux(unix) ==> unreliable == policies.known().get(
            unix.device,
        ),
{
}

/// Contents are found to hold a needle wherever it stands.
pub proof fn needles_are_found_by_searching(
    haystack: &[u8],
    needle: &[u8],
    front: Seq<u8>,
    back: Seq<u8>,
    found: bool,
    found_folded: bool,
)
    requires
        call_ensures(contains_subslice, (haystack, needle), found),
        call_ensures(contains_subslice_ascii_case_insensitive, (haystack, needle), found_folded),
        needle@.len() > 0,
        haystack@ == front + needle@ + back,
    ensures
        found,
        found_folded,
{
    needles_are_found_wherever_they_stand(front, needle@, back, false);
    needles_are_found_wherever_they_stand(front, needle@, back, true);
}

/// Names are found to be includable by their extension alone.
pub proof fn names_are_included_by_their_extension(
    name: &str,
    stem: Seq<u8>,
    extension: Seq<u8>,
    included: bool,
)
    requires
        call_ensures(is_includable, (name,), included),
        !extension.contains(46),
    ensures
        encode_utf8(name@) == extension ==> included,
        encode_utf8(name@) == seq![46u8] + extension ==> !included,
        stem.len() > 0 && encode_utf8(name@) == stem + seq![46u8] + extension ==> included == ({
            let low = extension.map_values(
                |byte: u8|
                    if 65 <= byte <= 90 {
                        (byte + 32) as u8
                    } else {
                        byte
                    },
            );
            ||| low == seq![99u8]
            ||| low == seq![99u8, 43, 43]
            ||| low == seq![99u8, 99]
            ||| low == seq![99u8, 112, 112]
            ||| low == seq![99u8, 120, 120]
            ||| low == seq![100u8, 101, 102]
            ||| low == seq![103u8, 99, 104]
            ||| low == seq![104u8]
            ||| low == seq![104u8, 43, 43]
            ||| low == seq![104u8, 104]
            ||| low == seq![104u8, 112, 112]
            ||| low == seq![104u8, 120, 120]
            ||| low == seq![105u8, 110, 99]
            ||| low == seq![105u8, 110, 108]
            ||| low == seq![105u8, 112, 112]
            ||| low == seq![112u8, 99, 104]
            ||| low == seq![115u8]
            ||| low == seq![116u8, 99, 99]
        }),
{
    includable_names_are_told_by_their_extension(stem, extension);
}

/// What is inserted under a path is found under every spelling of its place, and nothing else is
/// touched.
pub proof fn inserted_values_are_found<V>(
    map: PathMap<V>,
    path: FilePath,
    value: V,
    after: PathMap<V>,
    other: &FilePath,
    earlier: Option<&V>,
    found: Option<&V>,
)
    requires
        call_ensures(PathMap::<V>::insert, (map, path, value), after),
        call_ensures(PathMap::<V>::get, (&map, other), earlier),
        call_ensures(PathMap::<V>::get, (&after, other), found),
    ensures
        path_parts(other@) == path_parts(path@) ==> found == Some(&value),
        path_parts(other@) != path_parts(path@) ==> found == earlier,
{
}

/// What is inserted into a set is in it, and nothing else is.
pub proof fn inserted_places_are_contained(
    set: PathSet,
    path: FilePath,
    after: PathSet,
    other: &FilePath,
    earlier: bool,
    found: bool,
)
    requires
        call_ensures(PathSet::insert, (set, path), after),
        call_ensures(PathSet::contains, (&set, other), earlier),
        call_ensures(PathSet::contains, (&after, other), found),
    ensures
        found == (earlier || path_parts(other@) == path_parts(path@)),
{
}

/// A dependency list gives every word of its first rule, whatever gap stands in front of the rest.
pub proof fn parsed_lists_name_every_file(
    contents: &str,
    depfile: Result<CcDepfile, CcBypassReason>,
    targets: Seq<char>,
    word: Seq<char>,
    gap: Seq<char>,
    list: Seq<char>,
    words: Seq<Seq<char>>,
    more: Seq<char>,
    at: int,
)
    requires
        call_ensures(CcDepfile::parse, (contents,), depfile),
        contents@ == targets + seq![':', ' '] + (escaped(word) + gap + list) + seq!['\n'] + more,
        !targets.contains('\n'),
        forall|i: int|
            0 <= i < targets.len() - 1 ==> !(#[trigger] targets[i] == ':' && targets[i + 1] == ' '),
        word.len() > 0,
        !word.contains('\t'),
        !word.contains('\\'),
        forall|i: int| 0 <= i < gap.len() ==> #[trigger] gap[i] == ' ' || gap[i] == '\t',
        gap.len() > 0,
        !(escaped(word) + gap + list).contains('\n'),
        (escaped(word) + gap + list).last() != '\\',
        (escaped(word) + gap + list).last() != '\t',
        (escaped(word) + gap + list).last() != '\r',
        joined_lines(false, lines(more)) is Some,
        words_from(Seq::empty(), list) == Ok::<Seq<Seq<char>>, BypassModel>(words),
        0 <= at <= words.len(),
    ensures
        depfile matches Ok(depfile) && depfile.files@.len() == words.len() + 1
            && depfile.files@[at]@ == encode_utf8(
            if at == 0 {
                word
            } else {
                words[at - 1]
            },
        ),
{
    first_rules_are_read_whole(targets, escaped(word) + gap + list, more);
    gaps_only_separate_words(word, gap, list);
    files_are_the_words_that_were_read(depfile->Ok_0, seq![word] + words, at);
}

/// Source dependencies give every include, in order.
pub proof fn read_source_dependencies_name_every_include(
    document: &JsonValue,
    depfile: Result<CcDepfile, CcBypassReason>,
    data: Seq<(Seq<char>, Json)>,
    includes: Seq<Json>,
    at: int,
)
    requires
        call_ensures(CcDepfile::from_source_dependencies, (document,), depfile),
        json_member(document@, "Data"@) == Some(Json::Object(data)),
        json_member(Json::Object(data), "Includes"@) == Some(Json::Array(includes)),
        json_member(Json::Object(data), "ImportedModules"@) is None,
        json_member(Json::Object(data), "ProvidedModule"@) is None,
        forall|i: int| 0 <= i < includes.len() ==> #[trigger] includes[i] is Text,
        0 <= at < includes.len(),
    ensures
        depfile matches Ok(depfile) && depfile.files@.len() == includes.len()
            && depfile.files@[at]@ == encode_utf8(includes[at]->Text_0),
{
    source_dependencies_hold_every_include(document@, data, includes, at);
    let words = source_dependencies(document@)->Ok_0;
    files_are_the_words_that_were_read(depfile->Ok_0, words, at);
}

/// A remembered manifest is reused exactly while every directory that it visited is unchanged, and
/// then counts as many names as it had.
pub proof fn memos_are_reused_while_they_stand(
    memo: &Memo,
    current: &[Option<DirectoryIdentity>],
    budget: usize,
    limit: usize,
    manifest: Option<Result<IncludeManifest, CcBypassReason>>,
)
    requires
        call_ensures(recall, (Some(memo), current, budget, limit), manifest),
        limit < usize::MAX,
    ensures
        manifest is Some <==> memo@.directories.len() <= current@.len() && forall|i: int|
            0 <= i < memo@.directories.len() ==> #[trigger] current@[i] == Some(
                memo@.directories[i].1,
            ),
        manifest matches Some(Ok(manifest)) ==> manifest.digest@ == memo@.digest && manifest.budget
            == budget + memo@.entries && budget + memo@.entries <= limit,
        manifest matches Some(Err(reason)) ==> reason@ == BypassModel::TooManyInputs && budget
            + memo@.entries > limit,
{
}

/// A manifest that is recorded is found under every spelling of its directory.
pub proof fn recorded_manifests_are_found(
    memos: ManifestMemos,
    directory: &FilePath,
    digest: &CacheDigest,
    entries: usize,
    visited: Vec<(FilePath, Option<DirectoryIdentity>)>,
    current: &[Option<DirectoryIdentity>],
    after: ManifestMemos,
    other: &FilePath,
    found: Option<&Memo>,
)
    requires
        call_ensures(
            ManifestMemos::record,
            (memos, directory, digest, entries, visited, current),
            after,
        ),
        call_ensures(ManifestMemos::find, (&after, other), found),
        path_parts(other@) == path_parts(directory@),
        1 <= visited@.len() <= 4096,
        visited@.len() <= current@.len(),
        forall|i: int|
            0 <= i < visited@.len() ==> (#[trigger] visited@[i]).1 is Some && visited@[i].1
                == current@[i],
    ensures
        found matches Some(memo) && memo@.digest == digest@ && memo@.entries == entries
            && memo@.directories.len() == visited@.len() && forall|i: int|
            0 <= i < visited@.len() ==> (#[trigger] memo@.directories[i]).0 == visited@[i].0@
                && Some(memo@.directories[i].1) == visited@[i].1,
        after.count() <= 32,
{
    let view = visited_view(visited@);
    assert forall|i: int| 0 <= i < view.len() implies (#[trigger] view[i]).1 is Some && view[i].1
        == current@[i] by {
        assert(visited@[i].1 is Some);
    }
    only_undisturbed_walks_are_remembered(view, current@);
}

/// The digest of a resolution is the one that it resolved to, and there is none otherwise.
pub proof fn resolved_digests_are_taken_as_they_are(
    resolution: FileDigestResolution,
    digest: Option<CacheDigest>,
)
    requires
        call_ensures(FileDigestResolution::into_digest, (resolution,), digest),
    ensures
        digest is Some <==> resolution is Digest,
        resolution matches FileDigestResolution::Digest(found) ==> digest->Some_0@ == found@,
{
}

/// A snapshot proves a change of contents exactly when they were observed or a change time is
/// known.
pub proof fn snapshots_prove_changes_by_their_evidence(snapshot: &FileSnapshot, proves: bool)
    requires
        call_ensures(FileSnapshot::proves_content_change, (snapshot,), proves),
    ensures
        proves <==> snapshot@.observation is Some || snapshot@.identity.changed is Some,
{
}

/// An observation is found reusable exactly for the same bytes of the same file.
pub proof fn observations_are_found_reusable(
    observation: &FileObservation,
    identity: &FileIdentity,
    digest: &CacheDigest,
    reusable: bool,
)
    requires
        call_ensures(FileObservation::matches, (observation, Some(identity), digest), reusable),
    ensures
        reusable <==> {
            &&& observation.digest@ == digest@
            &&& digest.size == observation.identity.len
            &&& digest.size == identity.len
            &&& path_parts(observation.identity.path@) == path_parts(identity.path@)
            &&& observation.identity.object == identity.object
            &&& identity.object is Some || (observation.identity.modified == identity.modified
                && observation.identity.changed == identity.changed)
        },
{
    comparisons_weigh_bytes_then_objects(
        observation@,
        identity@,
        digest@,
    );
}

/// Inputs are accepted by their times only where each file was last modified before the compiler
/// started.
pub proof fn accepted_times_precede_the_compiler(
    inputs: &CcDiscoveredInputs,
    started_at: FileTime,
    modified: &[Result<FileTime, IoError>],
    accepted: Result<(), CcBypassReason>,
    at: int,
)
    requires
        call_ensures(
            CcDiscoveredInputs::verify_not_modified_since,
            (inputs, started_at, modified),
            accepted,
        ),
        accepted is Ok,
        0 <= at < inputs@.inputs.len(),
        at < modified@.len(),
        !is_manifest(inputs@.inputs[at].path),
        started_at.nanos < 1_000_000_000,
        modified@[at] matches Ok(time) ==> time.nanos < 1_000_000_000,
    ensures
        modified@[at] matches Ok(time) && time.seconds * 1_000_000_000 + time.nanos
            < started_at.seconds * 1_000_000_000 + started_at.nanos,
{
    lists_say_what_their_items_hold(
        Seq::empty(),
        modified@,
        Seq::empty(),
        at,
    );
    accepted_new_inputs_precede_the_compiler(
        inputs@,
        Map::empty(),
        times_view(modified@),
        started_at,
        at,
    );
}

/// A batch that begins hands each cached answer to the input that it was asked for.
pub proof fn batches_begin_with_their_own_answers<D: FileDigestCache + ?Sized>(
    scope: FileDigestScope,
    inspections: &[Inspection],
    digests: &D,
    run: CaptureRun,
    at: int,
)
    requires
        call_ensures(
            FileObservation::capture_many_with_scope::<D>,
            (scope, inspections, digests),
            Ok(run),
        ),
        0 <= at < inspections@.len(),
    ensures
        run@.inputs.len() == inspections@.len(),
        run@.inputs[at].path == inspections@[at].path@,
        exists|files: &[FileIdentity], answer: Vec<FileDigestResolution>|
            {
                &&& #[trigger] call_ensures(D::resolve, (digests, scope, files), answer)
                &&& run@.inputs[at].cache_identity is Some ==> {
                    let k = run@.inputs.take(at).filter(
                        |input: InputModel| input.cache_identity is Some,
                    ).len() as int;
                    &&& files@[k]@ == run@.inputs[at].cache_identity->Some_0
                    &&& run@.resolutions[at] == (if k < answer@.len() {
                        answer@[k]@
                    } else {
                        ResolutionModel::Unresolved
                    })
                }
            },
{
    let list = seq_view(inspections@);
    assert(list.len() == inspections@.len());
    assert(list[at] == inspections@[at]@);
    captures_begin_unsettled(run, scope, list, digests, at);
    inspections_establish_regular_files(list[at]);
}

} // verus!
