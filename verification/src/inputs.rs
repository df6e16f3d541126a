//! The inputs that a compilation read.

use crate::capture::{began, CaptureRun, Inspection};
use crate::coverage::{is_minimal, minimal_manifest_directories};
use crate::digest::{CacheDigest, DigestModel};
use crate::error::{input_unreadable, BypassModel, CcBypassReason, IoError, IoErrorModel};
use crate::identity::{FileIdentity, FileMetadata, FileTime, IdentityModel, MetadataModel};
use crate::ledger::{FileDigestCache, FileDigestScope, NoFileDigestCache};
use crate::manifest::{is_manifest, is_manifest_input, INCLUDE_MANIFEST_PREFIX};
use crate::manifest_run::{manifests_begun, ManifestRun};
use crate::observation::{
    comparison, identity_given, snapshot_matches, FileObservation, FileObservationMatch,
    FileObservationResolution, FileSnapshot, ObservationModel, ObservedModel, SnapshotModel,
};
use crate::path::{
    normalize_components, normalized, path_parts, path_text, FilePath, PathPart, SEPARATOR,
};
use crate::path_map::{PathMap, PathSet};
use crate::text::shown_text;
use crate::views::{opt_view, opts_view, outcome_view, result_view, seq_view};
use vstd::prelude::*;
use vstd::utf8::encode_utf8;

verus! {

/// How much input a compilation may have.
#[derive(Debug, Clone, Copy, PartialEq, Eq, Structural)]
pub struct InputLimits {
    /// How many files and directories there may be.
    pub inputs: usize,
    /// How many bytes the files may hold.
    pub bytes: u64,
    /// How many names the directories' manifests may hold.
    pub manifest_entries: usize,
}

/// A content-addressed input of a compilation.
#[derive(Debug, Clone, PartialEq, Eq)]
pub struct CcActionInput {
    pub path: FilePath,
    pub digest: CacheDigest,
}

/// What a [`CcActionInput`] says.
pub struct ActionInputModel {
    pub path: Seq<u8>,
    pub digest: DigestModel,
}

impl View for CcActionInput {
    type V = ActionInputModel;

    open spec fn view(&self) -> ActionInputModel {
        ActionInputModel { path: self.path@, digest: self.digest@ }
    }
}

/// What a compilation's cache key is made of.
#[derive(Debug, Clone, PartialEq, Eq)]
pub struct CcActionContext {
    /// The compiler's working directory.
    pub working_dir: FilePath,
    /// The inputs that have been established.
    pub inputs: Vec<CcActionInput>,
}

// Errors

/// The first path that is not known to be a regular file, or else the first path.
pub open spec fn path_to_blame(paths: Seq<Seq<u8>>, regular: Seq<bool>) -> Seq<u8> {
    match first_irregular(paths, regular, 0) {
        Some(path) => path,
        None => if paths.len() > 0 {
            paths[0]
        } else {
            Seq::empty()
        },
    }
}

/// The first path from a position on that is not known to be a regular file.
pub open spec fn first_irregular(
    paths: Seq<Seq<u8>>,
    regular: Seq<bool>,
    from: int,
) -> Option<Seq<u8>>
    decreases paths.len() - from,
{
    if from >= paths.len() {
        None
    } else if from < regular.len() && regular[from] {
        first_irregular(paths, regular, from + 1)
    } else {
        Some(paths[from])
    }
}

/// Why a failed capture is a reason to bypass the cache.
///
/// A batch aborts as a whole when one file cannot be stabilized, without naming it; the path
/// that is blamed is the first that is not a regular file, or else the first of all. `regular`
/// says which of the paths are regular files now.
pub fn observation_error(paths: &[FilePath], regular: &[bool], error: IoError) -> (reason:
    CcBypassReason)
    ensures
        reason@ == (BypassModel::InputRead {
            path: path_to_blame(seq_view(paths@), regular@),
            message: error@.message,
        }),
{
    let ghost all = seq_view(paths@);
    let mut i: usize = 0;
    while i < paths.len()
        invariant
            i <= paths@.len(),
            all == seq_view(paths@),
            first_irregular(all, regular@, 0) == first_irregular(all, regular@, i as int),
        decreases paths@.len() - i,
    {
        assert(all[i as int] == paths@[i as int]@);
        if i >= regular.len() || !regular[i] {
            return input_unreadable(&paths[i], error);
        }
        i += 1;
    }
    if paths.len() > 0 {
        assert(all[0] == paths@[0]@);
        input_unreadable(&paths[0], error)
    } else {
        let path = FilePath::from_bytes(Vec::new());
        assert(path@ =~= Seq::<u8>::empty());
        input_unreadable(&path, error)
    }
}

// Discovery

/// A complete, content-addressed compiler input manifest.
#[derive(Debug, Clone, PartialEq, Eq)]
pub struct CcDiscoveredInputs {
    working_dir: FilePath,
    /// Content-addressed inputs, including include-directory manifests.
    pub inputs: Vec<CcActionInput>,
    /// What each file input looked like on disk when its digest was
    /// established, index-aligned with `inputs`; `None` for manifests and
    /// where the filesystem gave nothing to compare against later.
    observations: Vec<Option<FileObservation>>,
}

/// What a [`CcDiscoveredInputs`] says.
#[verifier::ext_equal]
pub struct DiscoveredModel {
    pub working_dir: Seq<u8>,
    pub inputs: Seq<ActionInputModel>,
    pub observations: Seq<Option<ObservationModel>>,
}

impl View for CcDiscoveredInputs {
    type V = DiscoveredModel;

    closed spec fn view(&self) -> DiscoveredModel {
        DiscoveredModel {
            working_dir: self.working_dir@,
            inputs: seq_view(self.inputs@),
            observations: opts_view(self.observations@),
        }
    }
}

/// What was observed of an input, where anything was.
pub open spec fn observed_at(observations: Seq<Option<ObservationModel>>, at: int) -> Option<
    ObservationModel,
> {
    if 0 <= at < observations.len() {
        observations[at]
    } else {
        None
    }
}

/// A discovery of inputs that is under way.
pub struct InputDiscovery {
    working_dir: FilePath,
    files: Vec<FilePath>,
    directories: Vec<FilePath>,
    limits: InputLimits,
}

/// What an [`InputDiscovery`] says.
pub struct DiscoveryModel {
    pub working_dir: Seq<u8>,
    /// The files that the compilation read, in the order of their places.
    pub files: Seq<Seq<u8>>,
    /// The directories that need a manifest.
    pub directories: Seq<Seq<u8>>,
    pub limits: InputLimits,
}

impl View for InputDiscovery {
    type V = DiscoveryModel;

    closed spec fn view(&self) -> DiscoveryModel {
        DiscoveryModel {
            working_dir: self.working_dir@,
            files: seq_view(self.files@),
            directories: seq_view(self.directories@),
            limits: self.limits,
        }
    }
}

/// Whether a discovery begins as it should.
pub open spec fn discovery_begins(
    discovery: Result<InputDiscovery, CcBypassReason>,
    working_dir: Seq<u8>,
    files: Seq<Seq<u8>>,
    directories: Seq<Seq<u8>>,
    solid: Set<Seq<PathPart>>,
    limits: InputLimits,
) -> bool {
    if !(working_dir.len() > 0 && working_dir[0] == SEPARATOR) {
        result_view(discovery) == Err::<DiscoveryModel, BypassModel>(
            BypassModel::RelativeWorkingDirectory(working_dir),
        )
    } else {
        exists|minimal: Seq<Seq<u8>>|
            {
                &&& #[trigger] is_minimal(minimal, directories, solid)
                &&& if files.len() + minimal.len() > limits.inputs {
                    result_view(discovery) == Err::<DiscoveryModel, BypassModel>(
                        BypassModel::TooManyInputs,
                    )
                } else {
                    &&& discovery matches Ok(discovery)
                    &&& discovery@.working_dir == path_text(normalized(path_parts(working_dir)))
                    &&& discovery@.files == files
                    &&& discovery@.directories == minimal
                    &&& discovery@.limits == limits
                }
            }
    }
}

/// A number of bytes, as far as it can be counted.
pub open spec fn saturated(sum: int) -> u64 {
    if sum > u64::MAX {
        u64::MAX
    } else {
        sum as u64
    }
}

/// Whether the files of a compilation are regular and hold no more than they may, as far as their
/// metadata from a position on says; `total` bytes came before.
pub open spec fn sizes_fit(
    files: Seq<Seq<u8>>,
    sizes: Seq<Result<MetadataModel, IoErrorModel>>,
    limit: u64,
    total: u64,
    from: int,
) -> Result<(), BypassModel>
    decreases files.len() - from,
{
    if from >= files.len() {
        Ok(())
    } else {
        match sizes[from] {
            Err(error) => Err(BypassModel::InputRead { path: files[from], message: error.message }),
            Ok(metadata) => {
                let sum = saturated(total + metadata.len);
                if !metadata.is_file {
                    Err(
                        BypassModel::InputRead {
                            path: files[from],
                            message: "input is not a regular file"@,
                        },
                    )
                } else if sum > limit {
                    Err(BypassModel::TooManyInputs)
                } else {
                    sizes_fit(files, sizes, limit, sum, from + 1)
                }
            },
        }
    }
}

/// Metadata, or failures to get it, viewed.
pub open spec fn sizes_view(sizes: Seq<Result<FileMetadata, IoError>>) -> Seq<
    Result<MetadataModel, IoErrorModel>,
> {
    sizes.map_values(|size: Result<FileMetadata, IoError>| result_view(size))
}

/// Why the result of capturing a file is no input, if it is none.
pub open spec fn result_rejected(path: Seq<u8>, result: Option<ObservedModel>) -> Option<
    BypassModel,
> {
    match result {
        Some(ObservedModel::Observation(_)) => None,
        Some(ObservedModel::EmbeddedTimestampMacro) => Some(
            BypassModel::EmbeddedTimestampMacro(path),
        ),
        None => Some(
            BypassModel::InputRead { path, message: "could not establish a file observation"@ },
        ),
    }
}

/// Why the results of capturing files are no inputs, from a position on, if one is none.
pub open spec fn results_rejected(
    files: Seq<Seq<u8>>,
    results: Seq<Option<ObservedModel>>,
    from: int,
) -> Option<BypassModel>
    decreases files.len() - from,
{
    if from >= files.len() {
        None
    } else {
        match result_rejected(files[from], results[from]) {
            Some(reason) => Some(reason),
            None => results_rejected(files, results, from + 1),
        }
    }
}

/// The file inputs of observations.
pub open spec fn file_inputs(files: Seq<Seq<u8>>, results: Seq<Option<ObservedModel>>) -> Seq<
    ActionInputModel,
> {
    Seq::new(
        files.len(),
        |i: int|
            ActionInputModel {
                path: files[i],
                digest: results[i]->Some_0->Observation_0.digest,
            },
    )
}

/// The observations that file inputs rest on.
pub open spec fn file_observations(results: Seq<Option<ObservedModel>>) -> Seq<
    Option<ObservationModel>,
> {
    results.map_values(
        |result: Option<ObservedModel>| Some(result->Some_0->Observation_0),
    )
}

/// The input that a directory's manifest is.
pub open spec fn manifest_input(directory: Seq<u8>, digest: DigestModel) -> ActionInputModel {
    ActionInputModel {
        path: encode_utf8(INCLUDE_MANIFEST_PREFIX@ + shown_text(directory)),
        digest,
    }
}

/// The inputs that directories' manifests are.
pub open spec fn manifest_inputs(directories: Seq<Seq<u8>>, digests: Seq<DigestModel>) -> Seq<
    ActionInputModel,
> {
    Seq::new(directories.len(), |i: int| manifest_input(directories[i], digests[i]))
}

/// No observation, as often as there are manifests.
pub open spec fn no_observations(count: nat) -> Seq<Option<ObservationModel>> {
    Seq::new(count, |i: int| None)
}

/// The file inputs of a discovery, with its manifests still to be taken.
pub struct ObservedInputs {
    working_dir: FilePath,
    inputs: Vec<CcActionInput>,
    observations: Vec<Option<FileObservation>>,
    limit: usize,
    directories: Vec<FilePath>,
}

/// What an [`ObservedInputs`] says.
pub struct ObservedInputsModel {
    pub working_dir: Seq<u8>,
    pub inputs: Seq<ActionInputModel>,
    pub observations: Seq<Option<ObservationModel>>,
    pub directories: Seq<Seq<u8>>,
    pub manifest_entries: usize,
}

impl View for ObservedInputs {
    type V = ObservedInputsModel;

    closed spec fn view(&self) -> ObservedInputsModel {
        ObservedInputsModel {
            working_dir: self.working_dir@,
            inputs: seq_view(self.inputs@),
            observations: opts_view(self.observations@),
            directories: seq_view(self.directories@),
            manifest_entries: self.limit,
        }
    }
}

/// The paths of a set, in its order.
fn list_paths(set: &PathSet) -> (paths: Vec<FilePath>)
    ensures
        seq_view(paths@) == set@,
{
    let mut paths: Vec<FilePath> = Vec::new();
    let length: usize = set.len();
    let mut i: usize = 0;
    while i < length
        invariant
            i <= length,
            length == set@.len(),
            paths@.len() == i,
            forall|j: int| 0 <= j < i ==> (#[trigger] paths@[j])@ == set@[j],
        decreases length - i,
    {
        paths.push(set.path(i).duplicate());
        i += 1;
    }
    assert(seq_view(paths@) =~= set@);
    paths
}

impl CcDiscoveredInputs {
    /// Begin to digest every file the compilation read, and to summarize the directories it
    /// searched.
    ///
    /// Digesting the files answers "did any input change". The directory
    /// manifests answer the question a dependency list cannot: whether a header
    /// that was *not* read now exists somewhere that would shadow one that was.
    pub fn collect(
        working_dir: &FilePath,
        files: &PathSet,
        directories: &PathSet,
        solid: &PathSet,
        limits: InputLimits,
    ) -> (discovery: Result<InputDiscovery, CcBypassReason>)
        ensures
            discovery_begins(
                discovery,
                working_dir@,
                files@,
                directories@,
                solid.places(),
                limits,
            ),
    {
        if !working_dir.is_absolute() {
            return Err(CcBypassReason::RelativeWorkingDirectory(working_dir.duplicate()));
        }
        let minimal = minimal_manifest_directories(directories, solid);
        let ghost model = seq_view(minimal@);
        assert(is_minimal(model, directories@, solid.places()));
        let count: usize = files.len();
        if minimal.len() > limits.inputs || count > limits.inputs - minimal.len() {
            return Err(CcBypassReason::TooManyInputs);
        }
        Ok(
            InputDiscovery {
                working_dir: normalize_components(working_dir),
                files: list_paths(files),
                directories: minimal,
                limits,
            },
        )
    }
}

impl InputDiscovery {
    /// The files that are to be observed.
    pub fn files(&self) -> (files: &Vec<FilePath>)
        ensures
            seq_view(files@) == self@.files,
    {
        &self.files
    }

    /// Whether the files keep to the byte budget.
    ///
    /// The capture repeats the metadata check because its
    /// identity must be current; this pass exists only to bound work.
    pub fn check_sizes(&self, sizes: &[Result<FileMetadata, IoError>]) -> (fit: Result<
        (),
        CcBypassReason,
    >)
        requires
            sizes@.len() == self@.files.len(),
        ensures
            outcome_view(fit) == sizes_fit(
                self@.files,
                sizes_view(sizes@),
                self@.limits.bytes,
                0,
                0,
            ),
    {
        let ghost all = sizes_view(sizes@);
        let ghost files = self@.files;
        let ghost goal = sizes_fit(files, all, self@.limits.bytes, 0, 0);
        let mut total: u64 = 0;
        let mut i: usize = 0;
        while i < self.files.len()
            invariant
                i <= self.files@.len(),
                sizes@.len() == files.len(),
                files == seq_view(self.files@),
                files == self@.files,
                all == sizes_view(sizes@),
                goal == sizes_fit(files, all, self@.limits.bytes, 0, 0),
                goal == sizes_fit(files, all, self.limits.bytes, total, i as int),
            decreases self.files@.len() - i,
        {
            proof {
                assert(files[i as int] == self.files@[i as int]@);
                assert(all[i as int] == result_view(sizes@[i as int]));
            }
            let metadata = match &sizes[i] {
                Ok(metadata) => metadata,
                Err(error) => {
                    return Err(input_unreadable(&self.files[i], error.duplicate()));
                },
            };
            if !metadata.is_file {
                return Err(
                    CcBypassReason::InputRead {
                        path: self.files[i].duplicate(),
                        message: "input is not a regular file".to_owned(),
                    },
                );
            }
            total = match total.checked_add(metadata.len) {
                Some(sum) => sum,
                None => u64::MAX,
            };
            if total > self.limits.bytes {
                return Err(CcBypassReason::TooManyInputs);
            }
            i += 1;
        }
        Ok(())
    }

    /// Begin to observe the files, resolving all cached digests in one batch.
    ///
    /// The byte budget is kept before the observer, or the cache, is asked for anything: files that
    /// exceed it are not observed.
    ///
    /// The shared observer owns metadata qualification, regular-file
    /// checks, and the batched cache lookup. It performs one validated read
    /// for every miss, including the timestamp-macro scan. `sizes` and `inspections` are of the
    /// files, in their order; `regular` says which of them are regular now, in case an inspection
    /// failed.
    pub fn observe<D: FileDigestCache + ?Sized>(
        &self,
        sizes: &[Result<FileMetadata, IoError>],
        inspections: &[Inspection],
        regular: &[bool],
        digests: &D,
    ) -> (run: Result<CaptureRun, CcBypassReason>)
        requires
            sizes@.len() == self@.files.len(),
            inspected_paths(seq_view(inspections@)) == self@.files,
        ensures
            match sizes_fit(self@.files, sizes_view(sizes@), self@.limits.bytes, 0, 0) {
                Err(reason) => run matches Err(bypass) && bypass@ == reason,
                Ok(()) => run_begins(
                    run,
                    self@.files,
                    FileDigestScope::CcInput,
                    seq_view(inspections@),
                    regular@,
                    digests,
                ),
            },
    {
        if let Err(reason) = self.check_sizes(sizes) {
            return Err(reason);
        }
        match FileObservation::capture_many_with_scope(
            FileDigestScope::CcInput,
            inspections,
            digests,
        ) {
            Ok(run) => Ok(run),
            Err(error) => Err(observation_error(&self.files, regular, error)),
        }
    }

    /// Take in what was observed of the files.
    pub fn take_results(self, results: Vec<Option<FileObservationResolution>>) -> (observed: Result<
        ObservedInputs,
        CcBypassReason,
    >)
        requires
            results@.len() == self@.files.len(),
        ensures
            match observed {
                Err(reason) => results_rejected(self@.files, opts_view(results@), 0) == Some(
                    reason@,
                ),
                Ok(observed) => {
                    &&& results_rejected(self@.files, opts_view(results@), 0) is None
                    &&& observed@.working_dir == self@.working_dir
                    &&& observed@.inputs == file_inputs(self@.files, opts_view(results@))
                    &&& observed@.observations == file_observations(opts_view(results@))
                    &&& observed@.directories == self@.directories
                    &&& observed@.manifest_entries == self@.limits.manifest_entries
                },
            },
    {
        let ghost files = self@.files;
        let ghost given = results@;
        let ghost all = opts_view(given);
        let mut inputs: Vec<CcActionInput> = Vec::new();
        let mut observations: Vec<Option<FileObservation>> = Vec::new();
        let length: usize = self.files.len();
        let mut i: usize = 0;
        for result in iter: results
            invariant
                iter.seq() == given,
                i == iter.index(),
                length == self.files@.len(),
                given.len() == length,
                all == opts_view(given),
                files == seq_view(self.files@),
                files == self@.files,
                inputs@.len() == i,
                observations@.len() == i,
                results_rejected(files, all, 0) == results_rejected(files, all, i as int),
                forall|j: int|
                    0 <= j < i ==> (#[trigger] inputs@[j])@ == file_inputs(files, all)[j],
                forall|j: int|
                    0 <= j < i ==> opt_view(#[trigger] observations@[j]) == file_observations(
                        all,
                    )[j],
        {
            proof {
                assert(files[i as int] == self.files@[i as int]@);
                assert(all[i as int] == opt_view(result));
            }
            match result {
                Some(FileObservationResolution::Observation(observation)) => {
                    inputs.push(
                        CcActionInput {
                            path: self.files[i].duplicate(),
                            digest: observation.digest.duplicate(),
                        },
                    );
                    observations.push(Some(observation));
                },
                Some(FileObservationResolution::EmbeddedTimestampMacro) => {
                    return Err(CcBypassReason::EmbeddedTimestampMacro(self.files[i].duplicate()));
                },
                None => {
                    return Err(
                        CcBypassReason::InputRead {
                            path: self.files[i].duplicate(),
                            message: "could not establish a file observation".to_owned(),
                        },
                    );
                },
            }
            i += 1;
        }
        proof {
            assert(seq_view(inputs@) =~= file_inputs(files, all));
            assert(opts_view(observations@) =~= file_observations(all));
        }
        Ok(
            ObservedInputs {
                working_dir: self.working_dir,
                inputs,
                observations,
                limit: self.limits.manifest_entries,
                directories: self.directories,
            },
        )
    }
}

/// The paths that were inspected, in their order.
pub open spec fn inspected_paths(inspections: Seq<crate::capture::InspectionModel>) -> Seq<
    Seq<u8>,
> {
    inspections.map_values(|inspection: crate::capture::InspectionModel| inspection.path)
}

/// Whether a capture of an action's files begins as it should, its failure blamed on a path.
pub open spec fn run_begins<D: FileDigestCache + ?Sized>(
    run: Result<CaptureRun, CcBypassReason>,
    paths: Seq<Seq<u8>>,
    scope: FileDigestScope,
    inspections: Seq<crate::capture::InspectionModel>,
    regular: Seq<bool>,
    digests: &D,
) -> bool {
    match run {
        Ok(run) => began(Ok(run), scope, inspections, digests),
        Err(reason) => exists|error: IoError|
            #[trigger] began(Err(error), scope, inspections, digests) && reason@
                == (BypassModel::InputRead {
                path: path_to_blame(paths, regular),
                message: error@.message,
            }),
    }
}

impl ObservedInputs {
    /// Begin to take the manifests of the directories.
    pub fn manifests(&self) -> (run: ManifestRun)
        ensures
            run@ == manifests_begun(self@.directories, self@.manifest_entries),
    {
        let mut directories: Vec<FilePath> = Vec::new();
        let mut i: usize = 0;
        while i < self.directories.len()
            invariant
                i <= self.directories@.len(),
                directories@.len() == i,
                forall|j: int|
                    0 <= j < i ==> (#[trigger] directories@[j])@ == self.directories@[j]@,
            decreases self.directories@.len() - i,
        {
            directories.push(self.directories[i].duplicate());
            i += 1;
        }
        assert(seq_view(directories@) =~= self@.directories);
        ManifestRun::begin(directories, self.limit)
    }

    /// Complete the inputs with the manifests of the directories.
    pub fn complete(self, manifests: ManifestRun) -> (inputs: CcDiscoveredInputs)
        requires
            manifests@.directories == self@.directories,
            manifests@.digests.len() == self@.directories.len(),
        ensures
            inputs@.working_dir == self@.working_dir,
            inputs@.inputs == self@.inputs + manifest_inputs(
                self@.directories,
                manifests@.digests,
            ),
            inputs@.observations == self@.observations + no_observations(self@.directories.len()),
    {
        let ghost before = self@;
        let ghost run = manifests@;
        let (directories, digests) = manifests.finish();
        let ObservedInputs { working_dir, inputs, observations, limit: _, directories: _ } = self;
        let mut inputs = inputs;
        let mut observations = observations;
        let ghost goal = manifest_inputs(run.directories, run.digests);
        let mut i: usize = 0;
        proof {
            assert(before.inputs + goal.take(0) =~= before.inputs);
            assert(before.observations + no_observations(0) =~= before.observations);
        }
        while i < directories.len()
            invariant
                i <= directories@.len(),
                directories@.len() == digests@.len(),
                seq_view(directories@) == run.directories,
                seq_view(digests@) == run.digests,
                goal == manifest_inputs(run.directories, run.digests),
                seq_view(inputs@) == before.inputs + goal.take(i as int),
                opts_view(observations@) == before.observations + no_observations(i as nat),
            decreases directories@.len() - i,
        {
            let ghost listed = seq_view(inputs@);
            let ghost seen = opts_view(observations@);
            let mut text = INCLUDE_MANIFEST_PREFIX.to_owned();
            text.append(directories[i].to_text_lossy().as_str());
            let input = CcActionInput {
                path: FilePath::from_text(text.as_str()),
                digest: digests[i].duplicate(),
            };
            let ghost model = input@;
            inputs.push(input);
            observations.push(None);
            proof {
                assert(run.directories[i as int] == directories@[i as int]@);
                assert(run.digests[i as int] == digests@[i as int]@);
                assert(text@ =~= INCLUDE_MANIFEST_PREFIX@ + shown_text(directories@[i as int]@));
                assert(model == goal[i as int]);
                assert(seq_view(inputs@) =~= listed.push(model));
                assert(before.inputs + goal.take(i + 1) =~= (before.inputs + goal.take(
                    i as int,
                )).push(goal[i as int]));
                assert(opts_view(observations@) =~= seen.push(None));
                assert(before.observations + no_observations((i + 1) as nat) =~= (
                before.observations + no_observations(i as nat)).push(None));
            }
            i += 1;
        }
        assert(goal.take(i as int) =~= goal);
        CcDiscoveredInputs { working_dir, inputs, observations }
    }
}

// Checking inputs again

/// The inputs that are files rather than manifests.
pub open spec fn only_files(inputs: Seq<ActionInputModel>) -> Seq<ActionInputModel>
    decreases inputs.len(),
{
    if inputs.len() == 0 {
        Seq::empty()
    } else {
        let front = only_files(inputs.drop_last());
        if is_manifest(inputs.last().path) {
            front
        } else {
            front.push(inputs.last())
        }
    }
}

/// Inputs by reference, viewed.
pub open spec fn inputs_given(inputs: Seq<&CcActionInput>) -> Seq<ActionInputModel> {
    inputs.map_values(|input: &CcActionInput| input@)
}

/// When files were modified, or why that is not known.
pub open spec fn times_view(times: Seq<Result<FileTime, IoError>>) -> Seq<
    Result<FileTime, IoErrorModel>,
> {
    times.map_values(|time: Result<FileTime, IoError>| outcome_view(time))
}

/// Why a file's modification time speaks against it, if it does: it must lie before the compiler
/// started.
pub open spec fn time_rejected(
    path: Seq<u8>,
    modified: Result<FileTime, IoErrorModel>,
    started_at: FileTime,
) -> Option<BypassModel> {
    match modified {
        Err(error) => Some(BypassModel::InputRead { path, message: error.message }),
        Ok(modified) => if modified.precedes(started_at) {
            None
        } else {
            Some(BypassModel::InputModifiedDuringCompilation(path))
        },
    }
}

/// Why a comparison speaks against an input, if it does.
pub open spec fn comparison_rejected(path: Seq<u8>, outcome: FileObservationMatch) -> Option<
    BypassModel,
> {
    match outcome {
        FileObservationMatch::Reusable => None,
        FileObservationMatch::Changed => Some(BypassModel::InputChanged(path)),
        FileObservationMatch::Indeterminate => Some(
            BypassModel::InputModifiedDuringCompilation(path),
        ),
    }
}

/// Why an input may have changed since before the compiler ran, if it may: by the observation
/// from before where there is one, and else by its modification time.
pub open spec fn input_modified(
    input: ActionInputModel,
    observation: Option<ObservationModel>,
    before: Map<Seq<PathPart>, FileObservation>,
    modified: Result<FileTime, IoErrorModel>,
    started_at: FileTime,
) -> Option<BypassModel> {
    if is_manifest(input.path) {
        None
    } else {
        match observation {
            None => Some(BypassModel::InputModifiedDuringCompilation(input.path)),
            Some(observation) => if before.contains_key(path_parts(input.path)) {
                comparison_rejected(
                    input.path,
                    comparison(
                        before[path_parts(input.path)]@,
                        Some(observation.identity),
                        observation.digest,
                    ),
                )
            } else {
                time_rejected(input.path, modified, started_at)
            },
        }
    }
}

/// Why the inputs from a position on may have changed since before the compiler ran, if one may.
pub open spec fn inputs_modified(
    discovered: DiscoveredModel,
    before: Map<Seq<PathPart>, FileObservation>,
    modified: Seq<Result<FileTime, IoErrorModel>>,
    started_at: FileTime,
    from: int,
) -> Option<BypassModel>
    decreases discovered.inputs.len() - from,
{
    if from >= discovered.inputs.len() {
        None
    } else {
        match input_modified(
            discovered.inputs[from],
            observed_at(discovered.observations, from),
            before,
            modified[from],
            started_at,
        ) {
            Some(reason) => Some(reason),
            None => inputs_modified(discovered, before, modified, started_at, from + 1),
        }
    }
}

/// Why an input may have changed since a snapshot, if it may: by the snapshot where it carries
/// evidence, and else by its modification time.
pub open spec fn input_left_snapshot(
    input: ActionInputModel,
    observation: Option<ObservationModel>,
    snapshot: Option<SnapshotModel>,
    modified: Result<FileTime, IoErrorModel>,
    started_at: FileTime,
) -> Option<BypassModel> {
    if is_manifest(input.path) {
        None
    } else {
        match snapshot {
            Some(snapshot) if snapshot.observation is Some || snapshot.identity.changed is Some => {
                match observation {
                    Some(current) if snapshot_matches(
                        snapshot,
                        Some(current.identity),
                        current.digest,
                    ) => None,
                    _ => Some(BypassModel::InputModifiedDuringCompilation(input.path)),
                }
            },
            _ => time_rejected(input.path, modified, started_at),
        }
    }
}

/// The snapshot of a place, where there is one.
pub open spec fn snapshot_at(
    before: Map<Seq<PathPart>, FileSnapshot>,
    place: Seq<PathPart>,
) -> Option<SnapshotModel> {
    if before.contains_key(place) {
        Some(before[place]@)
    } else {
        None
    }
}

/// Why the inputs from a position on may have changed since snapshots, if one may. `snapshots`
/// gives the snapshot of a place.
pub open spec fn inputs_left_snapshots(
    discovered: DiscoveredModel,
    snapshots: spec_fn(Seq<PathPart>) -> Option<SnapshotModel>,
    modified: Seq<Result<FileTime, IoErrorModel>>,
    started_at: FileTime,
    from: int,
) -> Option<BypassModel>
    decreases discovered.inputs.len() - from,
{
    if from >= discovered.inputs.len() {
        None
    } else {
        match input_left_snapshot(
            discovered.inputs[from],
            observed_at(discovered.observations, from),
            snapshots(path_parts(discovered.inputs[from].path)),
            modified[from],
            started_at,
        ) {
            Some(reason) => Some(reason),
            None => inputs_left_snapshots(discovered, snapshots, modified, started_at, from + 1),
        }
    }
}

/// What a check says that may have found a reason against the inputs.
pub open spec fn verdict(found: Option<BypassModel>) -> Result<(), BypassModel> {
    match found {
        Some(reason) => Err(reason),
        None => Ok(()),
    }
}

/// The snapshots that identities alone make, by place.
pub open spec fn identity_snapshots(before: Map<Seq<PathPart>, FileIdentity>) -> spec_fn(
    Seq<PathPart>,
) -> Option<SnapshotModel> {
    |place: Seq<PathPart>|
        if before.contains_key(place) {
            Some(SnapshotModel { identity: before[place]@, observation: None })
        } else {
            None
        }
}

/// Check a file's modification time.
fn check_time(
    path: &FilePath,
    modified: &Result<FileTime, IoError>,
    started_at: FileTime,
) -> (found: Option<CcBypassReason>)
    ensures
        opt_view(found) == time_rejected(path@, outcome_view(*modified), started_at),
{
    match modified {
        Err(error) => Some(input_unreadable(path, error.duplicate())),
        Ok(modified) => if modified.is_before(started_at) {
            None
        } else {
            Some(CcBypassReason::InputModifiedDuringCompilation(path.duplicate()))
        },
    }
}

/// Check the outcome of a comparison.
fn check_comparison(path: &FilePath, outcome: FileObservationMatch) -> (found: Option<
    CcBypassReason,
>)
    ensures
        opt_view(found) == comparison_rejected(path@, outcome),
{
    match outcome {
        FileObservationMatch::Reusable => None,
        FileObservationMatch::Changed => Some(CcBypassReason::InputChanged(path.duplicate())),
        FileObservationMatch::Indeterminate => Some(
            CcBypassReason::InputModifiedDuringCompilation(path.duplicate()),
        ),
    }
}

impl CcDiscoveredInputs {
    /// What was observed of an input, where anything was.
    fn observation(&self, at: usize) -> (observation: Option<&FileObservation>)
        ensures
            match observation {
                Some(observation) => observed_at(self@.observations, at as int) == Some(
                    observation@,
                ),
                None => observed_at(self@.observations, at as int) is None,
            },
    {
        if at < self.observations.len() {
            assert(self@.observations[at as int] == opt_view(self.observations@[at as int]));
            match &self.observations[at] {
                Some(observation) => Some(observation),
                None => None,
            }
        } else {
            None
        }
    }

    /// File inputs, excluding include-directory manifests.
    pub fn files(&self) -> (files: Vec<&CcActionInput>)
        ensures
            inputs_given(files@) == only_files(self@.inputs),
    {
        let ghost all = self@.inputs;
        let mut files: Vec<&CcActionInput> = Vec::new();
        let mut i: usize = 0;
        proof {
            assert(all.take(0) =~= Seq::<ActionInputModel>::empty());
            assert(inputs_given(files@) =~= Seq::<ActionInputModel>::empty());
        }
        while i < self.inputs.len()
            invariant
                i <= self.inputs@.len(),
                all == seq_view(self.inputs@),
                inputs_given(files@) == only_files(all.take(i as int)),
            decreases self.inputs@.len() - i,
        {
            let ghost before = inputs_given(files@);
            proof {
                assert(all.take(i + 1).drop_last() =~= all.take(i as int));
                assert(all.take(i + 1).last() == self.inputs@[i as int]@);
            }
            let input = &self.inputs[i];
            if !is_manifest_input(&input.path) {
                files.push(input);
                assert(inputs_given(files@) =~= before.push(input@));
            }
            i += 1;
        }
        assert(all.take(i as int) =~= all);
        files
    }

    /// Reject inputs whose modification time overlaps the compiler invocation.
    ///
    /// Inputs known before the compiler ran are compared by their complete
    /// content observations. Newly discovered headers retain the timestamp
    /// barrier because no pre-compilation observation exists for them.
    ///
    /// `modified` holds what the disk says now of each input, in the order of the inputs.
    pub fn verify_not_modified_since(
        &self,
        started_at: FileTime,
        modified: &[Result<FileTime, IoError>],
    ) -> (verified: Result<(), CcBypassReason>)
        requires
            modified@.len() == self@.inputs.len(),
        ensures
            outcome_view(verified) == verdict(
                inputs_modified(self@, Map::empty(), times_view(modified@), started_at, 0),
            ),
    {
        self.verify_not_modified_since_with_observations(started_at, &PathMap::new(), modified)
    }

    /// Reject inputs that changed from observations captured before the driver
    /// ran, falling back to the wall-clock barrier for discovered headers.
    pub fn verify_not_modified_since_with_observations(
        &self,
        started_at: FileTime,
        before: &PathMap<FileObservation>,
        modified: &[Result<FileTime, IoError>],
    ) -> (verified: Result<(), CcBypassReason>)
        requires
            modified@.len() == self@.inputs.len(),
        ensures
            outcome_view(verified) == verdict(
                inputs_modified(self@, before@, times_view(modified@), started_at, 0),
            ),
    {
        let ghost all = self@.inputs;
        let ghost times = times_view(modified@);
        let ghost goal = inputs_modified(self@, before@, times, started_at, 0);
        let mut i: usize = 0;
        while i < self.inputs.len()
            invariant
                i <= self.inputs@.len(),
                all == seq_view(self.inputs@),
                all == self@.inputs,
                modified@.len() == all.len(),
                times == times_view(modified@),
                goal == inputs_modified(self@, before@, times, started_at, 0),
                goal == inputs_modified(self@, before@, times, started_at, i as int),
            decreases self.inputs@.len() - i,
        {
            proof {
                assert(all[i as int] == self.inputs@[i as int]@);
                assert(times[i as int] == outcome_view(modified@[i as int]));
            }
            let path = &self.inputs[i].path;
            if !is_manifest_input(path) {
                let found = match self.observation(i) {
                    None => Some(CcBypassReason::InputModifiedDuringCompilation(path.duplicate())),
                    Some(observation) => match before.get(path) {
                        Some(previous) => check_comparison(
                            path,
                            previous.compare(Some(&observation.identity), &observation.digest),
                        ),
                        None => check_time(path, &modified[i], started_at),
                    },
                };
                if let Some(reason) = found {
                    return Err(reason);
                }
            }
            i += 1;
        }
        Ok(())
    }

    /// Reject inputs that changed from snapshots captured before the driver ran, falling back to
    /// the wall-clock barrier where a snapshot carries no evidence.
    pub fn verify_not_modified_since_with_snapshots(
        &self,
        started_at: FileTime,
        before: &PathMap<FileSnapshot>,
        modified: &[Result<FileTime, IoError>],
    ) -> (verified: Result<(), CcBypassReason>)
        requires
            modified@.len() == self@.inputs.len(),
        ensures
            outcome_view(verified) == verdict(
                inputs_left_snapshots(
                    self@,
                    |place: Seq<PathPart>| snapshot_at(before@, place),
                    times_view(modified@),
                    started_at,
                    0,
                ),
            ),
    {
        let ghost all = self@.inputs;
        let ghost times = times_view(modified@);
        let ghost snapshots = |place: Seq<PathPart>| snapshot_at(before@, place);
        let ghost goal = inputs_left_snapshots(self@, snapshots, times, started_at, 0);
        let mut i: usize = 0;
        while i < self.inputs.len()
            invariant
                i <= self.inputs@.len(),
                all == seq_view(self.inputs@),
                all == self@.inputs,
                modified@.len() == all.len(),
                times == times_view(modified@),
                snapshots == (|place: Seq<PathPart>| snapshot_at(before@, place)),
                goal == inputs_left_snapshots(self@, snapshots, times, started_at, 0),
                goal == inputs_left_snapshots(self@, snapshots, times, started_at, i as int),
            decreases self.inputs@.len() - i,
        {
            proof {
                assert(all[i as int] == self.inputs@[i as int]@);
                assert(times[i as int] == outcome_view(modified@[i as int]));
            }
            let path = &self.inputs[i].path;
            let ghost snapshot = snapshots(path_parts(path@));
            if !is_manifest_input(path) {
                let evidence = match before.get(path) {
                    Some(previous) => if previous.proves_content_change() {
                        Some(previous)
                    } else {
                        None
                    },
                    None => None,
                };
                let found = match evidence {
                    Some(previous) => {
                        let matches = match self.observation(i) {
                            Some(current) => previous.matches(
                                Some(&current.identity),
                                &current.digest,
                            ),
                            None => false,
                        };
                        if matches {
                            None
                        } else {
                            Some(CcBypassReason::InputModifiedDuringCompilation(path.duplicate()))
                        }
                    },
                    None => check_time(path, &modified[i], started_at),
                };
                if let Some(reason) = found {
                    return Err(reason);
                }
            }
            i += 1;
        }
        Ok(())
    }

    /// Reject inputs that changed from metadata identities captured before the driver ran.
    pub fn verify_not_modified_since_with_identities(
        &self,
        started_at: FileTime,
        before: &PathMap<FileIdentity>,
        modified: &[Result<FileTime, IoError>],
    ) -> (verified: Result<(), CcBypassReason>)
        requires
            modified@.len() == self@.inputs.len(),
        ensures
            outcome_view(verified) == verdict(
                inputs_left_snapshots(
                    self@,
                    identity_snapshots(before@),
                    times_view(modified@),
                    started_at,
                    0,
                ),
            ),
    {
        let snapshots = snapshots_of(before);
        proof {
            assert forall|place: Seq<PathPart>|
                (|place: Seq<PathPart>| snapshot_at(snapshots@, place))(place)
                    == #[trigger] identity_snapshots(before@)(place) by {
                assert(snapshot_at(snapshots@, place) == identity_snapshots(before@)(place));
            }
            assert((|place: Seq<PathPart>| snapshot_at(snapshots@, place)) =~= identity_snapshots(
                before@,
            ));
        }
        self.verify_not_modified_since_with_snapshots(started_at, &snapshots, modified)
    }

    /// Merge the manifest into an action context after confirming both use the
    /// same compiler working directory.
    pub fn apply_to(self, context: &mut CcActionContext) -> (applied: Result<(), CcBypassReason>)
        ensures
            final(context).working_dir == old(context).working_dir,
            if normalized(path_parts(old(context).working_dir@)) == path_parts(self@.working_dir) {
                &&& applied is Ok
                &&& seq_view(final(context).inputs@) == seq_view(old(context).inputs@)
                    + self@.inputs
            } else {
                &&& outcome_view(applied) == Err::<(), BypassModel>(
                    BypassModel::DiscoveryWorkingDirectory,
                )
                &&& final(context).inputs == old(context).inputs
            },
    {
        let ghost added = self@.inputs;
        let working_dir = normalize_components(&context.working_dir);
        if !working_dir.same_as(&self.working_dir) {
            return Err(CcBypassReason::DiscoveryWorkingDirectory);
        }
        let ghost before = seq_view(context.inputs@);
        let mut inputs = self.inputs;
        context.inputs.append(&mut inputs);
        assert(seq_view(context.inputs@) =~= before + added);
        Ok(())
    }
}

/// The snapshots that identities alone make.
fn snapshots_of(before: &PathMap<FileIdentity>) -> (snapshots: PathMap<FileSnapshot>)
    ensures
        forall|place: Seq<PathPart>| #[trigger]
            snapshot_at(snapshots@, place) == identity_snapshots(before@)(place),
{
    let mut snapshots: PathMap<FileSnapshot> = PathMap::new();
    let length: usize = before.len();
    let mut i: usize = 0;
    while i < length
        invariant
            i <= length,
            length == before.keys().len(),
            forall|place: Seq<PathPart>| #[trigger]
                before@.contains_key(place) ==> exists|j: int|
                    0 <= j < length && path_parts(#[trigger] before.keys()[j]) == place,
            forall|j: int|
                0 <= j < i ==> snapshots@.contains_key(
                    path_parts(#[trigger] before.keys()[j]),
                ),
            forall|place: Seq<PathPart>| #[trigger]
                snapshots@.contains_key(place) ==> before@.contains_key(place)
                    && snapshots@[place]@ == (SnapshotModel {
                    identity: before@[place]@,
                    observation: None,
                }),
        decreases length - i,
    {
        let (path, identity) = before.entry(i);
        snapshots = snapshots.insert(path.duplicate(), FileSnapshot::from(identity.duplicate()));
        i += 1;
    }
    proof {
        assert forall|place: Seq<PathPart>| #[trigger] snapshot_at(snapshots@, place)
            == identity_snapshots(before@)(place) by {
            if before@.contains_key(place) {
                let j = choose|j: int|
                    0 <= j < before.keys().len() && path_parts(#[trigger] before.keys()[j])
                        == place;
                assert(snapshots@.contains_key(path_parts(before.keys()[j])));
            }
        }
    }
    snapshots
}

// Confirming inputs before publication

/// Whether an identity is strong enough to stand in for a second read.
pub open spec fn stands_in(identity: IdentityModel) -> bool {
    identity.changed is Some || identity.object is Some
}

/// The identity that may spare an input a second read, if it has one that can.
pub open spec fn identity_in_question(discovered: DiscoveredModel, at: int) -> Option<
    IdentityModel,
> {
    if is_manifest(discovered.inputs[at].path) {
        None
    } else {
        match observed_at(discovered.observations, at) {
            Some(observation) => if stands_in(observation.identity) {
                Some(observation.identity)
            } else {
                None
            },
            None => None,
        }
    }
}

/// Why an input cannot be confirmed, if nothing need be read to know.
pub open spec fn input_unconfirmable(
    input: ActionInputModel,
    observation: Option<ObservationModel>,
    still: Result<bool, IoErrorModel>,
) -> Option<BypassModel> {
    if is_manifest(input.path) {
        None
    } else {
        match (observation, still) {
            (None, _) => Some(BypassModel::InputModifiedDuringCompilation(input.path)),
            (Some(observation), Err(error)) => if stands_in(observation.identity) {
                Some(BypassModel::InputRead { path: input.path, message: error.message })
            } else {
                None
            },
            _ => None,
        }
    }
}

/// Why the inputs from a position on cannot be confirmed, if nothing need be read to know.
pub open spec fn inputs_unconfirmable(
    discovered: DiscoveredModel,
    still: Seq<Result<bool, IoErrorModel>>,
    from: int,
) -> Option<BypassModel>
    decreases discovered.inputs.len() - from,
{
    if from >= discovered.inputs.len() {
        None
    } else {
        match input_unconfirmable(
            discovered.inputs[from],
            observed_at(discovered.observations, from),
            still[from],
        ) {
            Some(reason) => Some(reason),
            None => inputs_unconfirmable(discovered, still, from + 1),
        }
    }
}

/// Whether an input has to be observed again: it is a file, and its identity does not stand in
/// for a second read or no longer describes it.
pub open spec fn needs_reading(
    input: ActionInputModel,
    observation: Option<ObservationModel>,
    still: Result<bool, IoErrorModel>,
) -> bool {
    !is_manifest(input.path) && !(observation matches Some(observation) && stands_in(
        observation.identity,
    ) && still == Ok::<bool, IoErrorModel>(true))
}

/// Which inputs have to be observed again.
pub open spec fn pending_inputs(
    discovered: DiscoveredModel,
    still: Seq<Result<bool, IoErrorModel>>,
) -> Seq<bool> {
    Seq::new(
        discovered.inputs.len(),
        |i: int|
            needs_reading(
                discovered.inputs[i],
                observed_at(discovered.observations, i),
                still[i],
            ),
    )
}

/// The paths of the inputs that have to be observed again.
pub open spec fn pending_paths(inputs: Seq<ActionInputModel>, pending: Seq<bool>) -> Seq<Seq<u8>>
    decreases pending.len(),
{
    if pending.len() == 0 {
        Seq::empty()
    } else {
        let front = pending_paths(inputs, pending.drop_last());
        if pending.last() {
            front.push(inputs[pending.len() - 1].path)
        } else {
            front
        }
    }
}

/// Why the result of observing an input again speaks against it, whatever it held before.
pub open spec fn capture_rejected(path: Seq<u8>, result: Option<ObservedModel>) -> Option<
    BypassModel,
> {
    match result {
        Some(ObservedModel::Observation(_)) => None,
        Some(ObservedModel::EmbeddedTimestampMacro) => Some(
            BypassModel::EmbeddedTimestampMacro(path),
        ),
        None => Some(BypassModel::InputModifiedDuringCompilation(path)),
    }
}

/// Why the results of observing inputs again speak against one of them, from a position on, if
/// they do.
pub open spec fn captures_rejected(
    paths: Seq<Seq<u8>>,
    captured: Seq<Option<ObservedModel>>,
    from: int,
) -> Option<BypassModel>
    decreases paths.len() - from,
{
    if from >= paths.len() {
        None
    } else {
        match capture_rejected(paths[from], captured[from]) {
            Some(reason) => Some(reason),
            None => captures_rejected(paths, captured, from + 1),
        }
    }
}

/// Why the inputs from a position on are not what they were, if one is not. Those that were
/// observed again are compared with what was `captured` of them, from `taken` on; the others
/// stand for themselves.
pub open spec fn inputs_differ(
    discovered: DiscoveredModel,
    pending: Seq<bool>,
    captured: Seq<Option<ObservedModel>>,
    from: int,
    taken: int,
) -> Option<BypassModel>
    decreases discovered.inputs.len() - from,
{
    if from >= discovered.inputs.len() {
        None
    } else if is_manifest(discovered.inputs[from].path) {
        inputs_differ(discovered, pending, captured, from + 1, taken)
    } else {
        let previous = observed_at(discovered.observations, from)->Some_0;
        let current = if pending[from] {
            captured[taken]->Some_0->Observation_0
        } else {
            previous
        };
        match comparison_rejected(
            discovered.inputs[from].path,
            comparison(previous, Some(current.identity), current.digest),
        ) {
            Some(reason) => Some(reason),
            None => inputs_differ(
                discovered,
                pending,
                captured,
                from + 1,
                if pending[from] {
                    taken + 1
                } else {
                    taken
                },
            ),
        }
    }
}

/// Whether identities still describe their files, or why that is not known.
pub open spec fn stills_view(still: Seq<Result<bool, IoError>>) -> Seq<
    Result<bool, IoErrorModel>,
> {
    still.map_values(|still: Result<bool, IoError>| outcome_view(still))
}

/// A confirmation of inputs that is under way.
pub struct Verification<'a, D: FileDigestCache + ?Sized> {
    discovered: &'a CcDiscoveredInputs,
    digests: &'a D,
    pending: Vec<bool>,
}

/// What a [`Verification`] says.
pub struct VerificationModel {
    pub discovered: DiscoveredModel,
    /// Which of the inputs have to be observed again.
    pub pending: Seq<bool>,
}

impl<'a, D: FileDigestCache + ?Sized> View for Verification<'a, D> {
    type V = VerificationModel;

    closed spec fn view(&self) -> VerificationModel {
        VerificationModel { discovered: self.discovered@, pending: self.pending@ }
    }
}

/// Whether a confirmation begins as it should.
pub open spec fn verification_begins<D: FileDigestCache + ?Sized>(
    verification: Result<Verification<D>, CcBypassReason>,
    discovered: DiscoveredModel,
    still: Seq<Result<bool, IoErrorModel>>,
    digests: &D,
) -> bool {
    match verification {
        Err(reason) => inputs_unconfirmable(discovered, still, 0) == Some(reason@),
        Ok(verification) => {
            &&& inputs_unconfirmable(discovered, still, 0) is None
            &&& verification@.discovered == discovered
            &&& verification@.pending == pending_inputs(discovered, still)
            &&& verification.digests() == digests
        },
    }
}

impl CcDiscoveredInputs {
    /// The identity that may spare an input a second read, if it has one that can.
    pub fn identity_to_confirm(&self, at: usize) -> (identity: Option<&FileIdentity>)
        requires
            at < self@.inputs.len(),
        ensures
            identity_given(identity) == identity_in_question(self@, at as int),
    {
        assert(self@.inputs[at as int] == self.inputs@[at as int]@);
        if is_manifest_input(&self.inputs[at].path) {
            return None;
        }
        match self.observation(at) {
            Some(observation) => if observation.identity.can_skip_content_verification() {
                Some(&observation.identity)
            } else {
                None
            },
            None => None,
        }
    }

    /// Begin to confirm every discovered file before publication, degrading a changed
    /// input to a miss rather than storing an object under a stale key.
    ///
    /// A successful comparison means both observations have the same content
    /// and a compatible file object. Timestamp churn alone is tolerated where
    /// the filesystem exposes an object identity; replacement or an unknown
    /// object is conservatively treated as indeterminate.
    pub fn verify(&self, still: &[Result<bool, IoError>]) -> (verification: Result<
        Verification<NoFileDigestCache>,
        CcBypassReason,
    >)
        requires
            still@.len() == self@.inputs.len(),
        ensures
            verification_begins(
                verification,
                self@,
                stills_view(still@),
                &NoFileDigestCache,
            ),
    {
        self.verify_with_cache(&NoFileDigestCache, still)
    }

    /// Begin to confirm every discovered file while reusing validated session digests.
    ///
    /// `still` says of each input whether its identity still describes it; it is asked for only
    /// where there is an [`identity_to_confirm`](Self::identity_to_confirm).
    pub fn verify_with_cache<'a, D: FileDigestCache + ?Sized>(
        &'a self,
        digests: &'a D,
        still: &[Result<bool, IoError>],
    ) -> (verification: Result<Verification<'a, D>, CcBypassReason>)
        requires
            still@.len() == self@.inputs.len(),
        ensures
            verification_begins(verification, self@, stills_view(still@), digests),
    {
        let ghost all = self@.inputs;
        let ghost stills = stills_view(still@);
        let ghost goal = inputs_unconfirmable(self@, stills, 0);
        let mut pending: Vec<bool> = Vec::new();
        let mut i: usize = 0;
        while i < self.inputs.len()
            invariant
                i <= self.inputs@.len(),
                all == seq_view(self.inputs@),
                all == self@.inputs,
                still@.len() == all.len(),
                stills == stills_view(still@),
                goal == inputs_unconfirmable(self@, stills, 0),
                goal == inputs_unconfirmable(self@, stills, i as int),
                forall|j: int|
                    0 <= j < i ==> is_manifest((#[trigger] all[j]).path) || observed_at(
                        self@.observations,
                        j,
                    ) is Some,
                pending@ =~= pending_inputs(self@, stills).take(i as int),
            decreases self.inputs@.len() - i,
        {
            proof {
                assert(all[i as int] == self.inputs@[i as int]@);
                assert(stills[i as int] == outcome_view(still@[i as int]));
            }
            let path = &self.inputs[i].path;
            if is_manifest_input(path) {
                pending.push(false);
            } else {
                let observation = match self.observation(i) {
                    Some(observation) => observation,
                    None => {
                        return Err(
                            CcBypassReason::InputModifiedDuringCompilation(path.duplicate()),
                        );
                    },
                };
                if observation.identity.can_skip_content_verification() {
                    match &still[i] {
                        Ok(stands) => {
                            pending.push(!*stands);
                        },
                        Err(error) => {
                            return Err(input_unreadable(path, error.duplicate()));
                        },
                    }
                } else {
                    pending.push(true);
                }
            }
            i += 1;
        }
        assert(pending@ =~= pending_inputs(self@, stills));
        Ok(Verification { discovered: self, digests, pending })
    }
}

/// Whether every file input was observed, and no manifest is to be observed again.
pub open spec fn can_be_confirmed(discovered: DiscoveredModel, pending: Seq<bool>) -> bool {
    &&& pending.len() == discovered.inputs.len()
    &&& forall|i: int|
        0 <= i < discovered.inputs.len() ==> if is_manifest(
            (#[trigger] discovered.inputs[i]).path,
        ) {
            !pending[i]
        } else {
            observed_at(discovered.observations, i) is Some
        }
}

impl<'a, D: FileDigestCache + ?Sized> Verification<'a, D> {
    #[verifier::type_invariant]
    spec fn well_formed(self) -> bool {
        can_be_confirmed(self.discovered@, self.pending@)
    }

    /// The digests that may be reused.
    pub closed spec fn digests(&self) -> &D {
        self.digests
    }

    /// The paths of the inputs that have to be observed again, in the order of the inputs.
    pub fn paths(&self) -> (paths: Vec<FilePath>)
        ensures
            seq_view(paths@) == pending_paths(self@.discovered.inputs, self@.pending),
    {
        proof {
            use_type_invariant(self);
        }
        let ghost all = self@.discovered.inputs;
        let ghost flags = self@.pending;
        let mut paths: Vec<FilePath> = Vec::new();
        let mut i: usize = 0;
        proof {
            assert(flags.take(0) =~= Seq::<bool>::empty());
            assert(seq_view(paths@) =~= Seq::<Seq<u8>>::empty());
            assert(all.len() == self.discovered.inputs@.len());
        }
        while i < self.pending.len()
            invariant
                i <= self.pending@.len(),
                flags == self.pending@,
                all == seq_view(self.discovered.inputs@),
                flags.len() == all.len(),
                seq_view(paths@) == pending_paths(all, flags.take(i as int)),
            decreases self.pending@.len() - i,
        {
            let ghost before = seq_view(paths@);
            proof {
                assert(flags.take(i + 1).drop_last() =~= flags.take(i as int));
                assert(flags.take(i + 1).last() == flags[i as int]);
                assert(all[i as int] == self.discovered.inputs@[i as int]@);
            }
            if self.pending[i] {
                let path = self.discovered.inputs[i].path.duplicate();
                let ghost model = path@;
                paths.push(path);
                assert(seq_view(paths@) =~= before.push(model));
            }
            i += 1;
        }
        assert(flags.take(i as int) =~= flags);
        paths
    }

    /// Begin to observe those inputs again.
    ///
    /// `inspections` are of their paths, in their order; `regular` says which of them are regular
    /// files now, in case an inspection failed.
    pub fn observe(&self, inspections: &[Inspection], regular: &[bool]) -> (run: Result<
        CaptureRun,
        CcBypassReason,
    >)
        requires
            inspected_paths(seq_view(inspections@)) == pending_paths(
                self@.discovered.inputs,
                self@.pending,
            ),
        ensures
            run_begins(
                run,
                pending_paths(self@.discovered.inputs, self@.pending),
                FileDigestScope::CcInput,
                seq_view(inspections@),
                regular@,
                self.digests(),
            ),
    {
        match FileObservation::capture_many_with_scope(
            FileDigestScope::CcInput,
            inspections,
            self.digests,
        ) {
            Ok(run) => Ok(run),
            Err(error) => Err(observation_error(&self.paths(), regular, error)),
        }
    }

    /// Conclude from what was captured of those inputs.
    pub fn conclude(&self, captured: &[Option<FileObservationResolution>]) -> (verified: Result<
        (),
        CcBypassReason,
    >)
        requires
            captured@.len() == pending_paths(self@.discovered.inputs, self@.pending).len(),
        ensures
            outcome_view(verified) == verdict(
                match captures_rejected(
                    pending_paths(self@.discovered.inputs, self@.pending),
                    opts_view(captured@),
                    0,
                ) {
                    Some(reason) => Some(reason),
                    None => inputs_differ(
                        self@.discovered,
                        self@.pending,
                        opts_view(captured@),
                        0,
                        0,
                    ),
                },
            ),
    {
        let ghost results = opts_view(captured@);
        let paths = self.paths();
        let ghost places = seq_view(paths@);
        let ghost first = captures_rejected(places, results, 0);
        let mut k: usize = 0;
        while k < paths.len()
            invariant
                k <= paths@.len(),
                places == seq_view(paths@),
                places == pending_paths(self@.discovered.inputs, self@.pending),
                results == opts_view(captured@),
                captured@.len() == places.len(),
                first == captures_rejected(places, results, 0),
                first == captures_rejected(places, results, k as int),
                forall|j: int|
                    0 <= j < k ==> #[trigger] results[j] is Some && results[j]->Some_0
                        is Observation,
            decreases paths@.len() - k,
        {
            proof {
                assert(places[k as int] == paths@[k as int]@);
                assert(results[k as int] == opt_view(captured@[k as int]));
            }
            match &captured[k] {
                Some(FileObservationResolution::Observation(_)) => {},
                Some(FileObservationResolution::EmbeddedTimestampMacro) => {
                    return Err(CcBypassReason::EmbeddedTimestampMacro(paths[k].duplicate()));
                },
                None => {
                    return Err(
                        CcBypassReason::InputModifiedDuringCompilation(paths[k].duplicate()),
                    );
                },
            }
            k += 1;
        }
        self.compare_all(captured)
    }

    fn compare_all(&self, captured: &[Option<FileObservationResolution>]) -> (verified: Result<
        (),
        CcBypassReason,
    >)
        requires
            captured@.len() == pending_paths(self@.discovered.inputs, self@.pending).len(),
            forall|j: int|
                0 <= j < captured@.len() ==> #[trigger] opts_view(captured@)[j] is Some
                    && opts_view(captured@)[j]->Some_0 is Observation,
        ensures
            outcome_view(verified) == verdict(
                inputs_differ(self@.discovered, self@.pending, opts_view(captured@), 0, 0),
            ),
    {
        let ghost model = self@.discovered;
        let ghost flags = self@.pending;
        let ghost results = opts_view(captured@);
        let ghost goal = inputs_differ(model, flags, results, 0, 0);
        proof {
            use_type_invariant(self);
        }
        let discovered = self.discovered;
        let mut taken: usize = 0;
        let mut i: usize = 0;
        proof {
            assert(flags.take(0) =~= Seq::<bool>::empty());
        }
        while i < discovered.inputs.len()
            invariant
                i <= discovered.inputs@.len(),
                discovered == self.discovered,
                model == discovered@,
                model.inputs == seq_view(discovered.inputs@),
                flags == self.pending@,
                flags.len() == model.inputs.len(),
                results == opts_view(captured@),
                captured@.len() == pending_paths(model.inputs, flags).len(),
                taken == pending_paths(model.inputs, flags.take(i as int)).len(),
                forall|j: int|
                    0 <= j < captured@.len() ==> #[trigger] results[j] is Some
                        && results[j]->Some_0 is Observation,
                can_be_confirmed(model, flags),
                goal == inputs_differ(model, flags, results, 0, 0),
                goal == inputs_differ(model, flags, results, i as int, taken as int),
            decreases discovered.inputs@.len() - i,
        {
            proof {
                assert(model.inputs[i as int] == discovered.inputs@[i as int]@);
                assert(flags.take(i + 1).drop_last() =~= flags.take(i as int));
                assert(flags.take(i + 1).last() == flags[i as int]);
                lemma_pending_count(model.inputs, flags, i + 1);
            }
            let path = &discovered.inputs[i].path;
            if !is_manifest_input(path) {
                if let Some(previous) = discovered.observation(i) {
                    let outcome = if self.pending[i] {
                        assert(results[taken as int] == opt_view(captured@[taken as int]));
                        match &captured[taken] {
                            Some(FileObservationResolution::Observation(current)) => {
                                previous.compare(Some(&current.identity), &current.digest)
                            },
                            _ => FileObservationMatch::Indeterminate,
                        }
                    } else {
                        previous.compare(Some(&previous.identity), &previous.digest)
                    };
                    if let Some(reason) = check_comparison(path, outcome) {
                        return Err(reason);
                    }
                }
                if self.pending[i] {
                    taken += 1;
                }
            }
            i += 1;
        }
        Ok(())
    }
}

/// A part of the inputs holds no more pending ones than the whole.
proof fn lemma_pending_count(inputs: Seq<ActionInputModel>, pending: Seq<bool>, count: int)
    requires
        0 <= count <= pending.len(),
    ensures
        pending_paths(inputs, pending.take(count)).len() <= pending_paths(inputs, pending).len(),
    decreases pending.len(),
{
    if count == pending.len() {
        assert(pending.take(count) =~= pending);
    } else {
        let front = pending.drop_last();
        assert(front.take(count) =~= pending.take(count));
        lemma_pending_count(inputs, front, count);
    }
}

} // verus!
