//! Walking an include directory for its manifest.

use crate::error::{
    input_unreadable, BypassModel, CcBypassReason, IoError, IoErrorKind, IoErrorModel,
};
use crate::manifest::{digest_names, includable, is_includable, manifest_digest, ManifestName};
use crate::manifest_memo::{visited_view, DirectoryIdentity, IncludeManifest};
use crate::path::{copy_bytes, joined_path, FilePath, SEPARATOR};
use crate::text::decode_text;
use crate::views::{outcome_view, result_view, seq_view};
use vstd::prelude::*;
use vstd::utf8::valid_utf8;

verus! {

/// One entry of a directory.
#[derive(Debug)]
pub struct DirectoryEntry {
    pub name: Vec<u8>,
    /// Whether the entry itself is a directory, with symbolic links not followed.
    pub is_dir: Result<bool, IoError>,
}

/// What a [`DirectoryEntry`] says.
pub struct EntryModel {
    pub name: Seq<u8>,
    pub is_dir: Result<bool, IoErrorModel>,
}

impl View for DirectoryEntry {
    type V = EntryModel;

    open spec fn view(&self) -> EntryModel {
        EntryModel { name: self.name@, is_dir: outcome_view(self.is_dir) }
    }
}

/// What listing a directory gave: its entries, each of which may have failed, or a failure.
pub type Listing = Result<Vec<Result<DirectoryEntry, IoError>>, IoError>;

/// The entries of a listing.
pub open spec fn entries_view(entries: Seq<Result<DirectoryEntry, IoError>>) -> Seq<
    Result<EntryModel, IoErrorModel>,
> {
    entries.map_values(|entry: Result<DirectoryEntry, IoError>| result_view(entry))
}

/// What a [`Listing`] says.
pub open spec fn listing_view(listing: Listing) -> Result<
    Seq<Result<EntryModel, IoErrorModel>>,
    IoErrorModel,
> {
    match listing {
        Ok(entries) => Ok(entries_view(entries@)),
        Err(error) => Err(error@),
    }
}

/// A directory that is still to be listed, and what its names are written behind.
pub struct PendingModel {
    pub path: Seq<u8>,
    pub prefix: Seq<u8>,
}

/// A walk that is under way.
#[verifier::ext_equal]
pub struct WalkModel {
    /// The directories that are still to be listed, the next one last.
    pub pending: Seq<PendingModel>,
    /// The names found so far, relative to where the walk began.
    pub names: Seq<Seq<u8>>,
    /// The names counted so far, over all the walks that share the limit.
    pub budget: usize,
    /// How many names may be counted.
    pub limit: usize,
}

/// A name written behind a prefix.
pub open spec fn prefixed(prefix: Seq<u8>, name: Seq<u8>) -> Seq<u8> {
    if prefix.len() == 0 {
        name
    } else {
        prefix + seq![SEPARATOR] + name
    }
}

/// The walk once an entry of a directory has been taken in, or why there is no manifest.
pub open spec fn entry_taken(
    walk: WalkModel,
    at: PendingModel,
    entry: Result<EntryModel, IoErrorModel>,
) -> Result<WalkModel, BypassModel> {
    match entry {
        Err(error) => Err(BypassModel::InputRead { path: at.path, message: error.message }),
        Ok(entry) => {
            let path = joined_path(at.path, entry.name);
            let relative = prefixed(at.prefix, entry.name);
            if !valid_utf8(entry.name) {
                Err(BypassModel::NonUtf8Path(path))
            } else {
                match entry.is_dir {
                    Err(error) => Err(BypassModel::InputRead { path, message: error.message }),
                    Ok(true) => Ok(
                        WalkModel {
                            pending: walk.pending.push(PendingModel { path, prefix: relative }),
                            ..walk
                        },
                    ),
                    Ok(false) => if !includable(entry.name) {
                        Ok(walk)
                    } else if walk.budget >= walk.limit {
                        Err(BypassModel::TooManyInputs)
                    } else {
                        Ok(
                            WalkModel {
                                names: walk.names.push(relative),
                                budget: (walk.budget + 1) as usize,
                                ..walk
                            },
                        )
                    },
                }
            }
        },
    }
}

/// The walk once the entries of a directory have been taken in, or why there is no manifest.
pub open spec fn entries_taken(
    walk: WalkModel,
    at: PendingModel,
    entries: Seq<Result<EntryModel, IoErrorModel>>,
) -> Result<WalkModel, BypassModel>
    decreases entries.len(),
{
    if entries.len() == 0 {
        Ok(walk)
    } else {
        match entry_taken(walk, at, entries[0]) {
            Err(reason) => Err(reason),
            Ok(walk) => entries_taken(walk, at, entries.skip(1)),
        }
    }
}

/// The walk once its next directory has been listed, or why there is no manifest.
///
/// A directory that does not exist has an empty manifest, which is
/// what makes "the directory was created" a key change rather than an error.
pub open spec fn listing_taken(
    walk: WalkModel,
    listing: Result<Seq<Result<EntryModel, IoErrorModel>>, IoErrorModel>,
) -> Result<WalkModel, BypassModel> {
    let at = walk.pending.last();
    let rest = WalkModel { pending: walk.pending.drop_last(), ..walk };
    match listing {
        Ok(entries) => entries_taken(rest, at, entries),
        Err(error) => if error.kind == IoErrorKind::NotFound {
            Ok(rest)
        } else {
            Err(BypassModel::InputRead { path: at.path, message: error.message })
        },
    }
}

/// A walk before anything is listed.
pub open spec fn walk_begun(directory: Seq<u8>, budget: usize, limit: usize) -> WalkModel {
    WalkModel {
        pending: seq![PendingModel { path: directory, prefix: Seq::empty() }],
        names: Seq::empty(),
        budget,
        limit,
    }
}

/// A directory that is still to be listed, and what its names are written behind.
struct PendingDirectory {
    path: FilePath,
    prefix: Vec<u8>,
}

impl View for PendingDirectory {
    type V = PendingModel;

    closed spec fn view(&self) -> PendingModel {
        PendingModel { path: self.path@, prefix: self.prefix@ }
    }
}

/// A walk of an include directory that is under way.
pub struct ManifestWalk {
    pending: Vec<PendingDirectory>,
    names: Vec<ManifestName>,
    initial: usize,
    budget: usize,
    limit: usize,
    visited: Vec<(FilePath, Option<DirectoryIdentity>)>,
}

/// What a finished walk yields.
pub struct FinishedWalk {
    pub manifest: IncludeManifest,
    /// The names that this walk counted.
    pub entries: usize,
    /// The directories that were listed, each with the identity it had before.
    pub visited: Vec<(FilePath, Option<DirectoryIdentity>)>,
}

impl View for ManifestWalk {
    type V = WalkModel;

    closed spec fn view(&self) -> WalkModel {
        WalkModel {
            pending: seq_view(self.pending@),
            names: seq_view(self.names@),
            budget: self.budget,
            limit: self.limit,
        }
    }
}

/// A name written behind a prefix.
fn write_behind(prefix: &Vec<u8>, name: &Vec<u8>) -> (relative: Vec<u8>)
    ensures
        relative@ == prefixed(prefix@, name@),
{
    let mut relative = copy_bytes(prefix);
    if relative.len() > 0 {
        relative.push(SEPARATOR);
    }
    let ghost front = relative@;
    relative.extend_from_slice(name);
    assert(relative@ =~= front + name@);
    assert(relative@ =~= prefixed(prefix@, name@));
    relative
}

impl ManifestWalk {
    #[verifier::type_invariant]
    spec fn well_formed(self) -> bool {
        self.initial <= self.budget
    }

    /// The names that had been counted before the walk began.
    pub closed spec fn initial(&self) -> usize {
        self.initial
    }

    /// The directories that have been listed, each with the identity it had before.
    pub closed spec fn visited(&self) -> Seq<(Seq<u8>, Option<DirectoryIdentity>)> {
        visited_view(self.visited@)
    }

    /// The directory that is to be listed next; none once all have been.
    pub fn next(&self) -> (directory: Option<&FilePath>)
        ensures
            match directory {
                Some(path) => self@.pending.len() > 0 && path@ == self@.pending.last().path,
                None => self@.pending.len() == 0,
            },
    {
        if self.pending.len() == 0 {
            None
        } else {
            let last = &self.pending[self.pending.len() - 1];
            assert(self@.pending.last() == last@);
            Some(&last.path)
        }
    }

    /// Take in the listing of the next directory.
    ///
    /// The identity is captured before the directory is listed and compared again after the
    /// complete walk: a directory changed while being read cannot seed a memo.
    pub fn visit(self, identity: Option<DirectoryIdentity>, listing: Listing) -> (walk: Result<
        ManifestWalk,
        CcBypassReason,
    >)
        requires
            self@.pending.len() > 0,
        ensures
            result_view(walk) == listing_taken(self@, listing_view(listing)),
            walk matches Ok(walk) ==> walk.initial() == self.initial() && walk.visited()
                == self.visited().push((self@.pending.last().path, identity)),
    {
        proof {
            use_type_invariant(&self);
        }
        let ghost start = self@;
        let ghost seen = self.visited();
        let ManifestWalk { pending, names, initial, budget, limit, visited } = self;
        let mut pending = pending;
        let mut visited = visited;
        let at = match pending.pop() {
            Some(at) => at,
            None => {
                return Err(CcBypassReason::TooManyInputs);
            },
        };
        proof {
            assert(start.pending.last() == at@);
            assert(seq_view(pending@) =~= start.pending.drop_last());
        }
        visited.push((at.path.duplicate(), identity));
        assert(visited_view(visited@) =~= seen.push((at@.path, identity)));
        let walk = ManifestWalk { pending, names, initial, budget, limit, visited };
        assert(walk@ =~= WalkModel { pending: start.pending.drop_last(), ..start });
        match listing {
            Err(error) => {
                if error.kind == IoErrorKind::NotFound {
                    Ok(walk)
                } else {
                    Err(input_unreadable(&at.path, error))
                }
            },
            Ok(entries) => walk.take_entries(&at, &entries),
        }
    }

    fn take_entries(
        self,
        at: &PendingDirectory,
        entries: &Vec<Result<DirectoryEntry, IoError>>,
    ) -> (walk: Result<ManifestWalk, CcBypassReason>)
        ensures
            result_view(walk) == entries_taken(self@, at@, entries_view(entries@)),
            walk matches Ok(walk) ==> walk.initial() == self.initial() && walk.visited()
                == self.visited(),
    {
        let ghost all = entries_view(entries@);
        let ghost goal = entries_taken(self@, at@, all);
        let ghost initial = self.initial();
        let ghost visited = self.visited();
        let mut walk = self;
        let mut i: usize = 0;
        assert(all.skip(0) =~= all);
        while i < entries.len()
            invariant
                i <= entries@.len(),
                all == entries_view(entries@),
                goal == entries_taken(self@, at@, all),
                goal == entries_taken(walk@, at@, all.skip(i as int)),
                walk.initial() == initial,
                walk.visited() == visited,
            decreases entries@.len() - i,
        {
            proof {
                assert(all.skip(i as int)[0] == result_view(entries@[i as int]));
                assert(all.skip(i as int).skip(1) =~= all.skip(i + 1));
            }
            match walk.take_entry(at, &entries[i]) {
                Ok(next) => {
                    walk = next;
                },
                Err(reason) => {
                    return Err(reason);
                },
            }
            i += 1;
        }
        assert(all.skip(i as int) =~= Seq::<Result<EntryModel, IoErrorModel>>::empty());
        Ok(walk)
    }

    fn take_entry(self, at: &PendingDirectory, entry: &Result<DirectoryEntry, IoError>) -> (walk:
        Result<ManifestWalk, CcBypassReason>)
        ensures
            result_view(walk) == entry_taken(self@, at@, result_view(*entry)),
            walk matches Ok(walk) ==> walk.initial() == self.initial() && walk.visited()
                == self.visited(),
    {
        proof {
            use_type_invariant(&self);
        }
        let entry = match entry {
            Ok(entry) => entry,
            Err(error) => {
                return Err(input_unreadable(&at.path, error.duplicate()));
            },
        };
        let path = at.path.join(&entry.name);
        let name = match decode_text(copy_bytes(&entry.name)) {
            Some(name) => name,
            None => {
                return Err(CcBypassReason::NonUtf8Path(path));
            },
        };
        proof {
            vstd::utf8::decode_utf8_encode_utf8(entry.name@);
        }
        let relative = write_behind(&at.prefix, &entry.name);
        let ghost start = self@;
        let ManifestWalk { pending, names, initial, budget, limit, visited } = self;
        match &entry.is_dir {
            Err(error) => Err(input_unreadable(&path, error.duplicate())),
            Ok(true) => {
                let mut pending = pending;
                let directory = PendingDirectory { path, prefix: relative };
                let ghost model = directory@;
                pending.push(directory);
                assert(seq_view(pending@) =~= start.pending.push(model));
                Ok(ManifestWalk { pending, names, initial, budget, limit, visited })
            },
            Ok(false) => {
                if !is_includable(name.as_str()) {
                    return Ok(ManifestWalk { pending, names, initial, budget, limit, visited });
                }
                if budget >= limit {
                    return Err(CcBypassReason::TooManyInputs);
                }
                let mut names = names;
                names.push(ManifestName::new(relative));
                assert(seq_view(names@) =~= start.names.push(relative@));
                Ok(
                    ManifestWalk {
                        pending,
                        names,
                        initial,
                        budget: budget + 1,
                        limit,
                        visited,
                    },
                )
            },
        }
    }

    /// End the walk.
    pub fn finish(self) -> (finished: FinishedWalk)
        requires
            self@.pending.len() == 0,
        ensures
            finished.manifest.digest@ == manifest_digest(self@.names),
            finished.manifest.budget == self@.budget,
            finished.entries == self@.budget - self.initial(),
            visited_view(finished.visited@) == self.visited(),
    {
        proof {
            use_type_invariant(&self);
        }
        let ManifestWalk { pending: _, names, initial, budget, limit: _, visited } = self;
        FinishedWalk {
            manifest: IncludeManifest { digest: digest_names(names), budget },
            entries: budget - initial,
            visited,
        }
    }
}

/// Begin to digest the sorted includable file names beneath a directory.
pub fn include_manifest(directory: &FilePath, budget: usize, limit: usize) -> (walk: ManifestWalk)
    ensures
        walk@ == walk_begun(directory@, budget, limit),
        walk.initial() == budget,
        walk.visited().len() == 0,
{
    let prefix: Vec<u8> = Vec::new();
    let first = PendingDirectory { path: directory.duplicate(), prefix };
    let ghost model = first@;
    assert(model.prefix =~= Seq::<u8>::empty());
    let pending: Vec<PendingDirectory> = vec![first];
    let walk = ManifestWalk {
        pending,
        names: Vec::new(),
        initial: budget,
        budget,
        limit,
        visited: Vec::new(),
    };
    assert(walk@ =~= walk_begun(directory@, budget, limit));
    walk
}

} // verus!
