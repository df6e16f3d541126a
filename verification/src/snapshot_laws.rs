//! What two snapshots of the same include directories tell of what changed between them.

use crate::coverage::{
    covers, directory_before, directory_parts, dropped_directories_are_covered, is_minimal,
};
use crate::digest::{content_digest, DigestModel};
use crate::error::BypassModel;
use crate::manifest::{
    includable, lemma_sorting_rearranges, line_text, manifest_texts_tell_names_apart,
    manifests_ignore_listing_order, names_fit_lines, sorted_names,
};
use crate::manifest_laws::{
    child_names, child_size, children_size, lemma_one_walk, manifest_walked, names_are_text,
    names_beneath, walked, Tree,
};
use crate::manifest_run::{manifest_taken, manifests_begun, manifests_map, ManifestsModel};
use crate::manifest_walk::{prefixed, walk_begun};
use crate::path::{lemma_parts_order, parts_order, path_parts, PathPart};
use vstd::multiset::Multiset;
use vstd::prelude::*;

verus! {

/// What stands beneath each directory while a snapshot is taken. File contents are no part of it.
pub type Disk = spec_fn(Seq<u8>) -> Seq<Tree>;

/// A run of manifests, taken to its end from what stands beneath its directories.
pub open spec fn manifests_walked(run: ManifestsModel, disk: Disk) -> Result<
    ManifestsModel,
    BypassModel,
>
    decreases run.directories.len() - run.digests.len(),
{
    if run.digests.len() >= run.directories.len() {
        Ok(run)
    } else {
        let directory = run.directories[run.digests.len() as int];
        match manifest_taken(
            run,
            manifest_walked(directory, disk(directory), run.budget, run.limit),
        ) {
            Err(reason) => Err(reason),
            Ok(next) => manifests_walked(next, disk),
        }
    }
}

/// The snapshot of directories, or why there is none.
pub open spec fn snapshot_taken(directories: Seq<Seq<u8>>, limit: usize, disk: Disk) -> Result<
    Map<Seq<PathPart>, DigestModel>,
    BypassModel,
> {
    match manifests_walked(manifests_begun(directories, limit), disk) {
        Ok(run) => Ok(manifests_map(run.directories, run.digests)),
        Err(reason) => Err(reason),
    }
}

/// Whether every name beneath each of several directories is UTF-8. Where one is not, there is no
/// snapshot.
pub open spec fn disk_is_text(directories: Seq<Seq<u8>>, disk: Disk) -> bool {
    forall|i: int| 0 <= i < directories.len() ==> names_are_text(disk(#[trigger] directories[i]))
}

/// The includable names beneath a directory, one after another.
pub open spec fn names_listed(prefix: Seq<u8>, children: Seq<Tree>) -> Seq<Seq<u8>>
    decreases children,
{
    if children.len() == 0 {
        Seq::empty()
    } else {
        child_listed(prefix, children.last()) + names_listed(prefix, children.drop_last())
    }
}

/// The includable names that one child adds, one after another.
pub open spec fn child_listed(prefix: Seq<u8>, child: Tree) -> Seq<Seq<u8>>
    decreases child,
{
    match child {
        Tree::File { name } => if includable(name) {
            seq![prefixed(prefix, name)]
        } else {
            Seq::empty()
        },
        Tree::Directory { name, children } => names_listed(prefixed(prefix, name), children),
    }
}

/// The text whose digest is the manifest of a directory.
pub open spec fn text_beneath(children: Seq<Tree>) -> Seq<u8> {
    line_text(sorted_names(names_listed(Seq::empty(), children)))
}

// Names

proof fn lemma_names_listed(prefix: Seq<u8>, children: Seq<Tree>)
    ensures
        names_listed(prefix, children).to_multiset() == names_beneath(prefix, children),
    decreases children_size(children),
{
    broadcast use vstd::seq_lib::group_to_multiset_ensures;

    if children.len() == 0 {
        assert(names_listed(prefix, children).to_multiset() =~= Multiset::<Seq<u8>>::empty());
    } else {
        let front = children.drop_last();
        let last = children.last();
        assert(child_size(last) > 0);
        lemma_names_listed(prefix, front);
        assert(child_listed(prefix, last).to_multiset() == child_names(prefix, last)) by {
            match last {
                Tree::File { name } => {
                    if includable(name) {
                        let one = prefixed(prefix, name);
                        assert(seq![one] =~= Seq::<Seq<u8>>::empty().push(one));
                        assert(seq![one].to_multiset() =~= Multiset::singleton(one));
                    } else {
                        assert(Seq::<Seq<u8>>::empty().to_multiset() =~= Multiset::empty());
                    }
                },
                Tree::Directory { name, children: below } => {
                    lemma_names_listed(prefixed(prefix, name), below);
                },
            }
        }
        vstd::seq_lib::lemma_multiset_commutative(
            child_listed(prefix, last),
            names_listed(prefix, front),
        );
    }
}

/// A child's names are among those beneath its directory, beside those of the other children.
proof fn lemma_child_set_aside(prefix: Seq<u8>, children: Seq<Tree>, at: int)
    requires
        0 <= at < children.len(),
    ensures
        names_beneath(prefix, children) == names_beneath(prefix, children.remove(at)).add(
            child_names(prefix, children[at]),
        ),
    decreases children.len(),
{
    let front = children.drop_last();
    let last = child_names(prefix, children.last());
    if at == children.len() - 1 {
        assert(children.remove(at) =~= front);
        assert(last.add(names_beneath(prefix, front)) =~= names_beneath(prefix, front).add(last));
    } else {
        lemma_child_set_aside(prefix, front, at);
        let others = children.remove(at);
        assert(others.drop_last() =~= front.remove(at));
        assert(others.last() == children.last());
        let rest = names_beneath(prefix, front.remove(at));
        let own = child_names(prefix, children[at]);
        assert(last.add(rest.add(own)) =~= last.add(rest).add(own));
    }
}

/// Whether a file of this name was added beneath a directory, at any depth, and nothing else
/// changed.
pub open spec fn file_added(before: Seq<Tree>, after: Seq<Tree>, name: Seq<u8>) -> bool
    decreases before,
{
    ||| exists|at: int|
        0 <= at <= before.len() && after == #[trigger] before.insert(at, Tree::File { name })
    ||| exists|at: int|
        0 <= at < before.len() && before.len() == after.len() && after == #[trigger] before.update(
            at,
            after[at],
        ) && directory_gained(before[at], after[at], name)
}

/// Whether a child is a directory beneath which a file of this name was added.
pub open spec fn directory_gained(before: Tree, after: Tree, name: Seq<u8>) -> bool
    decreases before,
{
    match (before, after) {
        (
            Tree::Directory { name: left, children: less },
            Tree::Directory { name: right, children: more },
        ) => left == right && file_added(less, more, name),
        _ => false,
    }
}

/// A file that is added beneath a directory adds one name, if it can be included, and none if it
/// cannot.
pub proof fn added_files_add_their_names(
    prefix: Seq<u8>,
    before: Seq<Tree>,
    after: Seq<Tree>,
    name: Seq<u8>,
) -> (relative: Seq<u8>)
    requires
        file_added(before, after, name),
    ensures
        relative.len() >= name.len(),
        includable(name) ==> names_beneath(prefix, after) == names_beneath(prefix, before).insert(
            relative,
        ),
        !includable(name) ==> names_beneath(prefix, after) == names_beneath(prefix, before),
    decreases children_size(before),
{
    let file = Tree::File { name };
    if exists|at: int| 0 <= at <= before.len() && after == #[trigger] before.insert(at, file) {
        let at = choose|at: int|
            0 <= at <= before.len() && after == #[trigger] before.insert(at, file);
        lemma_child_set_aside(prefix, after, at);
        assert(after.remove(at) =~= before);
        assert(after[at] == file);
        let names = names_beneath(prefix, before);
        let one = prefixed(prefix, name);
        if includable(name) {
            assert(names.add(Multiset::singleton(one)) =~= names.insert(one));
        } else {
            assert(names.add(Multiset::empty()) =~= names);
        }
        one
    } else {
        let at = choose|at: int|
            0 <= at < before.len() && before.len() == after.len() && after
                == #[trigger] before.update(at, after[at]) && directory_gained(
                before[at],
                after[at],
                name,
            );
        lemma_child_set_aside(prefix, before, at);
        lemma_child_set_aside(prefix, after, at);
        assert(after.remove(at) =~= before.remove(at));
        let rest = names_beneath(prefix, before.remove(at));
        match (before[at], after[at]) {
            (
                Tree::Directory { name: left, children: less },
                Tree::Directory { name: right, children: more },
            ) => {
                lemma_child_is_smaller(before, at);
                let inner = prefixed(prefix, left);
                let relative = added_files_add_their_names(inner, less, more, name);
                let own = names_beneath(inner, less);
                assert(child_names(prefix, before[at]) == own);
                assert(child_names(prefix, after[at]) == names_beneath(inner, more));
                assert(rest.add(own.insert(relative)) =~= rest.add(own).insert(relative));
                relative
            },
            _ => name,
        }
    }
}

proof fn lemma_child_is_smaller(children: Seq<Tree>, at: int)
    requires
        0 <= at < children.len(),
    ensures
        child_size(children[at]) <= children_size(children),
    decreases children.len(),
{
    if at < children.len() - 1 {
        assert(children.drop_last()[at] == children[at]);
        lemma_child_is_smaller(children.drop_last(), at);
    }
}

/// What stands beneath a directory, without the files that cannot be included.
pub open spec fn pruned(children: Seq<Tree>) -> Seq<Tree>
    decreases children,
{
    if children.len() == 0 {
        Seq::empty()
    } else {
        pruned(children.drop_last()) + pruned_child(children.last())
    }
}

/// A child without the files that cannot be included.
pub open spec fn pruned_child(child: Tree) -> Seq<Tree>
    decreases child,
{
    match child {
        Tree::File { name } => if includable(name) {
            seq![child]
        } else {
            Seq::empty()
        },
        Tree::Directory { name, children } => seq![
            Tree::Directory { name, children: pruned(children) },
        ],
    }
}

proof fn lemma_pruning_keeps_names(prefix: Seq<u8>, children: Seq<Tree>)
    ensures
        names_beneath(prefix, pruned(children)) == names_beneath(prefix, children),
    decreases children_size(children),
{
    if children.len() > 0 {
        let front = children.drop_last();
        let last = children.last();
        let kept = pruned(front);
        assert(child_size(last) > 0);
        lemma_pruning_keeps_names(prefix, front);
        if let Tree::Directory { name, children: below } = last {
            lemma_pruning_keeps_names(prefixed(prefix, name), below);
        }
        match last {
            Tree::File { name } if !includable(name) => {
                assert(pruned(children) =~= kept);
                assert(child_names(prefix, last) == Multiset::<Seq<u8>>::empty());
                assert(Multiset::<Seq<u8>>::empty().add(names_beneath(prefix, front))
                    =~= names_beneath(prefix, front));
            },
            _ => {
                let child = pruned_child(last)[0];
                assert(pruned(children) =~= kept.push(child));
                assert(pruned(children).drop_last() =~= kept);
                assert(pruned(children).last() == child);
                assert(child_names(prefix, child) == child_names(prefix, last));
                assert(names_beneath(prefix, kept.push(child)) == child_names(prefix, child).add(
                    names_beneath(prefix, kept),
                ));
            },
        }
    }
}

/// Files that cannot be included do not count among the names beneath a directory, however many
/// of them come and go.
pub proof fn other_files_do_not_count(left: Seq<Tree>, right: Seq<Tree>)
    requires
        pruned(left) == pruned(right),
    ensures
        names_beneath(Seq::empty(), left) == names_beneath(Seq::empty(), right),
{
    lemma_pruning_keeps_names(Seq::empty(), left);
    lemma_pruning_keeps_names(Seq::empty(), right);
}

// Runs

/// The manifest of a directory is the digest of the text of the names beneath it.
proof fn lemma_manifest_walked(
    directory: Seq<u8>,
    children: Seq<Tree>,
    budget: usize,
    limit: usize,
)
    requires
        names_are_text(children),
    ensures
        ({
            let count = names_beneath(Seq::empty(), children).len();
            match manifest_walked(directory, children, budget, limit) {
                Ok(manifest) => {
                    &&& count == 0 || budget + count <= limit
                    &&& manifest.digest == content_digest(text_beneath(children))
                    &&& manifest.budget == budget + count
                },
                Err(reason) => {
                    &&& count > 0 && budget + count > limit
                    &&& reason == BypassModel::TooManyInputs
                },
            }
        }),
{
    lemma_one_walk(directory, children, budget, limit);
    lemma_names_listed(Seq::empty(), children);
    if let Ok(walk) = walked(
        walk_begun(directory, budget, limit),
        seq![children],
    ) {
        manifests_ignore_listing_order(walk.names, names_listed(Seq::empty(), children));
    }
}

proof fn lemma_manifests_walked(run: ManifestsModel, disk: Disk)
    requires
        run.digests.len() <= run.directories.len(),
        disk_is_text(run.directories, disk),
    ensures
        manifests_walked(run, disk) matches Ok(last) ==> {
            &&& last.directories == run.directories
            &&& last.digests.len() == run.directories.len()
            &&& forall|i: int|
                0 <= i < run.digests.len() ==> #[trigger] last.digests[i] == run.digests[i]
            &&& forall|i: int|
                run.digests.len() <= i < run.directories.len() ==> #[trigger] last.digests[i]
                    == content_digest(text_beneath(disk(run.directories[i])))
        },
    decreases run.directories.len() - run.digests.len(),
{
    if run.digests.len() < run.directories.len() {
        let at = run.digests.len() as int;
        let directory = run.directories[at];
        lemma_manifest_walked(directory, disk(directory), run.budget, run.limit);
        if let Ok(next) = manifest_taken(
            run,
            manifest_walked(directory, disk(directory), run.budget, run.limit),
        ) {
            lemma_manifests_walked(next, disk);
            if let Ok(last) = manifests_walked(run, disk) {
                assert(last.digests[at] == next.digests[at]);
                assert forall|i: int| 0 <= i < run.digests.len() implies #[trigger] last.digests[i]
                    == run.digests[i] by {
                    assert(next.digests[i] == run.digests[i]);
                }
            }
        }
    }
}

proof fn lemma_same_names_walk_alike(run: ManifestsModel, before: Disk, after: Disk)
    requires
        run.digests.len() <= run.directories.len(),
        disk_is_text(run.directories, before),
        disk_is_text(run.directories, after),
        forall|i: int|
            0 <= i < run.directories.len() ==> names_beneath(
                Seq::empty(),
                before(#[trigger] run.directories[i]),
            ) == names_beneath(Seq::empty(), after(run.directories[i])),
    ensures
        manifests_walked(run, before) == manifests_walked(run, after),
    decreases run.directories.len() - run.digests.len(),
{
    if run.digests.len() < run.directories.len() {
        let directory = run.directories[run.digests.len() as int];
        lemma_manifest_walked(directory, before(directory), run.budget, run.limit);
        lemma_manifest_walked(directory, after(directory), run.budget, run.limit);
        lemma_names_listed(Seq::empty(), before(directory));
        lemma_names_listed(Seq::empty(), after(directory));
        manifests_ignore_listing_order(
            names_listed(Seq::empty(), before(directory)),
            names_listed(Seq::empty(), after(directory)),
        );
        let manifest = manifest_walked(directory, before(directory), run.budget, run.limit);
        assert(manifest == manifest_walked(directory, after(directory), run.budget, run.limit));
        if let Ok(next) = manifest_taken(run, manifest) {
            lemma_same_names_walk_alike(next, before, after);
        }
    }
}

/// Directories in their order are at different places.
proof fn lemma_places_differ(directories: Seq<Seq<u8>>, i: int, j: int)
    requires
        forall|i: int, j: int|
            #![trigger directories[i], directories[j]]
            0 <= i < j < directories.len() ==> directory_before(directories[i], directories[j]),
        0 <= i < j < directories.len(),
    ensures
        path_parts(directories[i]) != path_parts(directories[j]),
{
    lemma_parts_order();
    assert(directory_before(directories[i], directories[j]));
    let place = path_parts(directories[i]);
    assert(!parts_order()(place, place));
    let parts = directory_parts(directories[i]);
    assert(!parts_order()(parts, parts));
}

proof fn lemma_manifests_map(directories: Seq<Seq<u8>>, digests: Seq<DigestModel>)
    requires
        digests.len() == directories.len(),
        forall|i: int, j: int|
            #![trigger directories[i], directories[j]]
            0 <= i < j < directories.len() ==> directory_before(directories[i], directories[j]),
    ensures
        forall|place: Seq<PathPart>| #[trigger]
            manifests_map(directories, digests).contains_key(place) <==> exists|i: int|
                0 <= i < directories.len() && path_parts(#[trigger] directories[i]) == place,
        forall|i: int|
            0 <= i < directories.len() ==> manifests_map(directories, digests)[path_parts(
                #[trigger] directories[i],
            )] == digests[i],
    decreases directories.len(),
{
    if directories.len() > 0 {
        let front = directories.drop_last();
        let count = front.len() as int;
        assert forall|i: int, j: int|
            #![trigger front[i], front[j]]
            0 <= i < j < front.len() implies directory_before(front[i], front[j]) by {
            assert(front[i] == directories[i] && front[j] == directories[j]);
        }
        lemma_manifests_map(front, digests.drop_last());
        let map = manifests_map(directories, digests);
        assert forall|place: Seq<PathPart>| #[trigger] map.contains_key(place) <==> exists|i: int|
            0 <= i < directories.len() && path_parts(#[trigger] directories[i]) == place by {
            if map.contains_key(place) && place != path_parts(directories[count]) {
                assert(manifests_map(front, digests.drop_last()).contains_key(place));
                let i = choose|i: int|
                    0 <= i < front.len() && path_parts(#[trigger] front[i]) == place;
                assert(front[i] == directories[i]);
            }
            if exists|i: int|
                0 <= i < directories.len() && path_parts(#[trigger] directories[i]) == place {
                let i = choose|i: int|
                    0 <= i < directories.len() && path_parts(#[trigger] directories[i]) == place;
                if i < count {
                    assert(front[i] == directories[i]);
                }
            }
        }
        assert forall|i: int| 0 <= i < directories.len() implies map[path_parts(
            #[trigger] directories[i],
        )] == digests[i] by {
            if i < count {
                assert(front[i] == directories[i]);
                lemma_places_differ(directories, i, count);
            }
        }
    }
}

// Snapshots

/// A snapshot holds exactly the directories that no listed one covers, each with the digest of the
/// sorted includable names beneath it.
pub proof fn snapshots_hold_the_uncovered_directories(
    listed: Seq<Seq<u8>>,
    solid: Set<Seq<PathPart>>,
    directories: Seq<Seq<u8>>,
    limit: usize,
    disk: Disk,
)
    requires
        is_minimal(directories, listed, solid),
        disk_is_text(directories, disk),
        snapshot_taken(directories, limit, disk) is Ok,
    ensures
        ({
            let snapshot = snapshot_taken(directories, limit, disk)->Ok_0;
            &&& forall|place: Seq<PathPart>| #[trigger]
                snapshot.contains_key(place) <==> exists|i: int|
                    0 <= i < directories.len() && path_parts(#[trigger] directories[i]) == place
            &&& forall|i: int|
                0 <= i < directories.len() ==> snapshot[path_parts(#[trigger] directories[i])]
                    == content_digest(text_beneath(disk(directories[i])))
        }),
{
    let run = manifests_begun(directories, limit);
    lemma_manifests_walked(run, disk);
    let last = manifests_walked(run, disk)->Ok_0;
    lemma_manifests_map(directories, last.digests);
}

/// Two snapshots of the same directories are the same where the includable names beneath each are
/// the same, whatever became of the files' contents and of the order in which they are listed; and
/// where there are too many names for one, there are for the other.
pub proof fn same_names_make_the_same_snapshot(
    directories: Seq<Seq<u8>>,
    limit: usize,
    before: Disk,
    after: Disk,
)
    requires
        disk_is_text(directories, before),
        disk_is_text(directories, after),
        forall|i: int|
            0 <= i < directories.len() ==> names_beneath(
                Seq::empty(),
                before(#[trigger] directories[i]),
            ) == names_beneath(Seq::empty(), after(directories[i])),
    ensures
        snapshot_taken(directories, limit, before) == snapshot_taken(directories, limit, after),
{
    lemma_same_names_walk_alike(manifests_begun(directories, limit), before, after);
}

/// A change that only rewrites files, or adds or removes files that cannot be included, leaves a
/// snapshot as it was.
pub proof fn snapshots_ignore_other_files(
    directories: Seq<Seq<u8>>,
    limit: usize,
    before: Disk,
    after: Disk,
)
    requires
        disk_is_text(directories, before),
        disk_is_text(directories, after),
        forall|i: int|
            0 <= i < directories.len() ==> pruned(before(#[trigger] directories[i])) == pruned(
                after(directories[i]),
            ),
    ensures
        snapshot_taken(directories, limit, before) == snapshot_taken(directories, limit, after),
{
    assert forall|i: int| 0 <= i < directories.len() implies names_beneath(
        Seq::empty(),
        before(#[trigger] directories[i]),
    ) == names_beneath(Seq::empty(), after(directories[i])) by {
        other_files_do_not_count(before(directories[i]), after(directories[i]));
    }
    same_names_make_the_same_snapshot(directories, limit, before, after);
}

/// Snapshots between which the includable names beneath a directory changed digest different
/// texts, and so differ unless those texts have the same digest. Lines must be able to hold the
/// names.
pub proof fn different_names_make_different_texts(
    listed: Seq<Seq<u8>>,
    solid: Set<Seq<PathPart>>,
    directories: Seq<Seq<u8>>,
    limit: usize,
    before: Disk,
    after: Disk,
    at: int,
)
    requires
        is_minimal(directories, listed, solid),
        0 <= at < directories.len(),
        disk_is_text(directories, before),
        disk_is_text(directories, after),
        names_beneath(Seq::empty(), before(directories[at])) != names_beneath(
            Seq::empty(),
            after(directories[at]),
        ),
        names_fit_lines(names_listed(Seq::empty(), before(directories[at]))),
        names_fit_lines(names_listed(Seq::empty(), after(directories[at]))),
    ensures
        text_beneath(before(directories[at])) != text_beneath(after(directories[at])),
        ({
            let earlier = snapshot_taken(directories, limit, before);
            let later = snapshot_taken(directories, limit, after);
            earlier is Ok && later is Ok && content_digest(text_beneath(before(directories[at])))
                != content_digest(text_beneath(after(directories[at]))) ==> earlier != later
        }),
{
    let left = before(directories[at]);
    let right = after(directories[at]);
    lemma_names_listed(Seq::empty(), left);
    lemma_names_listed(Seq::empty(), right);
    if text_beneath(left) == text_beneath(right) {
        manifest_texts_tell_names_apart(
            names_listed(Seq::empty(), left),
            names_listed(Seq::empty(), right),
        );
    }
    if snapshot_taken(directories, limit, before) is Ok {
        snapshots_hold_the_uncovered_directories(listed, solid, directories, limit, before);
    }
    if snapshot_taken(directories, limit, after) is Ok {
        snapshots_hold_the_uncovered_directories(listed, solid, directories, limit, after);
    }
}

// Lengths

/// The bytes that names take.
spec fn names_length(names: Seq<Seq<u8>>) -> nat
    decreases names.len(),
{
    if names.len() == 0 {
        0
    } else {
        names_length(names.drop_last()) + names.last().len()
    }
}

proof fn lemma_name_set_aside(names: Seq<Seq<u8>>, at: int)
    requires
        0 <= at < names.len(),
    ensures
        names_length(names) == names_length(names.remove(at)) + names[at].len(),
    decreases names.len(),
{
    let others = names.remove(at);
    if at == names.len() - 1 {
        assert(others =~= names.drop_last());
    } else {
        lemma_name_set_aside(names.drop_last(), at);
        assert(others.drop_last() =~= names.drop_last().remove(at));
        assert(others.last() == names.last());
    }
}

proof fn lemma_length_ignores_order(left: Seq<Seq<u8>>, right: Seq<Seq<u8>>)
    requires
        left.to_multiset() == right.to_multiset(),
    ensures
        names_length(left) == names_length(right),
        left.len() == right.len(),
    decreases left.len(),
{
    broadcast use vstd::seq_lib::group_to_multiset_ensures;

    assert(left.len() == left.to_multiset().len());
    assert(right.len() == right.to_multiset().len());
    if left.len() > 0 {
        let name = left.last();
        assert(left.contains(left[left.len() - 1]));
        assert(left.to_multiset().count(name) > 0);
        assert(right.contains(name));
        let at = choose|at: int| 0 <= at < right.len() && right[at] == name;
        lemma_name_set_aside(right, at);
        assert(left =~= left.drop_last().push(name));
        assert(left.drop_last().to_multiset() =~= left.to_multiset().remove(name));
        assert(right.remove(at).to_multiset() =~= right.to_multiset().remove(name));
        lemma_length_ignores_order(left.drop_last(), right.remove(at));
    }
}

proof fn lemma_line_text_length(lines: Seq<Seq<u8>>)
    ensures
        lines.len() == 0 ==> line_text(lines).len() == 0,
        lines.len() > 0 ==> line_text(lines).len() == names_length(lines) + lines.len() - 1,
    decreases lines.len(),
{
    if lines.len() == 1 {
        assert(names_length(lines.drop_last()) == 0);
    } else if lines.len() > 1 {
        lemma_line_text_length(lines.drop_last());
    }
}

/// A text with one more name is longer.
proof fn lemma_longer_text(before: Seq<Tree>, after: Seq<Tree>, name: Seq<u8>)
    requires
        name.len() > 0,
        names_beneath(Seq::empty(), after) == names_beneath(Seq::empty(), before).insert(name),
    ensures
        text_beneath(before).len() < text_beneath(after).len(),
{
    broadcast use vstd::seq_lib::group_to_multiset_ensures;

    let none = Seq::<u8>::empty();
    let less = names_listed(none, before);
    let more = names_listed(none, after);
    lemma_names_listed(none, before);
    lemma_names_listed(none, after);
    let longer = less.push(name);
    assert(longer.to_multiset() =~= more.to_multiset());
    lemma_length_ignores_order(longer, more);
    assert(longer.drop_last() =~= less);
    lemma_sorted_length(less);
    lemma_sorted_length(more);
    lemma_line_text_length(sorted_names(less));
    lemma_line_text_length(sorted_names(more));
}

proof fn lemma_sorted_length(names: Seq<Seq<u8>>)
    ensures
        sorted_names(names).len() == names.len(),
        names_length(sorted_names(names)) == names_length(names),
{
    lemma_sorting_rearranges(names);
    lemma_length_ignores_order(sorted_names(names), names);
}

/// A file that appears in a listed directory, under a name that can be included, changes the
/// snapshot: it appears beneath every kept directory whose walk visits the listed one, and their
/// manifests have another size, whatever the hash makes of them.
pub proof fn snapshots_notice_new_headers(
    listed: Seq<Seq<u8>>,
    solid: Set<Seq<PathPart>>,
    directories: Seq<Seq<u8>>,
    limit: usize,
    before: Disk,
    after: Disk,
    directory: Seq<u8>,
    name: Seq<u8>,
)
    requires
        is_minimal(directories, listed, solid),
        disk_is_text(directories, before),
        disk_is_text(directories, after),
        listed.contains(directory),
        includable(name),
        name.len() > 0,
        forall|i: int|
            0 <= i < directories.len() && (directories[i] == directory || covers(
                directory_parts(directories[i]),
                directory_parts(directory),
                solid,
            )) ==> file_added(before(#[trigger] directories[i]), after(directories[i]), name),
        forall|i: int|
            0 <= i < directories.len() ==> text_beneath(after(#[trigger] directories[i])).len()
                <= u64::MAX,
        snapshot_taken(directories, limit, before) is Ok,
        snapshot_taken(directories, limit, after) is Ok,
    ensures
        snapshot_taken(directories, limit, before) != snapshot_taken(directories, limit, after),
{
    dropped_directories_are_covered(directories, listed, solid, directory);
    let at = if directories.contains(directory) {
        choose|at: int| 0 <= at < directories.len() && directories[at] == directory
    } else {
        choose|at: int|
            0 <= at < directories.len() && covers(
                directory_parts(#[trigger] directories[at]),
                directory_parts(directory),
                solid,
            )
    };
    let kept = directories[at];
    assert(file_added(before(kept), after(kept), name));
    let relative = added_files_add_their_names(Seq::empty(), before(kept), after(kept), name);
    lemma_longer_text(before(kept), after(kept), relative);
    snapshots_hold_the_uncovered_directories(listed, solid, directories, limit, before);
    snapshots_hold_the_uncovered_directories(listed, solid, directories, limit, after);
    let left = content_digest(text_beneath(before(kept)));
    let right = content_digest(text_beneath(after(kept)));
    assert(left.size != right.size);
    assert(snapshot_taken(directories, limit, before)->Ok_0[path_parts(kept)] == left);
    assert(snapshot_taken(directories, limit, after)->Ok_0[path_parts(kept)] == right);
}

} // verus!
