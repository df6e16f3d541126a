//! Which directories are kept, and which are reached from them.

use crate::coverage::{
    covers, directory_before, directory_parts, is_covered, is_minimal, is_probe, is_step,
};
use crate::path::{lies_below, normalized, parts_before, path_parts, PathPart};
use crate::path_map::in_order;
use vstd::prelude::*;

verus! {

/// A directory covers exactly those below it to which every step leads through a real directory,
/// the last one included.
pub proof fn walks_reach_what_real_directories_lead_to(
    ancestor: Seq<PathPart>,
    more: Seq<PathPart>,
    solid: Set<Seq<PathPart>>,
    other: Seq<PathPart>,
)
    ensures
        covers(ancestor, ancestor + more, solid) <==> more.len() > 0 && forall|k: int|
            1 <= k <= more.len() ==> solid.contains(ancestor + #[trigger] more.take(k)),
        covers(ancestor, other, solid) ==> other.len() > ancestor.len() && other == ancestor
            + other.skip(ancestor.len() as int),
{
    let whole = ancestor + more;
    assert(whole.take(ancestor.len() as int) =~= ancestor);
    assert(lies_below(ancestor, whole) <==> more.len() > 0);
    if covers(ancestor, whole, solid) {
        assert forall|k: int| 1 <= k <= more.len() implies solid.contains(
            ancestor + #[trigger] more.take(k),
        ) by {
            assert(whole.take(ancestor.len() + k) =~= ancestor + more.take(k));
        }
    }
    if more.len() > 0 && forall|k: int|
        1 <= k <= more.len() ==> solid.contains(ancestor + #[trigger] more.take(k)) {
        assert forall|k: int| ancestor.len() < k <= whole.len() implies solid.contains(
            #[trigger] whole.take(k),
        ) by {
            assert(whole.take(k) =~= ancestor + more.take(k - ancestor.len()));
        }
    }
    if covers(ancestor, other, solid) {
        assert(other =~= other.take(ancestor.len() as int) + other.skip(ancestor.len() as int));
    }
}

/// The directories that are kept are those listed that no listed one covers, each once.
pub proof fn kept_directories_are_the_uncovered_ones(
    minimal: Seq<Seq<u8>>,
    directories: Seq<Seq<u8>>,
    solid: Set<Seq<PathPart>>,
    directory: Seq<u8>,
)
    requires
        is_minimal(minimal, directories, solid),
    ensures
        minimal.contains(directory) <==> directories.contains(directory) && !(exists|i: int|
            0 <= i < directories.len() && covers(
                normalized(path_parts(#[trigger] directories[i])),
                normalized(path_parts(directory)),
                solid,
            )),
        is_covered(directory, directories, solid) <==> exists|i: int|
            0 <= i < directories.len() && covers(
                normalized(path_parts(#[trigger] directories[i])),
                normalized(path_parts(directory)),
                solid,
            ),
{
    if is_covered(directory, directories, solid) {
        let i = choose|i: int|
            0 <= i < directories.len() && covers(
                directory_parts(#[trigger] directories[i]),
                directory_parts(directory),
                solid,
            );
        assert(covers(
            normalized(path_parts(directories[i])),
            normalized(path_parts(directory)),
            solid,
        ));
    }
    if exists|i: int|
        0 <= i < directories.len() && covers(
            normalized(path_parts(#[trigger] directories[i])),
            normalized(path_parts(directory)),
            solid,
        ) {
        let i = choose|i: int|
            0 <= i < directories.len() && covers(
                normalized(path_parts(#[trigger] directories[i])),
                normalized(path_parts(directory)),
                solid,
            );
        assert(covers(directory_parts(directories[i]), directory_parts(directory), solid));
    }
}

/// Kept directories stand in order: fewer components come first, then the order of the places
/// that they resolve to, and then of those that they spell.
pub proof fn kept_directories_stand_in_order(
    minimal: Seq<Seq<u8>>,
    directories: Seq<Seq<u8>>,
    solid: Set<Seq<PathPart>>,
    i: int,
    j: int,
)
    requires
        is_minimal(minimal, directories, solid),
        0 <= i < j < minimal.len(),
    ensures
        ({
            let left = normalized(path_parts(minimal[i]));
            let right = normalized(path_parts(minimal[j]));
            &&& left.len() <= right.len()
            &&& left.len() == right.len() && left != right ==> parts_before(left, right)
            &&& left == right ==> parts_before(path_parts(minimal[i]), path_parts(minimal[j]))
        }),
{
    assert(directory_before(minimal[i], minimal[j]));
    let left = normalized(path_parts(minimal[i]));
    crate::path::lemma_parts_order();
    assert(!crate::path::parts_order()(left, left));
}

/// The places to be probed are exactly the steps from one listed directory down to another.
pub proof fn probes_are_the_steps_between_listed_directories(
    place: Seq<PathPart>,
    directories: Seq<Seq<u8>>,
    i: int,
    j: int,
    more: int,
)
    requires
        0 <= i < directories.len(),
        0 <= j < directories.len(),
    ensures
        lies_below(
            normalized(path_parts(directories[i])),
            normalized(path_parts(directories[j])),
        ) && normalized(path_parts(directories[i])).len() < more <= normalized(
            path_parts(directories[j]),
        ).len() ==> is_probe(normalized(path_parts(directories[j])).take(more), directories),
        is_probe(place, directories) ==> exists|a: int, b: int|
            #![trigger directories[a], directories[b]]
            {
                &&& 0 <= a < directories.len()
                &&& 0 <= b < directories.len()
                &&& normalized(path_parts(directories[a])).len() < place.len() <= normalized(
                    path_parts(directories[b]),
                ).len()
                &&& place == normalized(path_parts(directories[b])).take(place.len() as int)
                &&& lies_below(normalized(path_parts(directories[a])), place)
            },
{
    let upper = normalized(path_parts(directories[i]));
    let lower = normalized(path_parts(directories[j]));
    if lies_below(upper, lower) && upper.len() < more <= lower.len() {
        let step = lower.take(more);
        assert(step.len() == more);
        assert(is_step(step, directory_parts(directories[i]), directory_parts(directories[j])));
    }
    if is_probe(place, directories) {
        let (a, b) = choose|a: int, b: int|
            #![trigger directories[a], directories[b]]
            0 <= a < directories.len() && 0 <= b < directories.len() && is_step(
                place,
                directory_parts(directories[a]),
                directory_parts(directories[b]),
            );
        let above = normalized(path_parts(directories[a]));
        let below = normalized(path_parts(directories[b]));
        assert(place.take(above.len() as int) =~= below.take(above.len() as int));
        assert(lies_below(above, place));
    }
}

/// Paths in order name places one before the other, and so no place twice.
pub proof fn ordered_paths_name_each_place_once(paths: Seq<Seq<u8>>, i: int, j: int)
    requires
        in_order(paths),
        0 <= i < j < paths.len(),
    ensures
        parts_before(path_parts(paths[i]), path_parts(paths[j])),
        path_parts(paths[i]) != path_parts(paths[j]),
{
    crate::path::lemma_parts_order();
    assert(!crate::path::parts_order()(path_parts(paths[i]), path_parts(paths[i])));
}

} // verus!
