//! Which include directories need a manifest of their own.

use crate::order::{arranged, lemma_mapped_multiset, merge_sort, Placement, Sortable};
use crate::path::{
    lemma_normalized_fits, lemma_parts_order, lemma_path_parts_fit, lemma_path_text_reads_back,
    lies_below, normalized, normalized_components, part_fits, parts_before, parts_fit, parts_order,
    path_parts, path_text, place_components, FilePath, PathComponent, PathPart,
};
use crate::path_map::{in_order, PathSet};
use crate::views::seq_view;
use vstd::prelude::*;

verus! {

/// The components of a directory once `.` and `..` are resolved.
pub open spec fn directory_parts(directory: Seq<u8>) -> Seq<PathPart> {
    normalized(path_parts(directory))
}

/// Whether walking `ancestor` recursively is guaranteed to visit `descendant`: it lies below, and
/// every step on the way is a real directory.
///
/// Directory symlinks need this because listing follows
/// the directory it starts at but the recursive walk deliberately does not
/// follow symlink entries beneath it.
pub open spec fn covers(
    ancestor: Seq<PathPart>,
    descendant: Seq<PathPart>,
    solid: Set<Seq<PathPart>>,
) -> bool {
    &&& lies_below(ancestor, descendant)
    &&& forall|k: int|
        ancestor.len() < k <= descendant.len() ==> solid.contains(#[trigger] descendant.take(k))
}

/// Whether one of several directories covers a directory.
pub open spec fn is_covered(
    directory: Seq<u8>,
    directories: Seq<Seq<u8>>,
    solid: Set<Seq<PathPart>>,
) -> bool {
    exists|i: int|
        0 <= i < directories.len() && covers(
            directory_parts(#[trigger] directories[i]),
            directory_parts(directory),
            solid,
        )
}

/// The order of directories: those with fewer components first, then by their components once
/// resolved, then as they are spelled.
pub open spec fn directory_before(left: Seq<u8>, right: Seq<u8>) -> bool {
    let a = directory_parts(left);
    let b = directory_parts(right);
    ||| a.len() < b.len()
    ||| (a.len() == b.len() && parts_before(a, b))
    ||| (a == b && parts_before(path_parts(left), path_parts(right)))
}

/// Whether a step must be a real directory for one listed directory to cover another.
pub open spec fn is_probe(place: Seq<PathPart>, directories: Seq<Seq<u8>>) -> bool {
    exists|i: int, j: int|
        #![trigger directories[i], directories[j]]
        0 <= i < directories.len() && 0 <= j < directories.len() && is_step(
            place,
            directory_parts(directories[i]),
            directory_parts(directories[j]),
        )
}

/// Whether a place lies on the way from an ancestor down to a descendant.
pub open spec fn is_step(
    place: Seq<PathPart>,
    ancestor: Seq<PathPart>,
    descendant: Seq<PathPart>,
) -> bool {
    &&& lies_below(ancestor, descendant)
    &&& ancestor.len() < place.len() <= descendant.len()
    &&& place == descendant.take(place.len() as int)
}

/// What a covered directory covers is covered too.
pub proof fn covering_is_transitive(
    top: Seq<PathPart>,
    middle: Seq<PathPart>,
    bottom: Seq<PathPart>,
    solid: Set<Seq<PathPart>>,
)
    requires
        covers(top, middle, solid),
        covers(middle, bottom, solid),
    ensures
        covers(top, bottom, solid),
{
    assert(bottom.take(top.len() as int) =~= bottom.take(middle.len() as int).take(
        top.len() as int,
    ));
    assert forall|k: int| top.len() < k <= bottom.len() implies solid.contains(
        #[trigger] bottom.take(k),
    ) by {
        if k <= middle.len() {
            assert(bottom.take(k) =~= middle.take(k));
        }
    }
}

/// A covered directory is covered by one that is not covered itself.
pub proof fn some_cover_is_uncovered(
    directory: Seq<u8>,
    directories: Seq<Seq<u8>>,
    solid: Set<Seq<PathPart>>,
) -> (at: int)
    requires
        is_covered(directory, directories, solid),
    ensures
        0 <= at < directories.len(),
        covers(directory_parts(directories[at]), directory_parts(directory), solid),
        !is_covered(directories[at], directories, solid),
    decreases directory_parts(directory).len(),
{
    let i = choose|i: int|
        0 <= i < directories.len() && covers(
            directory_parts(#[trigger] directories[i]),
            directory_parts(directory),
            solid,
        );
    if is_covered(directories[i], directories, solid) {
        let at = some_cover_is_uncovered(directories[i], directories, solid);
        covering_is_transitive(
            directory_parts(directories[at]),
            directory_parts(directories[i]),
            directory_parts(directory),
            solid,
        );
        at
    } else {
        i
    }
}

/// Which directories cover which depends on nothing but the places that are probed.
pub proof fn only_probes_decide_covering(
    directories: Seq<Seq<u8>>,
    i: int,
    j: int,
    left: Set<Seq<PathPart>>,
    right: Set<Seq<PathPart>>,
)
    requires
        0 <= i < directories.len(),
        0 <= j < directories.len(),
        forall|place: Seq<PathPart>| #[trigger]
            is_probe(place, directories) ==> left.contains(place) == right.contains(place),
    ensures
        covers(directory_parts(directories[i]), directory_parts(directories[j]), left) == covers(
            directory_parts(directories[i]),
            directory_parts(directories[j]),
            right,
        ),
{
    let ancestor = directory_parts(directories[i]);
    let descendant = directory_parts(directories[j]);
    if lies_below(ancestor, descendant) {
        assert forall|k: int| ancestor.len() < k <= descendant.len() implies left.contains(
            #[trigger] descendant.take(k),
        ) == right.contains(descendant.take(k)) by {
            assert(is_step(descendant.take(k), ancestor, descendant));
            assert(is_probe(descendant.take(k), directories));
        }
    }
}

/// Of two directories one comes first, or they are the same place.
proof fn lemma_directory_order_total(a: Seq<u8>, b: Seq<u8>)
    ensures
        directory_before(a, b) || directory_before(b, a) || path_parts(a) == path_parts(b),
        !(directory_before(a, b) && directory_before(b, a)),
{
    lemma_parts_order();
    let x = directory_parts(a);
    let y = directory_parts(b);
    assert(x == y || parts_order()(x, y) || parts_order()(y, x));
    assert(path_parts(a) == path_parts(b) || parts_order()(path_parts(a), path_parts(b))
        || parts_order()(path_parts(b), path_parts(a)));
    assert(!parts_order()(x, x));
    assert(!parts_order()(path_parts(a), path_parts(a)));
    if parts_order()(x, y) && parts_order()(y, x) {
        assert(parts_order()(x, x));
    }
    if parts_order()(path_parts(a), path_parts(b)) && parts_order()(path_parts(b), path_parts(a)) {
        assert(parts_order()(path_parts(a), path_parts(a)));
    }
}

proof fn lemma_directory_order_transitive(a: Seq<u8>, b: Seq<u8>, c: Seq<u8>)
    requires
        !directory_before(b, a),
        !directory_before(c, b),
    ensures
        !directory_before(c, a),
{
    lemma_parts_order();
    lemma_directory_order_total(a, b);
    lemma_directory_order_total(b, c);
    lemma_directory_order_total(a, c);
    let x = directory_parts(a);
    let y = directory_parts(b);
    let z = directory_parts(c);
    if directory_before(c, a) {
        assert(parts_order()(x, y) && parts_order()(y, z) ==> parts_order()(x, z));
        assert(parts_order()(x, z) && parts_order()(z, x) ==> parts_order()(x, x));
        assert(!parts_order()(x, x));
        let p = path_parts(a);
        let q = path_parts(b);
        let r = path_parts(c);
        assert(parts_order()(p, q) && parts_order()(q, r) ==> parts_order()(p, r));
        assert(parts_order()(p, r) && parts_order()(r, p) ==> parts_order()(p, p));
        assert(!parts_order()(p, p));
        assert(directory_before(a, b) || p == q);
        assert(directory_before(b, c) || q == r);
    }
}

/// A listed directory, with its components resolved.
struct Candidate {
    directory: FilePath,
    parts: Vec<PathComponent>,
}

impl Candidate {
    #[verifier::type_invariant]
    spec fn resolved(self) -> bool {
        seq_view(self.parts@) == directory_parts(self.directory@)
    }
}

impl Sortable for Candidate {
    closed spec fn may_precede(&self, other: &Candidate) -> bool {
        !directory_before(other.directory@, self.directory@)
    }

    proof fn precedence_is_total(a: &Candidate, b: &Candidate) {
        lemma_directory_order_total(a.directory@, b.directory@);
    }

    proof fn precedence_is_transitive(a: &Candidate, b: &Candidate, c: &Candidate) {
        lemma_directory_order_transitive(a.directory@, b.directory@, c.directory@);
    }

    fn precedes(&self, other: &Candidate) -> (yes: bool) {
        proof {
            use_type_invariant(self);
            use_type_invariant(other);
            lemma_directory_order_total(self.directory@, other.directory@);
            lemma_parts_order();
            let x = directory_parts(self.directory@);
            assert(!parts_order()(x, x));
        }
        if self.parts.len() != other.parts.len() {
            return self.parts.len() < other.parts.len();
        }
        match place_components(&other.parts, &self.parts) {
            Placement::Before => false,
            Placement::After => true,
            Placement::Same => match other.directory.place(&self.directory) {
                Placement::Before => false,
                _ => true,
            },
        }
    }
}

proof fn lemma_prefix_fits(parts: Seq<PathPart>, k: int)
    requires
        parts_fit(parts),
        0 <= k <= parts.len(),
    ensures
        path_parts(path_text(parts.take(k))) == parts.take(k),
{
    let front = parts.take(k);
    assert forall|i: int| 0 <= i < front.len() implies part_fits(#[trigger] front[i], i) by {
        assert(front[i] == parts[i]);
    }
    lemma_path_text_reads_back(front);
}

/// The path of the first components of a list.
fn prefix_path(components: &Vec<PathComponent>, count: usize) -> (path: FilePath)
    requires
        count <= components@.len(),
        parts_fit(seq_view(components@)),
    ensures
        path_parts(path@) == seq_view(components@).take(count as int),
{
    let front = vstd::slice::slice_subrange(components.as_slice(), 0, count);
    proof {
        assert(seq_view(front@) =~= seq_view(components@).take(count as int));
        lemma_prefix_fits(seq_view(components@), count as int);
    }
    FilePath::from_components(front)
}

/// Whether one list of components is a proper prefix of another.
fn stands_below(ancestor: &Vec<PathComponent>, descendant: &Vec<PathComponent>) -> (below: bool)
    ensures
        below == lies_below(seq_view(ancestor@), seq_view(descendant@)),
{
    if ancestor.len() >= descendant.len() {
        return false;
    }
    let front = vstd::slice::slice_subrange(descendant.as_slice(), 0, ancestor.len());
    assert(seq_view(front@) =~= seq_view(descendant@).take(ancestor@.len() as int));
    match place_components(ancestor, front) {
        Placement::Same => true,
        _ => false,
    }
}

/// Whether walking `ancestor` recursively is guaranteed to visit `descendant`.
///
/// `solid` holds the places that are known to be real directories.
fn manifest_covers(
    ancestor: &Vec<PathComponent>,
    descendant: &Vec<PathComponent>,
    solid: &PathSet,
) -> (covered: bool)
    requires
        parts_fit(seq_view(descendant@)),
    ensures
        covered == covers(seq_view(ancestor@), seq_view(descendant@), solid.places()),
{
    if !stands_below(ancestor, descendant) {
        return false;
    }
    let ghost parts = seq_view(descendant@);
    let length: usize = descendant.len();
    let mut k: usize = ancestor.len();
    while k < length
        invariant
            ancestor@.len() <= k <= length,
            length == descendant@.len(),
            parts == seq_view(descendant@),
            parts_fit(parts),
            forall|j: int|
                ancestor@.len() < j <= k ==> solid.places().contains(#[trigger] parts.take(j)),
        decreases length - k,
    {
        k += 1;
        let place = prefix_path(descendant, k);
        if !solid.contains(&place) {
            assert(!solid.places().contains(parts.take(k as int)));
            return false;
        }
    }
    true
}

/// The listed directories with their components resolved, in the order of the set.
fn candidates(directories: &PathSet) -> (list: Vec<Candidate>)
    ensures
        list@.len() == directories@.len(),
        forall|i: int|
            0 <= i < list@.len() ==> (#[trigger] list@[i]).directory@ == directories@[i],
        forall|i: int| 0 <= i < list@.len() ==> (#[trigger] list@[i]).resolved(),
        in_order(directories@),
{
    let mut list: Vec<Candidate> = Vec::new();
    let length: usize = directories.len();
    let mut i: usize = 0;
    while i < length
        invariant
            i <= length,
            length == directories@.len(),
            list@.len() == i,
            forall|j: int|
                0 <= j < list@.len() ==> (#[trigger] list@[j]).directory@ == directories@[j],
            forall|j: int| 0 <= j < list@.len() ==> (#[trigger] list@[j]).resolved(),
        decreases length - i,
    {
        let path = directories.path(i);
        let parts = normalized_components(path);
        list.push(Candidate { directory: path.duplicate(), parts });
        i += 1;
    }
    list
}

/// The places that decide which listed directories cover which: those on the way from one down to
/// another.
pub fn manifest_probes(directories: &PathSet) -> (probes: PathSet)
    ensures
        forall|place: Seq<PathPart>| #[trigger]
            probes.places().contains(place) == is_probe(place, directories@),
{
    let list = candidates(directories);
    let ghost all = directories@;
    let mut probes = PathSet::new();
    let mut i: usize = 0;
    while i < list.len()
        invariant
            i <= list@.len(),
            all == directories@,
            list@.len() == all.len(),
            forall|k: int| 0 <= k < list@.len() ==> (#[trigger] list@[k]).directory@ == all[k],
            forall|k: int| 0 <= k < list@.len() ==> (#[trigger] list@[k]).resolved(),
            forall|place: Seq<PathPart>| #[trigger]
                probes.places().contains(place) == probed_by(place, all, i as int, 0),
        decreases list@.len() - i,
    {
        let mut j: usize = 0;
        while j < list.len()
            invariant
                i < list@.len(),
                j <= list@.len(),
                all == directories@,
                list@.len() == all.len(),
                forall|k: int| 0 <= k < list@.len() ==> (#[trigger] list@[k]).directory@ == all[k],
                forall|k: int| 0 <= k < list@.len() ==> (#[trigger] list@[k]).resolved(),
                forall|place: Seq<PathPart>| #[trigger]
                    probes.places().contains(place) == probed_by(place, all, i as int, j as int),
            decreases list@.len() - j,
        {
            let ghost before = probes.places();
            proof {
                lemma_path_parts_fit(all[j as int]);
                lemma_normalized_fits(path_parts(all[j as int]));
                assert(list@[i as int].resolved() && list@[j as int].resolved());
            }
            probes = add_steps(probes, &list[i].parts, &list[j].parts);
            proof {
                assert forall|place: Seq<PathPart>| #[trigger]
                    probes.places().contains(place) == probed_by(
                        place,
                        all,
                        i as int,
                        j + 1,
                    ) by {
                    assert(before.contains(place) == probed_by(place, all, i as int, j as int));
                    lemma_probed_next(place, all, i as int, j as int);
                }
            }
            j += 1;
        }
        proof {
            assert forall|place: Seq<PathPart>| #[trigger]
                probes.places().contains(place) == probed_by(place, all, i + 1, 0) by {
                lemma_probed_row(place, all, i as int);
            }
        }
        i += 1;
    }
    proof {
        assert forall|place: Seq<PathPart>| #[trigger]
            probes.places().contains(place) == is_probe(place, directories@) by {
            if is_probe(place, all) {
                let (a, b) = choose|a: int, b: int|
                    #![trigger all[a], all[b]]
                    0 <= a < all.len() && 0 <= b < all.len() && is_step(
                        place,
                        directory_parts(all[a]),
                        directory_parts(all[b]),
                    );
                assert(probed_pair(place, all, a, b));
            }
            if probed_by(place, all, i as int, 0) {
                let (a, b) = choose|a: int, b: int|
                    #[trigger] probed_pair(place, all, a, b) && (a < i || (a == i && b < 0));
                assert(is_step(place, directory_parts(all[a]), directory_parts(all[b])));
            }
        }
    }
    probes
}

/// Whether a place lies on the way between two listed directories.
spec fn probed_pair(place: Seq<PathPart>, all: Seq<Seq<u8>>, a: int, b: int) -> bool {
    0 <= a < all.len() && 0 <= b < all.len() && is_step(
        place,
        directory_parts(all[a]),
        directory_parts(all[b]),
    )
}

/// Whether a place lies on the way between a pair that comes before the pair of `i` and `j`.
spec fn probed_by(place: Seq<PathPart>, all: Seq<Seq<u8>>, i: int, j: int) -> bool {
    exists|a: int, b: int| #[trigger]
        probed_pair(place, all, a, b) && (a < i || (a == i && b < j))
}

proof fn lemma_probed_next(place: Seq<PathPart>, all: Seq<Seq<u8>>, i: int, j: int)
    requires
        0 <= i < all.len(),
        0 <= j < all.len(),
    ensures
        probed_by(place, all, i, j + 1) == (probed_by(place, all, i, j) || is_step(
            place,
            directory_parts(all[i]),
            directory_parts(all[j]),
        )),
{
    if probed_by(place, all, i, j + 1) {
        let (a, b) = choose|a: int, b: int| #[trigger]
            probed_pair(place, all, a, b) && (a < i || (a == i && b < j + 1));
        assert(probed_pair(place, all, a, b));
    }
    if probed_by(place, all, i, j) {
        let (a, b) = choose|a: int, b: int| #[trigger]
            probed_pair(place, all, a, b) && (a < i || (a == i && b < j));
        assert(probed_pair(place, all, a, b));
    }
    assert(probed_pair(place, all, i, j) == is_step(
        place,
        directory_parts(all[i]),
        directory_parts(all[j]),
    ));
}

proof fn lemma_probed_row(place: Seq<PathPart>, all: Seq<Seq<u8>>, i: int)
    ensures
        probed_by(place, all, i, all.len() as int) == probed_by(place, all, i + 1, 0),
{
    if probed_by(place, all, i, all.len() as int) {
        let (a, b) = choose|a: int, b: int| #[trigger]
            probed_pair(place, all, a, b) && (a < i || (a == i && b < all.len()));
        assert(probed_pair(place, all, a, b));
    }
    if probed_by(place, all, i + 1, 0) {
        let (a, b) = choose|a: int, b: int| #[trigger]
            probed_pair(place, all, a, b) && (a < i + 1 || (a == i + 1 && b < 0));
        assert(probed_pair(place, all, a, b));
    }
}

/// Add the places on the way from one directory down to another.
fn add_steps(
    probes: PathSet,
    ancestor: &Vec<PathComponent>,
    descendant: &Vec<PathComponent>,
) -> (more: PathSet)
    requires
        parts_fit(seq_view(descendant@)),
    ensures
        forall|place: Seq<PathPart>| #[trigger]
            more.places().contains(place) == (probes.places().contains(place) || is_step(
                place,
                seq_view(ancestor@),
                seq_view(descendant@),
            )),
{
    if !stands_below(ancestor, descendant) {
        return probes;
    }
    let ghost before = probes.places();
    let ghost above = seq_view(ancestor@);
    let ghost parts = seq_view(descendant@);
    let mut more = probes;
    let length: usize = descendant.len();
    let mut k: usize = ancestor.len();
    while k < length
        invariant
            ancestor@.len() <= k <= length,
            length == descendant@.len(),
            above == seq_view(ancestor@),
            parts == seq_view(descendant@),
            parts_fit(parts),
            lies_below(above, parts),
            forall|place: Seq<PathPart>| #[trigger]
                more.places().contains(place) == (before.contains(place) || (is_step(
                    place,
                    above,
                    parts,
                ) && place.len() <= k)),
        decreases length - k,
    {
        let ghost earlier = more.places();
        k += 1;
        let step = prefix_path(descendant, k);
        let ghost here = path_parts(step@);
        more = more.insert(step);
        proof {
            assert forall|place: Seq<PathPart>| #[trigger]
                more.places().contains(place) == (before.contains(place) || (is_step(
                    place,
                    above,
                    parts,
                ) && place.len() <= k)) by {
                assert(more.places() == earlier.insert(here));
                assert(earlier.contains(place) == (before.contains(place) || (is_step(
                    place,
                    above,
                    parts,
                ) && place.len() <= k - 1)));
            }
        }
    }
    more
}

/// Whether directories are the listed ones that no listed one covers, in their order.
pub open spec fn is_minimal(
    minimal: Seq<Seq<u8>>,
    directories: Seq<Seq<u8>>,
    solid: Set<Seq<PathPart>>,
) -> bool {
    &&& forall|i: int, j: int|
        #![trigger minimal[i], minimal[j]]
        0 <= i < j < minimal.len() ==> directory_before(minimal[i], minimal[j])
    &&& forall|directory: Seq<u8>| #[trigger]
        minimal.contains(directory) <==> directories.contains(directory) && !is_covered(
            directory,
            directories,
            solid,
        )
}

/// Every listed directory is kept, or a kept one covers it.
pub proof fn dropped_directories_are_covered(
    minimal: Seq<Seq<u8>>,
    directories: Seq<Seq<u8>>,
    solid: Set<Seq<PathPart>>,
    directory: Seq<u8>,
)
    requires
        is_minimal(minimal, directories, solid),
        directories.contains(directory),
    ensures
        minimal.contains(directory) || exists|i: int|
            0 <= i < minimal.len() && covers(
                directory_parts(#[trigger] minimal[i]),
                directory_parts(directory),
                solid,
            ),
{
    if !minimal.contains(directory) {
        let at = some_cover_is_uncovered(directory, directories, solid);
        assert(directories.contains(directories[at]));
        assert(minimal.contains(directories[at]));
        let i = choose|i: int| 0 <= i < minimal.len() && minimal[i] == directories[at];
        assert(covers(directory_parts(minimal[i]), directory_parts(directory), solid));
    }
}

/// No kept directory covers another one.
pub proof fn kept_directories_do_not_overlap(
    minimal: Seq<Seq<u8>>,
    directories: Seq<Seq<u8>>,
    solid: Set<Seq<PathPart>>,
    i: int,
    j: int,
)
    requires
        is_minimal(minimal, directories, solid),
        0 <= i < minimal.len(),
        0 <= j < minimal.len(),
    ensures
        !covers(directory_parts(minimal[i]), directory_parts(minimal[j]), solid),
{
    assert(minimal.contains(minimal[i]) && minimal.contains(minimal[j]));
    let a = choose|a: int| 0 <= a < directories.len() && directories[a] == minimal[i];
    if covers(directory_parts(minimal[i]), directory_parts(minimal[j]), solid) {
        assert(covers(directory_parts(directories[a]), directory_parts(minimal[j]), solid));
        assert(is_covered(minimal[j], directories, solid));
    }
}

/// There is only one way to be minimal.
pub proof fn minimal_directories_are_unique(
    left: Seq<Seq<u8>>,
    right: Seq<Seq<u8>>,
    directories: Seq<Seq<u8>>,
    solid: Set<Seq<PathPart>>,
)
    requires
        is_minimal(left, directories, solid),
        is_minimal(right, directories, solid),
    ensures
        left == right,
{
    lemma_ordered_lists_agree(left, right);
}

proof fn lemma_ordered_lists_agree(left: Seq<Seq<u8>>, right: Seq<Seq<u8>>)
    requires
        forall|i: int, j: int|
            #![trigger left[i], left[j]]
            0 <= i < j < left.len() ==> directory_before(left[i], left[j]),
        forall|i: int, j: int|
            #![trigger right[i], right[j]]
            0 <= i < j < right.len() ==> directory_before(right[i], right[j]),
        forall|directory: Seq<u8>| #[trigger]
            left.contains(directory) == right.contains(directory),
    ensures
        left == right,
    decreases left.len(),
{
    if left.len() == 0 {
        if right.len() > 0 {
            assert(right.contains(right[0]));
            assert(left.contains(right[0]));
        }
        assert(left =~= right);
    } else {
        assert(left.contains(left[0]));
        assert(right.contains(left[0]));
        let a = choose|a: int| 0 <= a < right.len() && right[a] == left[0];
        assert(right.contains(right[0]));
        assert(left.contains(right[0]));
        let b = choose|b: int| 0 <= b < left.len() && left[b] == right[0];
        if a > 0 && b > 0 {
            assert(directory_before(right[0], right[a]));
            assert(directory_before(left[0], left[b]));
            lemma_directory_order_total(left[0], right[0]);
        }
        assert(left[0] == right[0]);
        let l = left.skip(1);
        let r = right.skip(1);
        assert forall|i: int, j: int|
            #![trigger l[i], l[j]]
            0 <= i < j < l.len() implies directory_before(l[i], l[j]) by {
            assert(l[i] == left[i + 1] && l[j] == left[j + 1]);
        }
        assert forall|i: int, j: int|
            #![trigger r[i], r[j]]
            0 <= i < j < r.len() implies directory_before(r[i], r[j]) by {
            assert(r[i] == right[i + 1] && r[j] == right[j + 1]);
        }
        assert forall|directory: Seq<u8>| #[trigger] l.contains(directory) == r.contains(
            directory,
        ) by {
            lemma_directory_order_total(directory, directory);
            if l.contains(directory) {
                let i = choose|i: int| 0 <= i < l.len() && l[i] == directory;
                assert(left[i + 1] == directory);
                assert(left.contains(directory));
                assert(directory_before(left[0], left[i + 1]));
                let k = choose|k: int| 0 <= k < right.len() && right[k] == directory;
                assert(k > 0);
                assert(r[k - 1] == directory);
            }
            if r.contains(directory) {
                let i = choose|i: int| 0 <= i < r.len() && r[i] == directory;
                assert(right[i + 1] == directory);
                assert(left.contains(directory));
                assert(directory_before(right[0], right[i + 1]));
                let k = choose|k: int| 0 <= k < left.len() && left[k] == directory;
                assert(k > 0);
                assert(l[k - 1] == directory);
            }
        }
        lemma_ordered_lists_agree(l, r);
        assert(left =~= seq![left[0]] + l);
        assert(right =~= seq![right[0]] + r);
    }
}

/// Sorting the listed directories puts them strictly in their order.
proof fn lemma_sorted_strictly(
    sorted: Seq<Candidate>,
    listed: Seq<Candidate>,
    directories: Seq<Seq<u8>>,
)
    requires
        arranged(sorted),
        sorted.to_multiset() == listed.to_multiset(),
        in_order(directories),
        listed.len() == directories.len(),
        forall|i: int| 0 <= i < listed.len() ==> (#[trigger] listed[i]).directory@ == directories[i],
    ensures
        forall|i: int, j: int|
            #![trigger sorted[i], sorted[j]]
            0 <= i < j < sorted.len() ==> directory_before(
                sorted[i].directory@,
                sorted[j].directory@,
            ),
        forall|directory: Seq<u8>| #[trigger]
            directories.contains(directory) <==> exists|i: int|
                0 <= i < sorted.len() && (#[trigger] sorted[i]).directory@ == directory,
{
    broadcast use vstd::seq_lib::group_to_multiset_ensures;

    let names = |candidate: Candidate| candidate.directory@;
    let ordered = sorted.map_values(names);
    lemma_mapped_multiset(sorted, listed, names);
    assert(listed.map_values(names) =~= directories);
    lemma_parts_order();
    assert(directories.no_duplicates()) by {
        assert forall|i: int, j: int|
            0 <= i < directories.len() && 0 <= j < directories.len() && i
                != j implies directories[i] != directories[j] by {
            if directories[i] == directories[j] {
                let place = path_parts(directories[i]);
                assert(!parts_order()(place, place));
            }
        }
    }
    directories.lemma_multiset_has_no_duplicates();
    assert(ordered.to_multiset() == directories.to_multiset());
    ordered.lemma_multiset_has_no_duplicates_conv();
    assert forall|directory: Seq<u8>| #[trigger] directories.contains(directory) <==> exists|i: int|
        0 <= i < sorted.len() && (#[trigger] sorted[i]).directory@ == directory by {
        assert(directories.contains(directory) <==> directories.to_multiset().count(directory) > 0);
        assert(ordered.contains(directory) <==> ordered.to_multiset().count(directory) > 0);
        if ordered.contains(directory) {
            let i = choose|i: int| 0 <= i < ordered.len() && ordered[i] == directory;
            assert(sorted[i].directory@ == directory);
        }
        if exists|i: int| 0 <= i < sorted.len() && (#[trigger] sorted[i]).directory@ == directory {
            let i = choose|i: int|
                0 <= i < sorted.len() && (#[trigger] sorted[i]).directory@ == directory;
            assert(ordered[i] == directory);
        }
    }
    assert forall|i: int, j: int|
        #![trigger sorted[i], sorted[j]]
        0 <= i < j < sorted.len() implies directory_before(
        sorted[i].directory@,
        sorted[j].directory@,
    ) by {
        let left = sorted[i].directory@;
        let right = sorted[j].directory@;
        assert(sorted[i].may_precede(&sorted[j]));
        lemma_directory_order_total(left, right);
        if path_parts(left) == path_parts(right) {
            assert(directories.contains(left));
            assert(directories.contains(right));
            let a = choose|a: int| 0 <= a < directories.len() && directories[a] == left;
            let b = choose|b: int| 0 <= b < directories.len() && directories[b] == right;
            let place = path_parts(left);
            assert(!parts_order()(place, place));
            assert(a == b);
            assert(ordered[i] == ordered[j]);
        }
    }
}

/// Drop include directories already covered by an ancestor's recursive manifest.
///
/// Discovered headers often contribute hundreds of nested parent directories,
/// especially for amalgamated C sources. Keeping both an ancestor and its
/// descendants walks and hashes the same subtree repeatedly, and can exhaust
/// the manifest-entry budget even though the ancestor already names every
/// includable file below it.
///
/// `solid` holds those of the [`manifest_probes`] that are real directories.
pub fn minimal_manifest_directories(directories: &PathSet, solid: &PathSet) -> (minimal: Vec<
    FilePath,
>)
    ensures
        is_minimal(seq_view(minimal@), directories@, solid.places()),
{
    let ghost all = directories@;
    let ghost places = solid.places();
    let list = candidates(directories);
    let ghost listed = list@;
    let sorted = merge_sort(list);
    proof {
        lemma_sorted_strictly(sorted@, listed, all);
    }
    let mut kept: Vec<usize> = Vec::new();
    let mut minimal: Vec<FilePath> = Vec::new();
    let mut i: usize = 0;
    while i < sorted.len()
        invariant
            i <= sorted@.len(),
            all == directories@,
            places == solid.places(),
            kept@.len() == minimal@.len(),
            forall|a: int, b: int|
                #![trigger sorted@[a], sorted@[b]]
                0 <= a < b < sorted@.len() ==> directory_before(
                    sorted@[a].directory@,
                    sorted@[b].directory@,
                ),
            forall|directory: Seq<u8>| #[trigger]
                all.contains(directory) <==> exists|a: int|
                    0 <= a < sorted@.len() && (#[trigger] sorted@[a]).directory@ == directory,
            forall|k: int| 0 <= k < kept@.len() ==> (#[trigger] kept@[k]) < i,
            forall|k: int, l: int|
                #![trigger kept@[k], kept@[l]]
                0 <= k < l < kept@.len() ==> kept@[k] < kept@[l],
            forall|k: int|
                0 <= k < minimal@.len() ==> (#[trigger] minimal@[k])@
                    == sorted@[kept@[k] as int].directory@,
            forall|a: int|
                0 <= a < i ==> (kept@.contains(a as usize) <==> !is_covered(
                    (#[trigger] sorted@[a]).directory@,
                    all,
                    places,
                )),
        decreases sorted@.len() - i,
    {
        let ghost here = sorted@[i as int].directory@;
        let covered = covered_by(&sorted, &kept, i, solid);
        proof {
            if covered {
                let k = choose|k: int|
                    0 <= k < kept@.len() && covers(
                        directory_parts(sorted@[#[trigger] kept@[k] as int].directory@),
                        directory_parts(here),
                        places,
                    );
                let above = sorted@[kept@[k] as int].directory@;
                assert(all.contains(above));
                let a = choose|a: int| 0 <= a < all.len() && all[a] == above;
                assert(covers(directory_parts(all[a]), directory_parts(here), places));
                assert(is_covered(here, all, places));
            } else if is_covered(here, all, places) {
                let at = some_cover_is_uncovered(here, all, places);
                assert(all.contains(all[at]));
                let a = choose|a: int|
                    0 <= a < sorted@.len() && (#[trigger] sorted@[a]).directory@ == all[at];
                assert(directory_before(sorted@[a].directory@, here));
                lemma_directory_order_total(sorted@[a].directory@, here);
                if a > i {
                    assert(directory_before(sorted@[i as int].directory@, sorted@[a].directory@));
                }
                assert(a < i);
                assert(kept@.contains(a as usize));
                let k = choose|k: int| 0 <= k < kept@.len() && kept@[k] == a as usize;
                assert(covers(
                    directory_parts(sorted@[kept@[k] as int].directory@),
                    directory_parts(here),
                    places,
                ));
            }
        }
        let ghost before = kept@;
        if !covered {
            kept.push(i);
            minimal.push(sorted[i].directory.duplicate());
        }
        proof {
            assert forall|a: int| 0 <= a < i + 1 implies (kept@.contains(a as usize)
                <==> !is_covered((#[trigger] sorted@[a]).directory@, all, places)) by {
                if a < i {
                    if kept@.contains(a as usize) {
                        let k = choose|k: int| 0 <= k < kept@.len() && kept@[k] == a as usize;
                        assert(k < before.len());
                        assert(before[k] == a as usize);
                    }
                    if before.contains(a as usize) {
                        let k = choose|k: int| 0 <= k < before.len() && before[k] == a as usize;
                        assert(kept@[k] == a as usize);
                    }
                } else if !covered {
                    assert(kept@[before.len() as int] == i);
                } else if kept@.contains(i) {
                    let k = choose|k: int| 0 <= k < kept@.len() && kept@[k] == i;
                    assert(before[k] < i);
                }
            }
        }
        i += 1;
    }
    proof {
        let views = seq_view(minimal@);
        assert forall|a: int, b: int|
            #![trigger views[a], views[b]]
            0 <= a < b < views.len() implies directory_before(views[a], views[b]) by {
            assert(views[a] == minimal@[a]@ && views[b] == minimal@[b]@);
            assert(kept@[a] < kept@[b]);
            assert(directory_before(
                sorted@[kept@[a] as int].directory@,
                sorted@[kept@[b] as int].directory@,
            ));
        }
        assert forall|directory: Seq<u8>| #[trigger] views.contains(directory) <==> all.contains(
            directory,
        ) && !is_covered(directory, all, places) by {
            if views.contains(directory) {
                let k = choose|k: int| 0 <= k < views.len() && views[k] == directory;
                assert(views[k] == minimal@[k]@);
                assert(sorted@[kept@[k] as int].directory@ == directory);
                assert(kept@.contains(kept@[k]));
            }
            if all.contains(directory) && !is_covered(directory, all, places) {
                let a = choose|a: int|
                    0 <= a < sorted@.len() && (#[trigger] sorted@[a]).directory@ == directory;
                assert(kept@.contains(a as usize));
                let k = choose|k: int| 0 <= k < kept@.len() && kept@[k] == a as usize;
                assert(views[k] == minimal@[k]@);
            }
        }
    }
    minimal
}

/// Whether one of the kept directories covers another one.
fn covered_by(
    sorted: &Vec<Candidate>,
    kept: &Vec<usize>,
    at: usize,
    solid: &PathSet,
) -> (covered: bool)
    requires
        at < sorted@.len(),
        forall|k: int| 0 <= k < kept@.len() ==> (#[trigger] kept@[k]) < sorted@.len(),
    ensures
        covered == exists|k: int|
            0 <= k < kept@.len() && covers(
                directory_parts(sorted@[#[trigger] kept@[k] as int].directory@),
                directory_parts(sorted@[at as int].directory@),
                solid.places(),
            ),
{
    let candidate = &sorted[at];
    proof {
        use_type_invariant(candidate);
        lemma_path_parts_fit(candidate.directory@);
        lemma_normalized_fits(path_parts(candidate.directory@));
    }
    let mut k: usize = 0;
    while k < kept.len()
        invariant
            k <= kept@.len(),
            at < sorted@.len(),
            candidate == sorted@[at as int],
            candidate.resolved(),
            parts_fit(seq_view(candidate.parts@)),
            forall|l: int| 0 <= l < kept@.len() ==> (#[trigger] kept@[l]) < sorted@.len(),
            forall|l: int|
                0 <= l < k ==> !covers(
                    directory_parts(sorted@[#[trigger] kept@[l] as int].directory@),
                    directory_parts(candidate.directory@),
                    solid.places(),
                ),
        decreases kept@.len() - k,
    {
        let index: usize = kept[k];
        let above = &sorted[index];
        proof {
            use_type_invariant(above);
        }
        if manifest_covers(&above.parts, &candidate.parts, solid) {
            assert(covers(
                directory_parts(sorted@[kept@[k as int] as int].directory@),
                directory_parts(candidate.directory@),
                solid.places(),
            ));
            return true;
        }
        k += 1;
    }
    false
}

} // verus!
