//! What the components of a path are, however it is spelled.

use crate::order::{bytes_before, byte_order, lex_before};
use crate::path::{
    joined_path, leading_parts, lemma_leading_dot, lemma_named_parts_concat, lemma_no_parts,
    lemma_root_text, lemma_segments_join, lemma_single_segment, lies_below, named_parts,
    normalized, part_order, parts_before, path_parts, path_text, resolve_part, same_place,
    segment_parts, segments, PathPart,
};
use vstd::prelude::*;

verus! {

// Components

proof fn lemma_one_segment(segment: Seq<u8>)
    ensures
        named_parts(seq![segment]) == segment_parts(segment),
{
    assert(seq![segment].skip(1) =~= Seq::<Seq<u8>>::empty());
    assert(named_parts(Seq::<Seq<u8>>::empty()) =~= Seq::<PathPart>::empty());
    assert(segment_parts(segment) + Seq::<PathPart>::empty() =~= segment_parts(segment));
}

/// A stretch without a separator is one component: none where it is empty, the working directory
/// where it is `.`, its parent where it is `..`, and else a name.
pub proof fn lone_segments_are_components(segment: Seq<u8>)
    requires
        !segment.contains(47),
    ensures
        path_parts(segment) == (if segment.len() == 0 {
            Seq::<PathPart>::empty()
        } else if segment == seq![46u8] {
            seq![PathPart::Current]
        } else if segment == seq![46u8, 46u8] {
            seq![PathPart::Parent]
        } else {
            seq![PathPart::Name(segment)]
        }),
{
    let none = Seq::<u8>::empty();
    lemma_single_segment(none, segment);
    assert(none + segment =~= segment);
    assert(segments(segment) == seq![segment]);
    lemma_one_segment(segment);
    lemma_no_parts();
    if segment.len() > 0 {
        assert(segment.contains(segment[0]));
    }
    assert(path_parts(segment) =~= leading_parts(segment) + segment_parts(segment));
    if segment == seq![46u8, 46u8] {
        assert(segment.len() == 2);
        assert(path_parts(segment) =~= seq![PathPart::Parent]);
    } else if segment == seq![46u8] {
        assert(path_parts(segment) =~= seq![PathPart::Current]);
    } else if segment.len() > 0 {
        assert(path_parts(segment) =~= seq![PathPart::Name(segment)]);
    }
}

/// A separator and a stretch behind it add a component to a path: none where the stretch is empty
/// or `.`, so that repeated and closing separators do not count, and else `..` or a name.
pub proof fn further_segments_are_components(base: Seq<u8>, segment: Seq<u8>)
    requires
        base.len() > 0,
        !segment.contains(47),
    ensures
        path_parts(base + seq![47u8] + segment) == (if segment.len() == 0 || segment
            == seq![46u8] {
            path_parts(base)
        } else if segment == seq![46u8, 46u8] {
            path_parts(base).push(PathPart::Parent)
        } else {
            path_parts(base).push(PathPart::Name(segment))
        }),
{
    let none = Seq::<u8>::empty();
    let whole = base + seq![47u8] + segment;
    lemma_segments_join(none, base, segment);
    lemma_single_segment(none, segment);
    assert(none + segment =~= segment);
    lemma_named_parts_concat(segments(base), seq![segment]);
    lemma_one_segment(segment);
    lemma_leading_dot(base);
    lemma_leading_dot(whole);
    assert(whole[0] == base[0]);
    if base.len() > 1 {
        assert(whole[1] == base[1]);
    } else {
        assert(whole[1] == 47u8);
    }
    assert(leading_parts(whole) == leading_parts(base));
    assert(path_parts(whole) =~= path_parts(base) + segment_parts(segment));
    if segment == seq![46u8, 46u8] {
        assert(segment.len() == 2);
        assert(path_parts(whole) =~= path_parts(base).push(PathPart::Parent));
    } else if segment == seq![46u8] || segment.len() == 0 {
        assert(path_parts(whole) =~= path_parts(base));
    } else {
        assert(path_parts(whole) =~= path_parts(base).push(PathPart::Name(segment)));
    }
}

/// A leading separator is the root, and what follows it stands below the root.
pub proof fn leading_separators_are_the_root(segment: Seq<u8>)
    requires
        !segment.contains(47),
    ensures
        path_parts(seq![47u8]) == seq![PathPart::Root],
        path_parts(seq![47u8] + segment) == (if segment.len() == 0 || segment == seq![46u8] {
            seq![PathPart::Root]
        } else if segment == seq![46u8, 46u8] {
            seq![PathPart::Root, PathPart::Parent]
        } else {
            seq![PathPart::Root, PathPart::Name(segment)]
        }),
{
    let none = Seq::<u8>::empty();
    lemma_root_text();
    lemma_no_parts();
    let whole = seq![47u8] + segment;
    assert(whole =~= none + seq![47u8] + segment);
    lemma_segments_join(none, none, segment);
    lemma_single_segment(none, segment);
    assert(none + segment =~= segment);
    lemma_named_parts_concat(seq![none], seq![segment]);
    lemma_one_segment(segment);
    assert(path_parts(whole) =~= seq![PathPart::Root] + segment_parts(segment));
    if segment == seq![46u8, 46u8] {
        assert(segment.len() == 2);
        assert(path_parts(whole) =~= seq![PathPart::Root, PathPart::Parent]);
    } else if segment == seq![46u8] || segment.len() == 0 {
        assert(path_parts(whole) =~= seq![PathPart::Root]);
    } else {
        assert(path_parts(whole) =~= seq![PathPart::Root, PathPart::Name(segment)]);
    }
}

/// Two spellings name one place exactly when their components agree.
pub proof fn places_are_told_by_components(left: Seq<u8>, right: Seq<u8>)
    ensures
        same_place(left, right) <==> path_parts(left) == path_parts(right),
{
}

/// A name below a path adds that name to the path's components, and below no path it is all.
pub proof fn joined_names_stand_below(base: Seq<u8>, name: Seq<u8>)
    requires
        name.len() > 0,
        !name.contains(47),
        name != seq![46u8],
        name != seq![46u8, 46u8],
    ensures
        path_parts(joined_path(base, name)) == path_parts(base).push(PathPart::Name(name)),
        joined_path(base, name) == base + name || joined_path(base, name) == base + seq![47u8]
            + name,
{
    let none = Seq::<u8>::empty();
    lemma_no_parts();
    if base.len() == 0 {
        assert(base + name =~= name);
        assert(base =~= none);
        lone_segments_are_components(name);
        assert(path_parts(base).push(PathPart::Name(name)) =~= seq![PathPart::Name(name)]);
    } else if base.last() == 47 {
        let front = base.drop_last();
        assert(base + name =~= front + seq![47u8] + name);
        assert(base =~= front + seq![47u8] + none);
        if front.len() == 0 {
            assert(base =~= seq![47u8]);
            assert(base + name =~= seq![47u8] + name);
            leading_separators_are_the_root(name);
            assert(path_parts(base).push(PathPart::Name(name)) =~= seq![
                PathPart::Root,
                PathPart::Name(name),
            ]);
        } else {
            further_segments_are_components(front, name);
            further_segments_are_components(front, none);
        }
    } else {
        further_segments_are_components(base, name);
    }
}

// Plain spellings

/// The plainest spelling of components is empty for none, and spells each further one behind a
/// single separator, which the root brings along.
pub proof fn plain_spellings_join_their_components(parts: Seq<PathPart>, name: Seq<u8>)
    ensures
        path_text(Seq::empty()) == Seq::<u8>::empty(),
        path_text(seq![PathPart::Root]) == seq![47u8],
        path_text(seq![PathPart::Current]) == seq![46u8],
        path_text(seq![PathPart::Parent]) == seq![46u8, 46u8],
        path_text(seq![PathPart::Name(name)]) == name,
        parts.len() > 0 && parts.last() is Root ==> path_text(parts.push(PathPart::Name(name)))
            == path_text(parts) + name && path_text(parts.push(PathPart::Parent)) == path_text(parts)
            + seq![46u8, 46u8],
        parts.len() > 0 && !(parts.last() is Root) ==> path_text(parts.push(PathPart::Name(name)))
            == path_text(parts) + seq![47u8] + name && path_text(parts.push(PathPart::Parent))
            == path_text(parts) + seq![47u8] + seq![46u8, 46u8],
{
    let none = Seq::<u8>::empty();
    assert(path_text(Seq::<PathPart>::empty()) == none);
    assert(seq![PathPart::Root].drop_last() =~= Seq::<PathPart>::empty());
    assert(seq![PathPart::Current].drop_last() =~= Seq::<PathPart>::empty());
    assert(seq![PathPart::Parent].drop_last() =~= Seq::<PathPart>::empty());
    assert(seq![PathPart::Name(name)].drop_last() =~= Seq::<PathPart>::empty());
    assert(none + seq![47u8] =~= seq![47u8]);
    assert(none + seq![46u8] =~= seq![46u8]);
    assert(none + seq![46u8, 46u8] =~= seq![46u8, 46u8]);
    assert(none + name =~= name);
    assert(parts.push(PathPart::Name(name)).drop_last() =~= parts);
    assert(parts.push(PathPart::Parent).drop_last() =~= parts);
}

// Resolving

/// What is resolved in front settles all that a path's front contributes.
proof fn lemma_normalized_behind(left: Seq<PathPart>, right: Seq<PathPart>, rest: Seq<PathPart>)
    requires
        normalized(left) == normalized(right),
    ensures
        normalized(left + rest) == normalized(right + rest),
    decreases rest.len(),
{
    if rest.len() == 0 {
        assert(left + rest =~= left);
        assert(right + rest =~= right);
    } else {
        lemma_normalized_behind(left, right, rest.drop_last());
        assert((left + rest).drop_last() =~= left + rest.drop_last());
        assert((right + rest).drop_last() =~= right + rest.drop_last());
    }
}

/// A `.` anywhere, and a name with a `..` behind it, make no difference.
pub proof fn dots_and_detours_do_not_count(
    front: Seq<PathPart>,
    name: Seq<u8>,
    rest: Seq<PathPart>,
)
    ensures
        normalized(front + seq![PathPart::Current] + rest) == normalized(front + rest),
        normalized(front + seq![PathPart::Name(name), PathPart::Parent] + rest) == normalized(
            front + rest,
        ),
{
    let dotted = front + seq![PathPart::Current];
    assert(dotted.drop_last() =~= front);
    assert(normalized(dotted) == normalized(front));
    lemma_normalized_behind(dotted, front, rest);
    let named = front + seq![PathPart::Name(name)];
    let back = front + seq![PathPart::Name(name), PathPart::Parent];
    assert(named.drop_last() =~= front);
    assert(back.drop_last() =~= named);
    assert(normalized(named) == normalized(front).push(PathPart::Name(name)));
    assert(normalized(back) =~= normalized(front));
    lemma_normalized_behind(back, front, rest);
}

/// A `..` at the root stays there.
pub proof fn the_root_is_its_own_parent(rest: Seq<PathPart>)
    ensures
        normalized(seq![PathPart::Root, PathPart::Parent] + rest) == normalized(
            seq![PathPart::Root] + rest,
        ),
{
    let root = seq![PathPart::Root];
    let up = seq![PathPart::Root, PathPart::Parent];
    assert(root.drop_last() =~= Seq::<PathPart>::empty());
    assert(normalized(Seq::<PathPart>::empty()) =~= Seq::<PathPart>::empty());
    assert(Seq::<PathPart>::empty().push(PathPart::Root) =~= root);
    assert(normalized(root) == root);
    assert(up.drop_last() =~= root);
    assert(normalized(up) == root);
    lemma_normalized_behind(up, root, rest);
}

/// Components with nothing to resolve, with any `..` leading out at their front, are kept as they
/// are.
pub proof fn resolved_paths_are_kept(parts: Seq<PathPart>)
    requires
        forall|i: int|
            0 <= i < parts.len() ==> #[trigger] parts[i] != PathPart::Current && (parts[i]
                == PathPart::Parent ==> forall|j: int|
                0 <= j < i ==> #[trigger] parts[j] == PathPart::Parent),
    ensures
        normalized(parts) == parts,
    decreases parts.len(),
{
    if parts.len() > 0 {
        let front = parts.drop_last();
        assert forall|i: int| 0 <= i < front.len() implies #[trigger] front[i] != PathPart::Current
            && (front[i] == PathPart::Parent ==> forall|j: int|
            0 <= j < i ==> #[trigger] front[j] == PathPart::Parent) by {
            assert(front[i] == parts[i]);
            assert forall|j: int| front[i] == PathPart::Parent && 0 <= j
                < i implies #[trigger] front[j] == PathPart::Parent by {
                assert(front[j] == parts[j]);
            }
        }
        resolved_paths_are_kept(front);
        let last = parts[parts.len() - 1];
        if last == PathPart::Parent && front.len() > 0 {
            assert(parts[front.len() - 1] == PathPart::Parent);
        }
        assert(resolve_part(front, last) =~= parts);
    }
}

/// One path lies below another exactly when it goes on from there.
pub proof fn descendants_go_on_from_their_ancestors(
    ancestor: Seq<PathPart>,
    descendant: Seq<PathPart>,
    more: Seq<PathPart>,
)
    ensures
        more.len() > 0 ==> lies_below(ancestor, ancestor + more),
        lies_below(ancestor, descendant) ==> descendant.len() > ancestor.len() && descendant
            == ancestor + descendant.skip(ancestor.len() as int),
{
    assert((ancestor + more).take(ancestor.len() as int) =~= ancestor);
    if lies_below(ancestor, descendant) {
        assert(descendant =~= descendant.take(ancestor.len() as int) + descendant.skip(
            ancestor.len() as int,
        ));
    }
}

// Order

proof fn lemma_first_difference<A>(
    common: Seq<A>,
    left: Seq<A>,
    right: Seq<A>,
    before: spec_fn(A, A) -> bool,
)
    ensures
        lex_before(common + left, common + right, before) == lex_before(left, right, before),
    decreases common.len(),
{
    if common.len() == 0 {
        assert(common + left =~= left);
        assert(common + right =~= right);
    } else {
        assert((common + left).skip(1) =~= common.skip(1) + left);
        assert((common + right).skip(1) =~= common.skip(1) + right);
        lemma_first_difference(common.skip(1), left, right, before);
    }
}

/// Byte strings are ordered by the first byte in which they differ, and a front comes before all
/// that go on from it.
pub proof fn byte_strings_are_ordered_by_their_first_difference(
    common: Seq<u8>,
    a: u8,
    left: Seq<u8>,
    b: u8,
    right: Seq<u8>,
)
    ensures
        a != b ==> (bytes_before(common + (seq![a] + left), common + (seq![b] + right)) <==> a < b),
        bytes_before(common, common + (seq![b] + right)),
        !bytes_before(common + (seq![a] + left), common),
        !bytes_before(common, common),
{
    let none = Seq::<u8>::empty();
    lemma_first_difference(common, seq![a] + left, seq![b] + right, byte_order());
    lemma_first_difference(common, none, seq![b] + right, byte_order());
    lemma_first_difference(common, seq![a] + left, none, byte_order());
    lemma_first_difference(common, none, none, byte_order());
    assert(common + none =~= common);
}

/// Paths are ordered by the first component in which they differ: the root, then `.`, then `..`,
/// then names by their bytes; and a path comes before all that lie below it.
pub proof fn paths_are_ordered_by_their_first_difference(
    common: Seq<PathPart>,
    a: PathPart,
    left: Seq<PathPart>,
    b: PathPart,
    right: Seq<PathPart>,
)
    requires
        a != b,
    ensures
        parts_before(common, common + (seq![b] + right)),
        !parts_before(common, common),
        parts_before(common + (seq![a] + left), common + (seq![b] + right)) <==> match (a, b) {
            (PathPart::Root, _) => true,
            (_, PathPart::Root) => false,
            (PathPart::Current, _) => true,
            (_, PathPart::Current) => false,
            (PathPart::Parent, _) => true,
            (_, PathPart::Parent) => false,
            (PathPart::Name(x), PathPart::Name(y)) => bytes_before(x, y),
        },
{
    let none = Seq::<PathPart>::empty();
    lemma_first_difference(common, seq![a] + left, seq![b] + right, part_order());
    lemma_first_difference(common, none, seq![b] + right, part_order());
    lemma_first_difference(common, none, none, part_order());
    assert(common + none =~= common);
    assert((seq![a] + left)[0] == a);
    assert((seq![b] + right)[0] == b);
}

} // verus!
