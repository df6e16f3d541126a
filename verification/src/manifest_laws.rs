//! What the manifest of a whole directory tree holds.

use crate::digest::content_digest;
use crate::error::{BypassModel, IoErrorKind, IoErrorModel};
use crate::identity::{cache_identity, PlatformDetails, ReadingModel, UnixDetails};
use crate::manifest::{
    extension_is_listed, includable, includable_extensions, is_manifest, last_dot,
    lemma_sorted_by_bytes, lemma_sorting_rearranges, line_text, lowered, manifest_digest,
    manifests_ignore_listing_order, sorted_names, INCLUDE_MANIFEST_PREFIX,
};
use crate::manifest_memo::{
    all_unchanged, can_be_remembered, directory_identity, identified, identity_of, manifest_reused,
    DirectoryIdentity, ManifestModel, MemoModel, MAX_ROOTS,
};
use crate::manifest_run::{manifest_taken, manifests_begun, ManifestsModel};
use crate::manifest_walk::{
    entries_taken, entry_taken, listing_taken, prefixed, walk_begun, EntryModel, PendingModel,
    WalkModel,
};
use crate::order::bytes_before;
use crate::path::joined_path;
use vstd::multiset::Multiset;
use vstd::prelude::*;
use vstd::utf8::{encode_utf8, valid_utf8};

verus! {

/// What stands beneath a directory while nothing changes it.
pub enum Tree {
    File { name: Seq<u8> },
    Directory { name: Seq<u8>, children: Seq<Tree> },
}

/// What a listing says of a child.
pub open spec fn child_entry(child: Tree) -> Result<EntryModel, IoErrorModel> {
    match child {
        Tree::File { name } => Ok(EntryModel { name, is_dir: Ok(false) }),
        Tree::Directory { name, .. } => Ok(EntryModel { name, is_dir: Ok(true) }),
    }
}

/// The listing of a directory with these children.
pub open spec fn children_listed(children: Seq<Tree>) -> Seq<Result<EntryModel, IoErrorModel>> {
    children.map_values(|child: Tree| child_entry(child))
}

/// The includable names beneath a directory, each written behind the names that lead to it.
pub open spec fn names_beneath(prefix: Seq<u8>, children: Seq<Tree>) -> Multiset<Seq<u8>>
    decreases children,
{
    if children.len() == 0 {
        Multiset::empty()
    } else {
        child_names(prefix, children.last()).add(names_beneath(prefix, children.drop_last()))
    }
}

/// The includable names that one child adds.
pub open spec fn child_names(prefix: Seq<u8>, child: Tree) -> Multiset<Seq<u8>>
    decreases child,
{
    match child {
        Tree::File { name } => if includable(name) {
            Multiset::singleton(prefixed(prefix, name))
        } else {
            Multiset::empty()
        },
        Tree::Directory { name, children } => names_beneath(prefixed(prefix, name), children),
    }
}

/// Whether every name beneath a directory is UTF-8.
pub open spec fn names_are_text(children: Seq<Tree>) -> bool
    decreases children,
{
    children.len() > 0 ==> child_is_text(children.last()) && names_are_text(children.drop_last())
}

/// Whether a child's name, and every name beneath it, is UTF-8.
pub open spec fn child_is_text(child: Tree) -> bool
    decreases child,
{
    match child {
        Tree::File { name } => valid_utf8(name),
        Tree::Directory { name, children } => valid_utf8(name) && names_are_text(children),
    }
}

/// The number of files and directories beneath a directory.
pub open spec fn children_size(children: Seq<Tree>) -> nat
    decreases children,
{
    if children.len() == 0 {
        0
    } else {
        child_size(children.last()) + children_size(children.drop_last())
    }
}

pub open spec fn child_size(child: Tree) -> nat
    decreases child,
{
    match child {
        Tree::File { .. } => 1,
        Tree::Directory { children, .. } => 1 + children_size(children),
    }
}

/// The work that is left in several directories.
pub open spec fn work_left(stack: Seq<Seq<Tree>>) -> nat
    decreases stack.len(),
{
    if stack.len() == 0 {
        0
    } else {
        1 + children_size(stack.last()) + work_left(stack.drop_last())
    }
}

/// The children of each directory among children.
pub open spec fn subdirectories(children: Seq<Tree>) -> Seq<Seq<Tree>>
    decreases children.len(),
{
    if children.len() == 0 {
        Seq::empty()
    } else {
        match children.last() {
            Tree::File { .. } => subdirectories(children.drop_last()),
            Tree::Directory { children: below, .. } => subdirectories(children.drop_last()).push(
                below,
            ),
        }
    }
}

/// Each directory among children, as it is still to be listed.
spec fn subpending(at: PendingModel, children: Seq<Tree>) -> Seq<PendingModel>
    decreases children.len(),
{
    if children.len() == 0 {
        Seq::empty()
    } else {
        match children.last() {
            Tree::File { .. } => subpending(at, children.drop_last()),
            Tree::Directory { name, .. } => subpending(at, children.drop_last()).push(
                PendingModel {
                    path: joined_path(at.path, name),
                    prefix: prefixed(at.prefix, name),
                },
            ),
        }
    }
}

/// The includable files among children, each written behind a prefix.
spec fn own_names(prefix: Seq<u8>, children: Seq<Tree>) -> Seq<Seq<u8>>
    decreases children.len(),
{
    if children.len() == 0 {
        Seq::empty()
    } else {
        let front = own_names(prefix, children.drop_last());
        match children.last() {
            Tree::File { name } => if includable(name) {
                front.push(prefixed(prefix, name))
            } else {
                front
            },
            Tree::Directory { .. } => front,
        }
    }
}

/// The includable names beneath several directories.
pub open spec fn names_left(pending: Seq<PendingModel>, stack: Seq<Seq<Tree>>) -> Multiset<Seq<u8>>
    decreases stack.len(),
{
    if stack.len() == 0 {
        Multiset::empty()
    } else {
        names_beneath(pending.last().prefix, stack.last()).add(
            names_left(pending.drop_last(), stack.drop_last()),
        )
    }
}

pub proof fn lemma_work_adds_up(front: Seq<Seq<Tree>>, back: Seq<Seq<Tree>>)
    ensures
        work_left(front + back) == work_left(front) + work_left(back),
    decreases back.len(),
{
    if back.len() == 0 {
        assert(front + back =~= front);
    } else {
        assert((front + back).drop_last() =~= front + back.drop_last());
        assert((front + back).last() == back.last());
        lemma_work_adds_up(front, back.drop_last());
    }
}

pub proof fn lemma_subdirectories_are_less_work(children: Seq<Tree>)
    ensures
        work_left(subdirectories(children)) <= children_size(children),
    decreases children.len(),
{
    if children.len() > 0 {
        let front = children.drop_last();
        lemma_subdirectories_are_less_work(front);
        if let Tree::Directory { children: below, .. } = children.last() {
            let more = subdirectories(children);
            assert(more.drop_last() =~= subdirectories(front));
            assert(more.last() == below);
            assert(child_size(children.last()) == 1 + children_size(below));
        }
    }
}

/// A walk of directories with these children, run to its end.
pub open spec fn walked(walk: WalkModel, stack: Seq<Seq<Tree>>) -> Result<WalkModel, BypassModel>
    decreases work_left(stack),
{
    if stack.len() == 0 {
        Ok(walk)
    } else {
        match listing_taken(walk, Ok(children_listed(stack.last()))) {
            Err(reason) => Err(reason),
            Ok(next) => {
                proof {
                    lemma_work_adds_up(stack.drop_last(), subdirectories(stack.last()));
                    lemma_subdirectories_are_less_work(stack.last());
                }
                walked(next, stack.drop_last() + subdirectories(stack.last()))
            },
        }
    }
}

proof fn lemma_entries_divide(
    walk: WalkModel,
    at: PendingModel,
    front: Seq<Result<EntryModel, IoErrorModel>>,
    last: Result<EntryModel, IoErrorModel>,
)
    ensures
        entries_taken(walk, at, front.push(last)) == (match entries_taken(walk, at, front) {
            Err(reason) => Err(reason),
            Ok(next) => entry_taken(next, at, last),
        }),
    decreases front.len(),
{
    let all = front.push(last);
    if front.len() == 0 {
        assert(all[0] == last);
        assert(all.skip(1) =~= Seq::<Result<EntryModel, IoErrorModel>>::empty());
        if let Ok(next) = entry_taken(walk, at, last) {
            assert(entries_taken(next, at, all.skip(1)) == Ok::<WalkModel, BypassModel>(next));
        }
    } else {
        assert(all[0] == front[0]);
        assert(all.skip(1) =~= front.skip(1).push(last));
        if let Ok(next) = entry_taken(walk, at, front[0]) {
            lemma_entries_divide(next, at, front.skip(1), last);
        }
    }
}

/// What taking in a listing of children adds to a walk, as far as the limit allows.
proof fn lemma_children_taken(walk: WalkModel, at: PendingModel, children: Seq<Tree>)
    requires
        names_are_text(children),
    ensures
        ({
            let own = own_names(at.prefix, children);
            let outcome = entries_taken(walk, at, children_listed(children));
            if own.len() > 0 && walk.budget + own.len() > walk.limit {
                outcome == Err::<WalkModel, BypassModel>(BypassModel::TooManyInputs)
            } else {
                outcome == Ok::<WalkModel, BypassModel>(
                    WalkModel {
                        pending: walk.pending + subpending(at, children),
                        names: walk.names + own,
                        budget: (walk.budget + own.len()) as usize,
                        limit: walk.limit,
                    },
                )
            }
        }),
    decreases children.len(),
{
    if children.len() == 0 {
        assert(children_listed(children) =~= Seq::<Result<EntryModel, IoErrorModel>>::empty());
        assert(walk.pending + subpending(at, children) =~= walk.pending);
        assert(walk.names + own_names(at.prefix, children) =~= walk.names);
    } else {
        let front = children.drop_last();
        let last = children.last();
        lemma_children_taken(walk, at, front);
        assert(children_listed(children) =~= children_listed(front).push(child_entry(last)));
        lemma_entries_divide(walk, at, children_listed(front), child_entry(last));
        assert(child_is_text(last));
        if let Ok(next) = entries_taken(walk, at, children_listed(front)) {
            match last {
                Tree::File { name } => {
                    if includable(name) {
                        assert(next.names.push(prefixed(at.prefix, name)) =~= walk.names
                            + own_names(at.prefix, children));
                    }
                },
                Tree::Directory { name, children: below } => {
                    assert(next.pending.push(
                        PendingModel {
                            path: joined_path(at.path, name),
                            prefix: prefixed(at.prefix, name),
                        },
                    ) =~= walk.pending + subpending(at, children));
                },
            }
        }
    }
}

proof fn lemma_subdirectories_align(at: PendingModel, children: Seq<Tree>)
    requires
        names_are_text(children),
    ensures
        subpending(at, children).len() == subdirectories(children).len(),
        forall|i: int|
            0 <= i < subdirectories(children).len() ==> names_are_text(
                #[trigger] subdirectories(children)[i],
            ),
        names_beneath(at.prefix, children) == own_names(at.prefix, children).to_multiset().add(
            names_left(subpending(at, children), subdirectories(children)),
        ),
    decreases children.len(),
{
    broadcast use vstd::seq_lib::group_to_multiset_ensures;

    if children.len() == 0 {
        assert(own_names(at.prefix, children).to_multiset() =~= Multiset::<Seq<u8>>::empty());
        assert(names_beneath(at.prefix, children) =~= own_names(
            at.prefix,
            children,
        ).to_multiset().add(names_left(subpending(at, children), subdirectories(children))));
    } else {
        let front = children.drop_last();
        lemma_subdirectories_align(at, front);
        assert(child_is_text(children.last()));
        let own = own_names(at.prefix, front).to_multiset();
        let below = names_left(subpending(at, front), subdirectories(front));
        match children.last() {
            Tree::File { name } => {
                if includable(name) {
                    let one = prefixed(at.prefix, name);
                    assert(child_names(at.prefix, children.last()) == Multiset::singleton(one));
                    assert(own_names(at.prefix, children).to_multiset() =~= own.insert(one));
                    assert(Multiset::singleton(one).add(own.add(below)) =~= own.insert(one).add(
                        below,
                    ));
                } else {
                    assert(child_names(at.prefix, children.last()) == Multiset::<Seq<u8>>::empty());
                    assert(Multiset::<Seq<u8>>::empty().add(own.add(below)) =~= own.add(below));
                }
            },
            Tree::Directory { name, children: under } => {
                let pending = subpending(at, children);
                let stack = subdirectories(children);
                assert(pending.drop_last() =~= subpending(at, front));
                assert(stack.drop_last() =~= subdirectories(front));
                assert(pending.last().prefix == prefixed(at.prefix, name));
                assert(stack.last() == under);
                let deep = names_beneath(prefixed(at.prefix, name), under);
                assert(child_names(at.prefix, children.last()) == deep);
                assert(deep.add(own.add(below)) =~= own.add(deep.add(below)));
                assert forall|i: int| 0 <= i < stack.len() implies names_are_text(
                    #[trigger] stack[i],
                ) by {
                    if i < stack.len() - 1 {
                        assert(stack[i] == subdirectories(front)[i]);
                    }
                }
            },
        }
    }
}

proof fn lemma_names_left_divide(
    pending: Seq<PendingModel>,
    stack: Seq<Seq<Tree>>,
    more_pending: Seq<PendingModel>,
    more: Seq<Seq<Tree>>,
)
    requires
        pending.len() == stack.len(),
        more_pending.len() == more.len(),
    ensures
        names_left(pending + more_pending, stack + more) == names_left(pending, stack).add(
            names_left(more_pending, more),
        ),
    decreases more.len(),
{
    if more.len() == 0 {
        assert(pending + more_pending =~= pending);
        assert(stack + more =~= stack);
        assert(names_left(pending, stack).add(Multiset::empty()) =~= names_left(pending, stack));
    } else {
        let front_pending = more_pending.drop_last();
        let front = more.drop_last();
        assert((pending + more_pending).drop_last() =~= pending + front_pending);
        assert((stack + more).drop_last() =~= stack + front);
        assert((pending + more_pending).last() == more_pending.last());
        assert((stack + more).last() == more.last());
        lemma_names_left_divide(pending, stack, front_pending, front);
        let deep = names_beneath(more_pending.last().prefix, more.last());
        let rest = names_left(pending, stack);
        let others = names_left(front_pending, front);
        assert(deep.add(rest.add(others)) =~= rest.add(deep.add(others)));
    }
}

/// A walk of directories that nothing changes finds exactly the includable names beneath them,
/// if the limit allows that many; otherwise there are too many inputs.
pub proof fn walks_find_the_names_beneath(walk: WalkModel, stack: Seq<Seq<Tree>>)
    requires
        walk.pending.len() == stack.len(),
        forall|i: int| 0 <= i < stack.len() ==> names_are_text(#[trigger] stack[i]),
    ensures
        ({
            let left = names_left(walk.pending, stack);
            let outcome = walked(walk, stack);
            if left.len() > 0 && walk.budget + left.len() > walk.limit {
                outcome == Err::<WalkModel, BypassModel>(BypassModel::TooManyInputs)
            } else {
                &&& outcome is Ok
                &&& outcome->Ok_0.pending.len() == 0
                &&& outcome->Ok_0.names.to_multiset() == walk.names.to_multiset().add(left)
                &&& outcome->Ok_0.budget == walk.budget + left.len()
            }
        }),
    decreases work_left(stack),
{
    broadcast use vstd::seq_lib::group_to_multiset_ensures;

    if stack.len() == 0 {
        assert(walk.names.to_multiset().add(Multiset::empty()) =~= walk.names.to_multiset());
    } else {
        let at = walk.pending.last();
        let children = stack.last();
        assert(names_are_text(stack[stack.len() - 1]));
        let rest = WalkModel { pending: walk.pending.drop_last(), ..walk };
        let own = own_names(at.prefix, children);
        lemma_children_taken(rest, at, children);
        lemma_subdirectories_align(at, children);
        let more_pending = subpending(at, children);
        let more = subdirectories(children);
        lemma_names_left_divide(rest.pending, stack.drop_last(), more_pending, more);
        let deep = names_left(more_pending, more);
        let others = names_left(rest.pending, stack.drop_last());
        assert(own.to_multiset().add(deep).add(others) =~= own.to_multiset().add(
            others.add(deep),
        ));
        if let Ok(next) = listing_taken(walk, Ok(children_listed(children))) {
            let next_stack = stack.drop_last() + more;
            lemma_work_adds_up(stack.drop_last(), more);
            lemma_subdirectories_are_less_work(children);
            assert forall|i: int| 0 <= i < next_stack.len() implies names_are_text(
                #[trigger] next_stack[i],
            ) by {
                if i < stack.len() - 1 {
                    assert(next_stack[i] == stack[i]);
                } else {
                    assert(next_stack[i] == more[i - (stack.len() - 1)]);
                }
            }
            walks_find_the_names_beneath(next, next_stack);
            vstd::seq_lib::lemma_multiset_commutative(walk.names, own);
            let left = names_left(next.pending, next_stack);
            assert(walk.names.to_multiset().add(own.to_multiset()).add(left)
                =~= walk.names.to_multiset().add(own.to_multiset().add(left)));
        }
    }
}

/// What walking a directory with these children yields.
pub open spec fn manifest_walked(
    directory: Seq<u8>,
    children: Seq<Tree>,
    budget: usize,
    limit: usize,
) -> Result<ManifestModel, BypassModel> {
    match walked(walk_begun(directory, budget, limit), seq![children]) {
        Ok(walk) => Ok(
            ManifestModel { digest: manifest_digest(walk.names), budget: walk.budget },
        ),
        Err(reason) => Err(reason),
    }
}

/// The manifest of a directory is the digest of the includable names beneath it, sorted: two
/// directories with the same names beneath them have the same manifest, whatever order they are
/// listed in and whatever else they hold.
pub proof fn manifests_are_of_the_names_beneath(
    left: Seq<u8>,
    left_children: Seq<Tree>,
    right: Seq<u8>,
    right_children: Seq<Tree>,
    budget: usize,
    limit: usize,
)
    requires
        names_are_text(left_children),
        names_are_text(right_children),
        names_beneath(Seq::empty(), left_children) == names_beneath(Seq::empty(), right_children),
        budget + names_beneath(Seq::empty(), left_children).len() <= limit,
    ensures
        walked(walk_begun(left, budget, limit), seq![left_children]) is Ok,
        walked(walk_begun(right, budget, limit), seq![right_children]) is Ok,
        manifest_digest(
            walked(walk_begun(left, budget, limit), seq![left_children])->Ok_0.names,
        ) == manifest_digest(
            walked(walk_begun(right, budget, limit), seq![right_children])->Ok_0.names,
        ),
{
    lemma_one_walk(left, left_children, budget, limit);
    lemma_one_walk(right, right_children, budget, limit);
    manifests_ignore_listing_order(
        walked(walk_begun(left, budget, limit), seq![left_children])->Ok_0.names,
        walked(walk_begun(right, budget, limit), seq![right_children])->Ok_0.names,
    );
}

/// A walk of one directory.
pub(crate) proof fn lemma_one_walk(directory: Seq<u8>, children: Seq<Tree>, budget: usize, limit: usize)
    requires
        names_are_text(children),
    ensures
        ({
            let names = names_beneath(Seq::empty(), children);
            let outcome = walked(walk_begun(directory, budget, limit), seq![children]);
            if names.len() > 0 && budget + names.len() > limit {
                outcome == Err::<WalkModel, BypassModel>(BypassModel::TooManyInputs)
            } else {
                &&& outcome is Ok
                &&& outcome->Ok_0.names.to_multiset() == names
                &&& outcome->Ok_0.budget == budget + names.len()
            }
        }),
{
    broadcast use vstd::seq_lib::group_to_multiset_ensures;

    let walk = walk_begun(directory, budget, limit);
    let stack = seq![children];
    let names = names_beneath(Seq::empty(), children);
    assert(stack.last() == children);
    assert(stack.drop_last() =~= Seq::<Seq<Tree>>::empty());
    assert(names_left(walk.pending.drop_last(), stack.drop_last()) =~= Multiset::empty());
    assert(walk.pending.last().prefix == Seq::<u8>::empty());
    assert(names_left(walk.pending, stack) =~= names);
    walks_find_the_names_beneath(walk, stack);
    assert(walk.names.to_multiset() =~= Multiset::<Seq<u8>>::empty());
    assert(Multiset::<Seq<u8>>::empty().add(names) =~= names);
}

/// Reusing a remembered manifest of a directory that nothing has changed yields what walking the
/// directory again would: the same digest, counted alike against the limit.
pub proof fn remembered_manifests_stand_for_a_walk(
    directory: Seq<u8>,
    children: Seq<Tree>,
    memo: MemoModel,
    earlier: usize,
    earlier_limit: usize,
    budget: usize,
    limit: usize,
)
    requires
        names_are_text(children),
        budget <= limit < usize::MAX,
        walked(walk_begun(directory, earlier, earlier_limit), seq![children]) matches Ok(walk)
            && memo.digest == manifest_digest(walk.names) && memo.entries == walk.budget - earlier,
    ensures
        manifest_reused(memo, budget, limit) == manifest_walked(directory, children, budget, limit),
{
    lemma_one_walk(directory, children, earlier, earlier_limit);
    lemma_one_walk(directory, children, budget, limit);
    if let Ok(walk) = walked(walk_begun(directory, budget, limit), seq![children]) {
        manifests_ignore_listing_order(
            walk.names,
            walked(walk_begun(directory, earlier, earlier_limit), seq![children])->Ok_0.names,
        );
    }
}

/// A directory that does not exist adds what an empty one adds: nothing.
pub proof fn missing_directories_are_empty(walk: WalkModel, error: IoErrorModel)
    requires
        walk.pending.len() > 0,
        error.kind == IoErrorKind::NotFound,
    ensures
        listing_taken(walk, Err(error)) == listing_taken(walk, Ok(Seq::empty())),
{
}

/// A manifest names everything that the manifest of a directory below would name, behind that
/// directory's own name: where one directory is walked from another, it needs no manifest of its
/// own.
pub proof fn manifests_hold_what_is_below(prefix: Seq<u8>, children: Seq<Tree>, at: int)
    requires
        0 <= at < children.len(),
    ensures
        child_names(prefix, children[at]).subset_of(names_beneath(prefix, children)),
    decreases children.len(),
{
    let front = children.drop_last();
    if at < front.len() {
        manifests_hold_what_is_below(prefix, front, at);
        assert(front[at] == children[at]);
    }
}

// Names

proof fn lemma_encoded(text: Seq<char>, bytes: Seq<u8>)
    requires
        text.len() == bytes.len(),
        forall|i: int|
            0 <= i < text.len() ==> '\0' <= #[trigger] text[i] <= '\u{7f}' && text[i] as u8
                == bytes[i],
    ensures
        encode_utf8(text) == bytes,
{
    assert(vstd::utf8::is_ascii_chars(text));
    vstd::utf8::is_ascii_chars_encode_utf8(text);
    assert forall|i: int| 0 <= i < text.len() implies encode_utf8(text)[i] == #[trigger] bytes[i] by {
        assert(text[i] as u8 == encode_utf8(text)[i]);
    }
    assert(encode_utf8(text) =~= bytes);
}

proof fn lemma_extensions_are_listed(extension: Seq<u8>)
    ensures
        extension_is_listed(extension) <==> ({
            let low = lowered(extension);
            ||| low == seq![99u8]
            ||| low == seq![99u8, 43, 43]
            ||| low == seq![99u8, 99]
            ||| low == seq![99u8, 112, 112]
            ||| low == seq![99u8, 120, 120]
            ||| low == seq![100u8, 101, 102]
            ||| low == seq![103u8, 99, 104]
            ||| low == seq![104u8]
            ||| low == seq![104u8, 43, 43]
            ||| low == seq![104u8, 104]
            ||| low == seq![104u8, 112, 112]
            ||| low == seq![104u8, 120, 120]
            ||| low == seq![105u8, 110, 99]
            ||| low == seq![105u8, 110, 108]
            ||| low == seq![105u8, 112, 112]
            ||| low == seq![112u8, 99, 104]
            ||| low == seq![115u8]
            ||| low == seq![116u8, 99, 99]
        }),
{
    let list = includable_extensions();
    let low = lowered(extension);
    reveal_strlit("c");
    reveal_strlit("c++");
    reveal_strlit("cc");
    reveal_strlit("cpp");
    reveal_strlit("cxx");
    reveal_strlit("def");
    reveal_strlit("gch");
    reveal_strlit("h");
    reveal_strlit("h++");
    reveal_strlit("hh");
    reveal_strlit("hpp");
    reveal_strlit("hxx");
    reveal_strlit("inc");
    reveal_strlit("inl");
    reveal_strlit("ipp");
    reveal_strlit("pch");
    reveal_strlit("s");
    reveal_strlit("tcc");
    assert(list[0] =~= seq!['c']);
    lemma_encoded(list[0], seq![99u8]);
    assert(list[1] =~= seq!['c', '+', '+']);
    lemma_encoded(list[1], seq![99u8, 43, 43]);
    assert(list[2] =~= seq!['c', 'c']);
    lemma_encoded(list[2], seq![99u8, 99]);
    assert(list[3] =~= seq!['c', 'p', 'p']);
    lemma_encoded(list[3], seq![99u8, 112, 112]);
    assert(list[4] =~= seq!['c', 'x', 'x']);
    lemma_encoded(list[4], seq![99u8, 120, 120]);
    assert(list[5] =~= seq!['d', 'e', 'f']);
    lemma_encoded(list[5], seq![100u8, 101, 102]);
    assert(list[6] =~= seq!['g', 'c', 'h']);
    lemma_encoded(list[6], seq![103u8, 99, 104]);
    assert(list[7] =~= seq!['h']);
    lemma_encoded(list[7], seq![104u8]);
    assert(list[8] =~= seq!['h', '+', '+']);
    lemma_encoded(list[8], seq![104u8, 43, 43]);
    assert(list[9] =~= seq!['h', 'h']);
    lemma_encoded(list[9], seq![104u8, 104]);
    assert(list[10] =~= seq!['h', 'p', 'p']);
    lemma_encoded(list[10], seq![104u8, 112, 112]);
    assert(list[11] =~= seq!['h', 'x', 'x']);
    lemma_encoded(list[11], seq![104u8, 120, 120]);
    assert(list[12] =~= seq!['i', 'n', 'c']);
    lemma_encoded(list[12], seq![105u8, 110, 99]);
    assert(list[13] =~= seq!['i', 'n', 'l']);
    lemma_encoded(list[13], seq![105u8, 110, 108]);
    assert(list[14] =~= seq!['i', 'p', 'p']);
    lemma_encoded(list[14], seq![105u8, 112, 112]);
    assert(list[15] =~= seq!['p', 'c', 'h']);
    lemma_encoded(list[15], seq![112u8, 99, 104]);
    assert(list[16] =~= seq!['s']);
    lemma_encoded(list[16], seq![115u8]);
    assert(list[17] =~= seq!['t', 'c', 'c']);
    lemma_encoded(list[17], seq![116u8, 99, 99]);
    assert(list.len() == 18);
    if extension_is_listed(extension) {
        let i = choose|i: int|
            0 <= i < list.len() && low == encode_utf8(#[trigger] list[i]);
        assert(0 <= i < 18);
    }
}

proof fn lemma_last_dot(stem: Seq<u8>, extension: Seq<u8>)
    requires
        !extension.contains(46),
    ensures
        last_dot(stem + seq![46u8] + extension) == stem.len(),
        last_dot(extension) == -1,
    decreases extension.len(),
{
    let name = stem + seq![46u8] + extension;
    if extension.len() == 0 {
        assert(name.last() == 46);
    } else {
        assert(extension.contains(extension[extension.len() - 1]));
        assert(name.last() == extension.last());
        let front = extension.drop_last();
        assert(name.drop_last() =~= stem + seq![46u8] + front);
        assert(!front.contains(46)) by {
            if front.contains(46) {
                let i = choose|i: int| 0 <= i < front.len() && front[i] == 46;
                assert(extension[i] == 46);
            }
        }
        lemma_last_dot(stem, front);
    }
}

/// A name without a dot can be included, whatever it is; one whose only dot stands in front
/// cannot; and one with a stem in front of its last dot can exactly when what follows that dot is
/// a plausible extension, whatever the case of its letters.
pub proof fn includable_names_are_told_by_their_extension(stem: Seq<u8>, extension: Seq<u8>)
    requires
        !extension.contains(46),
    ensures
        includable(extension),
        !includable(seq![46u8] + extension),
        stem.len() > 0 ==> (includable(stem + seq![46u8] + extension) <==> {
            let low = extension.map_values(
                |byte: u8|
                    if 65 <= byte <= 90 {
                        (byte + 32) as u8
                    } else {
                        byte
                    },
            );
            ||| low == seq![99u8]
            ||| low == seq![99u8, 43, 43]
            ||| low == seq![99u8, 99]
            ||| low == seq![99u8, 112, 112]
            ||| low == seq![99u8, 120, 120]
            ||| low == seq![100u8, 101, 102]
            ||| low == seq![103u8, 99, 104]
            ||| low == seq![104u8]
            ||| low == seq![104u8, 43, 43]
            ||| low == seq![104u8, 104]
            ||| low == seq![104u8, 112, 112]
            ||| low == seq![104u8, 120, 120]
            ||| low == seq![105u8, 110, 99]
            ||| low == seq![105u8, 110, 108]
            ||| low == seq![105u8, 112, 112]
            ||| low == seq![112u8, 99, 104]
            ||| low == seq![115u8]
            ||| low == seq![116u8, 99, 99]
        }),
{
    lemma_last_dot(stem, extension);
    lemma_last_dot(Seq::empty(), extension);
    assert(Seq::<u8>::empty() + seq![46u8] + extension =~= seq![46u8] + extension);
    let name = stem + seq![46u8] + extension;
    assert(name.skip(stem.len() as int + 1) =~= extension);
    lemma_extensions_are_listed(extension);
    assert(lowered(extension) =~= extension.map_values(
        |byte: u8|
            if 65 <= byte <= 90 {
                (byte + 32) as u8
            } else {
                byte
            },
    ));
}

/// A path is a manifest's exactly when it is text that begins with the manifests' marker.
pub proof fn manifests_are_told_by_their_marker(path: Seq<u8>)
    ensures
        is_manifest(path) <==> valid_utf8(path) && path.len() >= 18 && path.take(18) == seq![
            64u8,
            105,
            110,
            99,
            108,
            117,
            100,
            101,
            45,
            109,
            97,
            110,
            105,
            102,
            101,
            115,
            116,
            58,
        ],
{
    reveal_strlit("@include-manifest:");
    let marker = INCLUDE_MANIFEST_PREFIX@;
    let bytes = seq![
        64u8,
        105,
        110,
        99,
        108,
        117,
        100,
        101,
        45,
        109,
        97,
        110,
        105,
        102,
        101,
        115,
        116,
        58,
    ];
    assert(marker =~= seq![
        '@',
        'i',
        'n',
        'c',
        'l',
        'u',
        'd',
        'e',
        '-',
        'm',
        'a',
        'n',
        'i',
        'f',
        'e',
        's',
        't',
        ':',
    ]);
    assert(vstd::utf8::is_ascii_chars(marker));
    vstd::utf8::is_ascii_chars_encode_utf8(marker);
    assert forall|i: int| 0 <= i < 18 implies encode_utf8(marker)[i] == #[trigger] bytes[i] by {
        assert(marker[i] as u8 == encode_utf8(marker)[i]);
    }
    assert(encode_utf8(marker) =~= bytes);
    if is_manifest(path) {
        assert(path.take(18) =~= bytes);
    }
}

/// A name is written behind its directory's own, with a slash between them.
pub proof fn names_are_relative_to_the_walk(prefix: Seq<u8>, name: Seq<u8>)
    ensures
        prefixed(Seq::empty(), name) == name,
        prefix.len() > 0 ==> prefixed(prefix, name) == prefix + seq![47u8] + name,
{
}

// Texts

/// A manifest's text holds its names one to a line, with nothing in front of the first or behind
/// the last.
pub proof fn manifest_texts_hold_a_name_to_a_line(lines: Seq<Seq<u8>>, name: Seq<u8>)
    ensures
        line_text(Seq::empty()) == Seq::<u8>::empty(),
        line_text(seq![name]) == name,
        lines.len() > 0 ==> line_text(lines.push(name)) == line_text(lines) + seq![10u8] + name,
{
    assert(lines.push(name).drop_last() =~= lines);
}

/// A manifest is the digest of its names in the order of their bytes: all of them, none of them
/// behind one that should follow it.
pub proof fn manifests_digest_all_names_in_order(names: Seq<Seq<u8>>, i: int, j: int)
    requires
        0 <= i < j < names.len(),
    ensures
        sorted_names(names).to_multiset() == names.to_multiset(),
        sorted_names(names).len() == names.len(),
        !bytes_before(sorted_names(names)[j], sorted_names(names)[i]),
        manifest_digest(names) == content_digest(line_text(sorted_names(names))),
{
    broadcast use vstd::seq_lib::group_to_multiset_ensures;

    lemma_sorting_rearranges(names);
    assert(sorted_names(names).len() == sorted_names(names).to_multiset().len());
    assert(names.len() == names.to_multiset().len());
    lemma_sorted_by_bytes(names, i, j);
}

/// A digest names its algorithm and counts its bytes.
pub proof fn digests_name_algorithm_and_length(content: Seq<u8>)
    ensures
        content_digest(content).algorithm == "blake3"@,
        content_digest(content).hash == crate::digest::blake3_hex(content),
        content.len() <= u64::MAX ==> content_digest(content).size == content.len(),
{
}

// Walks

/// An entry that failed, whose name is no text, or whose kind is not known ends the walk, and is
/// blamed as far as it is known.
pub proof fn unreadable_entries_end_a_walk(
    walk: WalkModel,
    at: PendingModel,
    entry: EntryModel,
    error: IoErrorModel,
)
    ensures
        entry_taken(walk, at, Err(error)) == Err::<WalkModel, BypassModel>(
            BypassModel::InputRead { path: at.path, message: error.message },
        ),
        !valid_utf8(entry.name) ==> entry_taken(walk, at, Ok(entry)) == Err::<
            WalkModel,
            BypassModel,
        >(BypassModel::NonUtf8Path(joined_path(at.path, entry.name))),
        valid_utf8(entry.name) ==> (entry.is_dir matches Err(error) ==> entry_taken(
            walk,
            at,
            Ok(entry),
        ) == Err::<WalkModel, BypassModel>(
            BypassModel::InputRead {
                path: joined_path(at.path, entry.name),
                message: error.message,
            },
        )),
{
}

/// A directory is listed later, under its own path and behind its own name; a file counts exactly
/// when it can be included, as long as names may be counted; and nothing else changes.
pub proof fn entries_count_or_are_listed_later(
    walk: WalkModel,
    at: PendingModel,
    entry: EntryModel,
)
    requires
        valid_utf8(entry.name),
        entry.is_dir is Ok,
    ensures
        entry.is_dir->Ok_0 ==> (entry_taken(walk, at, Ok(entry)) matches Ok(next) && {
            &&& next.pending.len() == walk.pending.len() + 1
            &&& next.pending.drop_last() == walk.pending
            &&& next.pending.last().path == joined_path(at.path, entry.name)
            &&& next.pending.last().prefix == prefixed(at.prefix, entry.name)
            &&& next.names == walk.names
            &&& next.budget == walk.budget
            &&& next.limit == walk.limit
        }),
        !entry.is_dir->Ok_0 && !includable(entry.name) ==> entry_taken(walk, at, Ok(entry)) == Ok::<
            WalkModel,
            BypassModel,
        >(walk),
        !entry.is_dir->Ok_0 && includable(entry.name) && walk.budget >= walk.limit ==> entry_taken(
            walk,
            at,
            Ok(entry),
        ) == Err::<WalkModel, BypassModel>(BypassModel::TooManyInputs),
        !entry.is_dir->Ok_0 && includable(entry.name) && walk.budget < walk.limit ==> (entry_taken(
            walk,
            at,
            Ok(entry),
        ) matches Ok(next) && {
            &&& next.pending == walk.pending
            &&& next.names == walk.names.push(prefixed(at.prefix, entry.name))
            &&& next.budget == walk.budget + 1
            &&& next.limit == walk.limit
        }),
{
    assert(walk.pending.push(
        PendingModel {
            path: joined_path(at.path, entry.name),
            prefix: prefixed(at.prefix, entry.name),
        },
    ).drop_last() =~= walk.pending);
}

/// A listing is taken in entry by entry, and the first that ends the walk ends it for good.
pub proof fn listings_are_taken_entry_by_entry(
    walk: WalkModel,
    at: PendingModel,
    front: Seq<Result<EntryModel, IoErrorModel>>,
    entry: Result<EntryModel, IoErrorModel>,
    rest: Seq<Result<EntryModel, IoErrorModel>>,
)
    ensures
        entries_taken(walk, at, Seq::empty()) == Ok::<WalkModel, BypassModel>(walk),
        entries_taken(walk, at, front + (seq![entry] + rest)) == (match entries_taken(
            walk,
            at,
            front,
        ) {
            Err(reason) => Err::<WalkModel, BypassModel>(reason),
            Ok(next) => match entry_taken(next, at, entry) {
                Err(reason) => Err::<WalkModel, BypassModel>(reason),
                Ok(next) => entries_taken(next, at, rest),
            },
        }),
    decreases front.len(),
{
    let all = front + (seq![entry] + rest);
    if front.len() == 0 {
        assert(all[0] == entry);
        assert(all.skip(1) =~= rest);
    } else {
        assert(all[0] == front[0]);
        assert(all.skip(1) =~= front.skip(1) + (seq![entry] + rest));
        if let Ok(next) = entry_taken(walk, at, front[0]) {
            listings_are_taken_entry_by_entry(next, at, front.skip(1), entry, rest);
        }
    }
}

/// A walk begins at its directory with nothing counted of its own; it lists the directory that was
/// put off last, takes that one's entries in, and ends with the failure of a listing unless the
/// directory is just not there.
pub proof fn walks_list_what_was_put_off(
    walk: WalkModel,
    entries: Seq<Result<EntryModel, IoErrorModel>>,
    error: IoErrorModel,
    directory: Seq<u8>,
    budget: usize,
    limit: usize,
)
    requires
        walk.pending.len() > 0,
    ensures
        ({
            let rest = WalkModel { pending: walk.pending.drop_last(), ..walk };
            &&& listing_taken(walk, Ok(entries)) == entries_taken(
                rest,
                walk.pending.last(),
                entries,
            )
            &&& listing_taken(walk, Err(error)) == (if error.kind == IoErrorKind::NotFound {
                Ok::<WalkModel, BypassModel>(rest)
            } else {
                Err::<WalkModel, BypassModel>(
                    BypassModel::InputRead {
                        path: walk.pending.last().path,
                        message: error.message,
                    },
                )
            })
        }),
        walk_begun(directory, budget, limit).pending.len() == 1,
        walk_begun(directory, budget, limit).pending[0].path == directory,
        walk_begun(directory, budget, limit).pending[0].prefix.len() == 0,
        walk_begun(directory, budget, limit).names.len() == 0,
        walk_begun(directory, budget, limit).budget == budget,
        walk_begun(directory, budget, limit).limit == limit,
{
}

// Memos

/// A remembered manifest counts all of its names against the limit, or there are too many.
pub proof fn remembered_names_count_against_the_limit(
    memo: MemoModel,
    budget: usize,
    limit: usize,
)
    ensures
        budget + memo.entries <= limit ==> manifest_reused(memo, budget, limit) == Ok::<
            ManifestModel,
            BypassModel,
        >(ManifestModel { digest: memo.digest, budget: (budget + memo.entries) as usize }),
        budget + memo.entries > limit && limit < usize::MAX ==> manifest_reused(
            memo,
            budget,
            limit,
        ) == Err::<ManifestModel, BypassModel>(BypassModel::TooManyInputs),
{
}

/// A walk is remembered exactly when it visited at least one directory and no more than may be
/// remembered, and each has now the identity that it had before it was listed.
pub proof fn only_undisturbed_walks_are_remembered(
    visited: Seq<(Seq<u8>, Option<DirectoryIdentity>)>,
    current: Seq<Option<DirectoryIdentity>>,
)
    ensures
        can_be_remembered(visited, current) <==> {
            &&& 1 <= visited.len() <= 4096
            &&& visited.len() <= current.len()
            &&& forall|i: int|
                0 <= i < visited.len() ==> (#[trigger] visited[i]).1 is Some && visited[i].1
                    == current[i]
        },
        MAX_ROOTS == 32,
{
    let found = identified(visited);
    if can_be_remembered(visited, current) {
        assert forall|i: int| 0 <= i < visited.len() implies (#[trigger] visited[i]).1 is Some
            && visited[i].1 == current[i] by {
            assert(found[i].1 == visited[i].1->Some_0);
            assert(current[i] == Some(found[i].1));
        }
    }
    if 1 <= visited.len() <= 4096 && visited.len() <= current.len() && forall|i: int|
        0 <= i < visited.len() ==> (#[trigger] visited[i]).1 is Some && visited[i].1
            == current[i] {
        assert forall|i: int| 0 <= i < found.len() implies #[trigger] current[i] == Some(
            found[i].1,
        ) by {
            assert(visited[i].1 is Some);
        }
    }
}

/// What is remembered of a walk is each directory that it visited, under its own path, with the
/// identity that it had; and it is unchanged exactly while each has that identity still.
pub proof fn memos_hold_each_visited_directory(
    visited: Seq<(Seq<u8>, Option<DirectoryIdentity>)>,
    directories: Seq<(Seq<u8>, DirectoryIdentity)>,
    current: Seq<Option<DirectoryIdentity>>,
    at: int,
)
    requires
        0 <= at < visited.len(),
        visited[at].1 is Some,
    ensures
        identified(visited).len() == visited.len(),
        identified(visited)[at] == (visited[at].0, visited[at].1->Some_0),
        all_unchanged(directories, current) <==> directories.len() <= current.len() && forall|i: int|
            0 <= i < directories.len() ==> #[trigger] current[i] == Some(directories[i].1),
{
}

/// A directory's names are identified exactly where its metadata is a directory's on a Unix, with
/// a reliable change time, and neither of its times is on a whole second.
pub proof fn directories_are_identified_by_precise_times(
    path: Seq<u8>,
    reading: ReadingModel,
    unreliable: Result<bool, IoErrorModel>,
)
    ensures
        match directory_identity(path, reading, unreliable) {
            Some(identity) => {
                &&& reading.metadata is Ok
                &&& reading.metadata->Ok_0.is_dir
                &&& unreliable is Ok
                &&& exists|unix: UnixDetails, changed: (i64, i64)|
                    {
                        &&& #[trigger] identity_of(unix, changed) == identity
                        &&& reading.metadata->Ok_0.details == PlatformDetails::Linux(unix)
                            || reading.metadata->Ok_0.details == PlatformDetails::Unix(unix)
                        &&& unix.modified.1 != 0
                        &&& unix.changed.1 != 0
                        &&& cache_identity(
                            path,
                            reading.metadata->Ok_0,
                            unreliable->Ok_0,
                            reading.status,
                        ) matches Ok(Some(found)) && found.changed == Some(changed)
                    }
            },
            None => {
                ||| reading.metadata is Err
                ||| !reading.metadata->Ok_0.is_dir
                ||| reading.metadata->Ok_0.modified is Err
                ||| reading.metadata->Ok_0.details is Other
                ||| unreliable != Ok::<bool, IoErrorModel>(false)
                ||| (reading.metadata->Ok_0.details matches PlatformDetails::Linux(unix) && (
                unix.modified.1 == 0 || unix.changed.1 == 0))
                ||| (reading.metadata->Ok_0.details matches PlatformDetails::Unix(unix) && (
                unix.modified.1 == 0 || unix.changed.1 == 0))
            },
        },
        unreliable == Ok::<bool, IoErrorModel>(true) ==> directory_identity(
            path,
            reading,
            unreliable,
        ) is None,
{
}

/// A local directory with precise times is identified by all of its details.
pub proof fn local_directories_are_identified(
    path: Seq<u8>,
    reading: ReadingModel,
    unix: UnixDetails,
)
    requires
        reading.metadata is Ok,
        reading.metadata->Ok_0.is_dir,
        reading.metadata->Ok_0.modified is Ok,
        reading.metadata->Ok_0.details == PlatformDetails::Linux(unix)
            || reading.metadata->Ok_0.details == PlatformDetails::Unix(unix),
    ensures
        directory_identity(path, reading, Ok(false)) == (if unix.modified.1 != 0 && unix.changed.1
            != 0 {
            Some(identity_of(unix, unix.changed))
        } else {
            None
        }),
{
}

// Runs

/// A run begins with no manifest taken and nothing counted, and takes each manifest behind the
/// others, with what has been counted by then.
pub proof fn runs_take_manifests_in_turn(
    directories: Seq<Seq<u8>>,
    run: ManifestsModel,
    manifest: ManifestModel,
    reason: BypassModel,
    limit: usize,
)
    ensures
        manifests_begun(directories, limit).directories == directories,
        manifests_begun(directories, limit).digests.len() == 0,
        manifests_begun(directories, limit).budget == 0,
        manifests_begun(directories, limit).limit == limit,
        manifest_taken(run, Err(reason)) == Err::<ManifestsModel, BypassModel>(reason),
        manifest_taken(run, Ok(manifest)) matches Ok(next) && {
            &&& next.directories == run.directories
            &&& next.digests == run.digests.push(manifest.digest)
            &&& next.budget == manifest.budget
            &&& next.limit == run.limit
        },
{
}

} // verus!
