//! File paths as byte strings, read as lists of components.
//!
//! Two spellings of a path are the same place when their components agree, so
//! `a//b`, `a/./b` and `a/b/` are one path. Paths are ordered by components:
//! the root comes first, then a leading `.`, then `..`, then names bytewise.

use crate::order::{
    bytes_before, bytes_order, lemma_bytes_order, lemma_lex_is_strict, lex_before, place_bytes,
    strict_order, Placement,
};
use crate::text::{decode_lossy, decode_text, shown_text};
use crate::views::seq_view;
use vstd::prelude::*;
use vstd::utf8::{decode_utf8, encode_utf8, valid_utf8};

verus! {

/// The byte `/`, which separates the components of a path.
pub const SEPARATOR: u8 = 47;

/// The byte `.`.
pub const DOT: u8 = 46;

/// One component of a path.
pub enum PathPart {
    /// The leading `/`.
    Root,
    /// A leading `.`.
    Current,
    /// A `..`.
    Parent,
    /// A name.
    Name(Seq<u8>),
}

/// The stretches between separators, the first of them continuing `current`.
pub open spec fn segments_from(current: Seq<u8>, bytes: Seq<u8>) -> Seq<Seq<u8>>
    decreases bytes.len(),
{
    if bytes.len() == 0 {
        seq![current]
    } else if bytes[0] == SEPARATOR {
        seq![current] + segments_from(Seq::<u8>::empty(), bytes.skip(1))
    } else {
        segments_from(current.push(bytes[0]), bytes.skip(1))
    }
}

/// The stretches between separators.
pub open spec fn segments(bytes: Seq<u8>) -> Seq<Seq<u8>> {
    segments_from(Seq::<u8>::empty(), bytes)
}

/// The component that one stretch between separators stands for, if any.
pub open spec fn segment_parts(segment: Seq<u8>) -> Seq<PathPart> {
    if segment.len() == 0 || segment == seq![DOT] {
        Seq::empty()
    } else if segment == seq![DOT, DOT] {
        seq![PathPart::Parent]
    } else {
        seq![PathPart::Name(segment)]
    }
}

/// The components that a list of stretches stands for.
pub open spec fn named_parts(list: Seq<Seq<u8>>) -> Seq<PathPart>
    decreases list.len(),
{
    if list.len() == 0 {
        Seq::empty()
    } else {
        segment_parts(list[0]) + named_parts(list.skip(1))
    }
}

/// The component that a path starts with because of how it is anchored.
pub open spec fn leading_parts(bytes: Seq<u8>) -> Seq<PathPart> {
    if bytes.len() > 0 && bytes[0] == SEPARATOR {
        seq![PathPart::Root]
    } else if segments(bytes)[0] == seq![DOT] {
        seq![PathPart::Current]
    } else {
        Seq::empty()
    }
}

/// The components of a path.
pub open spec fn path_parts(bytes: Seq<u8>) -> Seq<PathPart> {
    leading_parts(bytes) + named_parts(segments(bytes))
}

/// Whether two spellings name the same place.
pub open spec fn same_place(left: Seq<u8>, right: Seq<u8>) -> bool {
    path_parts(left) == path_parts(right)
}

/// Where a kind of component stands among the kinds.
pub open spec fn part_rank(part: PathPart) -> int {
    match part {
        PathPart::Root => 0,
        PathPart::Current => 1,
        PathPart::Parent => 2,
        PathPart::Name(_) => 3,
    }
}

/// The order of components.
pub open spec fn part_order() -> spec_fn(PathPart, PathPart) -> bool {
    |a: PathPart, b: PathPart|
        match (a, b) {
            (PathPart::Name(x), PathPart::Name(y)) => bytes_before(x, y),
            _ => part_rank(a) < part_rank(b),
        }
}

/// The order of paths, component by component.
pub open spec fn parts_before(left: Seq<PathPart>, right: Seq<PathPart>) -> bool {
    lex_before(left, right, part_order())
}

/// The order of paths as a relation.
pub open spec fn parts_order() -> spec_fn(Seq<PathPart>, Seq<PathPart>) -> bool {
    |a: Seq<PathPart>, b: Seq<PathPart>| parts_before(a, b)
}

/// The components after `part` is resolved against the components before it.
pub open spec fn resolve_part(done: Seq<PathPart>, part: PathPart) -> Seq<PathPart> {
    match part {
        PathPart::Current => done,
        PathPart::Parent => {
            if done.len() > 0 && done.last() is Name {
                done.drop_last()
            } else if done.len() > 0 && done.last() is Root {
                done
            } else {
                done.push(part)
            }
        },
        _ => done.push(part),
    }
}

/// The components of a path once `.` and `..` are resolved without looking at the disk.
///
/// A `..` at the root stays at the root, and one that leads out of a relative path is kept.
pub open spec fn normalized(parts: Seq<PathPart>) -> Seq<PathPart>
    decreases parts.len(),
{
    if parts.len() == 0 {
        parts
    } else {
        resolve_part(normalized(parts.drop_last()), parts.last())
    }
}

/// Whether a list of components is the component list of some path.
pub open spec fn parts_fit(parts: Seq<PathPart>) -> bool {
    forall|i: int| 0 <= i < parts.len() ==> part_fits(#[trigger] parts[i], i)
}

/// Whether a component can stand at a position of a path.
pub open spec fn part_fits(part: PathPart, position: int) -> bool {
    match part {
        PathPart::Root => position == 0,
        PathPart::Current => position == 0,
        PathPart::Parent => true,
        PathPart::Name(name) => segment_parts(name) == seq![part] && !name.contains(SEPARATOR),
    }
}

/// How a component is spelled.
pub open spec fn part_text(part: PathPart) -> Seq<u8> {
    match part {
        PathPart::Root => seq![SEPARATOR],
        PathPart::Current => seq![DOT],
        PathPart::Parent => seq![DOT, DOT],
        PathPart::Name(name) => name,
    }
}

/// The plainest spelling of a list of components.
pub open spec fn path_text(parts: Seq<PathPart>) -> Seq<u8>
    decreases parts.len(),
{
    if parts.len() == 0 {
        Seq::empty()
    } else if parts.len() == 1 || parts[parts.len() - 2] is Root {
        path_text(parts.drop_last()) + part_text(parts.last())
    } else {
        path_text(parts.drop_last()) + seq![SEPARATOR] + part_text(parts.last())
    }
}

/// A name below a path.
pub open spec fn joined_path(base: Seq<u8>, name: Seq<u8>) -> Seq<u8> {
    if base.len() == 0 || base.last() == SEPARATOR {
        base + name
    } else {
        base + seq![SEPARATOR] + name
    }
}

/// Whether `ancestor` is a proper prefix of `descendant`, component by component.
pub open spec fn lies_below(ancestor: Seq<PathPart>, descendant: Seq<PathPart>) -> bool {
    ancestor.len() < descendant.len() && ancestor == descendant.take(ancestor.len() as int)
}

/// The order of components is a strict order.
pub proof fn lemma_part_order()
    ensures
        strict_order(part_order()),
{
    lemma_bytes_order();
    assert forall|a: PathPart| !#[trigger] part_order()(a, a) by {
        if let PathPart::Name(x) = a {
            assert(!bytes_order()(x, x));
        }
    }
    assert forall|a: PathPart, b: PathPart, c: PathPart|
        #[trigger] part_order()(a, b) && #[trigger] part_order()(b, c) implies part_order()(
        a,
        c,
    ) by {
        if let (PathPart::Name(x), PathPart::Name(y), PathPart::Name(z)) = (a, b, c) {
            assert(bytes_order()(x, y) && bytes_order()(y, z));
            assert(bytes_order()(x, z));
        }
    }
    assert forall|a: PathPart, b: PathPart|
        a == b || #[trigger] part_order()(a, b) || part_order()(b, a) by {
        if let (PathPart::Name(x), PathPart::Name(y)) = (a, b) {
            assert(x == y || bytes_order()(x, y) || bytes_order()(y, x));
        }
    }
}

/// The order of paths is a strict order.
pub proof fn lemma_parts_order()
    ensures
        strict_order(parts_order()),
{
    lemma_part_order();
    lemma_lex_is_strict(part_order());
    let lex = |a: Seq<PathPart>, b: Seq<PathPart>| lex_before(a, b, part_order());
    assert forall|a: Seq<PathPart>| !#[trigger] parts_order()(a, a) by {
        assert(!lex(a, a));
    }
    assert forall|a: Seq<PathPart>, b: Seq<PathPart>, c: Seq<PathPart>|
        #[trigger] parts_order()(a, b) && #[trigger] parts_order()(b, c) implies parts_order()(
        a,
        c,
    ) by {
        assert(lex(a, b) && lex(b, c));
        assert(lex(a, c));
    }
    assert forall|a: Seq<PathPart>, b: Seq<PathPart>|
        a == b || #[trigger] parts_order()(a, b) || parts_order()(b, a) by {
        assert(a == b || lex(a, b) || lex(b, a));
    }
}

/// One component of a path, spelled out.
#[derive(Debug, Clone, PartialEq, Eq)]
pub enum PathComponent {
    RootDir,
    CurDir,
    ParentDir,
    Normal(Vec<u8>),
}

impl View for PathComponent {
    type V = PathPart;

    open spec fn view(&self) -> PathPart {
        match self {
            PathComponent::RootDir => PathPart::Root,
            PathComponent::CurDir => PathPart::Current,
            PathComponent::ParentDir => PathPart::Parent,
            PathComponent::Normal(name) => PathPart::Name(name@),
        }
    }
}

impl PathComponent {
    /// Compare two components.
    pub fn place(&self, other: &PathComponent) -> (placement: Placement)
        ensures
            placement == Placement::Before <==> part_order()(self@, other@),
            placement == Placement::Same <==> self@ == other@,
            placement == Placement::After <==> part_order()(other@, self@),
    {
        match self {
            PathComponent::RootDir => match other {
                PathComponent::RootDir => Placement::Same,
                _ => Placement::Before,
            },
            PathComponent::CurDir => match other {
                PathComponent::RootDir => Placement::After,
                PathComponent::CurDir => Placement::Same,
                _ => Placement::Before,
            },
            PathComponent::ParentDir => match other {
                PathComponent::ParentDir => Placement::Same,
                PathComponent::Normal(_) => Placement::Before,
                _ => Placement::After,
            },
            PathComponent::Normal(name) => match other {
                PathComponent::Normal(other_name) => place_bytes(name, other_name),
                _ => Placement::After,
            },
        }
    }

    /// A copy of the component.
    pub fn duplicate(&self) -> (copy: PathComponent)
        ensures
            copy@ == self@,
    {
        match self {
            PathComponent::RootDir => PathComponent::RootDir,
            PathComponent::CurDir => PathComponent::CurDir,
            PathComponent::ParentDir => PathComponent::ParentDir,
            PathComponent::Normal(name) => PathComponent::Normal(copy_bytes(name)),
        }
    }
}

/// A copy of a byte string.
pub fn copy_bytes(bytes: &[u8]) -> (copy: Vec<u8>)
    ensures
        copy@ == bytes@,
{
    vstd::slice::slice_to_vec(bytes)
}

/// Compare two component lists.
pub fn place_components(left: &[PathComponent], right: &[PathComponent]) -> (placement: Placement)
    ensures
        placement == Placement::Before <==> parts_before(seq_view(left@), seq_view(right@)),
        placement == Placement::Same <==> seq_view(left@) == seq_view(right@),
        placement == Placement::After <==> parts_before(seq_view(right@), seq_view(left@)),
{
    let ghost l = seq_view(left@);
    let ghost r = seq_view(right@);
    let mut i: usize = 0;
    proof {
        assert(l.skip(0) =~= l);
        assert(r.skip(0) =~= r);
        lemma_part_order();
        lemma_parts_order();
        assert(!parts_order()(l, l));
        assert(parts_order()(l, r) && parts_order()(r, l) ==> parts_order()(l, l));
    }
    while i < left.len() && i < right.len()
        invariant
            l == seq_view(left@),
            r == seq_view(right@),
            i <= l.len(),
            i <= r.len(),
            l.take(i as int) == r.take(i as int),
            parts_before(l, r) == parts_before(l.skip(i as int), r.skip(i as int)),
            parts_before(r, l) == parts_before(r.skip(i as int), l.skip(i as int)),
            parts_before(l, r) ==> l != r,
            parts_before(r, l) ==> l != r,
            parts_before(l, r) ==> !parts_before(r, l),
            strict_order(part_order()),
        decreases l.len() - i,
    {
        assert(l.skip(i as int)[0] == left@[i as int]@);
        assert(r.skip(i as int)[0] == right@[i as int]@);
        match left[i].place(&right[i]) {
            Placement::Same => {},
            placement => {
                return placement;
            },
        }
        assert(l.skip(i as int).skip(1) =~= l.skip(i + 1));
        assert(r.skip(i as int).skip(1) =~= r.skip(i + 1));
        assert(l.take(i + 1) =~= l.take(i as int).push(l[i as int]));
        assert(r.take(i + 1) =~= r.take(i as int).push(r[i as int]));
        i += 1;
    }
    if i < right.len() {
        Placement::Before
    } else if i < left.len() {
        Placement::After
    } else {
        assert(l.take(i as int) =~= l);
        assert(r.take(i as int) =~= r);
        Placement::Same
    }
}

/// A file path.
#[derive(Debug, Clone)]
pub struct FilePath {
    bytes: Vec<u8>,
}

impl View for FilePath {
    type V = Seq<u8>;

    closed spec fn view(&self) -> Seq<u8> {
        self.bytes@
    }
}

impl FilePath {
    /// The path that these bytes spell.
    pub fn from_bytes(bytes: Vec<u8>) -> (path: FilePath)
        ensures
            path@ == bytes@,
    {
        FilePath { bytes }
    }

    /// The path that this text spells.
    pub fn from_text(text: &str) -> (path: FilePath)
        ensures
            path@ == encode_utf8(text@),
    {
        FilePath { bytes: copy_bytes(text.as_bytes()) }
    }

    /// The bytes that spell the path.
    pub fn as_bytes(&self) -> (bytes: &[u8])
        ensures
            bytes@ == self@,
    {
        self.bytes.as_slice()
    }

    /// The path as text, with a replacement for what is not UTF-8.
    pub fn to_text_lossy(&self) -> (text: String)
        ensures
            text@ == shown_text(self@),
    {
        decode_lossy(&self.bytes)
    }

    /// The path as text, where it is UTF-8.
    pub fn to_text(&self) -> (text: Option<String>)
        ensures
            text is Some <==> valid_utf8(self@),
            text matches Some(text) ==> text@ == decode_utf8(self@),
    {
        decode_text(copy_bytes(&self.bytes))
    }

    /// A copy of the path.
    pub fn duplicate(&self) -> (copy: FilePath)
        ensures
            copy@ == self@,
    {
        FilePath { bytes: copy_bytes(&self.bytes) }
    }
}


/// The first stretch starts with what it continues.
proof fn lemma_first_segment(current: Seq<u8>, bytes: Seq<u8>)
    ensures
        segments_from(current, bytes).len() > 0,
        current.len() <= segments_from(current, bytes)[0].len(),
        segments_from(current, bytes)[0].take(current.len() as int) == current,
        bytes.len() > 0 && bytes[0] != SEPARATOR ==> current.len() < segments_from(
            current,
            bytes,
        )[0].len() && segments_from(current, bytes)[0][current.len() as int] == bytes[0],
        bytes.len() == 0 || bytes[0] == SEPARATOR ==> segments_from(current, bytes)[0] == current,
    decreases bytes.len(),
{
    if bytes.len() == 0 || bytes[0] == SEPARATOR {
        assert(current.take(current.len() as int) =~= current);
    } else {
        let longer = current.push(bytes[0]);
        lemma_first_segment(longer, bytes.skip(1));
        let first = segments_from(longer, bytes.skip(1))[0];
        assert(first.take(current.len() as int) =~= first.take(longer.len() as int).take(
            current.len() as int,
        ));
        assert(longer.take(current.len() as int) =~= current);
        assert(first[current.len() as int] == first.take(longer.len() as int)[current.len() as int]);
    }
}

/// A path starts with `.` exactly when its first stretch is `.`.
pub(crate) proof fn lemma_leading_dot(bytes: Seq<u8>)
    ensures
        segments(bytes).len() > 0,
        (segments(bytes)[0] == seq![DOT]) <==> (bytes.len() > 0 && bytes[0] == DOT && (bytes.len()
            == 1 || bytes[1] == SEPARATOR)),
{
    let none = Seq::<u8>::empty();
    lemma_first_segment(none, bytes);
    if bytes.len() > 0 && bytes[0] == DOT {
        let rest = bytes.skip(1);
        assert(none.push(DOT) =~= seq![DOT]);
        lemma_first_segment(seq![DOT], rest);
        if bytes.len() > 1 {
            assert(rest[0] == bytes[1]);
        }
    } else if bytes.len() > 0 {
        let first = segments(bytes)[0];
        if bytes[0] != SEPARATOR {
            assert(first[0] == bytes[0]);
        }
    }
}

proof fn lemma_named_parts_front(first: Seq<u8>, rest: Seq<Seq<u8>>)
    ensures
        named_parts(seq![first] + rest) == segment_parts(first) + named_parts(rest),
{
    assert((seq![first] + rest).skip(1) =~= rest);
}

pub(crate) proof fn lemma_named_parts_concat(a: Seq<Seq<u8>>, b: Seq<Seq<u8>>)
    ensures
        named_parts(a + b) == named_parts(a) + named_parts(b),
    decreases a.len(),
{
    if a.len() == 0 {
        assert(a + b =~= b);
    } else {
        assert((a + b).skip(1) =~= a.skip(1) + b);
        lemma_named_parts_concat(a.skip(1), b);
        assert(segment_parts(a[0]) + (named_parts(a.skip(1)) + named_parts(b)) =~= (segment_parts(
            a[0],
        ) + named_parts(a.skip(1))) + named_parts(b));
    }
}

/// Joining two spellings with a separator joins their stretches.
pub(crate) proof fn lemma_segments_join(current: Seq<u8>, a: Seq<u8>, b: Seq<u8>)
    ensures
        segments_from(current, a + seq![SEPARATOR] + b) == segments_from(current, a) + segments(b),
    decreases a.len(),
{
    let whole = a + seq![SEPARATOR] + b;
    if a.len() == 0 {
        assert(whole.skip(1) =~= b);
    } else if a[0] == SEPARATOR {
        assert(whole.skip(1) =~= a.skip(1) + seq![SEPARATOR] + b);
        lemma_segments_join(Seq::<u8>::empty(), a.skip(1), b);
        assert(seq![current] + (segments(a.skip(1)) + segments(b)) =~= (seq![current] + segments(
            a.skip(1),
        )) + segments(b));
    } else {
        assert(whole.skip(1) =~= a.skip(1) + seq![SEPARATOR] + b);
        lemma_segments_join(current.push(a[0]), a.skip(1), b);
    }
}

/// A stretch without separators is its own only stretch.
pub(crate) proof fn lemma_single_segment(current: Seq<u8>, a: Seq<u8>)
    requires
        !a.contains(SEPARATOR),
    ensures
        segments_from(current, a) == seq![current + a],
    decreases a.len(),
{
    if a.len() == 0 {
        assert(current + a =~= current);
    } else {
        assert(a.contains(a[0]));
        assert forall|x: u8| a.skip(1).contains(x) implies a.contains(x) by {
            let i = choose|i: int| 0 <= i < a.skip(1).len() && a.skip(1)[i] == x;
            assert(a[i + 1] == x);
        }
        lemma_single_segment(current.push(a[0]), a.skip(1));
        assert(current.push(a[0]) + a.skip(1) =~= current + a);
    }
}

/// No stretch holds a separator.
proof fn lemma_segments_hold_no_separator(current: Seq<u8>, bytes: Seq<u8>)
    requires
        !current.contains(SEPARATOR),
    ensures
        forall|i: int|
            0 <= i < segments_from(current, bytes).len() ==> !(#[trigger] segments_from(
                current,
                bytes,
            )[i]).contains(SEPARATOR),
    decreases bytes.len(),
{
    if bytes.len() > 0 {
        if bytes[0] == SEPARATOR {
            lemma_segments_hold_no_separator(Seq::<u8>::empty(), bytes.skip(1));
            let rest = segments(bytes.skip(1));
            assert forall|i: int| 0 <= i < segments_from(current, bytes).len() implies !(
            #[trigger] segments_from(current, bytes)[i]).contains(SEPARATOR) by {
                if i > 0 {
                    assert(segments_from(current, bytes)[i] == rest[i - 1]);
                }
            }
        } else {
            let longer = current.push(bytes[0]);
            assert forall|x: u8| longer.contains(x) implies x == bytes[0] || current.contains(
                x,
            ) by {
                let i = choose|i: int| 0 <= i < longer.len() && longer[i] == x;
                if i < current.len() {
                    assert(current[i] == x);
                }
            }
            lemma_segments_hold_no_separator(longer, bytes.skip(1));
            assert(segments_from(current, bytes) == segments_from(longer, bytes.skip(1)));
        }
    } else {
        assert(segments_from(current, bytes) == seq![current]);
    }
}

proof fn lemma_named_parts_fit(list: Seq<Seq<u8>>)
    requires
        forall|i: int| 0 <= i < list.len() ==> !(#[trigger] list[i]).contains(SEPARATOR),
    ensures
        forall|i: int|
            0 <= i < named_parts(list).len() ==> part_fits(#[trigger] named_parts(list)[i], 1),
    decreases list.len(),
{
    if list.len() > 0 {
        let rest = list.skip(1);
        assert forall|i: int| 0 <= i < rest.len() implies !(#[trigger] rest[i]).contains(
            SEPARATOR,
        ) by {
            assert(rest[i] == list[i + 1]);
        }
        lemma_named_parts_fit(rest);
        let front = segment_parts(list[0]);
        assert forall|i: int| 0 <= i < named_parts(list).len() implies part_fits(
            #[trigger] named_parts(list)[i],
            1,
        ) by {
            if i < front.len() {
                assert(named_parts(list)[i] == front[i]);
            } else {
                assert(named_parts(list)[i] == named_parts(rest)[i - front.len()]);
            }
        }
    }
}

/// The components of any path are a component list.
pub proof fn lemma_path_parts_fit(bytes: Seq<u8>)
    ensures
        parts_fit(path_parts(bytes)),
{
    lemma_segments_hold_no_separator(Seq::<u8>::empty(), bytes);
    lemma_named_parts_fit(segments(bytes));
    let front = leading_parts(bytes);
    let rest = named_parts(segments(bytes));
    assert forall|i: int| 0 <= i < path_parts(bytes).len() implies part_fits(
        #[trigger] path_parts(bytes)[i],
        i,
    ) by {
        if i >= front.len() {
            assert(path_parts(bytes)[i] == rest[i - front.len()]);
        }
    }
}

/// Resolving `.` and `..` yields a component list, and one without `.`.
pub proof fn lemma_normalized_fits(parts: Seq<PathPart>)
    requires
        parts_fit(parts),
    ensures
        parts_fit(normalized(parts)),
        normalized(parts).len() <= parts.len(),
    decreases parts.len(),
{
    if parts.len() > 0 {
        let front = parts.drop_last();
        assert forall|i: int| 0 <= i < front.len() implies part_fits(#[trigger] front[i], i) by {
            assert(front[i] == parts[i]);
        }
        lemma_normalized_fits(front);
        let done = normalized(front);
        let last = parts.last();
        assert(part_fits(parts[parts.len() - 1], parts.len() - 1));
        assert forall|i: int| 0 <= i < normalized(parts).len() implies part_fits(
            #[trigger] normalized(parts)[i],
            i,
        ) by {
            if i < done.len() {
                assert(normalized(parts)[i] == done[i]);
            } else {
                assert(normalized(parts)[i] == last);
                if parts.len() == 1 {
                    assert(done.len() == 0);
                }
            }
        }
    }
}

/// What a component that can stand below another one is spelled as.
proof fn lemma_part_text(part: PathPart)
    requires
        part_fits(part, 1) || part is Current,
    ensures
        part_text(part).len() > 0,
        part_text(part)[0] != SEPARATOR,
        segments(part_text(part)) == seq![part_text(part)],
        named_parts(seq![part_text(part)]) == segment_parts(part_text(part)),
        part is Current ==> segment_parts(part_text(part)) == Seq::<PathPart>::empty(),
        part !is Current ==> segment_parts(part_text(part)) == seq![part],
{
    let text = part_text(part);
    assert(!text.contains(SEPARATOR)) by {
        if text.contains(SEPARATOR) {
            let i = choose|i: int| 0 <= i < text.len() && text[i] == SEPARATOR;
            assert(text[i] == SEPARATOR);
        }
    }
    if part is Name {
        assert(segment_parts(text).len() == 1);
    }
    assert(text.len() > 0);
    assert(text.contains(text[0]));
    lemma_single_segment(Seq::<u8>::empty(), text);
    assert(Seq::<u8>::empty() + text =~= text);
    lemma_named_parts_front(text, Seq::empty());
    assert(seq![text] + Seq::<Seq<u8>>::empty() =~= seq![text]);
    assert(segment_parts(text) + Seq::<PathPart>::empty() =~= segment_parts(text));
    if part is Parent {
        assert(text != seq![DOT]) by {
            assert(text.len() == 2);
        }
    }
}

/// The empty spelling has no components.
pub(crate) proof fn lemma_no_parts()
    ensures
        segments(Seq::<u8>::empty()) == seq![Seq::<u8>::empty()],
        named_parts(segments(Seq::<u8>::empty())) == Seq::<PathPart>::empty(),
        path_parts(Seq::<u8>::empty()) == Seq::<PathPart>::empty(),
{
    let none = Seq::<u8>::empty();
    lemma_leading_dot(none);
    lemma_named_parts_front(none, Seq::empty());
    assert(seq![none] + Seq::<Seq<u8>>::empty() =~= seq![none]);
    assert(segment_parts(none) + Seq::<PathPart>::empty() =~= Seq::<PathPart>::empty());
    assert(path_parts(none) =~= Seq::<PathPart>::empty());
}

/// The root is spelled `/`.
pub(crate) proof fn lemma_root_text()
    ensures
        path_parts(seq![SEPARATOR]) == seq![PathPart::Root],
{
    let none = Seq::<u8>::empty();
    lemma_no_parts();
    assert(seq![SEPARATOR] =~= none + seq![SEPARATOR] + none);
    lemma_segments_join(none, none, none);
    lemma_named_parts_concat(seq![none], seq![none]);
    assert(path_parts(seq![SEPARATOR]) =~= seq![PathPart::Root]);
}

/// One component on its own.
proof fn lemma_lone_part_text(part: PathPart)
    requires
        part_fits(part, 0),
    ensures
        path_parts(part_text(part)) == seq![part],
{
    if part is Root {
        lemma_root_text();
    } else {
        lemma_part_text(part);
        assert(path_parts(part_text(part)) =~= seq![part]);
    }
}

/// A component below the root.
proof fn lemma_part_text_below_root(part: PathPart)
    requires
        part_fits(part, 1),
    ensures
        path_parts(seq![SEPARATOR] + part_text(part)) == seq![PathPart::Root, part],
{
    let none = Seq::<u8>::empty();
    let text = part_text(part);
    lemma_no_parts();
    lemma_part_text(part);
    assert(seq![SEPARATOR] + text =~= none + seq![SEPARATOR] + text);
    lemma_segments_join(none, none, text);
    lemma_named_parts_concat(seq![none], seq![text]);
    assert(path_parts(seq![SEPARATOR] + text) =~= seq![PathPart::Root, part]);
}

/// A component below any other spelling.
proof fn lemma_part_text_below(base: Seq<u8>, part: PathPart)
    requires
        base.len() > 0,
        part_fits(part, 1),
    ensures
        path_parts(base + seq![SEPARATOR] + part_text(part)) == path_parts(base).push(part),
{
    let text = part_text(part);
    let whole = base + seq![SEPARATOR] + text;
    lemma_part_text(part);
    lemma_segments_join(Seq::<u8>::empty(), base, text);
    lemma_named_parts_concat(segments(base), seq![text]);
    lemma_leading_dot(base);
    assert(whole[0] == base[0]);
    assert(segments(whole)[0] == segments(base)[0]);
    assert(leading_parts(whole) == leading_parts(base));
    assert(path_parts(whole) =~= path_parts(base).push(part));
}

/// The plainest spelling of a component list has those components.
pub proof fn lemma_path_text_reads_back(parts: Seq<PathPart>)
    requires
        parts_fit(parts),
    ensures
        path_parts(path_text(parts)) == parts,
    decreases parts.len(),
{
    if parts.len() == 0 {
        lemma_no_parts();
        assert(parts =~= Seq::<PathPart>::empty());
    } else {
        let front = parts.drop_last();
        let last = parts.last();
        assert(part_fits(parts[parts.len() - 1], parts.len() - 1));
        assert forall|i: int| 0 <= i < front.len() implies part_fits(#[trigger] front[i], i) by {
            assert(front[i] == parts[i]);
        }
        lemma_path_text_reads_back(front);
        if parts.len() == 1 {
            assert(path_text(parts) =~= part_text(last)) by {
                assert(path_text(front) =~= Seq::<u8>::empty());
            }
            lemma_lone_part_text(last);
            assert(parts =~= seq![last]);
        } else if parts[parts.len() - 2] is Root {
            assert(part_fits(parts[parts.len() - 2], parts.len() - 2));
            assert(path_text(front) =~= seq![SEPARATOR]) by {
                assert(front.len() == 1);
                assert(path_text(front.drop_last()) =~= Seq::<u8>::empty());
            }
            lemma_part_text_below_root(last);
            assert(parts =~= seq![PathPart::Root, last]);
        } else {
            lemma_path_text_is_not_empty(front);
            lemma_part_text_below(path_text(front), last);
            assert(parts =~= front.push(last));
        }
    }
}

proof fn lemma_path_text_is_not_empty(parts: Seq<PathPart>)
    requires
        parts_fit(parts),
        parts.len() > 0,
    ensures
        path_text(parts).len() > 0,
{
    let last = parts.last();
    assert(part_fits(parts[parts.len() - 1], parts.len() - 1));
    if last !is Root {
        lemma_part_text(last);
    }
}

impl FilePath {
    /// The components of the path.
    pub fn components(&self) -> (components: Vec<PathComponent>)
        ensures
            seq_view(components@) == path_parts(self@),
    {
        let bytes: &[u8] = self.bytes.as_slice();
        let mut components: Vec<PathComponent> = Vec::new();
        let mut current: Vec<u8> = Vec::new();
        let ghost goal = path_parts(self@);
        proof {
            lemma_leading_dot(bytes@);
        }
        if bytes.len() > 0 && bytes[0] == SEPARATOR {
            components.push(PathComponent::RootDir);
        } else if bytes.len() > 0 && bytes[0] == DOT && (bytes.len() == 1 || bytes[1]
            == SEPARATOR) {
            components.push(PathComponent::CurDir);
        }
        let mut i: usize = 0;
        proof {
            assert(bytes@.skip(0) =~= bytes@);
            assert(seq_view(components@) =~= leading_parts(bytes@));
            assert(current@ =~= Seq::<u8>::empty());
        }
        while i < bytes.len()
            invariant
                i <= bytes@.len(),
                goal == seq_view(components@) + named_parts(
                    segments_from(current@, bytes@.skip(i as int)),
                ),
            decreases bytes@.len() - i,
        {
            let byte = bytes[i];
            let ghost rest = bytes@.skip(i as int);
            assert(rest[0] == byte);
            assert(rest.skip(1) =~= bytes@.skip(i + 1));
            if byte == SEPARATOR {
                let ghost before = components@;
                let ghost segment = current@;
                proof {
                    lemma_named_parts_front(segment, segments(bytes@.skip(i + 1)));
                }
                push_segment(&mut components, current);
                current = Vec::new();
                proof {
                    assert(current@ =~= Seq::<u8>::empty());
                    assert(seq_view(components@) + named_parts(segments(bytes@.skip(i + 1)))
                        =~= goal);
                }
            } else {
                current.push(byte);
            }
            i += 1;
        }
        proof {
            assert(bytes@.skip(i as int) =~= Seq::<u8>::empty());
            lemma_named_parts_front(current@, Seq::empty());
            assert(seq![current@] + Seq::<Seq<u8>>::empty() =~= seq![current@]);
        }
        push_segment(&mut components, current);
        assert(seq_view(components@) =~= goal);
        components
    }

    /// Compare two paths by their components.
    pub fn place(&self, other: &FilePath) -> (placement: Placement)
        ensures
            placement == Placement::Before <==> parts_before(path_parts(self@), path_parts(other@)),
            placement == Placement::Same <==> same_place(self@, other@),
            placement == Placement::After <==> parts_before(path_parts(other@), path_parts(self@)),
    {
        let left = self.components();
        let right = other.components();
        place_components(&left, &right)
    }

    /// Whether both paths name the same place.
    pub fn same_as(&self, other: &FilePath) -> (same: bool)
        ensures
            same == same_place(self@, other@),
    {
        match self.place(other) {
            Placement::Same => true,
            _ => false,
        }
    }

    /// Whether the path starts at the root.
    pub fn is_absolute(&self) -> (absolute: bool)
        ensures
            absolute == (self@.len() > 0 && self@[0] == SEPARATOR),
    {
        self.bytes.len() > 0 && self.bytes[0] == SEPARATOR
    }

    /// A name below the path.
    pub fn join(&self, name: &[u8]) -> (path: FilePath)
        ensures
            path@ == joined_path(self@, name@),
    {
        let mut bytes = copy_bytes(&self.bytes);
        if bytes.len() > 0 && bytes[bytes.len() - 1] != SEPARATOR {
            bytes.push(SEPARATOR);
        }
        let ghost base = bytes@;
        bytes.extend_from_slice(name);
        assert(bytes@ =~= base + name@);
        assert(bytes@ =~= joined_path(self@, name@));
        FilePath { bytes }
    }

    /// The plainest spelling of a list of components.
    pub fn from_components(components: &[PathComponent]) -> (path: FilePath)
        ensures
            path@ == path_text(seq_view(components@)),
    {
        let ghost parts = seq_view(components@);
        let mut bytes: Vec<u8> = Vec::new();
        let mut i: usize = 0;
        assert(parts.take(0) =~= Seq::<PathPart>::empty());
        while i < components.len()
            invariant
                i <= components@.len(),
                parts == seq_view(components@),
                bytes@ == path_text(parts.take(i as int)),
            decreases components@.len() - i,
        {
            proof {
                assert(parts.take(i + 1).drop_last() =~= parts.take(i as int));
                assert(parts.take(i + 1).last() == components@[i as int]@);
            }
            let below_root = i > 0 && matches!(components[i - 1], PathComponent::RootDir);
            if i > 0 && !below_root {
                bytes.push(SEPARATOR);
            }
            let ghost before = bytes@;
            match &components[i] {
                PathComponent::RootDir => {
                    bytes.push(SEPARATOR);
                },
                PathComponent::CurDir => {
                    bytes.push(DOT);
                },
                PathComponent::ParentDir => {
                    bytes.push(DOT);
                    bytes.push(DOT);
                },
                PathComponent::Normal(name) => {
                    let mut copy = copy_bytes(name);
                    bytes.append(&mut copy);
                },
            }
            proof {
                assert(bytes@ =~= before + part_text(components@[i as int]@));
                if i > 0 {
                    assert(parts.take(i + 1)[i - 1] == components@[i - 1]@);
                }
            }
            i += 1;
        }
        assert(parts.take(i as int) =~= parts);
        FilePath { bytes }
    }
}

impl PartialEq for FilePath {
    fn eq(&self, other: &FilePath) -> (same: bool) {
        self.same_as(other)
    }
}

impl vstd::std_specs::cmp::PartialEqSpecImpl for FilePath {
    open spec fn obeys_eq_spec() -> bool {
        true
    }

    open spec fn eq_spec(&self, other: &FilePath) -> bool {
        same_place(self@, other@)
    }
}

impl Eq for FilePath {

}

/// Append the component that a stretch between separators stands for, if any.
fn push_segment(components: &mut Vec<PathComponent>, segment: Vec<u8>)
    ensures
        seq_view(final(components)@) == seq_view(old(components)@) + segment_parts(segment@),
{
    let ghost before = seq_view(components@);
    if segment.len() == 0 || (segment.len() == 1 && segment[0] == DOT) {
        proof {
            assert(segment.len() == 1 ==> segment@ =~= seq![DOT]);
            assert(before + segment_parts(segment@) =~= before);
        }
    } else if segment.len() == 2 && segment[0] == DOT && segment[1] == DOT {
        components.push(PathComponent::ParentDir);
        assert(segment@ =~= seq![DOT, DOT]);
        assert(seq_view(components@) =~= before + segment_parts(segment@));
    } else {
        proof {
            assert(segment@ != seq![DOT]);
            assert(segment@ != seq![DOT, DOT]);
        }
        components.push(PathComponent::Normal(segment));
        assert(seq_view(components@) =~= before + segment_parts(segment@));
    }
}

/// Resolve `.` and `..` without looking at the disk.
pub fn normalized_components(path: &FilePath) -> (components: Vec<PathComponent>)
    ensures
        seq_view(components@) == normalized(path_parts(path@)),
{
    let all = path.components();
    let ghost parts = seq_view(all@);
    let mut done: Vec<PathComponent> = Vec::new();
    let mut i: usize = 0;
    assert(parts.take(0) =~= Seq::<PathPart>::empty());
    assert(seq_view(done@) =~= Seq::<PathPart>::empty());
    while i < all.len()
        invariant
            i <= all@.len(),
            parts == seq_view(all@),
            seq_view(done@) == normalized(parts.take(i as int)),
        decreases all@.len() - i,
    {
        proof {
            assert(parts.take(i + 1).drop_last() =~= parts.take(i as int));
            assert(parts.take(i + 1).last() == all@[i as int]@);
        }
        let ghost before = done@;
        match &all[i] {
            PathComponent::CurDir => {},
            PathComponent::ParentDir => {
                if done.len() == 0 {
                    done.push(PathComponent::ParentDir);
                    assert(seq_view(done@) =~= seq_view(before).push(PathPart::Parent));
                } else {
                    assert(seq_view(before).last() == before.last()@);
                    match &done[done.len() - 1] {
                        PathComponent::Normal(_) => {
                            let removed = done.pop();
                            assert(seq_view(done@) =~= seq_view(before).drop_last());
                        },
                        PathComponent::RootDir => {},
                        _ => {
                            done.push(PathComponent::ParentDir);
                            assert(seq_view(done@) =~= seq_view(before).push(PathPart::Parent));
                        },
                    }
                }
            },
            other => {
                done.push(other.duplicate());
                assert(seq_view(done@) =~= seq_view(before).push(other@));
            },
        }
        i += 1;
    }
    assert(parts.take(i as int) =~= parts);
    done
}

/// The plainest spelling of a path once `.` and `..` are resolved without looking at the disk.
pub fn normalize_components(path: &FilePath) -> (plain: FilePath)
    ensures
        plain@ == path_text(normalized(path_parts(path@))),
        path_parts(plain@) == normalized(path_parts(path@)),
{
    let components = normalized_components(path);
    proof {
        lemma_path_parts_fit(path@);
        lemma_normalized_fits(path_parts(path@));
        lemma_path_text_reads_back(normalized(path_parts(path@)));
    }
    FilePath::from_components(&components)
}

} // verus!
