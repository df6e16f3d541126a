//! Manifests of the names that an include directory holds.
//!
//! A manifest lists names only: the contents of anything actually read are digested as inputs,
//! so this exists purely to notice a file appearing where it could shadow one of them.

use crate::digest::{content_digest, CacheDigest, DigestModel};
use crate::order::{
    bytes_before, bytes_order, lemma_bytes_order, lemma_mapped_multiset, merge_sort, place_bytes,
    same_bytes, Placement, Sortable,
};
use crate::path::{FilePath, DOT};
use crate::scan::folded;
use crate::views::seq_view;
use vstd::prelude::*;
use vstd::utf8::{encode_utf8, valid_utf8};

verus! {

/// Marker distinguishing an include-directory name manifest from a file input.
pub const INCLUDE_MANIFEST_PREFIX: &'static str = "@include-manifest:";

/// Whether an input is an include-directory manifest rather than a file.
pub open spec fn is_manifest(path: Seq<u8>) -> bool {
    valid_utf8(path) && encode_utf8(INCLUDE_MANIFEST_PREFIX@).is_prefix_of(path)
}

/// Whether an input is an include-directory manifest rather than a file.
pub fn is_manifest_input(path: &FilePath) -> (manifest: bool)
    ensures
        manifest == is_manifest(path@),
{
    let bytes = path.as_bytes();
    let prefix = INCLUDE_MANIFEST_PREFIX.as_bytes();
    if bytes.len() < prefix.len() {
        return false;
    }
    let mut i: usize = 0;
    while i < prefix.len()
        invariant
            i <= prefix@.len() <= bytes@.len(),
            bytes@ == path@,
            prefix@ == encode_utf8(INCLUDE_MANIFEST_PREFIX@),
            prefix@.take(i as int) == bytes@.take(i as int),
        decreases prefix@.len() - i,
    {
        if prefix[i] != bytes[i] {
            assert(path@.take(prefix@.len() as int)[i as int] != prefix@[i as int]);
            return false;
        }
        assert(prefix@.take(i + 1) =~= prefix@.take(i as int).push(prefix@[i as int]));
        assert(bytes@.take(i + 1) =~= bytes@.take(i as int).push(bytes@[i as int]));
        i += 1;
    }
    proof {
        assert(prefix@.take(i as int) =~= prefix@);
        assert(prefix@.is_prefix_of(bytes@));
    }
    path.to_text().is_some()
}

// Names

/// Extensions a file must carry to be a plausible `#include` target.
///
/// An extensionless name also qualifies: C++ standard headers are spelled that
/// way and projects ship their own.
///
/// `gch` and `pch` are here because a precompiled header answers an `#include`
/// without being named by one. GCC prefers `foo.h.gch` over `foo.h` on its own,
/// with nothing on the command line to say so, which is precisely the
/// substitution these manifests exist to notice -- and the one case the
/// adapter's explicit precompiled-header bypass cannot see.
pub open spec fn includable_extensions() -> Seq<Seq<char>> {
    seq![
        "c"@,
        "c++"@,
        "cc"@,
        "cpp"@,
        "cxx"@,
        "def"@,
        "gch"@,
        "h"@,
        "h++"@,
        "hh"@,
        "hpp"@,
        "hxx"@,
        "inc"@,
        "inl"@,
        "ipp"@,
        "pch"@,
        "s"@,
        "tcc"@,
    ]
}

/// A byte string with its ASCII letters in lower case.
pub open spec fn lowered(bytes: Seq<u8>) -> Seq<u8> {
    bytes.map_values(|byte: u8| folded(byte))
}

/// Whether an extension is a plausible one, whatever the case of its letters.
pub open spec fn extension_is_listed(extension: Seq<u8>) -> bool {
    exists|i: int|
        0 <= i < includable_extensions().len() && lowered(extension) == encode_utf8(
            #[trigger] includable_extensions()[i],
        )
}

/// Where the last dot of a name stands; -1 if it has none.
pub open spec fn last_dot(name: Seq<u8>) -> int
    decreases name.len(),
{
    if name.len() == 0 {
        -1
    } else if name.last() == DOT {
        name.len() - 1
    } else {
        last_dot(name.drop_last())
    }
}

/// Whether a file name could be what an `#include` directive names: it has a plausible extension
/// behind a stem, or no extension and no leading dot.
pub open spec fn includable(name: Seq<u8>) -> bool {
    let dot = last_dot(name);
    if dot > 0 {
        extension_is_listed(name.skip(dot + 1))
    } else {
        dot < 0
    }
}

fn lower(bytes: &[u8]) -> (out: Vec<u8>)
    ensures
        out@ == lowered(bytes@),
{
    let mut out: Vec<u8> = Vec::new();
    let mut i: usize = 0;
    while i < bytes.len()
        invariant
            i <= bytes@.len(),
            out@ =~= lowered(bytes@).take(i as int),
        decreases bytes@.len() - i,
    {
        let byte = bytes[i];
        out.push(
            if 65 <= byte && byte <= 90 {
                byte + 32
            } else {
                byte
            },
        );
        i += 1;
    }
    assert(lowered(bytes@).take(i as int) =~= lowered(bytes@));
    out
}

fn is_listed(extension: &[u8]) -> (listed: bool)
    ensures
        listed == extension_is_listed(extension@),
{
    let lowercase = lower(extension);
    let list: Vec<&str> = vec![
        "c", "c++", "cc", "cpp", "cxx", "def", "gch", "h", "h++", "hh", "hpp", "hxx", "inc", "inl",
        "ipp", "pch", "s", "tcc",
    ];
    let ghost extensions = includable_extensions();
    assert(list@.len() == extensions.len());
    assert(forall|i: int| 0 <= i < extensions.len() ==> (#[trigger] list@[i])@ == extensions[i]);
    let mut i: usize = 0;
    while i < list.len()
        invariant
            i <= list@.len(),
            list@.len() == extensions.len(),
            extensions == includable_extensions(),
            lowercase@ == lowered(extension@),
            forall|j: int| 0 <= j < extensions.len() ==> (#[trigger] list@[j])@ == extensions[j],
            forall|j: int| 0 <= j < i ==> lowercase@ != encode_utf8(#[trigger] extensions[j]),
        decreases list@.len() - i,
    {
        assert(list@[i as int]@ == extensions[i as int]);
        if same_bytes(&lowercase, list[i].as_bytes()) {
            return true;
        }
        i += 1;
    }
    false
}

proof fn lemma_last_dot(name: Seq<u8>, at: int)
    requires
        -1 <= at < name.len(),
        at >= 0 ==> name[at] == DOT,
        forall|i: int| at < i < name.len() ==> name[i] != DOT,
    ensures
        last_dot(name) == at,
    decreases name.len(),
{
    if name.len() > 0 && at != name.len() - 1 {
        assert(name.last() == name[name.len() - 1]);
        lemma_last_dot(name.drop_last(), at);
    }
}

/// Whether a file name could be what an `#include` directive names.
///
/// The manifest exists to notice a file appearing where it would shadow a
/// header that was read. A build writes its own objects, dependency files, and
/// archives into these directories -- often the very directory a generated
/// header lives in -- and none of those can shadow an include. Counting them
/// would make the key depend on how many sibling compilations had finished,
/// which is not a property of this compilation at all.
pub fn is_includable(name: &str) -> (yes: bool)
    ensures
        yes == includable(encode_utf8(name@)),
{
    let name: &[u8] = name.as_bytes();
    let mut end: usize = name.len();
    while end > 0 && name[end - 1] != DOT
        invariant
            end <= name@.len(),
            forall|i: int| end <= i < name@.len() ==> name@[i] != DOT,
        decreases end,
    {
        end -= 1;
    }
    proof {
        lemma_last_dot(name@, end - 1);
    }
    if end > 1 {
        let extension = vstd::slice::slice_subrange(name, end, name.len());
        assert(extension@ =~= name@.skip(end as int));
        is_listed(extension)
    } else {
        end == 0
    }
}

// Manifests

/// Whether one name may stand in front of another in a manifest.
pub open spec fn name_order() -> spec_fn(Seq<u8>, Seq<u8>) -> bool {
    |left: Seq<u8>, right: Seq<u8>| !bytes_before(right, left)
}

/// Names in the order of a manifest.
pub open spec fn sorted_names(names: Seq<Seq<u8>>) -> Seq<Seq<u8>> {
    names.sort_by(name_order())
}

/// The byte that ends a line of a manifest.
pub const LINE_FEED: u8 = 10;

/// Lines with a line feed between one and the next.
pub open spec fn line_text(lines: Seq<Seq<u8>>) -> Seq<u8>
    decreases lines.len(),
{
    if lines.len() == 0 {
        Seq::empty()
    } else if lines.len() == 1 {
        lines[0]
    } else {
        line_text(lines.drop_last()) + seq![LINE_FEED] + lines.last()
    }
}

/// The digest of a manifest of names.
pub open spec fn manifest_digest(names: Seq<Seq<u8>>) -> DigestModel {
    content_digest(line_text(sorted_names(names)))
}

/// The order of names arranges every list of names in exactly one way.
proof fn lemma_name_order()
    ensures
        vstd::relations::total_ordering(name_order()),
{
    lemma_bytes_order();
    let leq = name_order();
    assert forall|a: Seq<u8>| #[trigger] leq(a, a) by {
        assert(!bytes_order()(a, a));
    }
    assert forall|a: Seq<u8>, b: Seq<u8>| #[trigger] leq(a, b) && #[trigger] leq(b, a) implies a
        == b by {
        assert(a == b || bytes_order()(a, b) || bytes_order()(b, a));
    }
    assert forall|a: Seq<u8>, b: Seq<u8>, c: Seq<u8>|
        #[trigger] leq(a, b) && #[trigger] leq(b, c) implies leq(a, c) by {
        if bytes_before(c, a) {
            assert(a == b || bytes_order()(a, b) || bytes_order()(b, a));
            assert(b == c || bytes_order()(b, c) || bytes_order()(c, b));
            assert(bytes_order()(c, a));
            if bytes_order()(a, b) {
                assert(bytes_order()(c, b));
            }
        }
    }
    assert forall|a: Seq<u8>, b: Seq<u8>| #[trigger] leq(a, b) || #[trigger] leq(b, a) by {
        if bytes_order()(a, b) && bytes_order()(b, a) {
            assert(bytes_order()(a, a));
        }
    }
}

/// Sorting names rearranges them.
pub(crate) proof fn lemma_sorting_rearranges(names: Seq<Seq<u8>>)
    ensures
        sorted_names(names).to_multiset() == names.to_multiset(),
{
    lemma_name_order();
    names.lemma_sort_by_ensures(name_order());
}

/// Sorted names stand in the order of their bytes.
pub(crate) proof fn lemma_sorted_by_bytes(names: Seq<Seq<u8>>, i: int, j: int)
    requires
        0 <= i < j < sorted_names(names).len(),
    ensures
        !bytes_before(sorted_names(names)[j], sorted_names(names)[i]),
{
    lemma_name_order();
    names.lemma_sort_by_ensures(name_order());
    assert(name_order()(sorted_names(names)[i], sorted_names(names)[j]));
}

/// A manifest depends on which names there are, and not on the order in which they were listed.
pub proof fn manifests_ignore_listing_order(left: Seq<Seq<u8>>, right: Seq<Seq<u8>>)
    requires
        left.to_multiset() == right.to_multiset(),
    ensures
        sorted_names(left) == sorted_names(right),
        manifest_digest(left) == manifest_digest(right),
{
    lemma_name_order();
    left.lemma_sort_by_ensures(name_order());
    right.lemma_sort_by_ensures(name_order());
    vstd::seq_lib::lemma_sorted_unique(sorted_names(left), sorted_names(right), name_order());
}

/// Whether every name is one that a line can hold: it is not empty and holds no line feed.
pub open spec fn names_fit_lines(names: Seq<Seq<u8>>) -> bool {
    forall|i: int|
        0 <= i < names.len() ==> (#[trigger] names[i]).len() > 0 && !names[i].contains(LINE_FEED)
}

/// Two lists with the same lines are the same list.
proof fn lemma_lines_are_faithful(left: Seq<Seq<u8>>, right: Seq<Seq<u8>>)
    requires
        names_fit_lines(left),
        names_fit_lines(right),
        line_text(left) == line_text(right),
    ensures
        left == right,
    decreases left.len(),
{
    let text = line_text(left);
    if left.len() < 2 || right.len() < 2 {
        lemma_few_lines(left);
        lemma_few_lines(right);
        assert(left =~= right);
    } else {
        let x = left.last();
        let y = right.last();
        let a = line_text(left.drop_last());
        let b = line_text(right.drop_last());
        assert(left[left.len() - 1] == x && right[right.len() - 1] == y);
        assert(text == a + seq![LINE_FEED] + x);
        assert(text == b + seq![LINE_FEED] + y);
        if x.len() < y.len() {
            let at = text.len() - 1 - x.len();
            assert(text[at] == LINE_FEED);
            assert(y[at - b.len() - 1] == LINE_FEED);
        }
        if y.len() < x.len() {
            let at = text.len() - 1 - y.len();
            assert(text[at] == LINE_FEED);
            assert(x[at - a.len() - 1] == LINE_FEED);
        }
        assert(a =~= text.take(a.len() as int));
        assert(b =~= text.take(b.len() as int));
        assert(x =~= text.skip(a.len() as int + 1));
        assert(y =~= text.skip(b.len() as int + 1));
        assert(names_fit_lines(left.drop_last())) by {
            assert forall|i: int| 0 <= i < left.len() - 1 implies (#[trigger] left.drop_last()[i]).len()
                > 0 && !left.drop_last()[i].contains(LINE_FEED) by {
                assert(left.drop_last()[i] == left[i]);
            }
        }
        assert(names_fit_lines(right.drop_last())) by {
            assert forall|i: int| 0 <= i < right.len() - 1 implies (
            #[trigger] right.drop_last()[i]).len() > 0 && !right.drop_last()[i].contains(
                LINE_FEED,
            ) by {
                assert(right.drop_last()[i] == right[i]);
            }
        }
        lemma_lines_are_faithful(left.drop_last(), right.drop_last());
        assert(left =~= left.drop_last().push(x));
        assert(right =~= right.drop_last().push(y));
    }
}

/// How many lines there are shows in their text: none is empty, one holds no line feed, more do.
proof fn lemma_few_lines(names: Seq<Seq<u8>>)
    requires
        names_fit_lines(names),
    ensures
        names.len() == 0 ==> line_text(names).len() == 0,
        names.len() == 1 ==> line_text(names) == names[0] && line_text(names).len() > 0
            && !line_text(names).contains(LINE_FEED),
        names.len() > 1 ==> line_text(names).contains(LINE_FEED),
{
    if names.len() > 1 {
        let front = line_text(names.drop_last());
        assert(line_text(names)[front.len() as int] == LINE_FEED);
    }
}

/// A file that appears or vanishes among the names of a manifest changes the text that is
/// digested: different names never make the same text, as long as lines can hold them.
pub proof fn manifest_texts_tell_names_apart(left: Seq<Seq<u8>>, right: Seq<Seq<u8>>)
    requires
        names_fit_lines(left),
        names_fit_lines(right),
        line_text(sorted_names(left)) == line_text(sorted_names(right)),
    ensures
        left.to_multiset() == right.to_multiset(),
{
    lemma_name_order();
    left.lemma_sort_by_ensures(name_order());
    right.lemma_sort_by_ensures(name_order());
    lemma_sorting_keeps_names(left);
    lemma_sorting_keeps_names(right);
    lemma_lines_are_faithful(sorted_names(left), sorted_names(right));
}

proof fn lemma_sorting_keeps_names(names: Seq<Seq<u8>>)
    requires
        names_fit_lines(names),
    ensures
        names_fit_lines(sorted_names(names)),
{
    broadcast use vstd::seq_lib::group_to_multiset_ensures;

    let sorted = sorted_names(names);
    lemma_name_order();
    names.lemma_sort_by_ensures(name_order());
    assert forall|i: int| 0 <= i < sorted.len() implies (#[trigger] sorted[i]).len() > 0
        && !sorted[i].contains(LINE_FEED) by {
        assert(sorted.contains(sorted[i]));
        assert(sorted.to_multiset().count(sorted[i]) > 0);
        assert(names.contains(sorted[i]));
        let j = choose|j: int| 0 <= j < names.len() && names[j] == sorted[i];
    }
}

/// A name in a manifest.
pub struct ManifestName {
    bytes: Vec<u8>,
}

impl ManifestName {
    /// The name that these bytes spell.
    pub(crate) fn new(bytes: Vec<u8>) -> (name: ManifestName)
        ensures
            name@ == bytes@,
    {
        ManifestName { bytes }
    }
}

impl View for ManifestName {
    type V = Seq<u8>;

    closed spec fn view(&self) -> Seq<u8> {
        self.bytes@
    }
}

impl Sortable for ManifestName {
    closed spec fn may_precede(&self, other: &ManifestName) -> bool {
        name_order()(self@, other@)
    }

    proof fn precedence_is_total(a: &ManifestName, b: &ManifestName) {
        lemma_name_order();
        assert(name_order()(a@, b@) || name_order()(b@, a@));
    }

    proof fn precedence_is_transitive(a: &ManifestName, b: &ManifestName, c: &ManifestName) {
        lemma_name_order();
        assert(name_order()(a@, b@) && name_order()(b@, c@));
    }

    fn precedes(&self, other: &ManifestName) -> (yes: bool) {
        match place_bytes(&other.bytes, &self.bytes) {
            Placement::Before => false,
            _ => true,
        }
    }
}

/// The digest of a manifest of names.
pub(crate) fn digest_names(names: Vec<ManifestName>) -> (digest: CacheDigest)
    ensures
        digest@ == manifest_digest(seq_view(names@)),
{
    let ghost given = seq_view(names@);
    let ghost unsorted = names@;
    let sorted = merge_sort(names);
    let ghost list = seq_view(sorted@);
    proof {
        lemma_name_order();
        lemma_mapped_multiset(sorted@, unsorted, |name: ManifestName| name@);
        given.lemma_sort_by_ensures(name_order());
        assert forall|i: int, j: int| 0 <= i < j < list.len() implies name_order()(
            #[trigger] list[i],
            #[trigger] list[j],
        ) by {
            assert(sorted@[i].may_precede(&sorted@[j]));
        }
        vstd::seq_lib::lemma_sorted_unique(list, sorted_names(given), name_order());
    }
    let mut text: Vec<u8> = Vec::new();
    let mut i: usize = 0;
    assert(list.take(0) =~= Seq::<Seq<u8>>::empty());
    while i < sorted.len()
        invariant
            i <= sorted@.len(),
            list == seq_view(sorted@),
            text@ == line_text(list.take(i as int)),
        decreases sorted@.len() - i,
    {
        let ghost before = text@;
        proof {
            assert(list.take(i + 1).drop_last() =~= list.take(i as int));
            assert(list.take(i + 1).last() == sorted@[i as int]@);
        }
        if i > 0 {
            text.push(LINE_FEED);
        }
        text.extend_from_slice(&sorted[i].bytes);
        proof {
            if i == 0 {
                assert(before =~= Seq::<u8>::empty());
                assert(list.take(1)[0] == sorted@[0]@);
                assert(text@ =~= sorted@[0]@);
            } else {
                assert(text@ =~= before + seq![LINE_FEED] + sorted@[i as int]@);
            }
        }
        i += 1;
    }
    assert(list.take(i as int) =~= list);
    CacheDigest::blake3(&text)
}

} // verus!
