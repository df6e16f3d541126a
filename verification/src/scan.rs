//! Searching byte strings that arrive in pieces.

use crate::views::seq_view;
use vstd::prelude::*;

verus! {

/// An ASCII letter in lower case, and any other byte as it is.
pub open spec fn folded(byte: u8) -> u8 {
    if 65 <= byte <= 90 {
        (byte + 32) as u8
    } else {
        byte
    }
}

/// Whether two bytes agree, with ASCII case ignored where `fold` says so.
pub open spec fn bytes_agree(left: u8, right: u8, fold: bool) -> bool {
    if fold {
        folded(left) == folded(right)
    } else {
        left == right
    }
}

/// Whether `needle` stands in `haystack` at a position.
pub open spec fn occurs_at(haystack: Seq<u8>, needle: Seq<u8>, fold: bool, position: int) -> bool {
    &&& 0 <= position
    &&& position + needle.len() <= haystack.len()
    &&& forall|k: int|
        0 <= k < needle.len() ==> bytes_agree(haystack[position + k], #[trigger] needle[k], fold)
}

/// Whether a needle stands anywhere in `haystack`. The empty needle stands nowhere.
pub open spec fn holds(haystack: Seq<u8>, needle: Seq<u8>, fold: bool) -> bool {
    needle.len() > 0 && exists|position: int| #[trigger] occurs_at(haystack, needle, fold, position)
}

/// Whether any of the needles stands in `haystack`.
pub open spec fn holds_any(haystack: Seq<u8>, needles: Seq<Seq<u8>>, fold: bool) -> bool {
    exists|i: int| 0 <= i < needles.len() && holds(haystack, #[trigger] needles[i], fold)
}

fn fold_byte(byte: u8) -> (out: u8)
    ensures
        out == folded(byte),
{
    if 65 <= byte && byte <= 90 {
        byte + 32
    } else {
        byte
    }
}

fn find_at(haystack: &[u8], needle: &[u8], fold: bool, position: usize) -> (found: bool)
    requires
        position + needle@.len() <= haystack@.len(),
    ensures
        found == occurs_at(haystack@, needle@, fold, position as int),
{
    let length: usize = haystack.len();
    let mut k: usize = 0;
    while k < needle.len()
        invariant
            k <= needle@.len(),
            length == haystack@.len(),
            position + needle@.len() <= length,
            forall|j: int|
                0 <= j < k ==> bytes_agree(haystack@[position + j], #[trigger] needle@[j], fold),
        decreases needle@.len() - k,
    {
        let left = haystack[position + k];
        let right = needle[k];
        let agree = if fold {
            fold_byte(left) == fold_byte(right)
        } else {
            left == right
        };
        if !agree {
            assert(!bytes_agree(haystack@[position + k], needle@[k as int], fold));
            return false;
        }
        k += 1;
    }
    true
}

fn find(haystack: &[u8], needle: &[u8], fold: bool) -> (found: bool)
    ensures
        found == holds(haystack@, needle@, fold),
{
    if needle.len() == 0 || haystack.len() < needle.len() {
        return false;
    }
    let last: usize = haystack.len() - needle.len();
    let mut position: usize = 0;
    loop
        invariant
            position <= last,
            last == haystack@.len() - needle@.len(),
            needle@.len() > 0,
            forall|i: int| 0 <= i < position ==> !occurs_at(haystack@, needle@, fold, i),
        decreases last - position,
    {
        if find_at(haystack, needle, fold, position) {
            return true;
        }
        if position == last {
            return false;
        }
        position += 1;
    }
}

/// Whether `needle` stands in `haystack`.
pub fn contains_subslice(haystack: &[u8], needle: &[u8]) -> (found: bool)
    ensures
        found == holds(haystack@, needle@, false),
{
    find(haystack, needle, false)
}

/// Whether `needle` stands in `haystack`, with the case of ASCII letters ignored.
pub fn contains_subslice_ascii_case_insensitive(haystack: &[u8], needle: &[u8]) -> (found: bool)
    ensures
        found == holds(haystack@, needle@, true),
{
    find(haystack, needle, true)
}

/// What has been found stays found, whatever follows.
pub proof fn holding_is_kept(front: Seq<u8>, back: Seq<u8>, needles: Seq<Seq<u8>>, fold: bool)
    requires
        holds_any(front, needles, fold),
    ensures
        holds_any(front + back, needles, fold),
{
    let i = choose|i: int| 0 <= i < needles.len() && holds(front, #[trigger] needles[i], fold);
    let needle = needles[i];
    let position = choose|position: int| #[trigger] occurs_at(front, needle, fold, position);
    assert(occurs_at(front + back, needle, fold, position)) by {
        assert forall|k: int| 0 <= k < needle.len() implies bytes_agree(
            (front + back)[position + k],
            #[trigger] needle[k],
            fold,
        ) by {
            assert((front + back)[position + k] == front[position + k]);
        }
    }
    assert(holds(front + back, needles[i], fold));
}

/// Whether no needle is longer than `longest`.
spec fn none_longer(needles: Seq<Seq<u8>>, longest: int) -> bool {
    forall|i: int| 0 <= i < needles.len() ==> (#[trigger] needles[i]).len() <= longest
}

/// Whether `window` is the end of `content`, long enough for a needle of `longest` bytes to reach
/// from it into what follows.
spec fn window_suffices(content: Seq<u8>, window: Seq<u8>, longest: int) -> bool {
    &&& window.len() <= content.len()
    &&& window == content.skip(content.len() - window.len())
    &&& window.len() == content.len() || window.len() + 1 >= longest
}

/// A needle that `more` completes is found in the window with `more` behind it.
proof fn lemma_window_finds(
    content: Seq<u8>,
    window: Seq<u8>,
    more: Seq<u8>,
    needles: Seq<Seq<u8>>,
    fold: bool,
    longest: int,
)
    requires
        none_longer(needles, longest),
        window_suffices(content, window, longest),
        !holds_any(content, needles, fold),
    ensures
        holds_any(content + more, needles, fold) == holds_any(window + more, needles, fold),
{
    let whole = content + more;
    let wide = window + more;
    let offset = content.len() - window.len();
    assert(wide =~= whole.skip(offset));
    if holds_any(whole, needles, fold) {
        let i = choose|i: int| 0 <= i < needles.len() && holds(whole, #[trigger] needles[i], fold);
        let needle = needles[i];
        let position = choose|position: int| #[trigger] occurs_at(whole, needle, fold, position);
        if position < offset {
            assert(position + needle.len() <= content.len());
            assert(occurs_at(content, needle, fold, position)) by {
                assert forall|k: int| 0 <= k < needle.len() implies bytes_agree(
                    content[position + k],
                    #[trigger] needle[k],
                    fold,
                ) by {
                    assert(whole[position + k] == content[position + k]);
                }
            }
            assert(holds(content, needles[i], fold));
        } else {
            assert(occurs_at(wide, needle, fold, position - offset)) by {
                assert forall|k: int| 0 <= k < needle.len() implies bytes_agree(
                    wide[position - offset + k],
                    #[trigger] needle[k],
                    fold,
                ) by {
                    assert(wide[position - offset + k] == whole[position + k]);
                }
            }
            assert(holds(wide, needles[i], fold));
        }
    }
    if holds_any(wide, needles, fold) {
        let i = choose|i: int| 0 <= i < needles.len() && holds(wide, #[trigger] needles[i], fold);
        let needle = needles[i];
        let position = choose|position: int| #[trigger] occurs_at(wide, needle, fold, position);
        assert(occurs_at(whole, needle, fold, position + offset)) by {
            assert forall|k: int| 0 <= k < needle.len() implies bytes_agree(
                whole[position + offset + k],
                #[trigger] needle[k],
                fold,
            ) by {
                assert(wide[position + k] == whole[position + offset + k]);
            }
        }
        assert(holds(whole, needles[i], fold));
    }
}

/// A search for several needles in bytes that arrive in pieces.
///
/// Only the end of what has arrived is kept: as much as a needle that has begun there could use.
pub struct NeedleSearch {
    needles: Vec<Vec<u8>>,
    fold: bool,
    longest: usize,
    window: Vec<u8>,
    found: bool,
    content: Ghost<Seq<u8>>,
}

impl NeedleSearch {
    #[verifier::type_invariant]
    spec fn well_formed(self) -> bool {
        &&& none_longer(seq_view(self.needles@), self.longest as int)
        &&& self.found == holds_any(self.content@, seq_view(self.needles@), self.fold)
        &&& !self.found ==> window_suffices(
            self.content@,
            self.window@,
            self.longest as int,
        )
    }

    /// The needles that are searched for.
    pub closed spec fn needles(&self) -> Seq<Seq<u8>> {
        seq_view(self.needles@)
    }

    /// Whether the case of ASCII letters is ignored.
    pub closed spec fn folds(&self) -> bool {
        self.fold
    }

    /// Everything that has arrived.
    pub closed spec fn content(&self) -> Seq<u8> {
        self.content@
    }

    /// Start a search.
    pub fn start(needles: Vec<Vec<u8>>, fold: bool) -> (search: NeedleSearch)
        ensures
            search.needles() == seq_view(needles@),
            search.folds() == fold,
            search.content() == Seq::<u8>::empty(),
    {
        let mut longest: usize = 0;
        let mut i: usize = 0;
        while i < needles.len()
            invariant
                i <= needles@.len(),
                forall|j: int| 0 <= j < i ==> (#[trigger] needles@[j])@.len() <= longest,
            decreases needles@.len() - i,
        {
            if needles[i].len() > longest {
                longest = needles[i].len();
            }
            i += 1;
        }
        let window: Vec<u8> = Vec::new();
        proof {
            let none = Seq::<u8>::empty();
            assert forall|i: int| 0 <= i < seq_view(needles@).len() implies !holds(
                none,
                #[trigger] seq_view(needles@)[i],
                fold,
            ) by {}
            assert(window@ =~= none.skip(0));
        }
        NeedleSearch {
            needles,
            fold,
            longest,
            window,
            found: false,
            content: Ghost(Seq::<u8>::empty()),
        }
    }

    /// Whether a needle stands in what has arrived.
    pub fn found(&self) -> (found: bool)
        ensures
            found == holds_any(self.content(), self.needles(), self.folds()),
    {
        proof {
            use_type_invariant(self);
        }
        self.found
    }

    /// Search on through another piece.
    pub fn feed(self, piece: &[u8]) -> (search: NeedleSearch)
        ensures
            search.needles() == self.needles(),
            search.folds() == self.folds(),
            search.content() == self.content() + piece@,
    {
        proof {
            use_type_invariant(&self);
        }
        let NeedleSearch { needles, fold, longest, window, found, content } = self;
        let ghost list = seq_view(needles@);
        let ghost whole = content@ + piece@;
        if found {
            proof {
                holding_is_kept(content@, piece@, list, fold);
            }
            return NeedleSearch { needles, fold, longest, window, found, content: Ghost(whole) };
        }
        let mut window = window;
        let ghost narrow = window@;
        window.extend_from_slice(piece);
        assert(window@ =~= narrow + piece@);
        let found = find_any(&window, &needles, fold);
        proof {
            lemma_window_finds(content@, narrow, piece@, list, fold, longest as int);
            assert(window@ =~= whole.skip(whole.len() - window@.len()));
        }
        let kept: usize = if longest == 0 { 0 } else { longest - 1 };
        if window.len() > kept {
            let start: usize = window.len() - kept;
            window = window.split_off(start);
            assert(window@ =~= whole.skip(whole.len() - window@.len()));
        }
        NeedleSearch { needles, fold, longest, window, found, content: Ghost(whole) }
    }
}

fn find_any(haystack: &[u8], needles: &Vec<Vec<u8>>, fold: bool) -> (found: bool)
    ensures
        found == holds_any(haystack@, seq_view(needles@), fold),
{
    let ghost list = seq_view(needles@);
    let mut i: usize = 0;
    while i < needles.len()
        invariant
            i <= needles@.len(),
            list == seq_view(needles@),
            forall|j: int| 0 <= j < i ==> !holds(haystack@, #[trigger] list[j], fold),
        decreases needles@.len() - i,
    {
        let found = find(haystack, &needles[i], fold);
        assert(list[i as int] == needles@[i as int]@);
        if found {
            return true;
        }
        i += 1;
    }
    false
}

} // verus!
