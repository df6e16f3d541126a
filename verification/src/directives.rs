//! Whether a preprocessor input can make the assembler read another file.

use crate::error::{input_unreadable, BypassModel, CcBypassReason, IoError};
use crate::path::{copy_bytes, FilePath};
use crate::scan::{holding_is_kept, holds_any, NeedleSearch};
use crate::views::seq_view;
use vstd::prelude::*;
use vstd::utf8::encode_utf8;

verus! {

/// Directives whose operands are consumed by the assembler, after the
/// compiler has finished producing its dependency list.
pub open spec fn assembler_input_directives() -> Seq<Seq<u8>> {
    seq![encode_utf8(".include"@), encode_utf8(".incbin"@), encode_utf8(".sinclude"@)]
}

/// What one read of an input gave: bytes, none of them at its end, or what the failure says.
pub open spec fn read_model(read: Result<&[u8], IoError>) -> Result<Seq<u8>, Seq<char>> {
    match read {
        Ok(piece) => Ok(piece@),
        Err(error) => Err(error@.message),
    }
}

/// What a read settles, if anything, after `content` has been read and nothing found in it.
pub open spec fn read_settles(
    path: Seq<u8>,
    needles: Seq<Seq<u8>>,
    content: Seq<u8>,
    read: Result<Seq<u8>, Seq<char>>,
) -> Option<Result<bool, BypassModel>> {
    match read {
        Err(message) => Some(Err(BypassModel::InputRead { path, message })),
        Ok(piece) => if holds_any(content + piece, needles, true) {
            Some(Ok(true))
        } else if piece.len() == 0 {
            Some(Ok(false))
        } else {
            None
        },
    }
}

/// What a list of reads settles, if anything.
pub open spec fn reads_settle(
    path: Seq<u8>,
    needles: Seq<Seq<u8>>,
    content: Seq<u8>,
    reads: Seq<Result<Seq<u8>, Seq<char>>>,
) -> Option<Result<bool, BypassModel>>
    decreases reads.len(),
{
    if reads.len() == 0 {
        None
    } else {
        match read_settles(path, needles, content, reads[0]) {
            Some(outcome) => Some(outcome),
            None => reads_settle(path, needles, content + reads[0]->Ok_0, reads.skip(1)),
        }
    }
}

/// Reads that give these pieces one after another and then reach the end.
pub open spec fn whole_read(pieces: Seq<Seq<u8>>) -> Seq<Result<Seq<u8>, Seq<char>>> {
    pieces.map_values(|piece: Seq<u8>| Ok::<Seq<u8>, Seq<char>>(piece)).push(Ok(Seq::empty()))
}

proof fn lemma_pieces_do_not_matter(
    path: Seq<u8>,
    needles: Seq<Seq<u8>>,
    content: Seq<u8>,
    pieces: Seq<Seq<u8>>,
)
    requires
        !holds_any(content, needles, true),
        forall|i: int| 0 <= i < pieces.len() ==> (#[trigger] pieces[i]).len() > 0,
    ensures
        reads_settle(path, needles, content, whole_read(pieces)) == Some(
            Ok::<bool, BypassModel>(holds_any(content + pieces.flatten(), needles, true)),
        ),
    decreases pieces.len(),
{
    let reads = whole_read(pieces);
    if pieces.len() == 0 {
        assert(content + pieces.flatten() =~= content);
        assert(content + Seq::<u8>::empty() =~= content);
        assert(reads[0] == Ok::<Seq<u8>, Seq<char>>(Seq::empty()));
    } else {
        let piece = pieces[0];
        let rest = pieces.skip(1);
        let longer = content + piece;
        assert(reads[0] == Ok::<Seq<u8>, Seq<char>>(piece));
        assert(reads.skip(1) =~= whole_read(rest));
        assert(pieces.drop_first() =~= rest);
        assert(content + pieces.flatten() =~= longer + rest.flatten());
        if holds_any(longer, needles, true) {
            holding_is_kept(longer, rest.flatten(), needles, true);
        } else {
            assert forall|i: int| 0 <= i < rest.len() implies (#[trigger] rest[i]).len() > 0 by {
                assert(rest[i] == pieces[i + 1]);
            }
            lemma_pieces_do_not_matter(path, needles, longer, rest);
        }
    }
}

/// A directive is found exactly when the whole input holds it, however the input is cut into
/// reads.
pub proof fn directives_are_found_across_reads(
    path: Seq<u8>,
    needles: Seq<Seq<u8>>,
    pieces: Seq<Seq<u8>>,
)
    requires
        forall|i: int| 0 <= i < pieces.len() ==> (#[trigger] pieces[i]).len() > 0,
    ensures
        reads_settle(path, needles, Seq::empty(), whole_read(pieces)) == Some(
            Ok::<bool, BypassModel>(holds_any(pieces.flatten(), needles, true)),
        ),
{
    let none = Seq::<u8>::empty();
    assert forall|i: int| 0 <= i < needles.len() implies !crate::scan::holds(
        none,
        #[trigger] needles[i],
        true,
    ) by {}
    assert(none + pieces.flatten() =~= pieces.flatten());
    lemma_pieces_do_not_matter(path, needles, none, pieces);
}

/// A search through one input, read piece by piece.
pub struct DirectiveScan {
    path: FilePath,
    search: NeedleSearch,
}

/// What one read led to.
pub enum ScanStep {
    /// Nothing is settled: read on.
    More(DirectiveScan),
    /// Whether the input holds a directive, or why it could not be read.
    Finished(Result<bool, CcBypassReason>),
}

/// What a finished scan says.
pub open spec fn outcome_model(outcome: Result<bool, CcBypassReason>) -> Result<bool, BypassModel> {
    match outcome {
        Ok(found) => Ok(found),
        Err(reason) => Err(reason@),
    }
}

impl DirectiveScan {
    /// The input that is searched.
    pub closed spec fn path(&self) -> Seq<u8> {
        self.path@
    }

    /// What is searched for.
    pub closed spec fn needles(&self) -> Seq<Seq<u8>> {
        self.search.needles()
    }

    /// What has been read.
    pub closed spec fn content(&self) -> Seq<u8> {
        self.search.content()
    }

    #[verifier::type_invariant]
    spec fn ignores_case(self) -> bool {
        self.search.folds()
    }

    /// Take in one read of the input.
    pub fn read(self, read: Result<&[u8], IoError>) -> (step: ScanStep)
        ensures
            match step {
                ScanStep::Finished(outcome) => read_settles(
                    self.path(),
                    self.needles(),
                    self.content(),
                    read_model(read),
                ) == Some(outcome_model(outcome)),
                ScanStep::More(scan) => {
                    &&& read_settles(
                        self.path(),
                        self.needles(),
                        self.content(),
                        read_model(read),
                    ) is None
                    &&& scan.path() == self.path()
                    &&& scan.needles() == self.needles()
                    &&& scan.content() == self.content() + read_model(read)->Ok_0
                },
            },
    {
        proof {
            use_type_invariant(&self);
        }
        let DirectiveScan { path, search } = self;
        match read {
            Err(error) => ScanStep::Finished(Err(input_unreadable(&path, error))),
            Ok(piece) => {
                let search = search.feed(piece);
                if search.found() {
                    ScanStep::Finished(Ok(true))
                } else if piece.len() == 0 {
                    ScanStep::Finished(Ok(false))
                } else {
                    ScanStep::More(DirectiveScan { path, search })
                }
            },
        }
    }
}

/// Search an input for any of several needles, with the case of ASCII letters ignored.
pub fn contains_any(path: &FilePath, needles: Vec<Vec<u8>>) -> (scan: DirectiveScan)
    ensures
        scan.path() == path@,
        scan.needles() == seq_view(needles@),
        scan.content() == Seq::<u8>::empty(),
{
    DirectiveScan { path: path.duplicate(), search: NeedleSearch::start(needles, true) }
}

/// Search an input for the directives that make the assembler read another file.
///
/// Searching for the directive text, including in comments and inactive
/// conditional branches, deliberately accepts false positives. Missing a real
/// directive would publish an object whose complete inputs are absent from the
/// key; bypassing an otherwise cacheable object is the safe outcome instead.
pub fn contains_assembler_input_directive(path: &FilePath) -> (scan: DirectiveScan)
    ensures
        scan.path() == path@,
        scan.needles() == assembler_input_directives(),
        scan.content() == Seq::<u8>::empty(),
{
    let needles: Vec<Vec<u8>> = vec![
        copy_bytes(".include".as_bytes()),
        copy_bytes(".incbin".as_bytes()),
        copy_bytes(".sinclude".as_bytes()),
    ];
    assert(seq_view(needles@) =~= assembler_input_directives());
    contains_any(path, needles)
}

} // verus!
