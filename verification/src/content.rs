//! Digesting a file's contents as they are read.

use crate::digest::{content_digest, RunningDigest};
use crate::error::{own_error, own_io_error, IoError, IoErrorKind, IoErrorModel};
use crate::identity::{
    current_file_identity, handle_is_stable, handle_observation_is_stable, identity_read,
    same_identity, unstable_capture, unstable_capture_error, FileIdentity, FileMetadata,
    IdentityModel, MetadataModel, PathReading, PlatformDetails, ReadingModel,
};
use crate::ledger::{FileDigestResolution, FileDigestScope, ResolutionModel};
use crate::path::{copy_bytes, FilePath};
use crate::scan::{holds_any, NeedleSearch};
use crate::views::{result_view, seq_view};
use vstd::prelude::*;
use vstd::utf8::encode_utf8;

verus! {

/// The preprocessor macros whose expansion depends on when a file is compiled.
pub open spec fn timestamp_macros() -> Seq<Seq<u8>> {
    seq![encode_utf8("__DATE__"@), encode_utf8("__TIME__"@), encode_utf8("__TIMESTAMP__"@)]
}

/// What contents resolve to under a scope.
pub open spec fn content_resolution(scope: FileDigestScope, content: Seq<u8>) -> ResolutionModel {
    if scope == FileDigestScope::CcInput && holds_any(content, timestamp_macros(), false) {
        ResolutionModel::EmbeddedTimestampMacro
    } else {
        ResolutionModel::Digest(content_digest(content))
    }
}

/// A file's contents, read to their end and digested under a scope.
pub struct DigestedContent {
    scope: FileDigestScope,
    resolution: FileDigestResolution,
    size: u64,
    content: Ghost<Seq<u8>>,
}

impl DigestedContent {
    #[verifier::type_invariant]
    spec fn well_formed(self) -> bool {
        &&& self.resolution@ == content_resolution(self.scope, self.content@)
        &&& self.size == self.content@.len()
    }

    /// The scope under which the contents were digested.
    pub closed spec fn scope(&self) -> FileDigestScope {
        self.scope
    }

    /// The contents.
    pub closed spec fn content(&self) -> Seq<u8> {
        self.content@
    }

    /// The number of bytes that were read.
    pub fn size(&self) -> (size: u64)
        ensures
            size == self.content().len(),
    {
        proof {
            use_type_invariant(self);
        }
        self.size
    }

    /// What the contents resolve to.
    pub fn resolution(self) -> (resolution: FileDigestResolution)
        ensures
            resolution@ == content_resolution(self.scope(), self.content()),
            self.content().len() <= u64::MAX,
    {
        proof {
            use_type_invariant(&self);
        }
        self.resolution
    }
}

/// What one read of a file gave: bytes, none of them at its end, or a failure.
pub open spec fn piece_model(read: Result<&[u8], IoError>) -> Result<Seq<u8>, IoErrorModel> {
    match read {
        Ok(piece) => Ok(piece@),
        Err(error) => Err(error@),
    }
}

/// What a read settles, if anything, after `content` has been read: all of the contents, or why
/// they cannot be digested.
pub open spec fn piece_settles(content: Seq<u8>, read: Result<Seq<u8>, IoErrorModel>) -> Option<
    Result<Seq<u8>, IoErrorModel>,
> {
    match read {
        Err(error) => Some(Err(error)),
        Ok(piece) => if piece.len() == 0 {
            Some(Ok(content))
        } else if content.len() + piece.len() > u64::MAX {
            Some(Err(own_error(IoErrorKind::Other, "file length overflowed u64"@)))
        } else {
            None
        },
    }
}

/// What a list of reads settles, if anything.
pub open spec fn pieces_settle(
    content: Seq<u8>,
    reads: Seq<Result<Seq<u8>, IoErrorModel>>,
) -> Option<Result<Seq<u8>, IoErrorModel>>
    decreases reads.len(),
{
    if reads.len() == 0 {
        None
    } else {
        match piece_settles(content, reads[0]) {
            Some(outcome) => Some(outcome),
            None => pieces_settle(content + reads[0]->Ok_0, reads.skip(1)),
        }
    }
}

/// Reads that give these pieces one after another and then reach the end.
pub open spec fn whole_content(pieces: Seq<Seq<u8>>) -> Seq<Result<Seq<u8>, IoErrorModel>> {
    pieces.map_values(|piece: Seq<u8>| Ok::<Seq<u8>, IoErrorModel>(piece)).push(Ok(Seq::empty()))
}

proof fn lemma_pieces_add_up(content: Seq<u8>, pieces: Seq<Seq<u8>>)
    requires
        content.len() + pieces.flatten().len() <= u64::MAX,
        forall|i: int| 0 <= i < pieces.len() ==> (#[trigger] pieces[i]).len() > 0,
    ensures
        pieces_settle(content, whole_content(pieces)) == Some(
            Ok::<Seq<u8>, IoErrorModel>(content + pieces.flatten()),
        ),
    decreases pieces.len(),
{
    let reads = whole_content(pieces);
    if pieces.len() == 0 {
        assert(content + pieces.flatten() =~= content);
        assert(reads[0] == Ok::<Seq<u8>, IoErrorModel>(Seq::empty()));
    } else {
        let piece = pieces[0];
        let rest = pieces.skip(1);
        assert(reads[0] == Ok::<Seq<u8>, IoErrorModel>(piece));
        assert(reads.skip(1) =~= whole_content(rest));
        assert(pieces.drop_first() =~= rest);
        assert(content + pieces.flatten() =~= (content + piece) + rest.flatten());
        assert forall|i: int| 0 <= i < rest.len() implies (#[trigger] rest[i]).len() > 0 by {
            assert(rest[i] == pieces[i + 1]);
        }
        lemma_pieces_add_up(content + piece, rest);
    }
}

/// A file is digested as one byte string, however its reads divide it.
pub proof fn digests_ignore_how_reads_divide(pieces: Seq<Seq<u8>>)
    requires
        pieces.flatten().len() <= u64::MAX,
        forall|i: int| 0 <= i < pieces.len() ==> (#[trigger] pieces[i]).len() > 0,
    ensures
        pieces_settle(Seq::empty(), whole_content(pieces)) == Some(
            Ok::<Seq<u8>, IoErrorModel>(pieces.flatten()),
        ),
{
    assert(Seq::<u8>::empty() + pieces.flatten() =~= pieces.flatten());
    lemma_pieces_add_up(Seq::empty(), pieces);
}

/// A file's contents while they are being read.
pub struct ContentScan {
    scope: FileDigestScope,
    digest: RunningDigest,
    search: NeedleSearch,
}

/// What one read led to.
pub enum ContentStep {
    /// There may be more: read on.
    More(ContentScan),
    /// The contents are complete, or could not be digested.
    Finished(Result<DigestedContent, IoError>),
}

impl ContentScan {
    #[verifier::type_invariant]
    spec fn well_formed(self) -> bool {
        &&& self.search.needles() == timestamp_macros()
        &&& !self.search.folds()
        &&& self.scope == FileDigestScope::CcInput ==> self.search.content()
            == self.digest.content()
    }

    /// The scope under which the contents are digested.
    pub closed spec fn scope(&self) -> FileDigestScope {
        self.scope
    }

    /// What has been read.
    pub closed spec fn content(&self) -> Seq<u8> {
        self.digest.content()
    }

    /// Take in one read of the file, hashing it and applying the checks that the scope requires
    /// in that same pass.
    pub fn read(self, read: Result<&[u8], IoError>) -> (step: ContentStep)
        ensures
            match step {
                ContentStep::Finished(outcome) => {
                    let settled = piece_settles(self.content(), piece_model(read));
                    match outcome {
                        Ok(content) => settled == Some(
                            Ok::<Seq<u8>, IoErrorModel>(content.content()),
                        ) && content.scope() == self.scope(),
                        Err(error) => settled == Some(Err::<Seq<u8>, IoErrorModel>(error@)),
                    }
                },
                ContentStep::More(scan) => {
                    &&& piece_settles(self.content(), piece_model(read)) is None
                    &&& scan.scope() == self.scope()
                    &&& scan.content() == self.content() + piece_model(read)->Ok_0
                },
            },
    {
        proof {
            use_type_invariant(&self);
        }
        let ContentScan { scope, digest, search } = self;
        let piece = match read {
            Ok(piece) => piece,
            Err(error) => {
                return ContentStep::Finished(Err(error));
            },
        };
        if piece.len() == 0 {
            return ContentStep::Finished(Ok(ContentScan::complete(scope, digest, search)));
        }
        match digest.feed(piece) {
            None => ContentStep::Finished(
                Err(own_io_error(IoErrorKind::Other, "file length overflowed u64")),
            ),
            Some(digest) => {
                let search = if scope == FileDigestScope::CcInput {
                    search.feed(piece)
                } else {
                    search
                };
                ContentStep::More(ContentScan { scope, digest, search })
            },
        }
    }

    fn complete(scope: FileDigestScope, digest: RunningDigest, search: NeedleSearch) -> (content:
        DigestedContent)
        requires
            search.needles() == timestamp_macros(),
            !search.folds(),
            scope == FileDigestScope::CcInput ==> search.content() == digest.content(),
        ensures
            content.scope() == scope,
            content.content() == digest.content(),
    {
        let ghost content = digest.content();
        let size = digest.size();
        let resolution = if scope == FileDigestScope::CcInput && search.found() {
            FileDigestResolution::EmbeddedTimestampMacro
        } else {
            FileDigestResolution::Digest(digest.finish())
        };
        DigestedContent { scope, resolution, size, content: Ghost(content) }
    }
}

/// Start digesting a file under a scope.
pub fn digest_reader(scope: FileDigestScope) -> (scan: ContentScan)
    ensures
        scan.scope() == scope,
        scan.content() == Seq::<u8>::empty(),
{
    let macros: Vec<Vec<u8>> = vec![
        copy_bytes("__DATE__".as_bytes()),
        copy_bytes("__TIME__".as_bytes()),
        copy_bytes("__TIMESTAMP__".as_bytes()),
    ];
    assert(seq_view(macros@) =~= timestamp_macros());
    ContentScan {
        scope,
        digest: RunningDigest::start(),
        search: NeedleSearch::start(macros, false),
    }
}

/// What a file resolves to that was read and hashed once, with the checks of its scope applied in
/// that same pass.
pub fn digest_file(content: Result<DigestedContent, IoError>) -> (resolution: Result<
    FileDigestResolution,
    IoError,
>)
    ensures
        match content {
            Ok(content) => resolution matches Ok(resolution) && resolution@ == content_resolution(
                content.scope(),
                content.content(),
            ),
            Err(error) => resolution matches Err(failure) && failure@ == error@,
        },
{
    match content {
        Ok(content) => Ok(content.resolution()),
        Err(error) => Err(error),
    }
}

/// A file that was read to its end through one handle, with the handle's metadata from before
/// and after.
pub struct DigestedFile {
    pub before: FileMetadata,
    pub content: DigestedContent,
    pub after: FileMetadata,
}

/// What a [`DigestedFile`] says.
pub struct FileModel {
    pub before: MetadataModel,
    pub scope: FileDigestScope,
    pub content: Seq<u8>,
    pub after: MetadataModel,
}

impl View for DigestedFile {
    type V = FileModel;

    open spec fn view(&self) -> FileModel {
        FileModel {
            before: self.before@,
            scope: self.content.scope(),
            content: self.content.content(),
            after: self.after@,
        }
    }
}

/// Whether an identity came from a filesystem whose metadata cannot be relied on.
///
/// On Linux that is the one with an object identity and no change time.
pub open spec fn identity_is_unreliable(expected: IdentityModel, details: PlatformDetails) -> bool {
    details is Linux && expected.changed is None && expected.object is Some
}

/// What a file resolves to for a caller that expects it to have an identity.
pub open spec fn resolution_for_identity(
    path: Seq<u8>,
    expected: IdentityModel,
    file: Result<FileModel, IoErrorModel>,
    reading: ReadingModel,
) -> Result<ResolutionModel, IoErrorModel> {
    match file {
        Err(error) => Err(error),
        Ok(file) => {
            let unreliable = identity_is_unreliable(expected, file.before.details);
            match identity_read(path, reading, unreliable) {
                Err(error) => Err(error),
                Ok(None) => Err(unstable_capture()),
                Ok(Some(current)) => if !same_identity(current, expected) {
                    Err(unstable_capture())
                } else {
                    match handle_is_stable(
                        path,
                        file.before,
                        file.after,
                        current,
                        unreliable,
                        file.content.len() as u64,
                    ) {
                        Err(error) => Err(error),
                        Ok(false) => Err(unstable_capture()),
                        Ok(true) => Ok(content_resolution(file.scope, file.content)),
                    }
                },
            }
        },
    }
}

/// Whether an identity came from a filesystem whose metadata cannot be relied on.
pub fn expects_unreliable_metadata(expected: &FileIdentity, details: PlatformDetails) -> (
    unreliable: bool)
    ensures
        unreliable == identity_is_unreliable(expected@, details),
{
    matches!(details, PlatformDetails::Linux(_)) && expected.changed.is_none()
        && expected.object.is_some()
}

/// Resolve one file only when the open handle, its final pathname, and the
/// identity supplied by the caller still name the same stable contents.
///
/// The expected identity was already qualified at the caller; policy is derived from it so that
/// a concurrent cross-mount rename cannot poison what is known of filesystems while this read is
/// being rejected.
pub fn digest_file_for_identity(
    path: &FilePath,
    expected: &FileIdentity,
    file: Result<DigestedFile, IoError>,
    reading: &PathReading,
) -> (resolution: Result<FileDigestResolution, IoError>)
    ensures
        result_view(resolution) == resolution_for_identity(
            path@,
            expected@,
            result_view(file),
            reading@,
        ),
{
    let file = match file {
        Ok(file) => file,
        Err(error) => {
            return Err(error);
        },
    };
    let unreliable = expects_unreliable_metadata(expected, file.before.details);
    let current = match current_file_identity(path, reading, unreliable) {
        Ok(Some(current)) => current,
        Ok(None) => {
            return Err(unstable_capture_error());
        },
        Err(error) => {
            return Err(error);
        },
    };
    if current != *expected {
        return Err(unstable_capture_error());
    }
    match handle_observation_is_stable(
        path,
        &file.before,
        &file.after,
        &current,
        unreliable,
        file.content.size(),
    ) {
        Ok(true) => Ok(file.content.resolution()),
        Ok(false) => Err(unstable_capture_error()),
        Err(error) => Err(error),
    }
}

} // verus!
