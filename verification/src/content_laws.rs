//! What searching and digesting contents finds.

use crate::content::{
    content_resolution, identity_is_unreliable, piece_settles, pieces_settle,
    resolution_for_identity, FileModel,
};
use crate::digest::{content_digest, DigestModel};
use crate::directives::{assembler_input_directives, read_settles, reads_settle};
use crate::error::{BypassModel, IoErrorKind, IoErrorModel};
use crate::identity::{
    handle_is_stable, identity_read, same_identity, unstable_capture, IdentityModel,
    PlatformDetails, ReadingModel, UnixDetails,
};
use crate::ledger::{found_resolutions, FileDigestResolution, FileDigestScope, ResolutionModel};
use crate::scan::{bytes_agree, holds, holds_any, occurs_at};
use vstd::prelude::*;
use vstd::utf8::encode_utf8;

verus! {

// Searching

/// A byte string with its ASCII letters in lower case.
spec fn in_lower_case(bytes: Seq<u8>) -> Seq<u8> {
    bytes.map_values(
        |byte: u8|
            if 65 <= byte <= 90 {
                (byte + 32) as u8
            } else {
                byte
            },
    )
}

/// A needle is found wherever it stands, whatever is in front of it and behind it.
pub proof fn needles_are_found_wherever_they_stand(
    front: Seq<u8>,
    needle: Seq<u8>,
    back: Seq<u8>,
    fold: bool,
)
    requires
        needle.len() > 0,
    ensures
        holds(front + needle + back, needle, fold),
{
    let haystack = front + needle + back;
    let position = front.len() as int;
    assert forall|k: int| 0 <= k < needle.len() implies bytes_agree(
        haystack[position + k],
        #[trigger] needle[k],
        fold,
    ) by {
        assert(haystack[position + k] == needle[k]);
    }
    assert(occurs_at(haystack, needle, fold, position));
}

/// A needle that is found stands somewhere, byte by byte; an empty one is never found.
pub proof fn found_needles_stand_somewhere(haystack: Seq<u8>, needle: Seq<u8>)
    ensures
        holds(haystack, needle, false) ==> needle.len() > 0 && exists|position: int|
            0 <= position <= haystack.len() - needle.len() && #[trigger] haystack.subrange(
                position,
                position + needle.len(),
            ) == needle,
        needle.len() == 0 ==> !holds(haystack, needle, true),
{
    if holds(haystack, needle, false) {
        let position = choose|position: int| #[trigger]
            occurs_at(haystack, needle, false, position);
        let found = haystack.subrange(position, position + needle.len());
        assert forall|k: int| 0 <= k < needle.len() implies found[k] == needle[k] by {
            assert(bytes_agree(haystack[position + k], needle[k], false));
        }
        assert(found =~= needle);
    }
}

/// Where case is ignored, a needle is found exactly where it would be with all ASCII letters in
/// lower case.
pub proof fn case_is_ignored_letter_by_letter(haystack: Seq<u8>, needle: Seq<u8>)
    ensures
        holds(haystack, needle, true) <==> holds(
            haystack.map_values(
                |byte: u8|
                    if 65 <= byte <= 90 {
                        (byte + 32) as u8
                    } else {
                        byte
                    },
            ),
            needle.map_values(
                |byte: u8|
                    if 65 <= byte <= 90 {
                        (byte + 32) as u8
                    } else {
                        byte
                    },
            ),
            false,
        ),
{
    let low = in_lower_case(haystack);
    let wanted = in_lower_case(needle);
    assert(low =~= haystack.map_values(
        |byte: u8|
            if 65 <= byte <= 90 {
                (byte + 32) as u8
            } else {
                byte
            },
    ));
    assert(wanted =~= needle.map_values(
        |byte: u8|
            if 65 <= byte <= 90 {
                (byte + 32) as u8
            } else {
                byte
            },
    ));
    assert forall|position: int|
        occurs_at(haystack, needle, true, position) == #[trigger] occurs_at(
            low,
            wanted,
            false,
            position,
        ) by {
        if occurs_at(haystack, needle, true, position) {
            assert forall|k: int| 0 <= k < wanted.len() implies bytes_agree(
                low[position + k],
                #[trigger] wanted[k],
                false,
            ) by {
                assert(bytes_agree(haystack[position + k], needle[k], true));
            }
        }
        if occurs_at(low, wanted, false, position) {
            assert forall|k: int| 0 <= k < needle.len() implies bytes_agree(
                haystack[position + k],
                #[trigger] needle[k],
                true,
            ) by {
                assert(bytes_agree(low[position + k], wanted[k], false));
            }
        }
    }
    if holds(haystack, needle, true) {
        let position = choose|position: int| #[trigger] occurs_at(haystack, needle, true, position);
        assert(occurs_at(low, wanted, false, position));
    }
    if holds(low, wanted, false) {
        let position = choose|position: int| #[trigger] occurs_at(low, wanted, false, position);
        assert(occurs_at(haystack, needle, true, position));
    }
}

/// Of several needles one is found exactly when one of them is.
pub proof fn any_needle_may_be_found(
    haystack: Seq<u8>,
    needles: Seq<Seq<u8>>,
    fold: bool,
    at: int,
)
    requires
        0 <= at < needles.len(),
    ensures
        holds(haystack, needles[at], fold) ==> holds_any(haystack, needles, fold),
        holds_any(haystack, needles, fold) ==> exists|i: int|
            0 <= i < needles.len() && holds(haystack, #[trigger] needles[i], fold),
{
}

// Digesting

/// Contents that hold one of the time-dependent macros anywhere are no digest under the scope of
/// compiler inputs; all others are digested as they are, and under the other scope all are.
pub proof fn timestamp_macros_are_found_in_compiler_inputs(
    front: Seq<u8>,
    back: Seq<u8>,
    content: Seq<u8>,
)
    ensures
        content_resolution(FileDigestScope::CcInput, front + encode_utf8("__DATE__"@) + back)
            == ResolutionModel::EmbeddedTimestampMacro,
        content_resolution(FileDigestScope::CcInput, front + encode_utf8("__TIME__"@) + back)
            == ResolutionModel::EmbeddedTimestampMacro,
        content_resolution(FileDigestScope::CcInput, front + encode_utf8("__TIMESTAMP__"@) + back)
            == ResolutionModel::EmbeddedTimestampMacro,
        content_resolution(FileDigestScope::Content, content) == ResolutionModel::Digest(
            content_digest(content),
        ),
        content_resolution(FileDigestScope::CcInput, content) == (if holds(
            content,
            encode_utf8("__DATE__"@),
            false,
        ) || holds(content, encode_utf8("__TIME__"@), false) || holds(
            content,
            encode_utf8("__TIMESTAMP__"@),
            false,
        ) {
            ResolutionModel::EmbeddedTimestampMacro
        } else {
            ResolutionModel::Digest(content_digest(content))
        }),
{
    let macros = crate::content::timestamp_macros();
    reveal_strlit("__DATE__");
    reveal_strlit("__TIME__");
    reveal_strlit("__TIMESTAMP__");
    assert(vstd::utf8::is_ascii_chars("__DATE__"@));
    assert(vstd::utf8::is_ascii_chars("__TIME__"@));
    assert(vstd::utf8::is_ascii_chars("__TIMESTAMP__"@));
    vstd::utf8::is_ascii_chars_encode_utf8("__DATE__"@);
    vstd::utf8::is_ascii_chars_encode_utf8("__TIME__"@);
    vstd::utf8::is_ascii_chars_encode_utf8("__TIMESTAMP__"@);
    needles_are_found_wherever_they_stand(front, macros[0], back, false);
    needles_are_found_wherever_they_stand(front, macros[1], back, false);
    needles_are_found_wherever_they_stand(front, macros[2], back, false);
    assert(macros.len() == 3);
    if holds(content, macros[0], false) || holds(content, macros[1], false) || holds(
        content,
        macros[2],
        false,
    ) {
        assert(holds_any(content, macros, false));
    }
}

/// A read that fails settles contents as that failure, one that gives nothing as what has been
/// read, and any other read settles nothing, unless the length can no longer be counted.
pub proof fn reads_settle_at_the_end(content: Seq<u8>, piece: Seq<u8>, error: IoErrorModel)
    ensures
        piece_settles(content, Err(error)) == Some(Err::<Seq<u8>, IoErrorModel>(error)),
        piece.len() == 0 ==> piece_settles(content, Ok(piece)) == Some(
            Ok::<Seq<u8>, IoErrorModel>(content),
        ),
        piece.len() > 0 && content.len() + piece.len() <= u64::MAX ==> piece_settles(
            content,
            Ok(piece),
        ) is None,
        content.len() <= u64::MAX && content.len() + piece.len() > u64::MAX ==> (piece_settles(
            content,
            Ok(piece),
        ) matches Some(Err(error)) && error.kind == IoErrorKind::Other && error.message
            == "file length overflowed u64"@),
{
}

/// A failed read fails the whole, whatever was read in front of it.
pub proof fn failed_reads_fail_the_whole(
    content: Seq<u8>,
    pieces: Seq<Result<Seq<u8>, IoErrorModel>>,
    error: IoErrorModel,
    rest: Seq<Result<Seq<u8>, IoErrorModel>>,
)
    requires
        pieces_settle(content, pieces) is None,
    ensures
        pieces_settle(content, pieces + (seq![Err::<Seq<u8>, IoErrorModel>(error)] + rest)) == Some(
            Err::<Seq<u8>, IoErrorModel>(error),
        ),
    decreases pieces.len(),
{
    let all = pieces + (seq![Err::<Seq<u8>, IoErrorModel>(error)] + rest);
    if pieces.len() == 0 {
        assert(all[0] == Err::<Seq<u8>, IoErrorModel>(error));
    } else {
        assert(all[0] == pieces[0]);
        assert(all.skip(1) =~= pieces.skip(1) + (seq![Err::<Seq<u8>, IoErrorModel>(error)] + rest));
        failed_reads_fail_the_whole(content + pieces[0]->Ok_0, pieces.skip(1), error, rest);
    }
}

/// An identity with an object and no change time comes from a network filesystem of Linux, and no
/// other identity does.
pub proof fn network_identities_are_told_by_their_parts(
    identity: IdentityModel,
    unix: UnixDetails,
)
    ensures
        identity_is_unreliable(identity, PlatformDetails::Linux(unix)) <==> identity.changed is None
            && identity.object is Some,
        !identity_is_unreliable(identity, PlatformDetails::Unix(unix)),
        !identity_is_unreliable(identity, PlatformDetails::Other),
{
}

/// A file is resolved for an expected identity exactly when it was read, has that very identity
/// behind the read, and was stable throughout; it then resolves to its contents.
pub proof fn expected_files_resolve_to_their_contents(
    path: Seq<u8>,
    expected: IdentityModel,
    file: FileModel,
    reading: ReadingModel,
    error: IoErrorModel,
)
    ensures
        resolution_for_identity(path, expected, Err(error), reading) == Err::<
            ResolutionModel,
            IoErrorModel,
        >(error),
        ({
            let unreliable = identity_is_unreliable(expected, file.before.details);
            let outcome = resolution_for_identity(path, expected, Ok(file), reading);
            match identity_read(path, reading, unreliable) {
                Err(error) => outcome == Err::<ResolutionModel, IoErrorModel>(error),
                Ok(Some(current)) if same_identity(current, expected) => match handle_is_stable(
                    path,
                    file.before,
                    file.after,
                    current,
                    unreliable,
                    file.content.len() as u64,
                ) {
                    Err(error) => outcome == Err::<ResolutionModel, IoErrorModel>(error),
                    Ok(false) => outcome == Err::<ResolutionModel, IoErrorModel>(
                        unstable_capture(),
                    ),
                    Ok(true) => outcome == Ok::<ResolutionModel, IoErrorModel>(
                        content_resolution(file.scope, file.content),
                    ),
                },
                _ => outcome == Err::<ResolutionModel, IoErrorModel>(unstable_capture()),
            }
        }),
{
}

/// Digests that were found resolve their files one for one, and what was not found is unresolved.
pub proof fn found_digests_resolve_their_own_files(found: Seq<Option<DigestModel>>, at: int)
    requires
        0 <= at < found.len(),
    ensures
        found_resolutions(found).len() == found.len(),
        found[at] matches Some(digest) ==> found_resolutions(found)[at] == ResolutionModel::Digest(
            digest,
        ),
        found[at] is None ==> found_resolutions(found)[at] == ResolutionModel::Unresolved,
{
}

/// Resolutions say what they are.
pub proof fn resolutions_say_what_they_are(resolution: FileDigestResolution)
    ensures
        match resolution {
            FileDigestResolution::Digest(digest) => resolution@ == ResolutionModel::Digest(digest@),
            FileDigestResolution::EmbeddedTimestampMacro => resolution@
                == ResolutionModel::EmbeddedTimestampMacro,
            FileDigestResolution::Indeterminate => resolution@ == ResolutionModel::Indeterminate,
            FileDigestResolution::Unresolved => resolution@ == ResolutionModel::Unresolved,
        },
{
}

// Directives

/// The directives that make the assembler read a file are `.include`, `.incbin` and `.sinclude`,
/// in any case.
pub proof fn assembler_directives_are_found(front: Seq<u8>, back: Seq<u8>, content: Seq<u8>)
    ensures
        holds_any(
            front + encode_utf8(".include"@) + back,
            assembler_input_directives(),
            true,
        ),
        holds_any(front + encode_utf8(".incbin"@) + back, assembler_input_directives(), true),
        holds_any(
            front + encode_utf8(".sinclude"@) + back,
            assembler_input_directives(),
            true,
        ),
        holds_any(content, assembler_input_directives(), true) ==> holds(
            content,
            encode_utf8(".include"@),
            true,
        ) || holds(content, encode_utf8(".incbin"@), true) || holds(
            content,
            encode_utf8(".sinclude"@),
            true,
        ),
{
    let directives = assembler_input_directives();
    reveal_strlit(".include");
    reveal_strlit(".incbin");
    reveal_strlit(".sinclude");
    assert(vstd::utf8::is_ascii_chars(".include"@));
    assert(vstd::utf8::is_ascii_chars(".incbin"@));
    assert(vstd::utf8::is_ascii_chars(".sinclude"@));
    vstd::utf8::is_ascii_chars_encode_utf8(".include"@);
    vstd::utf8::is_ascii_chars_encode_utf8(".incbin"@);
    vstd::utf8::is_ascii_chars_encode_utf8(".sinclude"@);
    needles_are_found_wherever_they_stand(front, directives[0], back, true);
    needles_are_found_wherever_they_stand(front, directives[1], back, true);
    needles_are_found_wherever_they_stand(front, directives[2], back, true);
    assert(directives.len() == 3);
}

/// A search is settled by a failed read as that failure, by a needle as found, and by the end of
/// the input as not found; and by nothing else.
pub proof fn searches_settle_by_what_is_read(
    path: Seq<u8>,
    needles: Seq<Seq<u8>>,
    content: Seq<u8>,
    piece: Seq<u8>,
    message: Seq<char>,
)
    ensures
        read_settles(path, needles, content, Err(message)) == Some(
            Err::<bool, BypassModel>(BypassModel::InputRead { path, message }),
        ),
        holds_any(content + piece, needles, true) ==> read_settles(
            path,
            needles,
            content,
            Ok(piece),
        ) == Some(Ok::<bool, BypassModel>(true)),
        !holds_any(content + piece, needles, true) ==> read_settles(
            path,
            needles,
            content,
            Ok(piece),
        ) == (if piece.len() == 0 {
            Some(Ok::<bool, BypassModel>(false))
        } else {
            None
        }),
        reads_settle(path, needles, content, Seq::empty()) is None,
{
}

/// A failed read fails a search that nothing has settled, whatever was read in front of it.
pub proof fn failed_reads_fail_a_search(
    path: Seq<u8>,
    needles: Seq<Seq<u8>>,
    content: Seq<u8>,
    reads: Seq<Result<Seq<u8>, Seq<char>>>,
    message: Seq<char>,
    rest: Seq<Result<Seq<u8>, Seq<char>>>,
)
    requires
        reads_settle(path, needles, content, reads) is None,
    ensures
        reads_settle(
            path,
            needles,
            content,
            reads + (seq![Err::<Seq<u8>, Seq<char>>(message)] + rest),
        ) == Some(Err::<bool, BypassModel>(BypassModel::InputRead { path, message })),
    decreases reads.len(),
{
    let all = reads + (seq![Err::<Seq<u8>, Seq<char>>(message)] + rest);
    if reads.len() == 0 {
        assert(all[0] == Err::<Seq<u8>, Seq<char>>(message));
    } else {
        assert(all[0] == reads[0]);
        assert(all.skip(1) =~= reads.skip(1) + (seq![Err::<Seq<u8>, Seq<char>>(message)] + rest));
        failed_reads_fail_a_search(
            path,
            needles,
            content + reads[0]->Ok_0,
            reads.skip(1),
            message,
            rest,
        );
    }
}

} // verus!
