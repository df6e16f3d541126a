//! Text as characters and as bytes.

use vstd::prelude::*;
use vstd::utf8::{decode_utf8, valid_utf8};

verus! {

/// `String::push` appends one character to the end of the text.
pub assume_specification[ String::push ](text: &mut String, character: char)
    ensures
        final(text)@ == old(text)@.push(character),
;

/// The text that `String::from_utf8_lossy` makes of bytes.
pub uninterp spec fn lossy_text(bytes: Seq<u8>) -> Seq<char>;

/// `String::from_utf8_lossy` decodes bytes, replacing what is not UTF-8.
///
/// The text depends on the bytes alone, and valid UTF-8 is decoded as it stands.
#[verifier::external_body]
pub(crate) fn decode_lossy(bytes: &[u8]) -> (text: String)
    ensures
        text@ == lossy_text(bytes@),
        valid_utf8(bytes@) ==> text@ == decode_utf8(bytes@),
{
    String::from_utf8_lossy(bytes).into_owned()
}

/// Bytes as text: decoded where they are UTF-8, and with replacements where they are not.
pub open spec fn shown_text(bytes: Seq<u8>) -> Seq<char> {
    if valid_utf8(bytes) {
        decode_utf8(bytes)
    } else {
        lossy_text(bytes)
    }
}

/// `String::from_utf8` decodes bytes exactly when they are valid UTF-8.
#[verifier::external_body]
pub(crate) fn decode_text(bytes: Vec<u8>) -> (text: Option<String>)
    ensures
        text is Some <==> valid_utf8(bytes@),
        text matches Some(text) ==> text@ == decode_utf8(bytes@),
{
    String::from_utf8(bytes).ok()
}

/// The characters of a text.
pub(crate) fn characters(text: &str) -> (out: Vec<char>)
    ensures
        out@ == text@,
{
    let mut out: Vec<char> = Vec::new();
    for character in iter: text.chars()
        invariant
            out@ == iter.seq().take(iter.index() as int),
    {
        out.push(character);
    }
    out
}

/// Append characters to a text.
pub(crate) fn push_characters(text: &mut String, characters: &[char])
    ensures
        final(text)@ == old(text)@ + characters@,
{
    let ghost before = text@;
    let mut i: usize = 0;
    assert(before + characters@.take(0) =~= before);
    while i < characters.len()
        invariant
            i <= characters@.len(),
            text@ == before + characters@.take(i as int),
        decreases characters@.len() - i,
    {
        text.push(characters[i]);
        assert(before + characters@.take(i + 1) =~= (before + characters@.take(i as int)).push(
            characters@[i as int],
        ));
        i += 1;
    }
    assert(characters@.take(i as int) =~= characters@);
}

/// The text that characters spell.
pub(crate) fn text_of(characters: &[char]) -> (text: String)
    ensures
        text@ == characters@,
{
    let mut text = String::new();
    push_characters(&mut text, characters);
    assert(Seq::<char>::empty() + characters@ =~= characters@);
    text
}

/// Whether two texts are equal.
pub(crate) fn same_text(left: &String, right: &String) -> (same: bool)
    ensures
        same == (left@ == right@),
{
    *left == *right
}

} // verus!
