//! Dependency lists: reading the one a compiler wrote and writing the one a caller asked for.

use crate::error::{BypassModel, CcBypassReason, IoError};
use crate::json::{json_document, json_member, Json, JsonValue};
use crate::path::{same_place, FilePath};
use crate::text::{characters, decode_text, shown_text, text_of};
use crate::views::seq_view;
use vstd::prelude::*;
use vstd::utf8::{decode_utf8, encode_utf8, valid_utf8};

verus! {

// Lines

/// A line without the carriage return that ends it.
pub open spec fn without_return(line: Seq<char>) -> Seq<char> {
    if line.len() > 0 && line.last() == '\r' {
        line.drop_last()
    } else {
        line
    }
}

/// The lines of a text, the first of them continuing `current`.
///
/// A line ends at a line feed, and a carriage return in front of that line feed is part of the
/// line's end. Text after the last line feed is a line of its own, as it stands.
pub open spec fn lines_from(current: Seq<char>, text: Seq<char>) -> Seq<Seq<char>>
    decreases text.len(),
{
    if text.len() == 0 {
        if current.len() == 0 {
            Seq::empty()
        } else {
            seq![current]
        }
    } else if text[0] == '\n' {
        seq![without_return(current)] + lines_from(Seq::empty(), text.skip(1))
    } else {
        lines_from(current.push(text[0]), text.skip(1))
    }
}

/// The lines of a text.
pub open spec fn lines(text: Seq<char>) -> Seq<Seq<char>> {
    lines_from(Seq::empty(), text)
}

/// A line without the tabs at its end.
pub open spec fn without_tabs(line: Seq<char>) -> Seq<char>
    decreases line.len(),
{
    if line.len() > 0 && line.last() == '\t' {
        without_tabs(line.drop_last())
    } else {
        line
    }
}

/// Whether a physical line is continued on the next one.
pub open spec fn continues(line: Seq<char>) -> bool {
    let line = without_return(line);
    line.len() > 0 && line.last() == '\\'
}

/// What a physical line contributes to the line that it is part of.
pub open spec fn line_body(line: Seq<char>) -> Seq<char> {
    let kept = without_return(line);
    if continues(line) {
        without_tabs(kept.drop_last())
    } else {
        without_tabs(kept)
    }
}

/// The text with continued lines joined by a space; none if the last line is continued.
pub open spec fn joined_lines(continued: bool, list: Seq<Seq<char>>) -> Option<Seq<char>>
    decreases list.len(),
{
    if list.len() == 0 {
        if continued {
            None
        } else {
            Some(Seq::empty())
        }
    } else {
        let gap = if continued { seq![' '] } else { Seq::empty() };
        let end = if continues(list[0]) { Seq::empty() } else { seq!['\n'] };
        match joined_lines(continues(list[0]), list.skip(1)) {
            Some(rest) => Some(gap + line_body(list[0]) + end + rest),
            None => None,
        }
    }
}

/// What follows the first rule separator, `: `, of a line.
pub open spec fn after_separator(line: Seq<char>) -> Option<Seq<char>>
    decreases line.len(),
{
    if line.len() < 2 {
        None
    } else if line[0] == ':' && line[1] == ' ' {
        Some(line.skip(2))
    } else {
        after_separator(line.skip(1))
    }
}

/// Whether a line ends in a colon that make would take for the end of a rule's targets: one that
/// is neither escaped nor part of a comment, behind at least one target.
///
/// `named` says whether a target stands in front of the line.
pub open spec fn ends_targets(named: bool, line: Seq<char>) -> bool
    decreases line.len(),
{
    if line.len() == 0 || line[0] == '#' {
        false
    } else if line[0] == '\\' {
        line.len() > 1 && ends_targets(true, line.skip(2))
    } else if line.len() == 1 {
        named && line[0] == ':'
    } else {
        ends_targets(named || !(line[0] == ' ' || line[0] == '\t' || line[0] == ':'), line.skip(1))
    }
}

/// Whether a line is a rule: it holds a separator, or is a rule without prerequisites.
pub open spec fn is_rule(line: Seq<char>) -> bool {
    after_separator(line) is Some || ends_targets(false, line)
}

/// The first line that is a rule.
pub open spec fn first_rule_line(list: Seq<Seq<char>>) -> Option<Seq<char>>
    decreases list.len(),
{
    if list.len() == 0 {
        None
    } else if is_rule(list[0]) {
        Some(list[0])
    } else {
        first_rule_line(list.skip(1))
    }
}

/// The prerequisites of the first rule, if there is a rule and it has any.
pub open spec fn first_rule(list: Seq<Seq<char>>) -> Option<Seq<char>> {
    match first_rule_line(list) {
        Some(line) => after_separator(line),
        None => None,
    }
}

// Prerequisites

/// Put words in front of a list of words, unless reading that list failed.
pub open spec fn with_words(
    words: Seq<Seq<char>>,
    rest: Result<Seq<Seq<char>>, BypassModel>,
) -> Result<Seq<Seq<char>>, BypassModel> {
    match rest {
        Ok(more) => Ok(words + more),
        Err(reason) => Err(reason),
    }
}

/// The word that has been read so far, if there is one.
pub open spec fn pending_word(current: Seq<char>) -> Seq<Seq<char>> {
    if current.len() == 0 {
        Seq::empty()
    } else {
        seq![current]
    }
}

/// The words of a prerequisite list, the first of them continuing `current`.
///
/// Words are separated by spaces and tabs. `\ ` and `\#` stand for a space and a `#`, and `$$`
/// stands for a `$`; any other use of `\` or `$` is an error.
pub open spec fn words_from(current: Seq<char>, value: Seq<char>) -> Result<
    Seq<Seq<char>>,
    BypassModel,
>
    decreases value.len(),
{
    if value.len() == 0 {
        Ok(pending_word(current))
    } else if value[0] == ' ' || value[0] == '\t' {
        with_words(pending_word(current), words_from(Seq::empty(), value.skip(1)))
    } else if value[0] == '\\' {
        if value.len() == 1 {
            Err(BypassModel::MalformedDepfile("trailing escape character"@))
        } else if value[1] == ' ' || value[1] == '#' {
            words_from(current.push(value[1]), value.skip(2))
        } else {
            Err(BypassModel::MalformedDepfile("unmodeled escape \\"@.push(value[1])))
        }
    } else if value[0] == '$' {
        if value.len() == 1 {
            Err(BypassModel::MalformedDepfile("trailing variable reference"@))
        } else if value[1] == '$' {
            words_from(current.push('$'), value.skip(2))
        } else {
            Err(BypassModel::MalformedDepfile("unmodeled variable reference $"@.push(value[1])))
        }
    } else {
        words_from(current.push(value[0]), value.skip(1))
    }
}

/// The files that a dependency list names, or why it cannot be read.
pub open spec fn parsed(contents: Seq<char>) -> Result<Seq<Seq<char>>, BypassModel> {
    match joined_lines(false, lines(contents)) {
        None => Err(BypassModel::MalformedDepfile("unterminated line continuation"@)),
        Some(joined) => match first_rule(lines(joined)) {
            None => Err(BypassModel::MalformedDepfile("no dependency rule"@)),
            Some(prerequisites) => words_from(Seq::empty(), prerequisites),
        },
    }
}

/// Split a text into its lines.
fn split_lines(text: &[char]) -> (list: Vec<Vec<char>>)
    ensures
        seq_view(list@) == lines(text@),
{
    let mut list: Vec<Vec<char>> = Vec::new();
    let mut current: Vec<char> = Vec::new();
    let mut i: usize = 0;
    proof {
        assert(text@.skip(0) =~= text@);
        assert(current@ =~= Seq::<char>::empty());
        assert(seq_view(list@) + lines_from(current@, text@) =~= lines(text@));
    }
    while i < text.len()
        invariant
            i <= text@.len(),
            seq_view(list@) + lines_from(current@, text@.skip(i as int)) == lines(text@),
        decreases text@.len() - i,
    {
        let ghost rest = text@.skip(i as int);
        let ghost before = seq_view(list@);
        assert(rest.skip(1) =~= text@.skip(i + 1));
        if text[i] == '\n' {
            let ghost line = current@;
            drop_return(&mut current);
            list.push(current);
            current = Vec::new();
            proof {
                assert(current@ =~= Seq::<char>::empty());
                assert(seq_view(list@) =~= before.push(without_return(line)));
                assert(seq_view(list@) + lines(rest.skip(1)) =~= before + (seq![
                    without_return(line),
                ] + lines(rest.skip(1))));
            }
        } else {
            current.push(text[i]);
        }
        i += 1;
    }
    let ghost before = seq_view(list@);
    assert(text@.skip(i as int) =~= Seq::<char>::empty());
    if current.len() > 0 {
        let ghost line = current@;
        list.push(current);
        assert(seq_view(list@) =~= before + seq![line]);
    } else {
        assert(seq_view(list@) =~= before + Seq::<Seq<char>>::empty());
    }
    list
}

/// Drop the carriage return that ends a line.
fn drop_return(line: &mut Vec<char>)
    ensures
        final(line)@ == without_return(old(line)@),
{
    if line.len() > 0 && line[line.len() - 1] == '\r' {
        let ghost before = line@;
        let dropped = line.pop();
        assert(line@ =~= before.drop_last());
    }
}

/// Drop the tabs at the end of a line.
fn drop_tabs(line: &mut Vec<char>)
    ensures
        final(line)@ == without_tabs(old(line)@),
{
    let ghost goal = without_tabs(line@);
    while line.len() > 0 && line[line.len() - 1] == '\t'
        invariant
            without_tabs(line@) == goal,
        decreases line@.len(),
    {
        let ghost before = line@;
        let dropped = line.pop();
        assert(line@ =~= before.drop_last());
    }
}

fn malformed(message: &str) -> (reason: CcBypassReason)
    ensures
        reason@ == BypassModel::MalformedDepfile(message@),
{
    CcBypassReason::MalformedDepfile(message.to_owned())
}

fn malformed_at(message: &str, character: char) -> (reason: CcBypassReason)
    ensures
        reason@ == BypassModel::MalformedDepfile(message@.push(character)),
{
    let mut text = message.to_owned();
    text.push(character);
    CcBypassReason::MalformedDepfile(text)
}

/// Join physical lines the compiler wrapped with a trailing backslash.
pub fn join_continuations(contents: &str) -> (joined: Result<String, CcBypassReason>)
    ensures
        match joined {
            Ok(text) => joined_lines(false, lines(contents@)) == Some(text@),
            Err(reason) => joined_lines(false, lines(contents@)) is None && reason@
                == BypassModel::MalformedDepfile("unterminated line continuation"@),
        },
{
    let list = split_lines(&characters(contents));
    let ghost all = seq_view(list@);
    let mut joined: Vec<char> = Vec::new();
    let mut continued = false;
    let mut i: usize = 0;
    let ghost goal = joined_lines(false, all);
    proof {
        assert(all.skip(0) =~= all);
        if let Some(rest) = goal {
            assert(joined@ + rest =~= rest);
        }
    }
    while i < list.len()
        invariant
            i <= list@.len(),
            all == seq_view(list@),
            goal == (match joined_lines(continued, all.skip(i as int)) {
                Some(rest) => Some(joined@ + rest),
                None => None,
            }),
        decreases list@.len() - i,
    {
        let ghost before = joined@;
        let ghost line = all[i as int];
        proof {
            assert(all.skip(i as int)[0] == line);
            assert(all.skip(i as int).skip(1) =~= all.skip(i + 1));
        }
        let mut body: Vec<char> = vstd::slice::slice_to_vec(&list[i]);
        drop_return(&mut body);
        let continues_here = body.len() > 0 && body[body.len() - 1] == '\\';
        if continues_here {
            let ghost kept = body@;
            let dropped = body.pop();
            assert(body@ =~= kept.drop_last());
        }
        drop_tabs(&mut body);
        let ghost gap: Seq<char> = if continued { seq![' '] } else { Seq::empty() };
        let ghost end: Seq<char> = if continues_here { Seq::empty() } else { seq!['\n'] };
        if continued {
            joined.push(' ');
        }
        assert(joined@ =~= before + gap);
        joined.append(&mut body);
        if !continues_here {
            joined.push('\n');
        }
        proof {
            assert(joined@ =~= before + (gap + line_body(line) + end));
            if let Some(rest) = joined_lines(continues_here, all.skip(i + 1)) {
                assert(before + (gap + line_body(line) + end + rest) =~= joined@ + rest);
            }
        }
        continued = continues_here;
        i += 1;
    }
    assert(all.skip(i as int) =~= Seq::<Seq<char>>::empty());
    if continued {
        Err(malformed("unterminated line continuation"))
    } else {
        assert(joined@ + Seq::<char>::empty() =~= joined@);
        Ok(text_of(&joined))
    }
}

/// The prerequisites that follow the first rule separator of a line.
fn split_rule(line: &[char]) -> (prerequisites: Option<Vec<char>>)
    ensures
        match prerequisites {
            Some(text) => after_separator(line@) == Some(text@),
            None => after_separator(line@) is None,
        },
{
    let length: usize = line.len();
    let mut i: usize = 0;
    assert(line@.skip(0) =~= line@);
    while length - i >= 2
        invariant
            length == line@.len(),
            i <= length,
            after_separator(line@) == after_separator(line@.skip(i as int)),
        decreases line@.len() - i,
    {
        let ghost rest = line@.skip(i as int);
        if line[i] == ':' && line[i + 1] == ' ' {
            assert(rest.skip(2) =~= line@.skip(i + 2));
            return Some(vstd::slice::slice_to_vec(
                vstd::slice::slice_subrange(line, i + 2, length),
            ));
        }
        assert(rest.skip(1) =~= line@.skip(i + 1));
        i += 1;
    }
    None
}

/// Whether a line without a rule separator is a rule without prerequisites.
fn is_empty_rule(line: &[char]) -> (empty: bool)
    ensures
        empty == ends_targets(false, line@),
{
    let length: usize = line.len();
    let mut named = false;
    let mut i: usize = 0;
    assert(line@.skip(0) =~= line@);
    while i < length
        invariant
            length == line@.len(),
            i <= length,
            ends_targets(false, line@) == ends_targets(named, line@.skip(i as int)),
        decreases length - i,
    {
        let ghost rest = line@.skip(i as int);
        assert(rest[0] == line@[i as int]);
        if line[i] == '#' {
            return false;
        }
        if line[i] == '\\' {
            if length - i == 1 {
                return false;
            }
            assert(rest.skip(2) =~= line@.skip(i + 2));
            named = true;
            i += 2;
        } else if length - i == 1 {
            return named && line[i] == ':';
        } else {
            assert(rest.skip(1) =~= line@.skip(i + 1));
            named = named || !(line[i] == ' ' || line[i] == '\t' || line[i] == ':');
            i += 1;
        }
    }
    false
}

/// Split a prerequisite list, honoring exactly the escapes make defines.
///
/// Anything else escaped is a spelling this parser does not model, and a
/// mis-parsed prerequisite would silently drop an input from the key.
pub fn split_prerequisites(value: &str) -> (files: Result<Vec<FilePath>, CcBypassReason>)
    ensures
        files_read(files, words_from(Seq::empty(), value@)),
{
    let text = characters(value);
    let ghost goal = words_from(Seq::empty(), text@);
    let mut files: Vec<FilePath> = Vec::new();
    let ghost mut words: Seq<Seq<char>> = Seq::empty();
    let mut current = String::new();
    let length: usize = text.len();
    let mut i: usize = 0;
    proof {
        assert(text@.skip(0) =~= text@);
        assert(current@ =~= Seq::<char>::empty());
        if let Ok(rest) = goal {
            assert(words + rest =~= rest);
        }
        assert(seq_view(files@) =~= paths_of(words));
    }
    while i < length
        invariant
            length == text@.len(),
            i <= length,
            goal == words_from(Seq::empty(), value@),
            seq_view(files@) == paths_of(words),
            goal == with_words(words, words_from(current@, text@.skip(i as int))),
        decreases text@.len() - i,
    {
        let ghost rest = text@.skip(i as int);
        let character = text[i];
        proof {
            assert(rest[0] == character);
            assert(rest.skip(1) =~= text@.skip(i + 1));
            if i + 1 < text@.len() {
                assert(rest[1] == text@[i + 1]);
                assert(rest.skip(2) =~= text@.skip(i + 2));
            }
        }
        if character == ' ' || character == '\t' {
            let ghost before = words;
            let ghost word = current@;
            if !current.as_str().is_empty() {
                let ghost listed = seq_view(files@);
                files.push(FilePath::from_text(current.as_str()));
                current = String::new();
                proof {
                    words = words.push(word);
                    assert(seq_view(files@) =~= listed.push(encode_utf8(word)));
                    assert(paths_of(words) =~= paths_of(before).push(encode_utf8(word)));
                }
            }
            proof {
                assert(current@ =~= Seq::<char>::empty());
                if let Ok(more) = words_from(Seq::empty(), text@.skip(i + 1)) {
                    assert(before + (pending_word(word) + more) =~= words + more);
                }
            }
            i += 1;
        } else if character == '\\' {
            if i + 1 == length {
                return Err(malformed("trailing escape character"));
            }
            let escaped = text[i + 1];
            if escaped == ' ' || escaped == '#' {
                current.push(escaped);
                i += 2;
            } else {
                return Err(malformed_at("unmodeled escape \\", escaped));
            }
        } else if character == '$' {
            if i + 1 == length {
                return Err(malformed("trailing variable reference"));
            }
            let escaped = text[i + 1];
            if escaped == '$' {
                current.push('$');
                i += 2;
            } else {
                return Err(malformed_at("unmodeled variable reference $", escaped));
            }
        } else {
            current.push(character);
            i += 1;
        }
    }
    assert(text@.skip(i as int) =~= Seq::<char>::empty());
    let ghost before = words;
    let ghost word = current@;
    if !current.as_str().is_empty() {
        let ghost listed = seq_view(files@);
        files.push(FilePath::from_text(current.as_str()));
        proof {
            words = words.push(word);
            assert(seq_view(files@) =~= listed.push(encode_utf8(word)));
            assert(paths_of(words) =~= paths_of(before).push(encode_utf8(word)));
        }
    }
    assert(before + pending_word(word) =~= words);
    Ok(files)
}

/// Whether a reading gives the files that the words name, or the same reason for failing.
pub open spec fn files_read(
    files: Result<Vec<FilePath>, CcBypassReason>,
    words: Result<Seq<Seq<char>>, BypassModel>,
) -> bool {
    match files {
        Ok(files) => words is Ok && seq_view(files@) == paths_of(words->Ok_0),
        Err(reason) => words == Err::<Seq<Seq<char>>, BypassModel>(reason@),
    }
}

/// The paths that words spell.
pub open spec fn paths_of(words: Seq<Seq<char>>) -> Seq<Seq<u8>> {
    words.map_values(|word: Seq<char>| encode_utf8(word))
}

/// A parsed GNU-style dependency list.
#[derive(Debug, Clone, PartialEq, Eq)]
pub struct CcDepfile {
    /// Prerequisite files named by the first rule.
    pub files: Vec<FilePath>,
}

impl CcDepfile {
    /// Parse a GNU-style dependency list.
    ///
    /// Only the first rule is read. The adapter never passes `-MP`, so a
    /// well-formed file the adapter asked for has exactly one rule, and
    /// anything further is ignored rather than guessed at, also where the first
    /// rule names nothing.
    pub fn parse(contents: &str) -> (depfile: Result<CcDepfile, CcBypassReason>)
        ensures
            depfile_read(depfile, parsed(contents@)),
    {
        let joined = match join_continuations(contents) {
            Ok(joined) => joined,
            Err(reason) => {
                return Err(reason);
            },
        };
        let list = split_lines(&characters(joined.as_str()));
        let ghost all = seq_view(list@);
        let mut i: usize = 0;
        assert(all.skip(0) =~= all);
        while i < list.len()
            invariant
                i <= list@.len(),
                all == seq_view(list@),
                all == lines(joined@),
                joined_lines(false, lines(contents@)) == Some(joined@),
                first_rule_line(all) == first_rule_line(all.skip(i as int)),
            decreases list@.len() - i,
        {
            proof {
                assert(all.skip(i as int)[0] == list@[i as int]@);
                assert(all.skip(i as int).skip(1) =~= all.skip(i + 1));
            }
            if let Some(prerequisites) = split_rule(&list[i]) {
                return match split_prerequisites(text_of(&prerequisites).as_str()) {
                    Ok(files) => Ok(CcDepfile { files }),
                    Err(reason) => Err(reason),
                };
            }
            if is_empty_rule(&list[i]) {
                return Err(malformed("no dependency rule"));
            }
            i += 1;
        }
        assert(all.skip(i as int) =~= Seq::<Seq<char>>::empty());
        Err(malformed("no dependency rule"))
    }
}

// Reading

/// The families of compiler drivers, by the dependency output that they write.
#[derive(Debug, Clone, Copy, PartialEq, Eq, Structural)]
pub enum CcCompilerFamily {
    /// Drivers that write a GNU-style dependency list.
    Gnu,
    /// Drivers that write MSVC's `/sourceDependencies` JSON.
    Msvc,
}

impl CcCompilerFamily {
    /// Whether drivers of this family write MSVC's dependency output.
    pub fn is_msvc(self) -> (msvc: bool)
        ensures
            msvc == (self == CcCompilerFamily::Msvc),
    {
        match self {
            CcCompilerFamily::Msvc => true,
            CcCompilerFamily::Gnu => false,
        }
    }
}

/// Whether a source-dependency record names C++ modules that the compilation used.
pub open spec fn names_modules(data: Json) -> bool {
    ||| (json_member(data, "ImportedModules"@) matches Some(Json::Array(modules)) && modules.len()
        > 0)
    ||| (json_member(data, "ProvidedModule"@) matches Some(module) && module != Json::Null
        && module != Json::Text(Seq::empty()))
}

/// Whether every item of a list is text.
pub open spec fn all_text(items: Seq<Json>) -> bool {
    forall|i: int| 0 <= i < items.len() ==> #[trigger] items[i] is Text
}

/// The words of a list of texts.
pub open spec fn texts_of(items: Seq<Json>) -> Seq<Seq<char>> {
    items.map_values(|item: Json| item->Text_0)
}

/// The files that MSVC's source dependencies name, or why they cannot be read.
pub open spec fn source_dependencies(document: Json) -> Result<Seq<Seq<char>>, BypassModel> {
    match json_member(document, "Data"@) {
        Some(Json::Object(members)) => {
            let data = Json::Object(members);
            if names_modules(data) {
                Err(BypassModel::MalformedDepfile("C++ module dependencies are not modeled"@))
            } else {
                match json_member(data, "Includes"@) {
                    Some(Json::Array(includes)) => if all_text(includes) {
                        Ok(texts_of(includes))
                    } else {
                        Err(BypassModel::MalformedDepfile("non-string include path"@))
                    },
                    _ => Err(BypassModel::MalformedDepfile("missing Includes array"@)),
                }
            }
        },
        _ => Err(BypassModel::MalformedDepfile("missing Data object"@)),
    }
}

/// What reading a GNU-style dependency list gives, from what reading its file gave.
pub open spec fn list_read(path: Seq<u8>, contents: Result<Vec<u8>, IoError>) -> Result<
    Seq<Seq<char>>,
    BypassModel,
> {
    match contents {
        Ok(bytes) => if valid_utf8(bytes@) {
            parsed(decode_utf8(bytes@))
        } else {
            Err(
                BypassModel::DepfileRead { path, message: "stream did not contain valid UTF-8"@ },
            )
        },
        Err(error) => Err(BypassModel::DepfileRead { path, message: error.message@ }),
    }
}

/// What reading MSVC's source dependencies gives, from what reading their file gave.
pub open spec fn msvc_read(path: Seq<u8>, contents: Result<Vec<u8>, IoError>) -> Result<
    Seq<Seq<char>>,
    BypassModel,
> {
    match contents {
        Ok(bytes) => match json_document(bytes@) {
            Ok(document) => source_dependencies(document),
            Err(message) => Err(BypassModel::MalformedDepfile(message)),
        },
        Err(error) => Err(BypassModel::DepfileRead { path, message: error.message@ }),
    }
}

/// Whether a reading gives the dependency list of these words, or the same reason for failing.
pub open spec fn depfile_read(
    depfile: Result<CcDepfile, CcBypassReason>,
    words: Result<Seq<Seq<char>>, BypassModel>,
) -> bool {
    match depfile {
        Ok(depfile) => words is Ok && seq_view(depfile.files@) == paths_of(words->Ok_0),
        Err(reason) => words == Err::<Seq<Seq<char>>, BypassModel>(reason@),
    }
}

impl CcDepfile {
    /// Read and parse the dependency list the compiler wrote at `path`, whose file gave
    /// `contents`.
    pub fn read(path: &FilePath, contents: Result<Vec<u8>, IoError>) -> (depfile: Result<
        CcDepfile,
        CcBypassReason,
    >)
        ensures
            depfile_read(depfile, list_read(path@, contents)),
    {
        match contents {
            Ok(bytes) => match decode_text(bytes) {
                Some(text) => CcDepfile::parse(text.as_str()),
                None => Err(
                    CcBypassReason::DepfileRead {
                        path: path.duplicate(),
                        message: "stream did not contain valid UTF-8".to_owned(),
                    },
                ),
            },
            Err(error) => Err(
                CcBypassReason::DepfileRead { path: path.duplicate(), message: error.message },
            ),
        }
    }

    /// Read the dependency output emitted by the selected compiler family.
    pub fn read_for(
        path: &FilePath,
        family: CcCompilerFamily,
        contents: Result<Vec<u8>, IoError>,
    ) -> (depfile: Result<CcDepfile, CcBypassReason>)
        ensures
            family == CcCompilerFamily::Msvc ==> depfile_read(depfile, msvc_read(path@, contents)),
            family == CcCompilerFamily::Gnu ==> depfile_read(depfile, list_read(path@, contents)),
    {
        if family.is_msvc() {
            CcDepfile::read_msvc(path, contents)
        } else {
            CcDepfile::read(path, contents)
        }
    }

    /// Read MSVC's `/sourceDependencies` JSON output.
    pub fn read_msvc(path: &FilePath, contents: Result<Vec<u8>, IoError>) -> (depfile: Result<
        CcDepfile,
        CcBypassReason,
    >)
        ensures
            depfile_read(depfile, msvc_read(path@, contents)),
    {
        match contents {
            Ok(bytes) => match JsonValue::from_bytes(&bytes) {
                Ok(document) => CcDepfile::from_source_dependencies(&document),
                Err(message) => Err(CcBypassReason::MalformedDepfile(message)),
            },
            Err(error) => Err(
                CcBypassReason::DepfileRead { path: path.duplicate(), message: error.message },
            ),
        }
    }

    /// The dependency list that MSVC's source dependencies spell.
    pub fn from_source_dependencies(document: &JsonValue) -> (depfile: Result<
        CcDepfile,
        CcBypassReason,
    >)
        ensures
            depfile_read(depfile, source_dependencies(document@)),
    {
        let data = match document.member("Data") {
            Some(data) => data,
            None => {
                return Err(malformed("missing Data object"));
            },
        };
        if !matches!(data, JsonValue::Object(_)) {
            return Err(malformed("missing Data object"));
        }
        if CcDepfile::uses_modules(data) {
            return Err(malformed("C++ module dependencies are not modeled"));
        }
        let includes = match data.member("Includes") {
            Some(JsonValue::Array(includes)) => includes,
            _ => {
                return Err(malformed("missing Includes array"));
            },
        };
        let ghost items = json_member(data@, "Includes"@)->Some_0->Array_0;
        let mut files: Vec<FilePath> = Vec::new();
        let mut i: usize = 0;
        while i < includes.len()
            invariant
                i <= includes@.len(),
                items.len() == includes@.len(),
                forall|j: int|
                    0 <= j < items.len() ==> #[trigger] items[j] == includes@[j]@,
                files@.len() == i,
                forall|j: int| 0 <= j < i ==> #[trigger] items[j] is Text,
                forall|j: int|
                    0 <= j < i ==> (#[trigger] files@[j])@ == encode_utf8(items[j]->Text_0),
                json_member(document@, "Data"@) == Some(data@),
                data@ is Object,
                !names_modules(data@),
                json_member(data@, "Includes"@) == Some(Json::Array(items)),
            decreases includes@.len() - i,
        {
            match &includes[i] {
                JsonValue::Text(text) => {
                    assert(items[i as int] == Json::Text(text@));
                    files.push(FilePath::from_text(text.as_str()));
                },
                _ => {
                    assert(items[i as int] !is Text);
                    return Err(malformed("non-string include path"));
                },
            }
            i += 1;
        }
        proof {
            assert(all_text(items));
            assert(seq_view(files@) =~= paths_of(texts_of(items)));
        }
        Ok(CcDepfile { files })
    }

    /// Whether a source-dependency record names C++ modules that the compilation used.
    fn uses_modules(data: &JsonValue) -> (uses: bool)
        ensures
            uses == names_modules(data@),
    {
        if let Some(JsonValue::Array(modules)) = data.member("ImportedModules") {
            if modules.len() > 0 {
                return true;
            }
        }
        match data.member("ProvidedModule") {
            None => false,
            Some(JsonValue::Null) => false,
            Some(JsonValue::Text(name)) => {
                if name.as_str().is_empty() {
                    assert(name@ =~= Seq::<char>::empty());
                    false
                } else {
                    true
                }
            },
            Some(_) => true,
        }
    }
}

impl Default for CcDepfile {
    fn default() -> (depfile: CcDepfile)
        ensures
            depfile.files@ == Seq::<FilePath>::empty(),
    {
        CcDepfile { files: Vec::new() }
    }
}

// Rendering

/// A target that a rendered rule names.
#[derive(Debug, Clone, PartialEq, Eq)]
pub struct DepfileTarget {
    /// The target's name.
    pub name: String,
    /// Whether the name is quoted for make, as `-MQ` asks, or written as given, as `-MT` asks.
    pub quoted: bool,
}

/// What a [`DepfileTarget`] says.
pub struct TargetModel {
    pub name: Seq<char>,
    pub quoted: bool,
}

impl View for DepfileTarget {
    type V = TargetModel;

    open spec fn view(&self) -> TargetModel {
        TargetModel { name: self.name@, quoted: self.quoted }
    }
}

/// How make quotes a character.
pub open spec fn escaped_character(character: char) -> Seq<char> {
    if character == ' ' {
        seq!['\\', ' ']
    } else if character == '#' {
        seq!['\\', '#']
    } else if character == '$' {
        seq!['$', '$']
    } else {
        seq![character]
    }
}

/// How make quotes a word.
pub open spec fn escaped(word: Seq<char>) -> Seq<char>
    decreases word.len(),
{
    if word.len() == 0 {
        Seq::empty()
    } else {
        escaped_character(word[0]) + escaped(word.skip(1))
    }
}

/// A target as a rule spells it.
pub open spec fn target_text(target: TargetModel) -> Seq<char> {
    if target.quoted {
        escaped(target.name)
    } else {
        target.name
    }
}

/// Targets that follow another one, each behind a space.
pub open spec fn further_targets(targets: Seq<TargetModel>) -> Seq<char>
    decreases targets.len(),
{
    if targets.len() == 0 {
        Seq::empty()
    } else {
        seq![' '] + target_text(targets[0]) + further_targets(targets.skip(1))
    }
}

/// The targets of a rule.
pub open spec fn targets_text(targets: Seq<TargetModel>) -> Seq<char> {
    if targets.len() == 0 {
        Seq::empty()
    } else {
        target_text(targets[0]) + further_targets(targets.skip(1))
    }
}

/// The prerequisites of a rule, each on a line of its own.
pub open spec fn prerequisite_lines(files: Seq<Seq<u8>>) -> Seq<char>
    decreases files.len(),
{
    if files.len() == 0 {
        Seq::empty()
    } else {
        seq![' ', '\\', '\n', ' '] + escaped(shown_text(files[0])) + prerequisite_lines(
            files.skip(1),
        )
    }
}

/// An empty rule for every file but the source.
pub open spec fn phony_rules(files: Seq<Seq<u8>>, source: Seq<u8>) -> Seq<char>
    decreases files.len(),
{
    if files.len() == 0 {
        Seq::empty()
    } else if same_place(files[0], source) {
        phony_rules(files.skip(1), source)
    } else {
        escaped(shown_text(files[0])) + seq![':', '\n'] + phony_rules(files.skip(1), source)
    }
}

/// A whole dependency list.
pub open spec fn rendered(
    targets: Seq<TargetModel>,
    files: Seq<Seq<u8>>,
    source: Seq<u8>,
    phony_targets: bool,
) -> Seq<char> {
    let rules = if phony_targets { phony_rules(files, source) } else { Seq::empty() };
    targets_text(targets) + seq![':'] + prerequisite_lines(files) + seq!['\n'] + rules
}

/// Quote a word for make the way the driver does in a dependency list.
pub fn escape_make_word(word: &str) -> (quoted: String)
    ensures
        quoted@ == escaped(word@),
{
    let word = characters(word);
    let mut quoted = String::new();
    let mut i: usize = 0;
    proof {
        assert(word@.skip(0) =~= word@);
        assert(quoted@ + escaped(word@) =~= escaped(word@));
    }
    while i < word.len()
        invariant
            i <= word@.len(),
            quoted@ + escaped(word@.skip(i as int)) == escaped(word@),
        decreases word@.len() - i,
    {
        let ghost before = quoted@;
        let ghost rest = word@.skip(i as int);
        let character = word[i];
        assert(rest.skip(1) =~= word@.skip(i + 1));
        if character == ' ' {
            quoted.push('\\');
            quoted.push(' ');
        } else if character == '#' {
            quoted.push('\\');
            quoted.push('#');
        } else if character == '$' {
            quoted.push('$');
            quoted.push('$');
        } else {
            quoted.push(character);
        }
        proof {
            assert(quoted@ =~= before + escaped_character(character));
            assert(before + (escaped_character(character) + escaped(rest.skip(1))) =~= quoted@
                + escaped(rest.skip(1)));
        }
        i += 1;
    }
    proof {
        assert(word@.skip(i as int) =~= Seq::<char>::empty());
        assert(quoted@ + Seq::<char>::empty() =~= quoted@);
    }
    quoted
}

impl CcDepfile {
    /// Render the dependency list a caller asked for, the way the driver
    /// writes one: the rule's targets, then every prerequisite on its own
    /// continued line, then, for `-MP`, an empty rule per header so make does
    /// not fail when one is deleted. `source` is the file that was compiled
    /// and gets no phony rule, exactly as the driver leaves it out.
    ///
    /// Escapes are the ones `parse` reads back: a space, a `#`, and a `$` in
    /// a path. A quoted target gets the same treatment; a literal one is
    /// written as given, which is what `-MT` promises.
    pub fn render(
        targets: &[DepfileTarget],
        files: &[FilePath],
        source: &FilePath,
        phony_targets: bool,
    ) -> (text: String)
        ensures
            text@ == rendered(seq_view(targets@), seq_view(files@), source@, phony_targets),
    {
        let ghost target_list = seq_view(targets@);
        let ghost file_list = seq_view(files@);
        let mut text = String::new();
        let mut i: usize = 0;
        while i < targets.len()
            invariant
                i <= targets@.len(),
                target_list == seq_view(targets@),
                i == 0 ==> text@ == Seq::<char>::empty(),
                i > 0 ==> text@ + further_targets(target_list.skip(i as int)) == targets_text(
                    target_list,
                ),
            decreases targets@.len() - i,
        {
            let ghost before = text@;
            let ghost rest = target_list.skip(i as int);
            if i > 0 {
                text.push(' ');
            }
            let ghost start = text@;
            let target = &targets[i];
            if target.quoted {
                text.append(escape_make_word(target.name.as_str()).as_str());
            } else {
                text.append(target.name.as_str());
            }
            proof {
                assert(text@ =~= start + target_text(target@));
                assert(target_list[i as int] == target@);
                assert(rest.skip(1) =~= target_list.skip(i + 1));
                if i == 0 {
                    assert(start =~= Seq::<char>::empty());
                    assert(text@ =~= target_text(target@));
                } else {
                    assert(rest[0] == target@);
                    assert(before + (seq![' '] + target_text(target@) + further_targets(
                        rest.skip(1),
                    )) =~= text@ + further_targets(rest.skip(1)));
                }
            }
            i += 1;
        }
        proof {
            assert(target_list.skip(i as int) =~= Seq::<TargetModel>::empty());
            assert(text@ =~= targets_text(target_list));
        }
        text.push(':');
        let ghost head = text@;
        let mut i: usize = 0;
        proof {
            assert(file_list.skip(0) =~= file_list);
        }
        while i < files.len()
            invariant
                i <= files@.len(),
                file_list == seq_view(files@),
                text@ + prerequisite_lines(file_list.skip(i as int)) == head + prerequisite_lines(
                    file_list,
                ),
            decreases files@.len() - i,
        {
            let ghost before = text@;
            let ghost rest = file_list.skip(i as int);
            text.push(' ');
            text.push('\\');
            text.push('\n');
            text.push(' ');
            text.append(escape_make_word(files[i].to_text_lossy().as_str()).as_str());
            proof {
                assert(rest[0] == files@[i as int]@);
                assert(rest.skip(1) =~= file_list.skip(i + 1));
                let line = seq![' ', '\\', '\n', ' '] + escaped(shown_text(rest[0]));
                assert(text@ =~= before + line);
                assert(before + (line + prerequisite_lines(rest.skip(1))) =~= text@
                    + prerequisite_lines(rest.skip(1)));
            }
            i += 1;
        }
        proof {
            assert(file_list.skip(i as int) =~= Seq::<Seq<u8>>::empty());
            assert(text@ =~= head + prerequisite_lines(file_list));
        }
        text.push('\n');
        if phony_targets {
            let ghost head = text@;
            let mut i: usize = 0;
            proof {
                assert(file_list.skip(0) =~= file_list);
            }
            while i < files.len()
                invariant
                    i <= files@.len(),
                    file_list == seq_view(files@),
                    text@ + phony_rules(file_list.skip(i as int), source@) == head + phony_rules(
                        file_list,
                        source@,
                    ),
                decreases files@.len() - i,
            {
                let ghost before = text@;
                let ghost rest = file_list.skip(i as int);
                proof {
                    assert(rest[0] == files@[i as int]@);
                    assert(rest.skip(1) =~= file_list.skip(i + 1));
                }
                if !files[i].same_as(source) {
                    text.append(escape_make_word(files[i].to_text_lossy().as_str()).as_str());
                    text.push(':');
                    text.push('\n');
                    proof {
                        let rule = escaped(shown_text(rest[0])) + seq![':', '\n'];
                        assert(text@ =~= before + rule);
                        assert(before + (rule + phony_rules(rest.skip(1), source@)) =~= text@
                            + phony_rules(rest.skip(1), source@));
                    }
                }
                i += 1;
            }
            proof {
                assert(file_list.skip(i as int) =~= Seq::<Seq<u8>>::empty());
                assert(text@ =~= head + phony_rules(file_list, source@));
            }
        }
        assert(text@ =~= rendered(target_list, file_list, source@, phony_targets));
        text
    }
}

} // verus!
