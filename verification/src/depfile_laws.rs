//! What holds between writing a dependency list and reading one.

use crate::depfile::{
    after_separator, continues, depfile_read, ends_targets, escaped, escaped_character, files_read,
    first_rule, first_rule_line, further_targets, is_rule, joined_lines, line_body, lines,
    lines_from, list_read, msvc_read, parsed, paths_of, phony_rules, prerequisite_lines, rendered,
    source_dependencies, target_text, targets_text, with_words, without_return, without_tabs,
    words_from, CcDepfile, TargetModel,
};
use crate::error::{BypassModel, CcBypassReason, IoError};
use crate::json::{json_document, json_member, Json};
use crate::path::{path_parts, FilePath};
use crate::text::shown_text;
use crate::views::seq_view;
use vstd::prelude::*;
use vstd::utf8::{encode_utf8, valid_utf8};

verus! {

/// Whether make's quoting can carry a word: it is not empty and holds no tab, line feed or
/// backslash.
pub open spec fn word_can_be_quoted(word: Seq<char>) -> bool {
    &&& word.len() > 0
    &&& !word.contains('\t')
    &&& !word.contains('\n')
    &&& !word.contains('\\')
}

/// Whether the targets of a rule hold no rule of their own: with the rule's colon behind them, they
/// spell no rule but the one without prerequisites at their end.
pub open spec fn targets_hold_no_rule(targets: Seq<TargetModel>) -> bool {
    match joined_lines(false, lines(targets_text(targets) + seq![':'])) {
        Some(joined) => {
            let list = lines(joined);
            &&& list.len() > 0
            &&& first_rule_line(list.drop_last()) is None
            &&& after_separator(list.last()) is None
        },
        None => false,
    }
}

// How a text divides into lines

/// The lines that end within a text.
spec fn full_lines(current: Seq<char>, text: Seq<char>) -> Seq<Seq<char>>
    decreases text.len(),
{
    if text.len() == 0 {
        Seq::empty()
    } else if text[0] == '\n' {
        seq![without_return(current)] + full_lines(Seq::empty(), text.skip(1))
    } else {
        full_lines(current.push(text[0]), text.skip(1))
    }
}

/// The line that a text leaves unfinished.
spec fn open_line(current: Seq<char>, text: Seq<char>) -> Seq<char>
    decreases text.len(),
{
    if text.len() == 0 {
        current
    } else if text[0] == '\n' {
        open_line(Seq::empty(), text.skip(1))
    } else {
        open_line(current.push(text[0]), text.skip(1))
    }
}

proof fn lemma_lines_divide(current: Seq<char>, text: Seq<char>, more: Seq<char>)
    ensures
        lines_from(current, text + more) == full_lines(current, text) + lines_from(
            open_line(current, text),
            more,
        ),
    decreases text.len(),
{
    if text.len() == 0 {
        assert(text + more =~= more);
        assert(full_lines(current, text) + lines_from(current, more) =~= lines_from(current, more));
    } else {
        assert((text + more).skip(1) =~= text.skip(1) + more);
        if text[0] == '\n' {
            lemma_lines_divide(Seq::empty(), text.skip(1), more);
            let rest = full_lines(Seq::empty(), text.skip(1));
            let tail = lines_from(open_line(Seq::empty(), text.skip(1)), more);
            assert(seq![without_return(current)] + (rest + tail) =~= (seq![
                without_return(current),
            ] + rest) + tail);
        } else {
            lemma_lines_divide(current.push(text[0]), text.skip(1), more);
        }
    }
}

/// A text without line feeds only lengthens the line that it is on.
proof fn lemma_plain_text_stays_open(current: Seq<char>, text: Seq<char>)
    requires
        !text.contains('\n'),
    ensures
        full_lines(current, text) == Seq::<Seq<char>>::empty(),
        open_line(current, text) == current + text,
    decreases text.len(),
{
    if text.len() == 0 {
        assert(current + text =~= current);
    } else {
        assert(text.contains(text[0]));
        lemma_tail_holds_less(text, '\n');
        lemma_plain_text_stays_open(current.push(text[0]), text.skip(1));
        assert(current.push(text[0]) + text.skip(1) =~= current + text);
    }
}

proof fn lemma_tail_holds_less(text: Seq<char>, character: char)
    requires
        text.len() > 0,
        !text.contains(character),
    ensures
        !text.skip(1).contains(character),
        text[0] != character,
{
    assert(text.contains(text[0]));
    if text.skip(1).contains(character) {
        let i = choose|i: int| 0 <= i < text.skip(1).len() && text.skip(1)[i] == character;
        assert(text[i + 1] == character);
    }
}

/// A line without line feeds, and what follows its end.
proof fn lemma_line_ends(line: Seq<char>, more: Seq<char>)
    requires
        !line.contains('\n'),
    ensures
        lines(line + seq!['\n'] + more) == seq![without_return(line)] + lines(more),
{
    let none = Seq::<char>::empty();
    assert(line + seq!['\n'] + more =~= line + (seq!['\n'] + more));
    lemma_lines_divide(none, line, seq!['\n'] + more);
    lemma_plain_text_stays_open(none, line);
    assert(none + line =~= line);
    assert((seq!['\n'] + more).skip(1) =~= more);
    assert(full_lines(none, line) + lines_from(line, seq!['\n'] + more) =~= lines_from(
        line,
        seq!['\n'] + more,
    ));
}

// How continued lines join

/// What joining the first lines of a list gives.
spec fn joined_front(continued: bool, list: Seq<Seq<char>>) -> Seq<char>
    decreases list.len(),
{
    if list.len() == 0 {
        Seq::empty()
    } else {
        let gap = if continued { seq![' '] } else { Seq::empty() };
        let end = if continues(list[0]) { Seq::empty() } else { seq!['\n'] };
        gap + line_body(list[0]) + end + joined_front(continues(list[0]), list.skip(1))
    }
}

/// Whether the first lines of a list are continued behind them.
spec fn front_continues(continued: bool, list: Seq<Seq<char>>) -> bool
    decreases list.len(),
{
    if list.len() == 0 {
        continued
    } else {
        front_continues(continues(list[0]), list.skip(1))
    }
}

/// Put text in front of joined lines.
spec fn behind(front: Seq<char>, rest: Option<Seq<char>>) -> Option<Seq<char>> {
    match rest {
        Some(rest) => Some(front + rest),
        None => None,
    }
}

proof fn lemma_joined_divides(continued: bool, front: Seq<Seq<char>>, rest: Seq<Seq<char>>)
    ensures
        joined_lines(continued, front + rest) == behind(
            joined_front(continued, front),
            joined_lines(front_continues(continued, front), rest),
        ),
    decreases front.len(),
{
    if front.len() == 0 {
        assert(front + rest =~= rest);
        if let Some(text) = joined_lines(continued, rest) {
            assert(Seq::<char>::empty() + text =~= text);
        }
    } else {
        assert((front + rest).skip(1) =~= front.skip(1) + rest);
        let next = continues(front[0]);
        lemma_joined_divides(next, front.skip(1), rest);
        if let Some(text) = joined_lines(front_continues(next, front.skip(1)), rest) {
            let gap: Seq<char> = if continued { seq![' '] } else { Seq::empty() };
            let end: Seq<char> = if next { Seq::empty() } else { seq!['\n'] };
            let head = gap + line_body(front[0]) + end;
            assert(head + (joined_front(next, front.skip(1)) + text) =~= (head + joined_front(
                next,
                front.skip(1),
            )) + text);
        }
    }
}

proof fn lemma_joined_line(continued: bool, line: Seq<char>, rest: Seq<Seq<char>>)
    ensures
        joined_lines(continued, seq![line] + rest) == behind(
            (if continued { seq![' '] } else { Seq::empty() }) + line_body(line) + (if continues(
                line,
            ) { Seq::empty() } else { seq!['\n'] }),
            joined_lines(continues(line), rest),
        ),
{
    assert((seq![line] + rest).skip(1) =~= rest);
}

// Rule separators

/// A separator that a line ends with is found, unless there is an earlier one.
proof fn lemma_separator_found(line: Seq<char>, rest: Seq<char>)
    requires
        after_separator(line + seq![':']) is None,
    ensures
        after_separator(line + seq![':', ' '] + rest) == Some(rest),
    decreases line.len(),
{
    let whole = line + seq![':', ' '] + rest;
    if line.len() == 0 {
        assert(whole.skip(2) =~= rest);
    } else {
        let short = line + seq![':'];
        assert(short.len() >= 2);
        assert(short[0] == whole[0] && short[1] == whole[1]);
        assert(short.skip(1) =~= line.skip(1) + seq![':']);
        assert(whole.skip(1) =~= line.skip(1) + seq![':', ' '] + rest);
        lemma_separator_found(line.skip(1), rest);
    }
}

proof fn lemma_first_rule_divides(front: Seq<Seq<char>>, rest: Seq<Seq<char>>)
    requires
        first_rule_line(front) is None,
    ensures
        first_rule_line(front + rest) == first_rule_line(rest),
    decreases front.len(),
{
    if front.len() == 0 {
        assert(front + rest =~= rest);
    } else {
        assert((front + rest).skip(1) =~= front.skip(1) + rest);
        lemma_first_rule_divides(front.skip(1), rest);
    }
}

/// A rule separator behind text that holds none is the first one.
proof fn lemma_rule_found(front: Seq<char>, prerequisites: Seq<char>, more: Seq<char>)
    requires
        lines(front + seq![':', '\n']).len() > 0,
        first_rule_line(lines(front + seq![':', '\n']).drop_last()) is None,
        after_separator(lines(front + seq![':', '\n']).last()) is None,
        !prerequisites.contains('\n'),
        prerequisites.len() > 0,
        prerequisites.last() != '\r',
    ensures
        first_rule(lines(front + seq![':', ' '] + prerequisites + seq!['\n'] + more)) == Some(
            prerequisites,
        ),
{
    let none = Seq::<char>::empty();
    let full = full_lines(none, front);
    let open = open_line(none, front);
    // The text that holds no rule
    lemma_lines_divide(none, front, seq![':', '\n']);
    lemma_lines_divide(open, seq![':'], seq!['\n']);
    lemma_plain_text_stays_open(open, seq![':']);
    assert(seq![':', '\n'] =~= seq![':'] + seq!['\n']);
    assert(seq!['\n'].skip(1) =~= none);
    let short = open + seq![':'];
    assert(without_return(short) == short);
    assert(lines_from(none, none) =~= Seq::<Seq<char>>::empty());
    assert(lines_from(short, seq!['\n']) =~= seq![short]);
    assert(full_lines(open, seq![':']) + lines_from(short, seq!['\n']) =~= seq![short]);
    assert(lines(front + seq![':', '\n']) == full + seq![short]);
    assert((full + seq![short]).drop_last() =~= full);
    assert((full + seq![short]).last() == short);
    // The text with the rule
    let tail = seq![':', ' '] + prerequisites;
    assert(front + seq![':', ' '] + prerequisites + seq!['\n'] + more =~= front + (tail + (seq![
        '\n',
    ] + more)));
    lemma_lines_divide(none, front, tail + (seq!['\n'] + more));
    assert(!tail.contains('\n')) by {
        if tail.contains('\n') {
            let i = choose|i: int| 0 <= i < tail.len() && tail[i] == '\n';
            assert(i >= 2);
            assert(prerequisites[i - 2] == '\n');
        }
    }
    lemma_lines_divide(open, tail, seq!['\n'] + more);
    lemma_plain_text_stays_open(open, tail);
    let line = open + tail;
    assert((seq!['\n'] + more).skip(1) =~= more);
    assert(line.last() == prerequisites.last());
    assert(without_return(line) == line);
    assert(full_lines(open, tail) + lines_from(line, seq!['\n'] + more) =~= seq![line] + lines(
        more,
    ));
    lemma_first_rule_divides(full, seq![line] + lines(more));
    assert((seq![line] + lines(more))[0] == line);
    assert(line =~= open + seq![':', ' '] + prerequisites);
    lemma_separator_found(open, prerequisites);
}

// Quoted words

/// Quoting adds no tab, line feed, or closing backslash.
proof fn lemma_escaped_shape(word: Seq<char>)
    requires
        word_can_be_quoted(word),
    ensures
        escaped(word).len() > 0,
        escaped(word).last() == word.last(),
        !escaped(word).contains('\n'),
    decreases word.len(),
{
    let first = escaped_character(word[0]);
    let rest = escaped(word.skip(1));
    lemma_tail_holds_less(word, '\n');
    lemma_tail_holds_less(word, '\t');
    lemma_tail_holds_less(word, '\\');
    if word.len() == 1 {
        assert(rest =~= Seq::<char>::empty());
        assert(escaped(word) =~= first);
    } else {
        lemma_escaped_shape(word.skip(1));
    }
    if escaped(word).contains('\n') {
        let i = choose|i: int| 0 <= i < escaped(word).len() && escaped(word)[i] == '\n';
        if i < first.len() {
            assert(first[i] == '\n');
        } else {
            assert(rest[i - first.len()] == '\n');
        }
    }
}

/// Reading a quoted word gives the word.
proof fn lemma_quoted_word_reads_back(current: Seq<char>, word: Seq<char>, rest: Seq<char>)
    requires
        !word.contains('\t'),
        !word.contains('\\'),
    ensures
        words_from(current, escaped(word) + rest) == words_from(current + word, rest),
    decreases word.len(),
{
    if word.len() == 0 {
        assert(escaped(word) + rest =~= rest);
        assert(current + word =~= current);
    } else {
        lemma_tail_holds_less(word, '\t');
        lemma_tail_holds_less(word, '\\');
        let first = escaped_character(word[0]);
        let tail = escaped(word.skip(1)) + rest;
        let whole = escaped(word) + rest;
        assert(whole =~= first + tail);
        lemma_quoted_word_reads_back(current.push(word[0]), word.skip(1), rest);
        assert(current.push(word[0]) + word.skip(1) =~= current + word);
        if first.len() == 2 {
            assert(whole.skip(2) =~= tail);
            assert(whole[0] == first[0] && whole[1] == first[1]);
        } else {
            assert(whole.skip(1) =~= tail);
            assert(whole[0] == first[0]);
        }
    }
}

/// A word that was quoted for make is read back as the one word that it was.
pub proof fn quoted_words_read_back(word: Seq<char>)
    requires
        word.len() > 0,
        !word.contains('\t'),
        !word.contains('\\'),
    ensures
        words_from(Seq::empty(), escaped(word)) == Ok::<Seq<Seq<char>>, BypassModel>(seq![word]),
{
    let none = Seq::<char>::empty();
    lemma_quoted_word_reads_back(none, word, none);
    assert(escaped(word) + none =~= escaped(word));
    assert(none + word =~= word);
}

/// Quoted words, each behind two spaces, with a space between one and the next.
spec fn spaced_words(words: Seq<Seq<char>>) -> Seq<char>
    decreases words.len(),
{
    if words.len() == 0 {
        Seq::empty()
    } else if words.len() == 1 {
        seq![' ', ' '] + escaped(words[0])
    } else {
        seq![' ', ' '] + escaped(words[0]) + seq![' '] + spaced_words(words.skip(1))
    }
}

proof fn lemma_leading_spaces(rest: Seq<char>)
    ensures
        words_from(Seq::empty(), seq![' ', ' '] + rest) == words_from(Seq::empty(), rest),
{
    let none = Seq::<Seq<char>>::empty();
    let whole = seq![' ', ' '] + rest;
    let inner = seq![' '] + rest;
    assert(whole.skip(1) =~= inner);
    assert(inner.skip(1) =~= rest);
    if let Ok(words) = words_from(Seq::empty(), rest) {
        assert(none + words =~= words);
    }
    assert(words_from(Seq::empty(), inner) == with_words(none, words_from(Seq::empty(), rest)));
    assert(words_from(Seq::empty(), whole) == with_words(none, words_from(Seq::empty(), inner)));
}

proof fn lemma_spaced_words_read_back(words: Seq<Seq<char>>)
    requires
        words.len() > 0,
        forall|i: int| 0 <= i < words.len() ==> word_can_be_quoted(#[trigger] words[i]),
    ensures
        words_from(Seq::empty(), spaced_words(words)) == Ok::<Seq<Seq<char>>, BypassModel>(words),
    decreases words.len(),
{
    let none = Seq::<char>::empty();
    let word = words[0];
    if words.len() == 1 {
        lemma_leading_spaces(escaped(word));
        assert(escaped(word) =~= escaped(word) + none);
        lemma_quoted_word_reads_back(none, word, none);
        assert(none + word =~= word);
        assert(seq![word] =~= words);
    } else {
        let tail = words.skip(1);
        assert forall|i: int| 0 <= i < tail.len() implies word_can_be_quoted(
            #[trigger] tail[i],
        ) by {
            assert(tail[i] == words[i + 1]);
        }
        lemma_spaced_words_read_back(tail);
        let rest = seq![' '] + spaced_words(tail);
        assert(spaced_words(words) =~= seq![' ', ' '] + (escaped(word) + rest));
        lemma_leading_spaces(escaped(word) + rest);
        lemma_quoted_word_reads_back(none, word, rest);
        assert(none + word =~= word);
        assert(rest.skip(1) =~= spaced_words(tail));
        assert(seq![word] + tail =~= words);
    }
}

/// Texts that follow one another hold a character exactly where one of them does.
proof fn lemma_neither_holds(front: Seq<char>, back: Seq<char>, character: char)
    requires
        !front.contains(character),
        !back.contains(character),
    ensures
        !(front + back).contains(character),
{
    let both = front + back;
    if both.contains(character) {
        let i = choose|i: int| 0 <= i < both.len() && both[i] == character;
        if i < front.len() {
            assert(front[i] == character);
        } else {
            assert(back[i - front.len()] == character);
        }
    }
}

proof fn lemma_spaced_words_shape(words: Seq<Seq<char>>)
    requires
        words.len() > 0,
        forall|i: int| 0 <= i < words.len() ==> word_can_be_quoted(#[trigger] words[i]),
    ensures
        spaced_words(words).len() > 0,
        spaced_words(words).last() == words.last().last(),
        !spaced_words(words).contains('\n'),
    decreases words.len(),
{
    let word = words[0];
    lemma_escaped_shape(word);
    let spaces = seq![' ', ' '];
    assert(!spaces.contains('\n'));
    let front = spaces + escaped(word);
    lemma_neither_holds(spaces, escaped(word), '\n');
    if words.len() == 1 {
        assert(spaced_words(words) == front);
        assert(front.last() == escaped(word).last());
    } else {
        let tail = words.skip(1);
        assert forall|i: int| 0 <= i < tail.len() implies word_can_be_quoted(
            #[trigger] tail[i],
        ) by {
            assert(tail[i] == words[i + 1]);
        }
        lemma_spaced_words_shape(tail);
        let rest = spaced_words(tail);
        let gap = seq![' '];
        assert(!gap.contains('\n'));
        assert(spaced_words(words) == front + gap + rest);
        lemma_neither_holds(front, gap, '\n');
        lemma_neither_holds(front + gap, rest, '\n');
        assert((front + gap + rest).last() == rest.last());
        assert(tail.last() == words.last());
    }
}

// The lines of a rendered rule

/// The texts of a list of paths.
pub open spec fn file_texts(files: Seq<Seq<u8>>) -> Seq<Seq<char>> {
    files.map_values(|file: Seq<u8>| shown_text(file))
}

/// Whether every word can be quoted, and the last one does not lose its end to the line's end.
pub open spec fn words_can_be_listed(words: Seq<Seq<char>>) -> bool {
    &&& words.len() > 0
    &&& forall|i: int| 0 <= i < words.len() ==> word_can_be_quoted(#[trigger] words[i])
    &&& words.last().last() != '\r'
}

/// The lines of a rule behind its first one join to the words that they list.
proof fn lemma_file_lines_join(files: Seq<Seq<u8>>, more: Seq<char>)
    requires
        words_can_be_listed(file_texts(files)),
    ensures
        joined_lines(
            true,
            lines(prerequisite_lines(files).skip(3) + seq!['\n'] + more),
        ) == behind(
            spaced_words(file_texts(files)) + seq!['\n'],
            joined_lines(false, lines(more)),
        ),
    decreases files.len(),
{
    let words = file_texts(files);
    let word = words[0];
    assert(word == shown_text(files[0]));
    lemma_escaped_shape(word);
    let rest_lines = prerequisite_lines(files.skip(1));
    let start = seq![' '] + escaped(word);
    assert(!start.contains('\n')) by {
        if start.contains('\n') {
            let i = choose|i: int| 0 <= i < start.len() && start[i] == '\n';
            assert(i >= 1);
            assert(escaped(word)[i - 1] == '\n');
        }
    }
    assert(prerequisite_lines(files).skip(3) =~= start + rest_lines);
    if files.len() == 1 {
        assert(files.skip(1) =~= Seq::<Seq<u8>>::empty());
        assert(prerequisite_lines(files).skip(3) =~= start);
        lemma_line_ends(start, more);
        assert(words.last() == word);
        assert(start.last() == word.last());
        assert(word.contains(word.last()));
        assert(without_return(start) == start);
        assert(!continues(start));
        assert(line_body(start) == start);
        lemma_joined_line(true, start, lines(more));
        assert(seq![' '] + start + seq!['\n'] =~= spaced_words(words) + seq!['\n']);
    } else {
        let tail = files.skip(1);
        let tail_words = file_texts(tail);
        assert(tail_words =~= words.skip(1));
        assert forall|i: int| 0 <= i < tail_words.len() implies word_can_be_quoted(
            #[trigger] tail_words[i],
        ) by {
            assert(tail_words[i] == words[i + 1]);
        }
        assert(tail_words.last() == words.last());
        lemma_file_lines_join(tail, more);
        let line = start + seq![' ', '\\'];
        let next = rest_lines.skip(3) + seq!['\n'] + more;
        assert(rest_lines =~= seq![' ', '\\', '\n'] + rest_lines.skip(3));
        assert(prerequisite_lines(files).skip(3) + seq!['\n'] + more =~= line + seq!['\n'] + next);
        assert(!line.contains('\n')) by {
            if line.contains('\n') {
                let i = choose|i: int| 0 <= i < line.len() && line[i] == '\n';
                assert(i < start.len());
                assert(start[i] == '\n');
            }
        }
        lemma_line_ends(line, next);
        assert(without_return(line) == line);
        assert(continues(line));
        assert(line.drop_last() =~= start + seq![' ']);
        assert(line_body(line) == start + seq![' ']);
        lemma_joined_line(true, line, lines(next));
        let head = seq![' '] + (start + seq![' ']) + Seq::<char>::empty();
        assert(words.skip(1) =~= tail_words);
        assert(head + (spaced_words(tail_words) + seq!['\n']) =~= spaced_words(words) + seq![
            '\n',
        ]);
        if let Some(text) = joined_lines(false, lines(more)) {
            assert(head + ((spaced_words(tail_words) + seq!['\n']) + text) =~= (spaced_words(words)
                + seq!['\n']) + text);
        }
    }
}

/// Phony rules join without running on.
proof fn lemma_phony_rules_join(files: Seq<Seq<u8>>, source: Seq<u8>)
    requires
        forall|i: int| 0 <= i < files.len() ==> word_can_be_quoted(shown_text(#[trigger] files[i])),
    ensures
        joined_lines(false, lines(phony_rules(files, source))) is Some,
    decreases files.len(),
{
    let none = Seq::<char>::empty();
    if files.len() > 0 {
        let tail = files.skip(1);
        assert forall|i: int| 0 <= i < tail.len() implies word_can_be_quoted(
            shown_text(#[trigger] tail[i]),
        ) by {
            assert(tail[i] == files[i + 1]);
        }
        lemma_phony_rules_join(tail, source);
        let word = shown_text(files[0]);
        lemma_escaped_shape(word);
        let line = escaped(word) + seq![':'];
        assert(!line.contains('\n')) by {
            if line.contains('\n') {
                let i = choose|i: int| 0 <= i < line.len() && line[i] == '\n';
                assert(i < escaped(word).len());
                assert(escaped(word)[i] == '\n');
            }
        }
        let more = phony_rules(tail, source);
        assert(escaped(word) + seq![':', '\n'] + more =~= line + seq!['\n'] + more);
        lemma_line_ends(line, more);
        assert(!continues(line));
        lemma_joined_line(false, without_return(line), lines(more));
    }
}

/// What the lines of a rule's targets join to, up to the rule's own separator.
spec fn joined_targets(names: Seq<char>) -> Seq<char> {
    let full = full_lines(Seq::empty(), names);
    let gap = if front_continues(false, full) { seq![' '] } else { Seq::empty() };
    joined_front(false, full) + gap + open_line(Seq::empty(), names)
}

/// The targets alone, with the separator's colon.
proof fn lemma_targets_join(names: Seq<char>)
    ensures
        joined_lines(false, lines(names + seq![':'])) == Some(
            joined_targets(names) + seq![':', '\n'],
        ),
{
    let none = Seq::<char>::empty();
    let full = full_lines(none, names);
    let open = open_line(none, names);
    let front = joined_front(false, full);
    let running = front_continues(false, full);
    let gap: Seq<char> = if running { seq![' '] } else { none };
    let short = open + seq![':'];
    lemma_lines_divide(none, names, seq![':']);
    lemma_plain_text_stays_open(open, seq![':']);
    lemma_lines_divide(open, seq![':'], none);
    assert(seq![':'] + none =~= seq![':']);
    assert(full_lines(open, seq![':']) + lines_from(short, none) =~= seq![short]);
    lemma_joined_divides(false, full, seq![short]);
    lemma_joined_line(running, short, Seq::empty());
    assert(seq![short] + Seq::<Seq<char>>::empty() =~= seq![short]);
    assert(short.last() == ':');
    assert(line_body(short) == short);
    assert(front + (gap + short + seq!['\n'] + none) =~= joined_targets(names) + seq![':', '\n']);
}

/// The targets, with a continued rule behind them.
proof fn lemma_targets_continue(names: Seq<char>, rest: Seq<char>)
    ensures
        joined_lines(false, lines(names + (seq![':', ' ', '\\'] + (seq!['\n'] + rest)))) == behind(
            joined_targets(names) + seq![':', ' '],
            joined_lines(true, lines(rest)),
        ),
{
    let none = Seq::<char>::empty();
    let full = full_lines(none, names);
    let open = open_line(none, names);
    let front = joined_front(false, full);
    let running = front_continues(false, full);
    let gap: Seq<char> = if running { seq![' '] } else { none };
    let mark = seq![':', ' ', '\\'];
    let line = open + mark;
    lemma_lines_divide(none, names, mark + (seq!['\n'] + rest));
    lemma_lines_divide(open, mark, seq!['\n'] + rest);
    assert(!mark.contains('\n'));
    lemma_plain_text_stays_open(open, mark);
    assert((seq!['\n'] + rest).skip(1) =~= rest);
    assert(line.last() == '\\');
    assert(without_return(line) == line);
    assert(full_lines(open, mark) + lines_from(line, seq!['\n'] + rest) =~= seq![line] + lines(
        rest,
    ));
    lemma_joined_divides(false, full, seq![line] + lines(rest));
    lemma_joined_line(running, line, lines(rest));
    assert(line.drop_last() =~= open + seq![':', ' ']);
    assert(line_body(line) == open + seq![':', ' ']);
    if let Some(more) = joined_lines(true, lines(rest)) {
        assert(front + ((gap + (open + seq![':', ' ']) + none) + more) =~= (joined_targets(names)
            + seq![':', ' ']) + more);
    }
}

/// Quoting leaves no rule separator in a word, nor makes one with the colon behind it.
proof fn lemma_quoting_hides_separators(word: Seq<char>)
    ensures
        after_separator(escaped(word) + seq![':']) is None,
        (escaped(word) + seq![':'])[0] != ' ',
    decreases word.len(),
{
    let whole = escaped(word) + seq![':'];
    if word.len() == 0 {
        assert(whole =~= seq![':']);
    } else {
        let first = escaped_character(word[0]);
        let tail = escaped(word.skip(1)) + seq![':'];
        lemma_quoting_hides_separators(word.skip(1));
        assert(whole =~= first + tail);
        if first.len() == 1 {
            assert(whole.skip(1) =~= tail);
            assert(whole[1] == tail[0]);
        } else {
            let rest = whole.skip(1);
            assert(rest.skip(1) =~= tail);
            assert(rest[0] == first[1]);
            assert(after_separator(rest) == after_separator(tail));
        }
    }
}

/// Quoting adds no line feed.
proof fn lemma_quoting_keeps_lines(word: Seq<char>)
    requires
        !word.contains('\n'),
    ensures
        !escaped(word).contains('\n'),
    decreases word.len(),
{
    if word.len() > 0 {
        lemma_tail_holds_less(word, '\n');
        lemma_quoting_keeps_lines(word.skip(1));
        let first = escaped_character(word[0]);
        assert(!first.contains('\n'));
        lemma_neither_holds(first, escaped(word.skip(1)), '\n');
    }
}

/// A quoted target holds no rule of its own, whatever characters it holds but a line feed.
pub proof fn quoted_targets_hold_no_rule(name: Seq<char>)
    requires
        !name.contains('\n'),
    ensures
        targets_hold_no_rule(seq![TargetModel { name, quoted: true }]),
{
    let none = Seq::<char>::empty();
    let targets = seq![TargetModel { name, quoted: true }];
    let names = escaped(name);
    assert(targets.skip(1) =~= Seq::<TargetModel>::empty());
    assert(further_targets(targets.skip(1)) =~= none);
    assert(targets_text(targets) =~= names);
    lemma_quoting_keeps_lines(name);
    lemma_quoting_hides_separators(name);
    lemma_targets_join(names);
    lemma_plain_text_stays_open(none, names);
    assert(joined_targets(names) =~= names);
    let line = names + seq![':'];
    assert(!seq![':'].contains('\n'));
    lemma_neither_holds(names, seq![':'], '\n');
    lemma_line_ends(line, none);
    assert(line + seq!['\n'] + none =~= joined_targets(names) + seq![':', '\n']);
    assert(without_return(line) == line);
    assert(lines(none) =~= Seq::<Seq<char>>::empty());
    assert(seq![line] + lines(none) =~= seq![line]);
    assert(seq![line].drop_last() =~= Seq::<Seq<char>>::empty());
}

/// Reading a rendered dependency list gives the files that it was rendered from, whatever the
/// targets, the source, and the phony rules.
///
/// There must be a file; every path must be text that make's quoting can carry, the last one
/// must not end in a carriage return, and the targets must hold no rule of their own.
pub proof fn rendered_files_read_back(
    targets: Seq<TargetModel>,
    files: Seq<Seq<u8>>,
    source: Seq<u8>,
    phony_targets: bool,
)
    requires
        targets_hold_no_rule(targets),
        words_can_be_listed(file_texts(files)),
    ensures
        parsed(rendered(targets, files, source, phony_targets)) == Ok::<
            Seq<Seq<char>>,
            BypassModel,
        >(file_texts(files)),
{
    let none = Seq::<char>::empty();
    let words = file_texts(files);
    let names = targets_text(targets);
    let rules = if phony_targets { phony_rules(files, source) } else { none };
    let document = rendered(targets, files, source, phony_targets);
    lemma_targets_join(names);
    let rest = prerequisite_lines(files).skip(3) + seq!['\n'] + rules;
    assert(prerequisite_lines(files) =~= seq![' ', '\\', '\n'] + prerequisite_lines(files).skip(
        3,
    ));
    assert(document =~= names + (seq![':', ' ', '\\'] + (seq!['\n'] + rest)));
    lemma_targets_continue(names, rest);
    lemma_file_lines_join(files, rules);
    assert(joined_lines(false, lines(rules)) is Some) by {
        if phony_targets {
            assert forall|i: int| 0 <= i < files.len() implies word_can_be_quoted(
                shown_text(#[trigger] files[i]),
            ) by {
                assert(words[i] == shown_text(files[i]));
            }
            lemma_phony_rules_join(files, source);
        }
    }
    let more = joined_lines(false, lines(rules))->Some_0;
    let list = spaced_words(words);
    let holder = joined_targets(names);
    assert((holder + seq![':', ' ']) + ((list + seq!['\n']) + more) =~= holder + seq![':', ' ']
        + list + seq!['\n'] + more);
    lemma_spaced_words_shape(words);
    lemma_rule_found(holder, list, more);
    lemma_spaced_words_read_back(words);
}

/// Paths that are UTF-8 come back byte for byte from a rendered dependency list.
pub proof fn rendered_paths_read_back(
    targets: Seq<TargetModel>,
    files: Seq<Seq<u8>>,
    source: Seq<u8>,
    phony_targets: bool,
)
    requires
        targets_hold_no_rule(targets),
        words_can_be_listed(file_texts(files)),
        forall|i: int| 0 <= i < files.len() ==> valid_utf8(#[trigger] files[i]),
    ensures
        parsed(rendered(targets, files, source, phony_targets)) is Ok,
        paths_of(parsed(rendered(targets, files, source, phony_targets))->Ok_0) == files,
{
    rendered_files_read_back(targets, files, source, phony_targets);
    assert forall|i: int| 0 <= i < files.len() implies #[trigger] paths_of(file_texts(files))[i]
        == files[i] by {
        vstd::utf8::decode_utf8_encode_utf8(files[i]);
    }
    assert(paths_of(file_texts(files)) =~= files);
}

/// Joined lines end with a line feed, if there are any.
proof fn lemma_joined_text_ends_a_line(continued: bool, list: Seq<Seq<char>>)
    requires
        list.len() > 0,
    ensures
        joined_lines(continued, list) matches Some(joined) ==> joined.len() > 0 && joined.last()
            == '\n',
    decreases list.len(),
{
    let rest = list.skip(1);
    let next = continues(list[0]);
    let gap: Seq<char> = if continued { seq![' '] } else { Seq::empty() };
    let end: Seq<char> = if next { Seq::empty() } else { seq!['\n'] };
    if let Some(more) = joined_lines(next, rest) {
        let joined = gap + line_body(list[0]) + end + more;
        if rest.len() > 0 {
            lemma_joined_text_ends_a_line(next, rest);
            assert(joined.last() == more.last());
        } else {
            assert(!next);
            assert(more =~= Seq::<char>::empty());
            assert(joined.last() == '\n');
        }
    }
}

/// A text that ends with a line feed leaves no line unfinished.
proof fn lemma_ended_text_leaves_nothing_open(current: Seq<char>, text: Seq<char>)
    requires
        text.len() > 0,
        text.last() == '\n',
    ensures
        open_line(current, text) == Seq::<char>::empty(),
    decreases text.len(),
{
    if text.len() > 1 {
        let rest = text.skip(1);
        assert(rest.last() == text.last());
        if text[0] == '\n' {
            lemma_ended_text_leaves_nothing_open(Seq::empty(), rest);
        } else {
            lemma_ended_text_leaves_nothing_open(current.push(text[0]), rest);
        }
    } else {
        assert(text[0] == '\n');
        assert(open_line(Seq::empty(), text.skip(1)) =~= Seq::<char>::empty());
    }
}

/// A text that ends a line is followed by the lines of what follows it.
proof fn lemma_ended_text_divides(text: Seq<char>, more: Seq<char>)
    requires
        text.len() == 0 || text.last() == '\n',
    ensures
        lines(text + more) == lines(text) + lines(more),
{
    let none = Seq::<char>::empty();
    if text.len() == 0 {
        assert(text + more =~= more);
        assert(lines(text) + lines(more) =~= lines(more));
    } else {
        lemma_ended_text_leaves_nothing_open(none, text);
        lemma_lines_divide(none, text, more);
        lemma_lines_divide(none, text, none);
        assert(text + none =~= text);
        assert(lines_from(none, none) =~= Seq::<Seq<char>>::empty());
        assert(lines(text) =~= full_lines(none, text));
    }
}

proof fn lemma_joined_lists(continued: bool, front: Seq<Seq<char>>, rest: Seq<Seq<char>>)
    requires
        joined_lines(continued, front) is Some,
    ensures
        joined_lines(continued, front + rest) == behind(
            joined_lines(continued, front)->Some_0,
            joined_lines(false, rest),
        ),
{
    let none = Seq::<Seq<char>>::empty();
    lemma_joined_divides(continued, front, rest);
    lemma_joined_divides(continued, front, none);
    assert(front + none =~= front);
    let text = joined_front(continued, front);
    assert(text + Seq::<char>::empty() =~= text);
}

/// Whether a text that is complete, with its last line ended and none left continued, holds a rule,
/// with or without prerequisites.
pub open spec fn holds_rule(text: Seq<char>) -> bool {
    &&& text.len() > 0
    &&& text.last() == '\n'
    &&& joined_lines(false, lines(text)) matches Some(joined) && first_rule_line(
        lines(joined),
    ) is Some
}

/// Only the first rule counts: whatever follows a complete list that holds one does not change
/// what is read from it, nor why it cannot be read.
pub proof fn later_rules_are_ignored(text: Seq<char>, more: Seq<char>)
    requires
        holds_rule(text),
        joined_lines(false, lines(more)) is Some,
    ensures
        parsed(text + more) == parsed(text),
{
    let joined = joined_lines(false, lines(text))->Some_0;
    let added = joined_lines(false, lines(more))->Some_0;
    lemma_ended_text_divides(text, more);
    lemma_joined_lists(false, lines(text), lines(more));
    assert(joined_lines(false, lines(text + more)) == Some(joined + added));
    if lines(text).len() > 0 {
        lemma_joined_text_ends_a_line(false, lines(text));
    } else {
        assert(joined =~= Seq::<char>::empty());
    }
    lemma_ended_text_divides(joined, added);
    lemma_first_rule_in_front(lines(joined), lines(added));
}

proof fn lemma_first_rule_in_front(front: Seq<Seq<char>>, rest: Seq<Seq<char>>)
    requires
        first_rule_line(front) is Some,
    ensures
        first_rule_line(front + rest) == first_rule_line(front),
    decreases front.len(),
{
    assert((front + rest)[0] == front[0]);
    assert((front + rest).skip(1) =~= front.skip(1) + rest);
    if !is_rule(front[0]) {
        lemma_first_rule_in_front(front.skip(1), rest);
    }
}

// Lines, one by one

/// A line feed ends a line, with the carriage return in front of it where there is one; what
/// stands behind the last line feed is a line as it is, and no text has no line.
pub proof fn lines_end_at_line_feeds(line: Seq<char>, rest: Seq<char>)
    requires
        !line.contains('\n'),
    ensures
        line.len() == 0 || line.last() != '\r' ==> lines(line + seq!['\n'] + rest) == seq![line]
            + lines(rest),
        lines(line + seq!['\r', '\n'] + rest) == seq![line] + lines(rest),
        lines(line) == (if line.len() == 0 {
            Seq::<Seq<char>>::empty()
        } else {
            seq![line]
        }),
{
    lemma_line_ends(line, rest);
    let returned = line.push('\r');
    assert(!returned.contains('\n')) by {
        if returned.contains('\n') {
            let i = choose|i: int| 0 <= i < returned.len() && returned[i] == '\n';
            assert(line[i] == '\n');
        }
    }
    lemma_line_ends(returned, rest);
    assert(returned.drop_last() =~= line);
    assert(returned + seq!['\n'] + rest =~= line + seq!['\r', '\n'] + rest);
    let none = Seq::<char>::empty();
    lemma_lines_divide(none, line, none);
    lemma_plain_text_stays_open(none, line);
    assert(line + none =~= line);
    assert(none + line =~= line);
    assert(lines(line) =~= lines_from(line, none));
}

/// Whether a text is made of nothing but tabs.
spec fn is_all_tabs(text: Seq<char>) -> bool {
    forall|i: int| 0 <= i < text.len() ==> #[trigger] text[i] == '\t'
}

proof fn lemma_tabs_are_dropped(body: Seq<char>, tabs: Seq<char>)
    requires
        is_all_tabs(tabs),
        body.len() == 0 || body.last() != '\t',
    ensures
        without_tabs(body + tabs) == body,
    decreases tabs.len(),
{
    if tabs.len() == 0 {
        assert(body + tabs =~= body);
    } else {
        assert((body + tabs).last() == tabs[tabs.len() - 1]);
        assert((body + tabs).drop_last() =~= body + tabs.drop_last());
        assert(is_all_tabs(tabs.drop_last())) by {
            assert forall|i: int| 0 <= i < tabs.drop_last().len() implies #[trigger] tabs.drop_last()[i]
                == '\t' by {
                assert(tabs[i] == '\t');
            }
        }
        lemma_tabs_are_dropped(body, tabs.drop_last());
    }
}

/// A carriage return at the end of a line makes no difference, also behind a backslash.
pub proof fn returns_at_line_ends_are_dropped(continued: bool, line: Seq<char>, rest: Seq<Seq<char>>)
    requires
        line.len() == 0 || line.last() != '\r',
    ensures
        joined_lines(continued, seq![line + seq!['\r']] + rest) == joined_lines(
            continued,
            seq![line] + rest,
        ),
{
    let returned = line + seq!['\r'];
    assert(returned.drop_last() =~= line);
    assert(without_return(returned) == line);
    assert(without_return(line) == line);
    lemma_joined_line(continued, returned, rest);
    lemma_joined_line(continued, line, rest);
}

/// A line is kept without the tabs at its end. One that ends in a backslash is joined to the next
/// by a single space, and there must be a next one.
pub proof fn continued_lines_are_joined_by_a_space(
    continued: bool,
    body: Seq<char>,
    tabs: Seq<char>,
    rest: Seq<Seq<char>>,
)
    requires
        forall|i: int| 0 <= i < tabs.len() ==> #[trigger] tabs[i] == '\t',
        body.len() == 0 || body.last() != '\t',
    ensures
        ({
            let gap: Seq<char> = if continued { seq![' '] } else { Seq::empty() };
            &&& (body + tabs).len() == 0 || ((body + tabs).last() != '\\' && (body + tabs).last()
                != '\r') ==> joined_lines(continued, seq![body + tabs] + rest) == (
            match joined_lines(false, rest) {
                Some(more) => Some(gap + body + seq!['\n'] + more),
                None => None::<Seq<char>>,
            })
            &&& joined_lines(continued, seq![body + tabs + seq!['\\']] + rest) == (
            match joined_lines(true, rest) {
                Some(more) => Some(gap + body + more),
                None => None::<Seq<char>>,
            })
        }),
        joined_lines(false, Seq::empty()) == Some(Seq::<char>::empty()),
        joined_lines(true, Seq::empty()) is None,
{
    let gap: Seq<char> = if continued { seq![' '] } else { Seq::empty() };
    let plain = body + tabs;
    lemma_tabs_are_dropped(body, tabs);
    if plain.len() == 0 || (plain.last() != '\\' && plain.last() != '\r') {
        lemma_joined_line(continued, plain, rest);
        assert(line_body(plain) == body);
    }
    let open = plain + seq!['\\'];
    lemma_joined_line(continued, open, rest);
    assert(open.last() == '\\');
    assert(open.drop_last() =~= plain);
    assert(line_body(open) == body);
    assert(gap + body + Seq::<char>::empty() =~= gap + body);
}

// Rules

/// The prerequisites of a rule are all that follows the first colon with a space behind it.
pub proof fn rules_divide_at_their_first_separator(front: Seq<char>, rest: Seq<char>)
    requires
        forall|i: int|
            0 <= i < front.len() - 1 ==> !(#[trigger] front[i] == ':' && front[i + 1] == ' '),
    ensures
        after_separator(front + seq![':', ' '] + rest) == Some(rest),
        is_rule(front + seq![':', ' '] + rest),
        after_separator(front) is None,
{
    lemma_no_separator(front);
    let short = front + seq![':'];
    assert forall|i: int| 0 <= i < short.len() - 1 implies !(#[trigger] short[i] == ':' && short[i
        + 1] == ' ') by {
        if i < front.len() - 1 {
            assert(short[i] == front[i] && short[i + 1] == front[i + 1]);
        }
    }
    lemma_no_separator(short);
    lemma_separator_found(front, rest);
}

proof fn lemma_no_separator(line: Seq<char>)
    requires
        forall|i: int|
            0 <= i < line.len() - 1 ==> !(#[trigger] line[i] == ':' && line[i + 1] == ' '),
    ensures
        after_separator(line) is None,
    decreases line.len(),
{
    if line.len() >= 2 {
        assert(!(line[0] == ':' && line[1] == ' '));
        let rest = line.skip(1);
        assert forall|i: int| 0 <= i < rest.len() - 1 implies !(#[trigger] rest[i] == ':' && rest[i
            + 1] == ' ') by {
            assert(rest[i] == line[i + 1] && rest[i + 1] == line[i + 2]);
        }
        lemma_no_separator(rest);
    }
}

/// Whether a character names nothing in a list of targets.
spec fn names_nothing(character: char) -> bool {
    character == ' ' || character == '\t' || character == ':'
}

proof fn lemma_targets_go_on(named: bool, plain: Seq<char>, rest: Seq<char>)
    requires
        !plain.contains('#'),
        !plain.contains('\\'),
        rest.len() > 0,
    ensures
        ends_targets(named, plain + rest) == ends_targets(
            named || exists|i: int| 0 <= i < plain.len() && !names_nothing(#[trigger] plain[i]),
            rest,
        ),
    decreases plain.len(),
{
    if plain.len() == 0 {
        assert(plain + rest =~= rest);
    } else {
        let whole = plain + rest;
        lemma_tail_holds_less(plain, '#');
        lemma_tail_holds_less(plain, '\\');
        assert(whole[0] == plain[0]);
        let tail = plain.skip(1);
        assert(whole.skip(1) =~= tail + rest);
        let next = named || !names_nothing(plain[0]);
        lemma_targets_go_on(next, tail, rest);
        let all = exists|i: int| 0 <= i < plain.len() && !names_nothing(#[trigger] plain[i]);
        let some = exists|i: int| 0 <= i < tail.len() && !names_nothing(#[trigger] tail[i]);
        if all {
            let i = choose|i: int| 0 <= i < plain.len() && !names_nothing(#[trigger] plain[i]);
            if i > 0 {
                assert(tail[i - 1] == plain[i]);
            }
        }
        if some {
            let i = choose|i: int| 0 <= i < tail.len() && !names_nothing(#[trigger] tail[i]);
            assert(plain[i + 1] == tail[i]);
        }
    }
}

/// A rule without prerequisites is targets with a colon behind them: a colon in a comment, an
/// escaped one, or one with no target in front is none, and neither is a line that ends otherwise.
pub proof fn empty_rules_are_targets_with_a_colon(
    named: bool,
    plain: Seq<char>,
    character: char,
    rest: Seq<char>,
)
    requires
        !plain.contains('#'),
        !plain.contains('\\'),
    ensures
        ends_targets(named, plain + seq![':']) <==> named || exists|i: int|
            0 <= i < plain.len() && #[trigger] plain[i] != ' ' && plain[i] != '\t' && plain[i]
                != ':',
        character != ':' ==> !ends_targets(named, plain + seq![character]),
        !ends_targets(named, plain + (seq!['#'] + rest)),
        !ends_targets(named, Seq::empty()),
        ends_targets(named, plain + (seq!['\\', character] + rest)) == ends_targets(true, rest),
{
    lemma_targets_go_on(named, plain, seq![':']);
    lemma_targets_go_on(named, plain, seq![character]);
    let comment = seq!['#'] + rest;
    assert(comment[0] == '#');
    lemma_targets_go_on(named, plain, comment);
    let quoted = seq!['\\', character] + rest;
    assert(quoted[0] == '\\');
    assert(quoted.skip(2) =~= rest);
    lemma_targets_go_on(named, plain, quoted);
    if character == '\\' || character == '#' {
        assert(seq![character][0] == character);
    }
    assert(seq![character].len() == 1);
}

/// The first line that is a rule is the rule that is read, whatever follows.
pub proof fn the_first_rule_is_read(
    front: Seq<Seq<char>>,
    line: Seq<char>,
    rest: Seq<Seq<char>>,
)
    requires
        forall|i: int| 0 <= i < front.len() ==> !is_rule(#[trigger] front[i]),
    ensures
        is_rule(line) ==> first_rule_line(front + (seq![line] + rest)) == Some(line),
        is_rule(line) ==> first_rule(front + (seq![line] + rest)) == after_separator(line),
        first_rule_line(front) is None,
        first_rule(front) is None,
        is_rule(line) <==> after_separator(line) is Some || ends_targets(false, line),
{
    lemma_no_rule(front);
    lemma_first_rule_divides(front, seq![line] + rest);
    assert((seq![line] + rest)[0] == line);
}

proof fn lemma_no_rule(list: Seq<Seq<char>>)
    requires
        forall|i: int| 0 <= i < list.len() ==> !is_rule(#[trigger] list[i]),
    ensures
        first_rule_line(list) is None,
    decreases list.len(),
{
    if list.len() > 0 {
        assert(!is_rule(list[0]));
        let rest = list.skip(1);
        assert forall|i: int| 0 <= i < rest.len() implies !is_rule(#[trigger] rest[i]) by {
            assert(rest[i] == list[i + 1]);
        }
        lemma_no_rule(rest);
    }
}

// Words

/// Whether a text is made of nothing but spaces and tabs.
spec fn is_blank(text: Seq<char>) -> bool {
    forall|i: int| 0 <= i < text.len() ==> #[trigger] text[i] == ' ' || text[i] == '\t'
}

proof fn lemma_blanks_are_skipped(gap: Seq<char>, list: Seq<char>)
    requires
        is_blank(gap),
    ensures
        words_from(Seq::empty(), gap + list) == words_from(Seq::empty(), list),
    decreases gap.len(),
{
    if gap.len() == 0 {
        assert(gap + list =~= list);
    } else {
        let rest = gap.skip(1);
        assert(gap[0] == ' ' || gap[0] == '\t');
        assert((gap + list)[0] == gap[0]);
        assert((gap + list).skip(1) =~= rest + list);
        assert forall|i: int| 0 <= i < rest.len() implies #[trigger] rest[i] == ' ' || rest[i]
            == '\t' by {
            assert(rest[i] == gap[i + 1]);
        }
        lemma_blanks_are_skipped(rest, list);
        if let Ok(more) = words_from(Seq::empty(), rest + list) {
            assert(Seq::<Seq<char>>::empty() + more =~= more);
        }
    }
}

/// Spaces and tabs only separate words: a list is its first word and the words of what follows,
/// whatever gap of one or more spaces and tabs stands between and whatever follows it, and gaps at
/// either end add nothing.
pub proof fn gaps_only_separate_words(word: Seq<char>, gap: Seq<char>, list: Seq<char>)
    requires
        word.len() > 0,
        !word.contains('\t'),
        !word.contains('\\'),
        forall|i: int| 0 <= i < gap.len() ==> #[trigger] gap[i] == ' ' || gap[i] == '\t',
        gap.len() > 0,
    ensures
        words_from(Seq::empty(), escaped(word) + gap + list) == (match words_from(
            Seq::empty(),
            list,
        ) {
            Ok(more) => Ok::<Seq<Seq<char>>, BypassModel>(seq![word] + more),
            Err(reason) => Err::<Seq<Seq<char>>, BypassModel>(reason),
        }),
        words_from(Seq::empty(), gap + list) == words_from(Seq::empty(), list),
        words_from(Seq::empty(), escaped(word)) == Ok::<Seq<Seq<char>>, BypassModel>(seq![word]),
        words_from(Seq::empty(), escaped(word) + gap) == Ok::<Seq<Seq<char>>, BypassModel>(
            seq![word],
        ),
        words_from(Seq::empty(), Seq::empty()) == Ok::<Seq<Seq<char>>, BypassModel>(Seq::empty()),
{
    let none = Seq::<char>::empty();
    quoted_words_read_back(word);
    lemma_blanks_are_skipped(gap, list);
    lemma_word_and_gap(word, gap, list);
    lemma_word_and_gap(word, gap, none);
    assert(escaped(word) + gap + none =~= escaped(word) + gap);
    assert(words_from(none, none) == Ok::<Seq<Seq<char>>, BypassModel>(Seq::empty()));
    assert(seq![word] + Seq::<Seq<char>>::empty() =~= seq![word]);
}

proof fn lemma_word_and_gap(word: Seq<char>, gap: Seq<char>, list: Seq<char>)
    requires
        word.len() > 0,
        !word.contains('\t'),
        !word.contains('\\'),
        is_blank(gap),
        gap.len() > 0,
    ensures
        words_from(Seq::empty(), escaped(word) + gap + list) == with_words(
            seq![word],
            words_from(Seq::empty(), list),
        ),
{
    let none = Seq::<char>::empty();
    let behind = gap + list;
    assert(escaped(word) + gap + list =~= escaped(word) + behind);
    lemma_quoted_word_reads_back(none, word, behind);
    assert(none + word =~= word);
    assert(behind[0] == gap[0]);
    assert(gap[0] == ' ' || gap[0] == '\t');
    let rest = gap.skip(1);
    assert(behind.skip(1) =~= rest + list);
    assert forall|i: int| 0 <= i < rest.len() implies #[trigger] rest[i] == ' ' || rest[i] == '\t' by {
        assert(rest[i] == gap[i + 1]);
    }
    lemma_blanks_are_skipped(rest, list);
}

/// A backslash in a list stands for the space or the `#` behind it and for nothing else, and a
/// dollar sign for one of two; anything else that is escaped is refused, behind whatever words.
pub proof fn other_escapes_are_refused(word: Seq<char>, character: char, rest: Seq<char>)
    requires
        !word.contains('\t'),
        !word.contains('\\'),
    ensures
        character != ' ' && character != '#' ==> words_from(
            Seq::empty(),
            escaped(word) + seq!['\\', character] + rest,
        ) == Err::<Seq<Seq<char>>, BypassModel>(
            BypassModel::MalformedDepfile("unmodeled escape \\"@.push(character)),
        ),
        character != '$' ==> words_from(
            Seq::empty(),
            escaped(word) + seq!['$', character] + rest,
        ) == Err::<Seq<Seq<char>>, BypassModel>(
            BypassModel::MalformedDepfile("unmodeled variable reference $"@.push(character)),
        ),
        words_from(Seq::empty(), escaped(word) + seq!['\\']) == Err::<
            Seq<Seq<char>>,
            BypassModel,
        >(BypassModel::MalformedDepfile("trailing escape character"@)),
        words_from(Seq::empty(), escaped(word) + seq!['$']) == Err::<Seq<Seq<char>>, BypassModel>(
            BypassModel::MalformedDepfile("trailing variable reference"@),
        ),
{
    let none = Seq::<char>::empty();
    let quoted = seq!['\\', character] + rest;
    let variable = seq!['$', character] + rest;
    assert(escaped(word) + seq!['\\', character] + rest =~= escaped(word) + quoted);
    assert(escaped(word) + seq!['$', character] + rest =~= escaped(word) + variable);
    lemma_quoted_word_reads_back(none, word, quoted);
    lemma_quoted_word_reads_back(none, word, variable);
    lemma_quoted_word_reads_back(none, word, seq!['\\']);
    lemma_quoted_word_reads_back(none, word, seq!['$']);
    assert(quoted[0] == '\\' && quoted[1] == character);
    assert(variable[0] == '$' && variable[1] == character);
}

/// Quoting goes character by character: a space, a `#` and a `$` each take one character in
/// front, and every other character stands for itself.
pub proof fn quoting_goes_character_by_character(
    left: Seq<char>,
    right: Seq<char>,
    character: char,
)
    ensures
        escaped(left + right) == escaped(left) + escaped(right),
        escaped(Seq::empty()) == Seq::<char>::empty(),
        escaped(seq![character]) == (if character == ' ' {
            seq!['\\', ' ']
        } else if character == '#' {
            seq!['\\', '#']
        } else if character == '$' {
            seq!['$', '$']
        } else {
            seq![character]
        }),
    decreases left.len(),
{
    let none = Seq::<char>::empty();
    assert(seq![character].skip(1) =~= none);
    assert(escaped(none) == none);
    assert(escaped(seq![character]) =~= escaped_character(character));
    if left.len() == 0 {
        assert(left + right =~= right);
        assert(escaped(left) + escaped(right) =~= escaped(right));
    } else {
        assert((left + right).skip(1) =~= left.skip(1) + right);
        quoting_goes_character_by_character(left.skip(1), right, character);
        assert(escaped_character(left[0]) + (escaped(left.skip(1)) + escaped(right)) =~= (
        escaped_character(left[0]) + escaped(left.skip(1))) + escaped(right));
    }
}

/// A word is read on from wherever it has come to, one character at a time: every character but a
/// space, a tab, a backslash and a dollar sign stands for itself, an unquoted `#` included.
pub proof fn words_are_read_on(current: Seq<char>, character: char, rest: Seq<char>)
    requires
        !current.contains('\t'),
        !current.contains('\\'),
    ensures
        words_from(current, rest) == words_from(Seq::empty(), escaped(current) + rest),
        character != ' ' && character != '\t' && character != '\\' && character != '$'
            ==> words_from(current, seq![character] + rest) == words_from(
            current.push(character),
            rest,
        ),
        words_from(current, seq!['\\', ' '] + rest) == words_from(current.push(' '), rest),
        words_from(current, seq!['\\', '#'] + rest) == words_from(current.push('#'), rest),
        words_from(current, seq!['$', '$'] + rest) == words_from(current.push('$'), rest),
{
    let none = Seq::<char>::empty();
    lemma_quoted_word_reads_back(none, current, rest);
    assert(none + current =~= current);
    assert((seq![character] + rest)[0] == character);
    assert((seq![character] + rest).skip(1) =~= rest);
    let space = seq!['\\', ' '] + rest;
    let hash = seq!['\\', '#'] + rest;
    let dollar = seq!['$', '$'] + rest;
    assert(space[0] == '\\' && space[1] == ' ');
    assert(hash[0] == '\\' && hash[1] == '#');
    assert(dollar[0] == '$' && dollar[1] == '$');
    assert(space.skip(2) =~= rest);
    assert(hash.skip(2) =~= rest);
    assert(dollar.skip(2) =~= rest);
}

// Whole lists

/// What is read from a text is the words of the first rule among its joined lines.
pub proof fn texts_are_read_by_their_joined_lines(
    text: Seq<char>,
    front: Seq<Seq<char>>,
    line: Seq<char>,
    rest: Seq<Seq<char>>,
)
    requires
        forall|i: int| 0 <= i < front.len() ==> !is_rule(#[trigger] front[i]),
        is_rule(line),
        joined_lines(false, lines(text)) matches Some(joined) && lines(joined) == front + (seq![
            line,
        ] + rest),
    ensures
        parsed(text) == (match after_separator(line) {
            Some(list) => words_from(Seq::empty(), list),
            None => Err::<Seq<Seq<char>>, BypassModel>(
                BypassModel::MalformedDepfile("no dependency rule"@),
            ),
        }),
{
    the_first_rule_is_read(front, line, rest);
}

/// A line without a colon in front of a list does not count.
pub proof fn lines_without_a_colon_are_skipped(line: Seq<char>, text: Seq<char>)
    requires
        !line.contains('\n'),
        !line.contains(':'),
        line.len() == 0 || (line.last() != '\\' && line.last() != '\t' && line.last() != '\r'),
    ensures
        parsed(line + seq!['\n'] + text) == parsed(text),
{
    let none = Seq::<char>::empty();
    lines_end_at_line_feeds(line, text);
    continued_lines_are_joined_by_a_space(false, line, none, lines(text));
    assert(line + none =~= line);
    assert(none + line + seq!['\n'] =~= line + seq!['\n']);
    assert forall|i: int| 0 <= i < line.len() - 1 implies !(#[trigger] line[i] == ':' && line[i + 1]
        == ' ') by {
        assert(line.contains(line[i]));
    }
    lemma_no_separator(line);
    if ends_targets(false, line) {
        lemma_colons_end_targets(false, line);
    }
    if let Some(more) = joined_lines(false, lines(text)) {
        lines_end_at_line_feeds(line, more);
        assert(lines(line + seq!['\n'] + more) == seq![line] + lines(more));
        assert((seq![line] + lines(more))[0] == line);
        assert((seq![line] + lines(more)).skip(1) =~= lines(more));
        assert(none + line + seq!['\n'] + more =~= line + seq!['\n'] + more);
    }
}

proof fn lemma_colons_end_targets(named: bool, line: Seq<char>)
    requires
        ends_targets(named, line),
    ensures
        line.last() == ':',
        line.contains(':'),
    decreases line.len(),
{
    if line[0] == '\\' {
        lemma_colons_end_targets(true, line.skip(2));
        assert(line.skip(2).last() == line.last());
    } else if line.len() > 1 {
        let next = named || !names_nothing(line[0]);
        lemma_colons_end_targets(next, line.skip(1));
        assert(line.skip(1).last() == line.last());
    }
    assert(line[line.len() - 1] == ':');
}

/// The first rule of a list is read whole: its files are the words behind its separator, every one
/// of them, whatever rules follow.
pub proof fn first_rules_are_read_whole(targets: Seq<char>, list: Seq<char>, more: Seq<char>)
    requires
        !targets.contains('\n'),
        forall|i: int|
            0 <= i < targets.len() - 1 ==> !(#[trigger] targets[i] == ':' && targets[i + 1] == ' '),
        !list.contains('\n'),
        list.len() == 0 || (list.last() != '\\' && list.last() != '\t' && list.last() != '\r'),
        joined_lines(false, lines(more)) is Some,
    ensures
        parsed(targets + seq![':', ' '] + list + seq!['\n'] + more) == words_from(
            Seq::empty(),
            list,
        ),
        parsed(targets + seq![':', ' '] + list) == words_from(Seq::empty(), list),
{
    let none = Seq::<char>::empty();
    let line = targets + seq![':', ' '] + list;
    assert(!line.contains('\n')) by {
        lemma_neither_holds(targets, seq![':', ' '], '\n');
        lemma_neither_holds(targets + seq![':', ' '], list, '\n');
    }
    assert(line.last() == if list.len() > 0 { list.last() } else { ' ' });
    rules_divide_at_their_first_separator(targets, list);
    lines_end_at_line_feeds(line, more);
    continued_lines_are_joined_by_a_space(false, line, none, lines(more));
    assert(line + none =~= line);
    let added = joined_lines(false, lines(more))->Some_0;
    assert(none + line + seq!['\n'] + added =~= line + seq!['\n'] + added);
    lines_end_at_line_feeds(line, added);
    assert((seq![line] + lines(added))[0] == line);
    // Without a line feed at its end
    continued_lines_are_joined_by_a_space(false, line, none, Seq::empty());
    assert(seq![line] + Seq::<Seq<char>>::empty() =~= seq![line]);
    assert(none + line + seq!['\n'] + none =~= line + seq!['\n']);
    lines_end_at_line_feeds(line, none);
    assert(line + seq!['\n'] + none =~= line + seq!['\n']);
    lines_end_at_line_feeds(none, none);
    assert(seq![line][0] == line);
    assert((seq![line] + lines(none))[0] == line);
}

/// A rule may be broken over lines: a backslash at the end of a line reads as a space in its
/// place.
#[verifier::rlimit(40)]
pub proof fn broken_rules_read_as_one_line(front: Seq<char>, rest: Seq<char>)
    requires
        !front.contains('\n'),
        front.len() == 0 || front.last() != '\t',
        rest.len() > 0,
    ensures
        parsed(front + seq!['\\', '\n'] + rest) == parsed(front + seq![' '] + rest),
{
    let none = Seq::<char>::empty();
    let open = front + seq!['\\'];
    let gapped = front + seq![' '];
    lemma_neither_holds(front, seq!['\\'], '\n');
    lines_end_at_line_feeds(open, rest);
    assert(open + seq!['\n'] + rest =~= front + seq!['\\', '\n'] + rest);
    continued_lines_are_joined_by_a_space(false, front, none, lines(rest));
    assert(front + none + seq!['\\'] =~= open);
    lemma_neither_holds(front, seq![' '], '\n');
    lemma_lines_divide(none, gapped, rest);
    lemma_plain_text_stays_open(none, gapped);
    assert(none + gapped =~= gapped);
    assert(lines(gapped + rest) =~= lines_from(gapped, rest));
    lemma_first_line_goes_on(gapped, none, rest);
    assert(gapped + none =~= gapped);
    let first = lines(rest)[0];
    let others = lines(rest).skip(1);
    assert(lines(rest) =~= seq![first] + others);
    lemma_joined_line(true, first, others);
    lemma_joined_line(false, gapped + first, others);
    assert(without_return(gapped + first) == gapped + without_return(first));
    let kept = without_return(first);
    assert((gapped + kept).last() == if kept.len() > 0 { kept.last() } else { ' ' });
    if continues(first) {
        assert((gapped + kept).drop_last() =~= gapped + kept.drop_last());
        lemma_tabs_behind_a_space(gapped, kept.drop_last());
    } else {
        lemma_tabs_behind_a_space(gapped, kept);
    }
    assert(line_body(gapped + first) == gapped + line_body(first));
    let end: Seq<char> = if continues(first) { none } else { seq!['\n'] };
    assert(none + line_body(gapped + first) + end =~= none + front + (seq![' '] + line_body(first)
        + end));
    if let Some(more) = joined_lines(continues(first), others) {
        assert(none + front + (seq![' '] + line_body(first) + end + more) =~= none + line_body(
            gapped + first,
        ) + end + more);
    }
}

proof fn lemma_tabs_behind_a_space(front: Seq<char>, text: Seq<char>)
    requires
        front.len() > 0,
        front.last() != '\t',
    ensures
        without_tabs(front + text) == front + without_tabs(text),
    decreases text.len(),
{
    if text.len() == 0 {
        assert(front + text =~= front);
    } else {
        assert((front + text).last() == text.last());
        if text.last() == '\t' {
            assert((front + text).drop_last() =~= front + text.drop_last());
            lemma_tabs_behind_a_space(front, text.drop_last());
        }
    }
}

proof fn lemma_first_line_goes_on(front: Seq<char>, current: Seq<char>, text: Seq<char>)
    requires
        front.len() > 0,
        front.last() != '\r',
        current.len() + text.len() > 0,
    ensures
        lines_from(current, text).len() > 0,
        lines_from(front + current, text) == seq![front + lines_from(current, text)[0]]
            + lines_from(current, text).skip(1),
    decreases text.len(),
{
    if text.len() == 0 {
        assert(lines_from(front + current, text) =~= seq![front + current]);
        assert(seq![current].skip(1) =~= Seq::<Seq<char>>::empty());
        assert(lines_from(current, text) =~= seq![current]);
    } else if text[0] == '\n' {
        let rest = lines_from(Seq::empty(), text.skip(1));
        assert((seq![without_return(current)] + rest).skip(1) =~= rest);
        assert((seq![without_return(current)] + rest)[0] == without_return(current));
        assert(without_return(front + current) == front + without_return(current)) by {
            if current.len() > 0 {
                assert((front + current).last() == current.last());
                assert((front + current).drop_last() =~= front + current.drop_last());
            } else {
                assert(front + current =~= front);
            }
        }
    } else {
        assert((front + current).push(text[0]) =~= front + current.push(text[0]));
        lemma_first_line_goes_on(front, current.push(text[0]), text.skip(1));
    }
}

/// A list that breaks off at a continued line is refused.
pub proof fn lists_must_not_break_off(line: Seq<char>)
    requires
        !line.contains('\n'),
    ensures
        parsed(line + seq!['\\']) == Err::<Seq<Seq<char>>, BypassModel>(
            BypassModel::MalformedDepfile("unterminated line continuation"@),
        ),
        parsed(line + seq!['\\', '\n']) == Err::<Seq<Seq<char>>, BypassModel>(
            BypassModel::MalformedDepfile("unterminated line continuation"@),
        ),
{
    let none = Seq::<char>::empty();
    let open = line + seq!['\\'];
    lemma_neither_holds(line, seq!['\\'], '\n');
    lines_end_at_line_feeds(open, none);
    lines_end_at_line_feeds(none, none);
    assert(open + seq!['\n'] + none =~= line + seq!['\\', '\n']);
    let list = Seq::<Seq<char>>::empty();
    lemma_joined_line(false, open, list);
    assert(seq![open] + list =~= seq![open]);
    assert(seq![open] + lines(none) =~= seq![open]);
    assert(joined_lines(true, list) is None);
}

/// A text without a rule is refused.
pub proof fn lists_must_hold_a_rule(text: Seq<char>)
    requires
        joined_lines(false, lines(text)) matches Some(joined) && forall|i: int|
            0 <= i < lines(joined).len() ==> !is_rule(#[trigger] lines(joined)[i]),
    ensures
        parsed(text) == Err::<Seq<Seq<char>>, BypassModel>(
            BypassModel::MalformedDepfile("no dependency rule"@),
        ),
{
    lemma_no_rule(lines(joined_lines(false, lines(text))->Some_0));
}

/// A rule that names nothing is refused, whatever rules follow it.
pub proof fn empty_first_rules_are_refused(targets: Seq<char>, more: Seq<char>)
    requires
        !targets.contains('\n'),
        !targets.contains('#'),
        !targets.contains('\\'),
        forall|i: int|
            0 <= i < targets.len() - 1 ==> !(#[trigger] targets[i] == ':' && targets[i + 1] == ' '),
        exists|i: int|
            0 <= i < targets.len() && #[trigger] targets[i] != ' ' && targets[i] != '\t'
                && targets[i] != ':',
        joined_lines(false, lines(more)) is Some,
    ensures
        parsed(targets + seq![':', '\n'] + more) == Err::<Seq<Seq<char>>, BypassModel>(
            BypassModel::MalformedDepfile("no dependency rule"@),
        ),
{
    let none = Seq::<char>::empty();
    let line = targets + seq![':'];
    lemma_neither_holds(targets, seq![':'], '\n');
    lines_end_at_line_feeds(line, more);
    assert(line + seq!['\n'] + more =~= targets + seq![':', '\n'] + more);
    continued_lines_are_joined_by_a_space(false, line, none, lines(more));
    assert(line + none =~= line);
    let added = joined_lines(false, lines(more))->Some_0;
    assert(none + line + seq!['\n'] + added =~= line + seq!['\n'] + added);
    lines_end_at_line_feeds(line, added);
    assert forall|i: int| 0 <= i < line.len() - 1 implies !(#[trigger] line[i] == ':' && line[i + 1]
        == ' ') by {
        if i < targets.len() - 1 {
            assert(line[i] == targets[i] && line[i + 1] == targets[i + 1]);
        }
    }
    lemma_no_separator(line);
    empty_rules_are_targets_with_a_colon(false, targets, ':', none);
    the_first_rule_is_read(Seq::empty(), line, lines(added));
    assert(Seq::<Seq<char>>::empty() + (seq![line] + lines(added)) =~= seq![line] + lines(added));
}

/// What is read gives one file for each word, in order, each the UTF-8 encoding of its word.
pub proof fn files_are_the_words_that_were_read(
    depfile: CcDepfile,
    words: Seq<Seq<char>>,
    at: int,
)
    requires
        depfile_read(Ok(depfile), Ok(words)),
        0 <= at < words.len(),
    ensures
        depfile.files@.len() == words.len(),
        depfile.files@[at]@ == encode_utf8(words[at]),
        paths_of(words).len() == words.len(),
        paths_of(words)[at] == encode_utf8(words[at]),
{
    assert(seq_view(depfile.files@).len() == depfile.files@.len());
    assert(paths_of(words).len() == words.len());
    assert(seq_view(depfile.files@)[at] == depfile.files@[at]@);
}

/// What cannot be read is refused for the very reason that was found.
pub proof fn failed_readings_give_their_reason(
    depfile: Result<CcDepfile, CcBypassReason>,
    files: Result<Vec<FilePath>, CcBypassReason>,
    words: Result<Seq<Seq<char>>, BypassModel>,
)
    ensures
        depfile_read(depfile, words) ==> (depfile is Ok <==> words is Ok),
        depfile_read(depfile, words) ==> (depfile matches Err(reason) ==> words == Err::<
            Seq<Seq<char>>,
            BypassModel,
        >(reason@)),
        files_read(files, words) ==> (files is Ok <==> words is Ok),
        files_read(files, words) ==> (files matches Ok(files) ==> files@.len()
            == words->Ok_0.len() && forall|i: int|
            0 <= i < files@.len() ==> (#[trigger] files@[i])@ == encode_utf8(words->Ok_0[i])),
        files_read(files, words) ==> (files matches Err(reason) ==> words == Err::<
            Seq<Seq<char>>,
            BypassModel,
        >(reason@)),
{
    if files_read(files, words) && files is Ok {
        let list = files->Ok_0@;
        assert(seq_view(list).len() == list.len());
        assert forall|i: int| 0 <= i < list.len() implies (#[trigger] list[i])@ == encode_utf8(
            words->Ok_0[i],
        ) by {
            assert(seq_view(list)[i] == list[i]@);
        }
    }
}

/// A list is read from the text that its bytes encode; bytes that encode none, and a file that
/// could not be read, are refused with the file's path.
pub proof fn lists_are_read_as_text(
    path: Seq<u8>,
    contents: Vec<u8>,
    text: Seq<char>,
    error: IoError,
)
    ensures
        contents@ == encode_utf8(text) ==> list_read(path, Ok(contents)) == parsed(
            text,
        ),
        !valid_utf8(contents@) ==> list_read(path, Ok(contents)) == Err::<
            Seq<Seq<char>>,
            BypassModel,
        >(BypassModel::DepfileRead { path, message: "stream did not contain valid UTF-8"@ }),
        list_read(path, Err(error)) == Err::<Seq<Seq<char>>, BypassModel>(
            BypassModel::DepfileRead { path, message: error.message@ },
        ),
        msvc_read(path, Err(error)) == Err::<Seq<Seq<char>>, BypassModel>(
            BypassModel::DepfileRead { path, message: error.message@ },
        ),
{
    vstd::utf8::encode_utf8_valid_utf8(text);
    vstd::utf8::encode_utf8_decode_utf8(text);
}

// Source dependencies

/// A member of an object is found by its name, the first of several; nothing else has members.
pub proof fn members_are_found_by_name(
    front: Seq<(Seq<char>, Json)>,
    name: Seq<char>,
    value: Json,
    rest: Seq<(Seq<char>, Json)>,
)
    requires
        forall|i: int| 0 <= i < front.len() ==> (#[trigger] front[i]).0 != name,
    ensures
        json_member(Json::Object(front + (seq![(name, value)] + rest)), name) == Some(value),
        json_member(Json::Object(front), name) is None,
        json_member(Json::Null, name) is None,
        forall|items: Seq<Json>| #[trigger] json_member(Json::Array(items), name) is None,
        forall|text: Seq<char>| #[trigger] json_member(Json::Text(text), name) is None,
    decreases front.len(),
{
    let all = front + (seq![(name, value)] + rest);
    if front.len() == 0 {
        assert(all[0] == (name, value));
    } else {
        assert(all[0] == front[0]);
        assert(all.skip(1) =~= front.skip(1) + (seq![(name, value)] + rest));
        let tail = front.skip(1);
        assert forall|i: int| 0 <= i < tail.len() implies (#[trigger] tail[i]).0 != name by {
            assert(tail[i] == front[i + 1]);
        }
        members_are_found_by_name(tail, name, value, rest);
    }
}

/// Where source dependencies name no C++ module, every entry of `Includes` is a file, in order,
/// with the very text of the entry; one that is no text refuses them all.
pub proof fn source_dependencies_hold_every_include(
    document: Json,
    data: Seq<(Seq<char>, Json)>,
    includes: Seq<Json>,
    at: int,
)
    requires
        json_member(document, "Data"@) == Some(Json::Object(data)),
        json_member(Json::Object(data), "Includes"@) == Some(Json::Array(includes)),
        json_member(Json::Object(data), "ImportedModules"@) matches Some(Json::Array(modules))
            ==> modules.len() == 0,
        json_member(Json::Object(data), "ProvidedModule"@) matches Some(module) ==> module
            == Json::Null || module == Json::Text(Seq::empty()),
        0 <= at < includes.len(),
    ensures
        source_dependencies(document) matches Ok(words) ==> {
            &&& words.len() == includes.len()
            &&& includes[at] == Json::Text(words[at])
        },
        source_dependencies(document) is Ok <==> forall|i: int|
            0 <= i < includes.len() ==> #[trigger] includes[i] is Text,
        source_dependencies(document) matches Err(reason) ==> reason
            == BypassModel::MalformedDepfile("non-string include path"@),
{
}

/// Source dependencies without the expected parts, or with C++ modules, are refused.
pub proof fn incomplete_source_dependencies_are_refused(
    document: Json,
    data: Seq<(Seq<char>, Json)>,
    modules: Seq<Json>,
    module: Json,
)
    ensures
        (forall|data: Seq<(Seq<char>, Json)>| json_member(document, "Data"@) != Some(
            Json::Object(data),
        )) ==> source_dependencies(document) == Err::<Seq<Seq<char>>, BypassModel>(
            BypassModel::MalformedDepfile("missing Data object"@),
        ),
        json_member(document, "Data"@) == Some(Json::Object(data)) && json_member(
            Json::Object(data),
            "ImportedModules"@,
        ) == Some(Json::Array(modules)) && modules.len() > 0 ==> source_dependencies(document)
            == Err::<Seq<Seq<char>>, BypassModel>(
            BypassModel::MalformedDepfile("C++ module dependencies are not modeled"@),
        ),
        json_member(document, "Data"@) == Some(Json::Object(data)) && json_member(
            Json::Object(data),
            "ProvidedModule"@,
        ) == Some(module) && module != Json::Null && module != Json::Text(Seq::empty())
            ==> source_dependencies(document) == Err::<Seq<Seq<char>>, BypassModel>(
            BypassModel::MalformedDepfile("C++ module dependencies are not modeled"@),
        ),
        json_member(document, "Data"@) == Some(Json::Object(data)) && json_member(
            Json::Object(data),
            "ImportedModules"@,
        ) is None && json_member(Json::Object(data), "ProvidedModule"@) is None && !(json_member(
            Json::Object(data),
            "Includes"@,
        ) matches Some(Json::Array(_))) ==> source_dependencies(document) == Err::<
            Seq<Seq<char>>,
            BypassModel,
        >(BypassModel::MalformedDepfile("missing Includes array"@)),
{
    if let Some(Json::Object(found)) = json_member(document, "Data"@) {
        assert(json_member(document, "Data"@) == Some(Json::Object(found)));
    }
}

/// Source dependencies are read from the document that their bytes spell, and bytes that spell
/// none are refused with what the reader says of them.
pub proof fn source_dependencies_are_read_as_json(path: Seq<u8>, contents: Vec<u8>)
    ensures
        msvc_read(path, Ok(contents)) == (match json_document(
            contents@,
        ) {
            Ok(document) => source_dependencies(document),
            Err(message) => Err::<Seq<Seq<char>>, BypassModel>(
                BypassModel::MalformedDepfile(message),
            ),
        }),
{
}

// Rendering, piece by piece

/// Prerequisites, phony rules and targets are each rendered one after another: a prerequisite on a
/// continued line of its own, an empty rule for every file but the source, and targets with a
/// space between them.
pub proof fn lists_are_rendered_item_by_item(
    front: Seq<Seq<u8>>,
    file: Seq<u8>,
    rest: Seq<Seq<u8>>,
    source: Seq<u8>,
)
    ensures
        prerequisite_lines(front + (seq![file] + rest)) == prerequisite_lines(front) + (seq![
            ' ',
            '\\',
            '\n',
            ' ',
        ] + escaped(shown_text(file))) + prerequisite_lines(rest),
        prerequisite_lines(Seq::empty()) == Seq::<char>::empty(),
        phony_rules(front + (seq![file] + rest), source) == phony_rules(front, source) + (
        if path_parts(file) == path_parts(source) {
            Seq::<char>::empty()
        } else {
            escaped(shown_text(file)) + seq![':', '\n']
        }) + phony_rules(rest, source),
        phony_rules(Seq::empty(), source) == Seq::<char>::empty(),
    decreases front.len(),
{
    let all = front + (seq![file] + rest);
    let none = Seq::<char>::empty();
    let spelled = seq![' ', '\\', '\n', ' '] + escaped(shown_text(file));
    let phony = if path_parts(file) == path_parts(source) {
        none
    } else {
        escaped(shown_text(file)) + seq![':', '\n']
    };
    if front.len() == 0 {
        assert(all[0] == file);
        assert(all.skip(1) =~= rest);
        assert(prerequisite_lines(front) =~= none);
        assert(phony_rules(front, source) =~= none);
        assert(none + spelled + prerequisite_lines(rest) =~= spelled + prerequisite_lines(rest));
        assert(none + phony + phony_rules(rest, source) =~= phony + phony_rules(rest, source));
        assert(none + phony_rules(rest, source) =~= phony_rules(rest, source));
    } else {
        let first = front[0];
        let tail = front.skip(1);
        assert(all[0] == first);
        assert(all.skip(1) =~= tail + (seq![file] + rest));
        lists_are_rendered_item_by_item(tail, file, rest, source);
        let own = seq![' ', '\\', '\n', ' '] + escaped(shown_text(first));
        assert(own + (prerequisite_lines(tail) + spelled + prerequisite_lines(rest)) =~= (own
            + prerequisite_lines(tail)) + spelled + prerequisite_lines(rest));
        let rule = escaped(shown_text(first)) + seq![':', '\n'];
        assert(rule + (phony_rules(tail, source) + phony + phony_rules(rest, source)) =~= (rule
            + phony_rules(tail, source)) + phony + phony_rules(rest, source));
    }
}

/// Targets stand in front of a rule with a space between one and the next, each quoted where that
/// is asked for; the rule's files follow its colon, and its phony rules, where they are asked for,
/// its last line.
pub proof fn rules_are_rendered_behind_their_targets(
    first: TargetModel,
    front: Seq<TargetModel>,
    last: TargetModel,
    files: Seq<Seq<u8>>,
    source: Seq<u8>,
)
    ensures
        targets_text(Seq::empty()) == Seq::<char>::empty(),
        targets_text(seq![first]) == (if first.quoted {
            escaped(first.name)
        } else {
            first.name
        }),
        targets_text((seq![first] + front).push(last)) == targets_text(seq![first] + front) + seq![
            ' ',
        ] + targets_text(seq![last]),
        rendered(front, files, source, false) == targets_text(front) + seq![':']
            + prerequisite_lines(files) + seq!['\n'],
        rendered(front, files, source, true) == rendered(front, files, source, false)
            + phony_rules(files, source),
{
    let none = Seq::<char>::empty();
    assert(seq![first].skip(1) =~= Seq::<TargetModel>::empty());
    assert(seq![last].skip(1) =~= Seq::<TargetModel>::empty());
    assert(further_targets(Seq::empty()) == none);
    assert(targets_text(seq![first]) =~= target_text(first));
    assert(targets_text(seq![last]) =~= target_text(last));
    let all = (seq![first] + front).push(last);
    assert(all.skip(1) =~= front.push(last));
    assert((seq![first] + front).skip(1) =~= front);
    lemma_further_targets(front, last);
    assert(target_text(first) + (further_targets(front) + (seq![' ']
        + target_text(last))) =~= (target_text(first)
        + further_targets(front)) + seq![' '] + target_text(last));
    assert(targets_text(front) + seq![':'] + prerequisite_lines(files) + seq!['\n'] + none
        =~= targets_text(front) + seq![':'] + prerequisite_lines(files) + seq!['\n']);
}

proof fn lemma_further_targets(front: Seq<TargetModel>, last: TargetModel)
    ensures
        further_targets(front.push(last)) == further_targets(front) + (seq![' ']
            + target_text(last)),
    decreases front.len(),
{
    let none = Seq::<char>::empty();
    if front.len() == 0 {
        assert(front.push(last).skip(1) =~= Seq::<TargetModel>::empty());
        assert(further_targets(Seq::empty()) == none);
        assert(further_targets(front) =~= none);
        assert(seq![' '] + target_text(last) + none =~= none + (seq![' ']
            + target_text(last)));
    } else {
        assert(front.push(last).skip(1) =~= front.skip(1).push(last));
        lemma_further_targets(front.skip(1), last);
        let own = seq![' '] + target_text(front[0]);
        assert(own + (further_targets(front.skip(1)) + (seq![' '] + target_text(
            last,
        ))) =~= (own + further_targets(front.skip(1))) + (seq![' ']
            + target_text(last)));
    }
}

} // verus!
