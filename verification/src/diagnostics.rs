//! Diagnostics of a process that stands in for a compiler.
//!
//! Build scripts read an intercepted compiler's stderr as part of its answer: a configure probe
//! marks a flag unsupported the moment anything lands there. Diagnostics therefore travel to the
//! session's agent, and fall back to stderr only where that stream is not the compiler's.

use crate::text::{characters, text_of};
use vstd::prelude::*;
use vstd::utf8::encode_utf8;

verus! {

// The debug filter

/// A filter of log records.
#[verifier::external_type_specification]
#[verifier::external_body]
pub struct ExFilter(env_filter::Filter);

/// A message that is to be formatted.
#[verifier::external_type_specification]
#[verifier::external_body]
pub struct ExArguments<'a>(std::fmt::Arguments<'a>);

/// The levels of log records.
#[derive(Debug, Clone, Copy, PartialEq, Eq, Structural)]
pub enum LogLevel {
    Error,
    Warn,
    Info,
    Debug,
    Trace,
}

/// Whether `env_filter::Builder::try_parse` accepts a filter's text.
pub uninterp spec fn filter_parses(text: Seq<char>) -> bool;

/// The text that an `env_filter::Filter` was built from.
pub uninterp spec fn filter_text(filter: env_filter::Filter) -> Seq<char>;

/// Whether `env_filter::Filter::matches` admits a record under the filter of a text.
pub uninterp spec fn filter_admits(
    text: Seq<char>,
    level: LogLevel,
    target: Seq<char>,
    message: Seq<char>,
) -> bool;

/// `env_filter::Builder::new`, `try_parse` and `build`: the filter of a text, if the text is one.
///
/// Whether it is depends on the text alone, and so does what the filter admits.
#[verifier::external_body]
fn build_filter(text: &str) -> (filter: Option<env_filter::Filter>)
    ensures
        filter is Some <==> filter_parses(text@),
        filter matches Some(filter) ==> filter_text(filter) == text@,
{
    let mut builder = env_filter::Builder::new();
    match builder.try_parse(text) {
        Ok(parsed) => Some(parsed.build()),
        Err(_) => None,
    }
}

/// A record without its message, for a filter to judge once the message is written.
struct RecordForm<'a> {
    filter: &'a env_filter::Filter,
    level: LogLevel,
    target: &'a str,
}

impl<'a> RecordForm<'a> {
    /// `env_filter::Filter::matches` on the record that `log::Record::builder` makes of a level, a
    /// target and a message. Nothing is claimed of it here: a message cannot be told apart before
    /// it is formatted.
    #[verifier::external_body]
    fn write_fmt(&self, message: std::fmt::Arguments<'_>) -> bool {
        let level = match self.level {
            LogLevel::Error => log::Level::Error,
            LogLevel::Warn => log::Level::Warn,
            LogLevel::Info => log::Level::Info,
            LogLevel::Debug => log::Level::Debug,
            LogLevel::Trace => log::Level::Trace,
        };
        self.filter.matches(
            &log::Record::builder().args(message).level(level).target(self.target).build(),
        )
    }
}

/// `env_filter::Filter::matches`: whether a filter admits a record, which depends on the filter's
/// text and on the record's level, target and message alone. `write!` formats the message for the
/// record form, which hands it to the filter.
#[verifier::external_body]
fn matches_record(filter: &env_filter::Filter, level: LogLevel, target: &str, message: &str) -> (
    admitted: bool)
    ensures
        admitted == filter_admits(filter_text(*filter), level, target@, message@),
{
    write!(RecordForm { filter, level, target }, "{message}")
}

/// What a process asks the debug filter's text to be when its environment does not say.
pub open spec fn requested_filter(value: Option<Seq<char>>) -> Seq<char> {
    match value {
        Some(value) => value,
        None => "info"@,
    }
}

/// The filter that decides which routine diagnostics are reported.
pub struct DebugFilter {
    filter: env_filter::Filter,
}

impl View for DebugFilter {
    type V = Seq<char>;

    closed spec fn view(&self) -> Seq<char> {
        filter_text(self.filter)
    }
}

impl DebugFilter {
    /// Whether a routine diagnostic is reported.
    pub fn admits(&self, target: &str, message: &str) -> (admitted: bool)
        ensures
            admitted == filter_admits(self@, LogLevel::Debug, target@, message@),
    {
        matches_record(&self.filter, LogLevel::Debug, target, message)
    }
}

/// Parse the shim's debug filter, silently disabling this optional
/// diagnostic when the filter is malformed. The main process can report a
/// malformed filter on its own stderr; a rustc shim must never do so because
/// Cargo treats compiler stderr as part of its fingerprint.
///
/// `value` is what the environment asks for, if it asks for anything.
pub fn debug_filter(value: Option<&str>) -> (filter: Option<DebugFilter>)
    ensures
        ({
            let text = requested_filter(
                match value {
                    Some(value) => Some(value@),
                    None => None,
                },
            );
            match filter {
                Some(filter) => filter_parses(text) && filter@ == text,
                None => !filter_parses(text),
            }
        }),
{
    let text = match value {
        Some(value) => value,
        None => "info",
    };
    match build_filter(text) {
        Some(filter) => Some(DebugFilter { filter }),
        None => None,
    }
}

// Messages

/// A message on one line: every line break becomes `; `.
pub open spec fn flattened(message: Seq<char>) -> Seq<char>
    decreases message.len(),
{
    if message.len() == 0 {
        Seq::empty()
    } else {
        let front = flattened(message.drop_last());
        if message.last() == '\n' || message.last() == '\r' {
            front + seq![';', ' ']
        } else {
            front.push(message.last())
        }
    }
}

/// The number of bytes that a character takes.
pub open spec fn width(character: char) -> int {
    let scalar = character as u32;
    if scalar < 0x80 {
        1
    } else if scalar < 0x800 {
        2
    } else if scalar < 0x10000 {
        3
    } else {
        4
    }
}

/// The longest front of a text that takes no more than `limit` bytes.
pub open spec fn fitting(text: Seq<char>, limit: int) -> Seq<char>
    decreases text.len(),
{
    if text.len() == 0 || width(text[0]) > limit {
        Seq::empty()
    } else {
        seq![text[0]] + fitting(text.skip(1), limit - width(text[0]))
    }
}

/// How many bytes of a message the agent takes.
pub const MESSAGE_LIMIT: usize = 2048;

/// A message as it is reported: on one line, and cut off where it is longer than the agent takes.
pub open spec fn prepared(message: Seq<char>) -> Seq<char> {
    let line = flattened(message);
    if encode_utf8(line).len() > MESSAGE_LIMIT {
        fitting(line, MESSAGE_LIMIT as int) + "..."@
    } else {
        line
    }
}

/// How severe a diagnostic is.
#[derive(Debug, Clone, Copy, PartialEq, Eq, Structural)]
pub enum Severity {
    Warning,
    Error,
}

/// What the session's agent is asked to record.
#[derive(Debug, Clone, PartialEq, Eq)]
pub enum AgentRequest {
    RecordWarning { message: String },
    RecordError { message: String },
}

/// What a request says.
pub enum RequestModel {
    RecordWarning(Seq<char>),
    RecordError(Seq<char>),
}

impl View for AgentRequest {
    type V = RequestModel;

    open spec fn view(&self) -> RequestModel {
        match self {
            AgentRequest::RecordWarning { message } => RequestModel::RecordWarning(message@),
            AgentRequest::RecordError { message } => RequestModel::RecordError(message@),
        }
    }
}

/// What the session's agent answers.
#[derive(Debug, Clone, Copy, PartialEq, Eq, Structural)]
pub enum AgentResponse {
    WarningRecorded,
    ErrorRecorded,
    /// Any other answer.
    Other,
}

/// Whether this process's stderr belongs to the compiler it stands in for.
///
/// Set once at shim entry. Cargo also saves rustc stderr in its
/// fingerprints and replays it even when no compiler runs. Shim diagnostics
/// must therefore travel through the live session instead.
#[derive(Debug, Clone, Copy, PartialEq, Eq, Structural)]
pub struct ProcessStderr {
    pub reserved: bool,
}

impl ProcessStderr {
    /// A stderr that diagnostics may be written to.
    pub fn new() -> (stderr: ProcessStderr)
        ensures
            !stderr.reserved,
    {
        ProcessStderr { reserved: false }
    }

    /// Declare that this process replays compiler output on stderr and must not
    /// mix its own diagnostics into it.
    pub fn reserve_stderr_for_compiler(&mut self)
        ensures
            final(self).reserved,
    {
        self.reserved = true;
    }
}

/// A diagnostic that is ready to be delivered.
pub struct ShimDiagnostic {
    severity: Severity,
    message: String,
}

/// What a [`ShimDiagnostic`] says.
pub struct DiagnosticModel {
    pub severity: Severity,
    pub message: Seq<char>,
}

impl View for ShimDiagnostic {
    type V = DiagnosticModel;

    closed spec fn view(&self) -> DiagnosticModel {
        DiagnosticModel { severity: self.severity, message: self.message@ }
    }
}

/// The request that delivers a diagnostic.
pub open spec fn delivery(diagnostic: DiagnosticModel) -> RequestModel {
    match diagnostic.severity {
        Severity::Warning => RequestModel::RecordWarning(diagnostic.message),
        Severity::Error => RequestModel::RecordError(diagnostic.message),
    }
}

/// Whether an answer says that a diagnostic was delivered.
pub open spec fn is_delivered(severity: Severity, response: Option<AgentResponse>) -> bool {
    match severity {
        Severity::Warning => response == Some(AgentResponse::WarningRecorded),
        Severity::Error => response == Some(AgentResponse::ErrorRecorded),
    }
}

/// What is written to stderr of a diagnostic once the agent has answered, or not.
///
/// A fatal reason stays visible when delivery fails, also where an older agent does not
/// understand the request; a warning never lands on a reserved stderr.
pub open spec fn fallback(
    diagnostic: DiagnosticModel,
    response: Option<AgentResponse>,
    reserved: bool,
) -> Option<Seq<char>> {
    if is_delivered(diagnostic.severity, response) {
        None
    } else {
        match diagnostic.severity {
            Severity::Error => Some("mbx[error]: "@ + diagnostic.message),
            Severity::Warning => if reserved {
                None
            } else {
                Some("mbx[warning]: "@ + diagnostic.message)
            },
        }
    }
}

/// A message on one line.
fn flatten(message: &str) -> (line: Vec<char>)
    ensures
        line@ == flattened(message@),
{
    let all = characters(message);
    let mut line: Vec<char> = Vec::new();
    let mut i: usize = 0;
    assert(all@.take(0) =~= Seq::<char>::empty());
    while i < all.len()
        invariant
            i <= all@.len(),
            line@ == flattened(all@.take(i as int)),
        decreases all@.len() - i,
    {
        let ghost before = line@;
        proof {
            assert(all@.take(i + 1).drop_last() =~= all@.take(i as int));
            assert(all@.take(i + 1).last() == all@[i as int]);
        }
        let character = all[i];
        if character == '\n' || character == '\r' {
            line.push(';');
            line.push(' ');
            assert(line@ =~= before + seq![';', ' ']);
        } else {
            line.push(character);
        }
        i += 1;
    }
    assert(all@.take(i as int) =~= all@);
    line
}

fn width_of(character: char) -> (bytes: usize)
    ensures
        bytes == width(character),
{
    let scalar: u32 = character as u32;
    if scalar < 0x80 {
        1
    } else if scalar < 0x800 {
        2
    } else if scalar < 0x10000 {
        3
    } else {
        4
    }
}

/// The longest front of a text that takes no more than `limit` bytes.
fn cut(text: &Vec<char>, limit: usize) -> (front: Vec<char>)
    ensures
        front@ == fitting(text@, limit as int),
{
    let ghost goal = fitting(text@, limit as int);
    let mut front: Vec<char> = Vec::new();
    let mut left: usize = limit;
    let mut i: usize = 0;
    proof {
        assert(text@.skip(0) =~= text@);
        assert(front@ + goal =~= goal);
    }
    while i < text.len() && width_of(text[i]) <= left
        invariant
            i <= text@.len(),
            goal == front@ + fitting(text@.skip(i as int), left as int),
        decreases text@.len() - i,
    {
        let ghost before = front@;
        let ghost rest = text@.skip(i as int);
        let character = text[i];
        let bytes = width_of(character);
        front.push(character);
        proof {
            assert(rest[0] == character);
            assert(rest.skip(1) =~= text@.skip(i + 1));
            let more = fitting(rest.skip(1), left - bytes);
            assert(before + (seq![character] + more) =~= front@ + more);
        }
        left -= bytes;
        i += 1;
    }
    proof {
        let rest = text@.skip(i as int);
        if rest.len() > 0 {
            assert(rest[0] == text@[i as int]);
        }
        assert(fitting(rest, left as int) =~= Seq::<char>::empty());
        assert(front@ + Seq::<char>::empty() =~= front@);
    }
    front
}

/// A message as it is reported.
fn prepare(message: &str) -> (text: String)
    ensures
        text@ == prepared(message@),
{
    let line = flatten(message);
    let text = text_of(&line);
    if text.as_str().as_bytes().len() > MESSAGE_LIMIT {
        // Stay under the agent's acceptance limit rather than losing the whole
        // diagnostic to it; the start of an error chain names the failure.
        let mut short = text_of(&cut(&line, MESSAGE_LIMIT));
        short.append("...");
        short
    } else {
        text
    }
}

/// Begin to report a diagnostic without polluting a reserved stderr.
pub fn report_shim_diagnostic(severity: Severity, message: &str) -> (diagnostic: ShimDiagnostic)
    ensures
        diagnostic@ == (DiagnosticModel { severity, message: prepared(message@) }),
{
    ShimDiagnostic { severity, message: prepare(message) }
}

/// Begin to report a shim diagnostic without polluting a reserved stderr.
///
/// Delivered to the session's agent, which prints it from the process that
/// owns the build. When the agent cannot take it, the message falls back to
/// this process's stderr only where that stream is not the compiler's --
/// losing a diagnostic costs a little visibility, while poisoning a configure
/// probe costs the build its cache keys.
pub fn report_shim_warning(message: &str) -> (diagnostic: ShimDiagnostic)
    ensures
        diagnostic@ == (DiagnosticModel {
            severity: Severity::Warning,
            message: prepared(message@),
        }),
{
    report_shim_diagnostic(Severity::Warning, message)
}

/// Begin to report a fatal shim diagnostic without losing it when transport fails.
///
/// The session retains the error's severity when it displays and emits it.
/// The local fallback keeps the fatal reason visible when delivery fails,
/// including when an older agent does not understand the error request.
pub fn report_shim_error(message: &str) -> (diagnostic: ShimDiagnostic)
    ensures
        diagnostic@ == (DiagnosticModel { severity: Severity::Error, message: prepared(message@) }),
{
    report_shim_diagnostic(Severity::Error, message)
}

/// Begin to report a routine shim warning only when the caller's debug filter requests
/// it. Rustc shims run before the process-wide logger is initialized, so this
/// checks the same filter without installing a logger or writing to stderr.
pub fn report_shim_warning_on_debug(
    filter: &Option<DebugFilter>,
    target: &str,
    message: &str,
) -> (diagnostic: Option<ShimDiagnostic>)
    ensures
        match diagnostic {
            Some(diagnostic) => {
                &&& filter is Some
                &&& filter_admits(filter->Some_0@, LogLevel::Debug, target@, message@)
                &&& diagnostic@ == (DiagnosticModel {
                    severity: Severity::Warning,
                    message: prepared(message@),
                })
            },
            None => filter matches Some(filter) ==> !filter_admits(
                filter@,
                LogLevel::Debug,
                target@,
                message@,
            ),
        },
{
    match filter {
        Some(filter) => report_when_admitted(filter.admits(target, message), message),
        None => None,
    }
}

/// Begin to report a routine warning if the filter admitted it.
pub fn report_when_admitted(admitted: bool, message: &str) -> (diagnostic: Option<ShimDiagnostic>)
    ensures
        match diagnostic {
            Some(diagnostic) => admitted && diagnostic@ == (DiagnosticModel {
                severity: Severity::Warning,
                message: prepared(message@),
            }),
            None => !admitted,
        },
{
    if admitted {
        Some(report_shim_warning(message))
    } else {
        None
    }
}

impl ShimDiagnostic {
    /// The request that delivers the diagnostic.
    pub fn request(&self) -> (request: AgentRequest)
        ensures
            request@ == delivery(self@),
    {
        match self.severity {
            Severity::Warning => AgentRequest::RecordWarning { message: self.message.clone() },
            Severity::Error => AgentRequest::RecordError { message: self.message.clone() },
        }
    }

    /// What is to be written to stderr once the agent has answered, or not.
    pub fn conclude(&self, response: Option<AgentResponse>, stderr: &ProcessStderr) -> (note:
        Option<String>)
        ensures
            crate::views::opt_view(note) == fallback(self@, response, stderr.reserved),
    {
        let delivered = match (self.severity, response) {
            (Severity::Warning, Some(AgentResponse::WarningRecorded)) => true,
            (Severity::Error, Some(AgentResponse::ErrorRecorded)) => true,
            _ => false,
        };
        if delivered {
            return None;
        }
        let mut note = match self.severity {
            Severity::Error => "mbx[error]: ".to_owned(),
            Severity::Warning => {
                if stderr.reserved {
                    return None;
                }
                "mbx[warning]: ".to_owned()
            },
        };
        note.append(self.message.as_str());
        Some(note)
    }
}

// What holds of reported messages

/// A character takes as many bytes as its encoding.
proof fn lemma_width(character: char)
    ensures
        encode_utf8(seq![character]).len() == width(character),
{
    let one = seq![character];
    vstd::utf8::char_is_scalar(character);
    assert(one.drop_first() =~= Seq::<char>::empty());
    assert(encode_utf8(one.drop_first()) =~= Seq::<u8>::empty());
    assert(encode_utf8(one) == vstd::utf8::encode_scalar(character as u32) + encode_utf8(
        one.drop_first(),
    ));
}

proof fn lemma_front_width(character: char, rest: Seq<char>)
    ensures
        encode_utf8(seq![character] + rest).len() == width(character) + encode_utf8(rest).len(),
{
    lemma_width(character);
    let all = seq![character] + rest;
    let one = seq![character];
    assert(all.drop_first() =~= rest);
    assert(one.drop_first() =~= Seq::<char>::empty());
    assert(encode_utf8(one.drop_first()) =~= Seq::<u8>::empty());
    assert(encode_utf8(one) =~= vstd::utf8::encode_scalar(character as u32));
}

/// What fits takes no more bytes than it may, is a front of the text, and could not be longer.
pub proof fn fitting_is_the_longest_front(text: Seq<char>, limit: int)
    requires
        limit >= 0,
    ensures
        encode_utf8(fitting(text, limit)).len() <= limit,
        fitting(text, limit).is_prefix_of(text),
        fitting(text, limit).len() < text.len() ==> encode_utf8(fitting(text, limit)).len() + width(
            text[fitting(text, limit).len() as int],
        ) > limit,
    decreases text.len(),
{
    if text.len() > 0 && width(text[0]) <= limit {
        let rest = text.skip(1);
        let left = limit - width(text[0]);
        fitting_is_the_longest_front(rest, left);
        lemma_front_width(text[0], fitting(rest, left));
        let front = fitting(text, limit);
        let more = fitting(rest, left);
        assert(front.len() == more.len() + 1);
        assert(text.take(front.len() as int) =~= seq![text[0]] + rest.take(more.len() as int));
        if front.len() < text.len() {
            assert(text[front.len() as int] == rest[more.len() as int]);
        }
    } else {
        assert(fitting(text, limit) =~= text.take(0));
    }
}

/// A flattened message holds no line break.
pub proof fn flattened_messages_are_one_line(message: Seq<char>)
    ensures
        !flattened(message).contains('\n'),
        !flattened(message).contains('\r'),
    decreases message.len(),
{
    if message.len() > 0 {
        let front = flattened(message.drop_last());
        flattened_messages_are_one_line(message.drop_last());
        assert forall|i: int| 0 <= i < flattened(message).len() implies #[trigger] flattened(
            message,
        )[i] != '\n' && flattened(message)[i] != '\r' by {
            if i < front.len() {
                assert(flattened(message)[i] == front[i]);
                assert(front.contains(front[i]));
            }
        }
    }
}

/// A reported message is on one line and takes no more bytes than the agent takes, but for the
/// dots that mark it as cut off.
pub proof fn reported_messages_fit(message: Seq<char>)
    ensures
        !prepared(message).contains('\n'),
        !prepared(message).contains('\r'),
        encode_utf8(prepared(message)).len() <= MESSAGE_LIMIT + 3,
{
    let line = flattened(message);
    flattened_messages_are_one_line(message);
    if encode_utf8(line).len() > MESSAGE_LIMIT {
        let front = fitting(line, MESSAGE_LIMIT as int);
        let dots = "..."@;
        reveal_strlit("...");
        fitting_is_the_longest_front(line, MESSAGE_LIMIT as int);
        assert(prepared(message) == front + dots);
        assert forall|i: int| 0 <= i < prepared(message).len() implies #[trigger] prepared(
            message,
        )[i] != '\n' && prepared(message)[i] != '\r' by {
            if i < front.len() {
                assert(line[i] == line.take(front.len() as int)[i]);
                assert(line.contains(line[i]));
            }
        }
        lemma_encoded_length(front, dots);
        assert(dots =~= seq!['.', '.', '.']);
        let none = Seq::<char>::empty();
        assert(encode_utf8(none) =~= Seq::<u8>::empty());
        lemma_front_width('.', none);
        assert(seq!['.'] + none =~= seq!['.']);
        lemma_front_width('.', seq!['.']);
        assert(seq!['.'] + seq!['.'] =~= seq!['.', '.']);
        lemma_front_width('.', seq!['.', '.']);
        assert(seq!['.'] + seq!['.', '.'] =~= dots);
    }
}

proof fn lemma_encoded_length(front: Seq<char>, back: Seq<char>)
    ensures
        encode_utf8(front + back).len() == encode_utf8(front).len() + encode_utf8(back).len(),
    decreases front.len(),
{
    if front.len() == 0 {
        assert(front + back =~= back);
    } else {
        let rest = front.skip(1);
        lemma_encoded_length(rest, back);
        lemma_front_width(front[0], rest);
        lemma_front_width(front[0], rest + back);
        assert(seq![front[0]] + rest =~= front);
        assert(seq![front[0]] + (rest + back) =~= front + back);
    }
}

/// A warning is never written to a stderr that is the compiler's.
pub proof fn warnings_spare_a_reserved_stderr(
    diagnostic: DiagnosticModel,
    response: Option<AgentResponse>,
)
    requires
        diagnostic.severity == Severity::Warning,
    ensures
        fallback(diagnostic, response, true) is None,
{
}

/// An error is either recorded by the agent or written to stderr.
pub proof fn errors_are_never_lost(
    diagnostic: DiagnosticModel,
    response: Option<AgentResponse>,
    reserved: bool,
)
    requires
        diagnostic.severity == Severity::Error,
    ensures
        response == Some(AgentResponse::ErrorRecorded) || fallback(diagnostic, response, reserved)
            is Some,
{
}

/// What the agent has recorded is not written to stderr as well.
pub proof fn delivered_diagnostics_are_not_repeated(
    diagnostic: DiagnosticModel,
    response: Option<AgentResponse>,
    reserved: bool,
)
    requires
        is_delivered(diagnostic.severity, response),
    ensures
        fallback(diagnostic, response, reserved) is None,
{
}

/// Without a request the filter admits what is worth telling; a request is taken as it stands.
pub proof fn filters_are_taken_as_requested(text: Seq<char>)
    ensures
        requested_filter(Some(text)) == text,
        requested_filter(None) == "info"@,
{
}

/// Messages are flattened character by character: a line feed or a carriage return becomes a
/// semicolon and a space, and every other character stays.
pub proof fn messages_are_flattened_character_by_character(
    front: Seq<char>,
    character: char,
    rest: Seq<char>,
)
    ensures
        flattened(Seq::empty()) == Seq::<char>::empty(),
        flattened(front + (seq![character] + rest)) == flattened(front) + (if character == '\n'
            || character == '\r' {
            seq![';', ' ']
        } else {
            seq![character]
        }) + flattened(rest),
    decreases rest.len(),
{
    let all = front + (seq![character] + rest);
    let one = if character == '\n' || character == '\r' {
        seq![';', ' ']
    } else {
        seq![character]
    };
    if rest.len() == 0 {
        assert(all.drop_last() =~= front);
        assert(all.last() == character);
        assert(flattened(rest) =~= Seq::<char>::empty());
        assert(flattened(front) + one + flattened(rest) =~= flattened(front) + one);
        assert(flattened(front).push(character) =~= flattened(front) + seq![character]);
    } else {
        let less = rest.drop_last();
        assert(all.drop_last() =~= front + (seq![character] + less));
        assert(all.last() == rest.last());
        messages_are_flattened_character_by_character(front, character, less);
        let begun = flattened(front) + one;
        assert((begun + flattened(less)) + seq![';', ' '] =~= begun + (flattened(less) + seq![
            ';',
            ' ',
        ]));
        assert((begun + flattened(less)).push(rest.last()) =~= begun + flattened(less).push(
            rest.last(),
        ));
    }
}

/// A character is as wide as its UTF-8 encoding is long.
pub proof fn characters_are_as_wide_as_they_are_encoded(character: char)
    ensures
        encode_utf8(seq![character]).len() == width(character),
{
    let none = Seq::<char>::empty();
    lemma_front_width(character, none);
    assert(seq![character] + none =~= seq![character]);
    assert(encode_utf8(none) =~= Seq::<u8>::empty());
}

/// A message that fits is reported whole; one that does not is cut off as late as it may be, and
/// marked with dots.
pub proof fn messages_are_reported_as_far_as_they_fit(message: Seq<char>)
    ensures
        encode_utf8(flattened(message)).len() <= 2048 ==> prepared(message) == flattened(message),
        encode_utf8(flattened(message)).len() > 2048 ==> exists|count: int|
            {
                &&& 0 <= count < flattened(message).len()
                &&& prepared(message) == #[trigger] flattened(message).take(count) + seq![
                    '.',
                    '.',
                    '.',
                ]
                &&& encode_utf8(flattened(message).take(count)).len() <= 2048
                &&& encode_utf8(flattened(message).take(count + 1)).len() > 2048
            },
{
    let line = flattened(message);
    if encode_utf8(line).len() > 2048 {
        let front = fitting(line, 2048);
        fitting_is_the_longest_front(line, 2048);
        reveal_strlit("...");
        assert("..."@ =~= seq!['.', '.', '.']);
        let count = front.len() as int;
        assert(line.take(count) =~= front);
        if count == line.len() {
            assert(front =~= line);
        }
        let next = line[count];
        assert(line.take(count + 1) =~= front + seq![next]);
        lemma_encoded_length(front, seq![next]);
        characters_are_as_wide_as_they_are_encoded(next);
        assert(prepared(message) == line.take(count) + seq!['.', '.', '.']);
    }
}

/// A warning is delivered as a warning and an error as an error, and counts as delivered exactly
/// when the answer is of its kind.
pub proof fn diagnostics_are_delivered_in_kind(message: Seq<char>, response: Option<AgentResponse>)
    ensures
        delivery(DiagnosticModel { severity: Severity::Warning, message })
            == RequestModel::RecordWarning(message),
        delivery(DiagnosticModel { severity: Severity::Error, message })
            == RequestModel::RecordError(message),
        is_delivered(Severity::Warning, response) <==> response == Some(
            AgentResponse::WarningRecorded,
        ),
        is_delivered(Severity::Error, response) <==> response == Some(AgentResponse::ErrorRecorded),
{
}

/// A diagnostic that was not delivered is written to stderr with its severity in front: an error
/// always, and a warning unless stderr is the compiler's.
pub proof fn undelivered_diagnostics_fall_back_to_stderr(
    message: Seq<char>,
    response: Option<AgentResponse>,
    reserved: bool,
)
    ensures
        response != Some(AgentResponse::ErrorRecorded) ==> fallback(
            DiagnosticModel { severity: Severity::Error, message },
            response,
            reserved,
        ) == Some("mbx[error]: "@ + message),
        response != Some(AgentResponse::WarningRecorded) ==> fallback(
            DiagnosticModel { severity: Severity::Warning, message },
            response,
            false,
        ) == Some("mbx[warning]: "@ + message),
        fallback(
            DiagnosticModel { severity: Severity::Warning, message },
            response,
            true,
        ) is None,
{
}

} // verus!
