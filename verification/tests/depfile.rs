use mbx_cache::depfile::{
    escape_make_word, join_continuations, split_prerequisites, CcCompilerFamily, CcDepfile,
    DepfileTarget,
};
use mbx_cache::error::{CcBypassReason, IoError, IoErrorKind};
use mbx_cache::json::JsonValue;
use mbx_cache::path::FilePath;

fn path(text: &str) -> FilePath {
    FilePath::from_text(text)
}

fn paths(texts: &[&str]) -> Vec<FilePath> {
    texts.iter().map(|text| path(text)).collect()
}

fn malformed(message: &str) -> CcBypassReason {
    CcBypassReason::MalformedDepfile(message.to_string())
}

fn target(name: &str, quoted: bool) -> DepfileTarget {
    DepfileTarget { name: name.to_string(), quoted }
}

#[test]
fn a_plain_rule_names_its_prerequisites() {
    let depfile = CcDepfile::parse("main.o: main.c include/a.h\n").unwrap();
    assert_eq!(depfile.files, paths(&["main.c", "include/a.h"]));
}

#[test]
fn continued_lines_belong_to_one_rule() {
    let text = "main.o: main.c \\\n  a.h \\\r\n\tb.h\n";
    let depfile = CcDepfile::parse(text).unwrap();
    assert_eq!(depfile.files, paths(&["main.c", "a.h", "b.h"]));
    assert_eq!(join_continuations("a\t\t\\\nb\n").unwrap(), "a b\n");
    assert_eq!(join_continuations("x\ny").unwrap(), "x\ny\n");
}

#[test]
fn an_unterminated_continuation_is_malformed() {
    assert_eq!(
        CcDepfile::parse("main.o: main.c \\"),
        Err(malformed("unterminated line continuation"))
    );
    assert_eq!(
        join_continuations("main.o: \\\n"),
        Err(malformed("unterminated line continuation"))
    );
}

#[test]
fn a_list_without_a_rule_is_malformed() {
    assert_eq!(CcDepfile::parse("nothing here\n"), Err(malformed("no dependency rule")));
    assert_eq!(CcDepfile::parse(""), Err(malformed("no dependency rule")));
    // A colon without a space behind it separates nothing.
    assert_eq!(CcDepfile::parse("main.o:main.c\n"), Err(malformed("no dependency rule")));
}

#[test]
fn only_the_first_rule_is_read() {
    let depfile = CcDepfile::parse("\na.o: a.c a.h\na.h:\nb.o: b.c\n").unwrap();
    assert_eq!(depfile.files, paths(&["a.c", "a.h"]));
    assert_eq!(CcDepfile::parse("\na.o: a.c a.h\n"), Ok(depfile));
    assert_eq!(
        CcDepfile::parse("a.o: a\\b\nb.o: b.c\n"),
        Err(malformed("unmodeled escape \\b"))
    );
}

#[test]
fn an_empty_first_rule_hides_the_later_ones() {
    for text in ["a.o:\n", "a.o:\nb.o: c.h\n", "\nnote\na.o:\r\nb.o: c.h\n", "a.o:\t\nb.o: c.h\n"] {
        assert_eq!(CcDepfile::parse(text), Err(malformed("no dependency rule")), "{text:?}");
    }
    assert_eq!(CcDepfile::parse("a.o: \nb.o: c.h\n").unwrap().files, paths(&[]));
    assert_eq!(CcDepfile::parse("a.o: c.h:\nb.o: d.h\n").unwrap().files, paths(&["c.h:"]));
    assert_eq!(CcDepfile::parse("a.o:\\\n c.h\nb.o: d.h\n").unwrap().files, paths(&["c.h"]));
}

#[test]
fn a_colon_that_ends_no_targets_makes_no_rule() {
    for text in [
        "# x:\na.o: b\n",
        " \t# x:\na.o: b\n",
        "#:\na.o: b\n",
        "x # y:\na.o: b\n",
        "x\\\\#y:\na.o: b\n",
        "x\\:\na.o: b\n",
        ":\na.o: b\n",
        "\t :\na.o: b\n",
        "\na.o: b\n",
    ] {
        assert_eq!(CcDepfile::parse(text).unwrap().files, paths(&["b"]), "{text:?}");
    }
    assert_eq!(CcDepfile::parse("# x: y\na.o: b\n").unwrap().files, paths(&["y"]));
    for text in ["x\\#y:\na.o: b\n", "x\\ y:\na.o: b\n", "x\\\\:\na.o: b\n", "x :\na.o: b\n"] {
        assert_eq!(CcDepfile::parse(text), Err(malformed("no dependency rule")), "{text:?}");
    }
}

#[test]
fn make_escapes_are_read() {
    let files = split_prerequisites("one\\ two \\#three $$four\tfive").unwrap();
    assert_eq!(files, paths(&["one two", "#three", "$four", "five"]));
    assert_eq!(split_prerequisites("  \t ").unwrap(), paths(&[]));
}

#[test]
fn unmodeled_escapes_are_malformed() {
    assert_eq!(split_prerequisites("a\\b"), Err(malformed("unmodeled escape \\b")));
    assert_eq!(split_prerequisites("a\\"), Err(malformed("trailing escape character")));
    assert_eq!(split_prerequisites("$x"), Err(malformed("unmodeled variable reference $x")));
    assert_eq!(split_prerequisites("a$"), Err(malformed("trailing variable reference")));
}

#[test]
fn words_are_quoted_for_make() {
    assert_eq!(escape_make_word("a b#c$d"), "a\\ b\\#c$$d");
    assert_eq!(escape_make_word(""), "");
    assert_eq!(escape_make_word("plain/path.h"), "plain/path.h");
}

#[test]
fn quoted_words_are_read_back() {
    for word in ["plain", "with space", "#", "$", " $#$ x", "a\nb", "\u{e9}t\u{e9}.h"] {
        assert_eq!(split_prerequisites(&escape_make_word(word)).unwrap(), paths(&[word]));
    }
    assert_eq!(split_prerequisites(&escape_make_word("a\tb")).unwrap(), paths(&["a", "b"]));
    assert!(split_prerequisites(&escape_make_word("a\\b")).is_err());
}

#[test]
fn rendering_writes_one_prerequisite_a_line() {
    let text = CcDepfile::render(
        &[target("out dir/a.o", true), target("literal name", false)],
        &paths(&["a.c", "my header.h"]),
        &path("a.c"),
        false,
    );
    assert_eq!(text, "out\\ dir/a.o literal name: \\\n a.c \\\n my\\ header.h\n");
}

#[test]
fn phony_rules_leave_the_source_out() {
    let text = CcDepfile::render(
        &[target("a.o", true)],
        &paths(&["./a.c", "b.h", "c$.h"]),
        &path("./a.c"),
        true,
    );
    assert_eq!(text, "a.o: \\\n ./a.c \\\n b.h \\\n c$$.h\nb.h:\nc$$.h:\n");
    // The source is recognised by the place it names.
    let text = CcDepfile::render(
        &[target("a.o", true)],
        &paths(&["dir//a.c", "b.h"]),
        &path("dir/./a.c"),
        true,
    );
    assert_eq!(text, "a.o: \\\n dir//a.c \\\n b.h\nb.h:\n");
}

#[test]
fn rendered_files_come_back_when_parsed() {
    let files = paths(&["src/main file.c", "#weird.h", "money$.h", "caf\u{e9}.h"]);
    for phony in [false, true] {
        let text = CcDepfile::render(
            &[target("main.o", true), target("other.o", false)],
            &files,
            &path("src/main file.c"),
            phony,
        );
        let parsed = CcDepfile::parse(&text).unwrap();
        assert_eq!(parsed.files.len(), files.len());
        for (left, right) in parsed.files.iter().zip(files.iter()) {
            assert_eq!(left.as_bytes(), right.as_bytes());
        }
    }
}

#[test]
fn quoted_targets_hide_their_separators() {
    let files = paths(&["a.c", "a b.h"]);
    for name in ["a: b", "$ #: ", "\\", "x\r", "tab\t: y"] {
        let text = CcDepfile::render(&[target(name, true)], &files, &files[0], true);
        assert_eq!(CcDepfile::parse(&text).unwrap().files, files, "{name}");
    }
    let text = CcDepfile::render(&[target("a: b", false)], &files, &files[0], false);
    assert_eq!(CcDepfile::parse(&text).unwrap().files, paths(&["b:", "a.c", "a b.h"]));
    let text = CcDepfile::render(&[target("a:\nb", false)], &files, &files[0], false);
    assert_eq!(CcDepfile::parse(&text), Err(malformed("no dependency rule")));
}

#[test]
fn paths_that_are_not_text_are_rendered_with_replacements() {
    let files = vec![FilePath::from_bytes(vec![b'a', 0xff, b'.', b'h'])];
    let text = CcDepfile::render(&[target("a.o", true)], &files, &path("a.c"), false);
    assert_eq!(text, "a.o: \\\n a\u{fffd}.h\n");
}

#[test]
fn an_empty_dependency_list_is_the_default() {
    assert_eq!(CcDepfile::default().files, Vec::new());
}

fn failure(message: &str) -> IoError {
    IoError { kind: IoErrorKind::NotFound, code: Some(2), message: message.to_string() }
}

#[test]
fn reading_a_list_reports_why_its_file_could_not_be_read() {
    let at = path("/build/a.d");
    assert_eq!(
        CcDepfile::read(&at, Err(failure("gone"))),
        Err(CcBypassReason::DepfileRead { path: path("/build/a.d"), message: "gone".to_string() })
    );
    assert_eq!(
        CcDepfile::read(&at, Ok(vec![b'a', 0xff])),
        Err(CcBypassReason::DepfileRead {
            path: path("/build/a.d"),
            message: "stream did not contain valid UTF-8".to_string(),
        })
    );
    assert_eq!(
        CcDepfile::read(&at, Ok(b"a.o: a.c\n".to_vec())).unwrap().files,
        paths(&["a.c"])
    );
}

#[test]
fn the_compiler_family_decides_how_a_list_is_read() {
    let at = path("/build/a.json");
    let json = br#"{"Version":"1.2","Data":{"Source":"a.c","ProvidedModule":"","Includes":["a.h","dir/b.h"]}}"#;
    let depfile =
        CcDepfile::read_for(&at, CcCompilerFamily::Msvc, Ok(json.to_vec())).unwrap();
    assert_eq!(depfile.files, paths(&["a.h", "dir/b.h"]));
    assert_eq!(
        CcDepfile::read_for(&at, CcCompilerFamily::Gnu, Ok(b"a.o: a.c".to_vec())).unwrap().files,
        paths(&["a.c"])
    );
    assert!(CcCompilerFamily::Msvc.is_msvc());
    assert!(!CcCompilerFamily::Gnu.is_msvc());
}

#[test]
fn msvc_dependencies_must_have_their_shape() {
    let at = path("/build/a.json");
    let read = |text: &str| CcDepfile::read_msvc(&at, Ok(text.as_bytes().to_vec()));
    assert_eq!(read("[]"), Err(malformed("missing Data object")));
    assert_eq!(read(r#"{"Data":[]}"#), Err(malformed("missing Data object")));
    assert_eq!(read(r#"{"Data":{}}"#), Err(malformed("missing Includes array")));
    assert_eq!(read(r#"{"Data":{"Includes":{}}}"#), Err(malformed("missing Includes array")));
    assert_eq!(read(r#"{"Data":{"Includes":[1]}}"#), Err(malformed("non-string include path")));
    assert_eq!(
        read(r#"{"Data":{"Includes":[],"ImportedModules":["m"]}}"#),
        Err(malformed("C++ module dependencies are not modeled"))
    );
    assert_eq!(
        read(r#"{"Data":{"Includes":[],"ProvidedModule":"m"}}"#),
        Err(malformed("C++ module dependencies are not modeled"))
    );
    assert_eq!(
        read(r#"{"Data":{"Includes":[],"ProvidedModule":{}}}"#),
        Err(malformed("C++ module dependencies are not modeled"))
    );
    assert_eq!(
        read(r#"{"Data":{"Includes":[],"ProvidedModule":null,"ImportedModules":[]}}"#)
            .unwrap()
            .files,
        paths(&[])
    );
    assert!(matches!(read("{"), Err(CcBypassReason::MalformedDepfile(_))));
    assert_eq!(
        CcDepfile::read_msvc(&at, Err(failure("gone"))),
        Err(CcBypassReason::DepfileRead { path: path("/build/a.json"), message: "gone".to_string() })
    );
}

#[test]
fn json_errors_say_what_the_reader_says() {
    let expected = serde_json::from_slice::<serde_json::Value>(b"{\"a\":").unwrap_err().to_string();
    assert_eq!(
        CcDepfile::read_msvc(&path("a"), Ok(b"{\"a\":".to_vec())),
        Err(CcBypassReason::MalformedDepfile(expected))
    );
}

#[test]
fn documents_become_plain_values() {
    let document =
        JsonValue::from_bytes(br#"{"b":[null,true,1.5,"x"],"a":{"k":"v"},"b":[]}"#).unwrap();
    let expected = JsonValue::Object(vec![
        (
            "a".to_string(),
            JsonValue::Object(vec![("k".to_string(), JsonValue::Text("v".to_string()))]),
        ),
        ("b".to_string(), JsonValue::Array(vec![])),
    ]);
    assert_eq!(document, expected);
    let list = JsonValue::from_bytes(br#"[null,true,1.5,"x"]"#).unwrap();
    assert_eq!(
        list,
        JsonValue::Array(vec![
            JsonValue::Null,
            JsonValue::Bool(true),
            JsonValue::Number,
            JsonValue::Text("x".to_string()),
        ])
    );
    assert_eq!(document.member("missing"), None);
    assert_eq!(list.member("a"), None);
}

#[test]
fn source_dependencies_are_read_from_plain_values() {
    let document = JsonValue::Object(vec![(
        "Data".to_string(),
        JsonValue::Object(vec![(
            "Includes".to_string(),
            JsonValue::Array(vec![JsonValue::Text("one.h".to_string())]),
        )]),
    )]);
    assert_eq!(
        CcDepfile::from_source_dependencies(&document).unwrap().files,
        paths(&["one.h"])
    );
}
