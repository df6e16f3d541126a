use mbx_cache::directives::{
    contains_any, contains_assembler_input_directive, DirectiveScan, ScanStep,
};
use mbx_cache::error::{CcBypassReason, IoError, IoErrorKind};
use mbx_cache::path::FilePath;
use mbx_cache::scan::{
    contains_subslice, contains_subslice_ascii_case_insensitive, NeedleSearch,
};

fn scan_pieces(scan: DirectiveScan, pieces: &[&[u8]]) -> Result<bool, CcBypassReason> {
    let mut scan = scan;
    for piece in pieces {
        scan = match scan.read(Ok(piece)) {
            ScanStep::More(scan) => scan,
            ScanStep::Finished(outcome) => return outcome,
        };
    }
    match scan.read(Ok(&[])) {
        ScanStep::Finished(outcome) => outcome,
        ScanStep::More(_) => panic!("the end must end the scan"),
    }
}

fn assembler(pieces: &[&[u8]]) -> Result<bool, CcBypassReason> {
    scan_pieces(contains_assembler_input_directive(&FilePath::from_text("/src/a.S")), pieces)
}

#[test]
fn subslices_are_found_wherever_they_stand() {
    assert!(contains_subslice(b"abcabd", b"abd"));
    assert!(contains_subslice(b"abd", b"abd"));
    assert!(!contains_subslice(b"ab", b"abd"));
    assert!(!contains_subslice(b"aBd", b"abd"));
    assert!(!contains_subslice(b"abc", b""));
    assert!(!contains_subslice(b"", b""));
}

#[test]
fn only_ascii_letters_are_compared_without_their_case() {
    assert!(contains_subslice_ascii_case_insensitive(b"x .InCbIn y", b".incbin"));
    assert!(contains_subslice_ascii_case_insensitive(b"x .incbin y", b".INCBIN"));
    assert!(!contains_subslice_ascii_case_insensitive(b"[", b"{"));
    assert!(!contains_subslice_ascii_case_insensitive(b"@", b"`"));
    assert!(!contains_subslice_ascii_case_insensitive(b"abc", b""));
    assert!(!contains_subslice_ascii_case_insensitive(b".inc", b".incbin"));
}

#[test]
fn what_has_been_found_stays_found() {
    let search = NeedleSearch::start(vec![b"needle".to_vec(), b"pin".to_vec()], false);
    assert!(!search.found());
    let search = search.feed(b"a nee");
    assert!(!search.found());
    let search = search.feed(b"dle");
    assert!(search.found());
    assert!(search.feed(b"nothing here").found());
    let none = NeedleSearch::start(Vec::new(), false).feed(b"anything");
    assert!(!none.found());
}

#[test]
fn assembler_directives_are_found_across_reads() {
    for directive in [".include", ".incbin", ".sinclude", ".INCLUDE", ".IncBin"] {
        let whole = format!("// {directive} \"other.s\"\n");
        let bytes = whole.as_bytes();
        assert_eq!(assembler(&[bytes]), Ok(true));
        for cut in 1..bytes.len() {
            assert_eq!(assembler(&[&bytes[..cut], &bytes[cut..]]), Ok(true));
        }
        let single: Vec<&[u8]> = bytes.chunks(1).collect();
        assert_eq!(assembler(&single), Ok(true));
    }
}

#[test]
fn other_text_is_no_assembler_directive() {
    assert_eq!(assembler(&[]), Ok(false));
    assert_eq!(assembler(&[b"#include <a.h>\n.inc", b"\nbin .section"]), Ok(false));
}

#[test]
fn an_unreadable_input_is_reported_with_its_path() {
    let failure =
        || IoError { kind: IoErrorKind::Other, code: None, message: "disk on fire".to_string() };
    let scan = contains_assembler_input_directive(&FilePath::from_text("/src/a.S"));
    let scan = match scan.read(Ok(b".inc")) {
        ScanStep::More(scan) => scan,
        ScanStep::Finished(_) => panic!("nothing is settled yet"),
    };
    match scan.read(Err(failure())) {
        ScanStep::Finished(outcome) => assert_eq!(
            outcome,
            Err(CcBypassReason::InputRead {
                path: FilePath::from_text("/src/a.S"),
                message: "disk on fire".to_string(),
            })
        ),
        ScanStep::More(_) => panic!("a failure must end the scan"),
    }
}

#[test]
fn any_needles_can_be_searched_for() {
    let path = FilePath::from_text("/src/a.c");
    let scan = || contains_any(&path, vec![b"abc".to_vec(), b"x".to_vec()]);
    assert_eq!(scan_pieces(scan(), &[b"..a", b"B", b"c"]), Ok(true));
    assert_eq!(scan_pieces(scan(), &[b"yX"]), Ok(true));
    assert_eq!(scan_pieces(scan(), &[b"ab", b"-c"]), Ok(false));
    assert_eq!(scan_pieces(contains_any(&path, Vec::new()), &[b"abc"]), Ok(false));
}
