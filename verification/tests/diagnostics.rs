use mbx_cache::diagnostics::{
    debug_filter, report_shim_diagnostic, report_shim_error, report_shim_warning,
    report_shim_warning_on_debug, report_when_admitted, AgentRequest, AgentResponse, ProcessStderr,
    Severity,
};

fn warning(message: &str) -> AgentRequest {
    AgentRequest::RecordWarning { message: message.to_string() }
}

#[test]
fn diagnostics_are_delivered_on_one_line() {
    assert_eq!(report_shim_warning("one\ntwo\r\nthree").request(), warning("one; two; ; three"));
    assert_eq!(
        report_shim_error("fatal").request(),
        AgentRequest::RecordError { message: "fatal".to_string() }
    );
    assert_eq!(report_shim_diagnostic(Severity::Warning, "").request(), warning(""));
}

#[test]
fn long_diagnostics_are_cut_at_a_character() {
    let exact = "x".repeat(2048);
    assert_eq!(report_shim_warning(&exact).request(), warning(&exact));
    let long = "x".repeat(2049);
    assert_eq!(report_shim_warning(&long).request(), warning(&format!("{exact}...")));
    // A character that would straddle the limit is left out whole.
    let straddling = format!("{}\u{20ac}tail", "x".repeat(2046));
    assert_eq!(
        report_shim_warning(&straddling).request(),
        warning(&format!("{}...", "x".repeat(2046)))
    );
    for (character, bytes) in [('\u{e9}', 2), ('\u{20ac}', 3), ('\u{1f600}', 4)] {
        let many: String = std::iter::repeat(character).take(2048).collect();
        let kept: String = std::iter::repeat(character).take(2048 / bytes).collect();
        assert_eq!(report_shim_warning(&many).request(), warning(&format!("{kept}...")));
    }
}

#[test]
fn an_undelivered_warning_spares_a_reserved_stderr() {
    let mut stderr = ProcessStderr::new();
    let diagnostic = report_shim_warning("watch out");
    assert_eq!(diagnostic.conclude(Some(AgentResponse::WarningRecorded), &stderr), None);
    assert_eq!(
        diagnostic.conclude(None, &stderr),
        Some("mbx[warning]: watch out".to_string())
    );
    assert_eq!(
        diagnostic.conclude(Some(AgentResponse::ErrorRecorded), &stderr),
        Some("mbx[warning]: watch out".to_string())
    );
    stderr.reserve_stderr_for_compiler();
    assert_eq!(diagnostic.conclude(None, &stderr), None);
    assert_eq!(diagnostic.conclude(Some(AgentResponse::Other), &stderr), None);
}

#[test]
fn an_undelivered_error_is_always_written() {
    let mut stderr = ProcessStderr::new();
    stderr.reserve_stderr_for_compiler();
    let diagnostic = report_shim_error("broken");
    assert_eq!(diagnostic.conclude(Some(AgentResponse::ErrorRecorded), &stderr), None);
    assert_eq!(
        diagnostic.conclude(Some(AgentResponse::Other), &stderr),
        Some("mbx[error]: broken".to_string())
    );
    assert_eq!(diagnostic.conclude(None, &stderr), Some("mbx[error]: broken".to_string()));
}

#[test]
fn routine_warnings_follow_the_debug_filter() {
    let report = |value: Option<&str>, target: &str, message: &str| {
        report_shim_warning_on_debug(&debug_filter(value), target, message)
            .map(|diagnostic| diagnostic.request())
    };
    assert_eq!(report(None, "mbx::shim", "routine"), None);
    assert_eq!(report(Some("debug"), "mbx::shim", "routine"), Some(warning("routine")));
    assert_eq!(report(Some("mbx=debug"), "mbx::shim", "routine"), Some(warning("routine")));
    assert_eq!(report(Some("mbx=debug"), "other", "routine"), None);
    assert_eq!(report(Some("mbx=info"), "mbx::shim", "routine"), None);
    // The part behind the slash is held against the message.
    assert_eq!(report(Some("debug/rout"), "mbx::shim", "routine"), Some(warning("routine")));
    assert_eq!(report(Some("debug/absent"), "mbx::shim", "routine"), None);
    assert_eq!(report(Some("debug/{}"), "mbx::shim", "routine"), None);
}

#[test]
fn a_malformed_debug_filter_disables_routine_warnings() {
    assert!(debug_filter(Some("mbx=loud")).is_none());
    assert!(debug_filter(Some("a/b/c")).is_none());
    assert!(debug_filter(None).is_some());
    assert!(report_shim_warning_on_debug(&None, "mbx", "routine").is_none());
}

#[test]
fn an_admitted_warning_is_reported() {
    assert!(report_when_admitted(false, "x").is_none());
    assert_eq!(report_when_admitted(true, "x").unwrap().request(), warning("x"));
}
