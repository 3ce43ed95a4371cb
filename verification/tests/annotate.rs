//! Annotations and the markdown digest.

use dupdelta::annotate::{Annotation, Severity, Summary};

// ------------------------------------------------------------- Severity

#[test]
fn severity_is_comparable_and_debuggable() {
    assert_eq!(Severity::Warning, Severity::Warning);
    assert_ne!(Severity::Warning, Severity::Error);
    let copy = Severity::Notice;
    assert_eq!(copy, Severity::Notice);
    assert!(format!("{:?}", Severity::Error).contains("Error"));
}

// ----------------------------------------------------------- Annotation

#[test]
fn warning_builds_a_bare_line_only_annotation() {
    let a = Annotation::warning("src/a.rs".to_string(), Some(3), "hello".to_string());
    assert_eq!(
        a,
        Annotation {
            severity: Severity::Warning,
            file: "src/a.rs".to_string(),
            start_line: Some(3),
            end_line: None,
            title: None,
            message: "hello".to_string(),
        }
    );
}

#[test]
fn annotation_is_cloneable_and_debuggable() {
    let a = Annotation::warning("f".to_string(), None, "m".to_string());
    let cloned = a.clone();
    assert_eq!(a, cloned);
    assert!(format!("{a:?}").contains("Warning"));
}

#[test]
fn renders_full_command_with_all_properties() {
    let a = Annotation {
        severity: Severity::Error,
        file: "src/a.rs".to_string(),
        start_line: Some(3),
        end_line: Some(5),
        title: Some("Something".to_string()),
        message: "the message here".to_string(),
    };
    assert_eq!(
        a.to_workflow_command(),
        "::error file=src/a.rs,line=3,endLine=5,title=Something::the message here"
    );
}

#[test]
fn notice_and_warning_commands_use_their_own_names() {
    let notice = Annotation::warning("f".to_string(), None, "m".to_string());
    let mut notice = notice;
    notice.severity = Severity::Notice;
    assert!(notice.to_workflow_command().starts_with("::notice "));
    let warning = Annotation::warning("f".to_string(), None, "m".to_string());
    assert!(warning.to_workflow_command().starts_with("::warning "));
}

#[test]
fn omits_absent_optional_properties() {
    let a = Annotation::warning("src/a.rs".to_string(), None, "m".to_string());
    assert_eq!(a.to_workflow_command(), "::warning file=src/a.rs::m");
}

#[test]
fn omits_end_line_when_only_start_line_is_present() {
    let a = Annotation::warning("src/a.rs".to_string(), Some(3), "m".to_string());
    assert_eq!(a.to_workflow_command(), "::warning file=src/a.rs,line=3::m");
}

#[test]
fn windows_line_endings_in_message_become_percent_0d_0a() {
    let a = Annotation::warning("f".to_string(), None, "line one\r\nline two".to_string());
    assert_eq!(a.to_workflow_command(), "::warning file=f::line one%0D%0Aline two");
}

#[test]
fn double_colon_in_message_is_not_escaped() {
    // `::` only matters at the start of a *line*; mid-message it is inert
    // to the runner's parser and escaping it would just be noise the
    // reader has to mentally strip back out.
    let a = Annotation::warning("f".to_string(), None, "found dup::here".to_string());
    assert_eq!(a.to_workflow_command(), "::warning file=f::found dup::here");
}

#[test]
fn colon_in_a_windows_path_property_is_escaped() {
    let a = Annotation::warning(r"C:\repo\src\a.rs".to_string(), Some(1), "m".to_string());
    assert_eq!(a.to_workflow_command(), "::warning file=C%3A\\repo\\src\\a.rs,line=1::m");
}

#[test]
fn comma_in_a_property_value_is_escaped() {
    let a = Annotation {
        severity: Severity::Warning,
        file: "f".to_string(),
        start_line: None,
        end_line: None,
        title: Some("a, b".to_string()),
        message: "m".to_string(),
    };
    assert_eq!(a.to_workflow_command(), "::warning file=f,title=a%2C b::m");
}

#[test]
fn percent_is_escaped_first_so_the_escapes_are_not_doubly_escaped() {
    // If `\n` were escaped to `%0A` before `%` were escaped, the `%` that
    // `%0A` itself introduces would get caught by a later `%` pass and
    // become `%250A` -- corrupting the very escape sequence that was
    // just produced. Escaping `%` first rules that out.
    let a = Annotation::warning("f".to_string(), None, "100%\ndone".to_string());
    assert_eq!(a.to_workflow_command(), "::warning file=f::100%25%0Adone");
}

#[test]
fn percent_in_a_property_value_is_escaped() {
    let a = Annotation {
        severity: Severity::Warning,
        file: "f".to_string(),
        start_line: None,
        end_line: None,
        title: Some("100% dup".to_string()),
        message: "m".to_string(),
    };
    assert_eq!(a.to_workflow_command(), "::warning file=f,title=100%25 dup::m");
}

// --------------------------------------------------------------- Summary

#[test]
fn new_summary_renders_empty_and_reports_empty() {
    let s = Summary::new();
    assert!(s.is_empty());
    assert_eq!(s.render(), "");
}

#[test]
fn default_summary_is_also_empty() {
    let s = Summary::default();
    assert!(s.is_empty());
}

#[test]
fn summary_with_content_is_not_empty() {
    let mut s = Summary::new();
    s.paragraph("hi");
    assert!(!s.is_empty());
}

#[test]
fn heading_renders_with_hashes_for_its_level() {
    let mut s = Summary::new();
    s.heading(2, "Duplication report");
    assert_eq!(s.render(), "## Duplication report\n");
}

#[test]
fn paragraph_and_bullets_chain_and_render_in_order() {
    let mut s = Summary::new();
    s.heading(1, "Title").paragraph("intro").bullet("first").bullet("second");
    assert_eq!(s.render(), "# Title\n\nintro\n\n- first\n- second\n");
}

#[test]
fn table_renders_header_separator_and_rows() {
    let mut s = Summary::new();
    s.table(
        &["File", "Score"],
        &[vec!["a.rs".to_string(), "0.9".to_string()], vec!["b.rs".to_string(), "0.8".to_string()]],
    );
    assert_eq!(s.render(), "| File | Score |\n| --- | --- |\n| a.rs | 0.9 |\n| b.rs | 0.8 |\n");
}

#[test]
fn table_escapes_pipe_in_a_cell() {
    let mut s = Summary::new();
    s.table(&["Expr"], &[vec!["a | b".to_string()]]);
    assert_eq!(s.render(), "| Expr |\n| --- |\n| a \\| b |\n");
}

#[test]
fn table_with_empty_rows_still_renders_header() {
    let mut s = Summary::new();
    s.table(&["File"], &[]);
    assert_eq!(s.render(), "| File |\n| --- |\n");
}

#[test]
fn multiple_blocks_render_as_one_document_without_a_trailing_blank_line() {
    let mut s = Summary::new();
    s.heading(1, "T");
    s.table(&["a"], &[vec!["1".to_string()]]);
    let rendered = s.render();
    assert!(!rendered.ends_with("\n\n"));
    assert!(rendered.ends_with('\n'));
}

#[test]
fn summary_is_cloneable_and_debuggable() {
    let mut s = Summary::new();
    s.paragraph("x");
    let cloned = s.clone();
    assert_eq!(cloned.render(), s.render());
    assert!(format!("{s:?}").contains("Paragraph"));
}
