use adr::id::extract_id_from_filename;
use adr::new::{
    first_invalid_title_char, next_adr_id, normalize_title_for_filename, render_template, run,
    NewError,
};

#[test]
fn extracts_id_from_valid_filename() {
    assert_eq!(extract_id_from_filename("0005-Decision-X.md"), Some(5));
}

#[test]
fn ignores_non_adr_filenames_when_extracting_id() {
    assert_eq!(extract_id_from_filename("adr-overview.md"), None);
    assert_eq!(extract_id_from_filename("foo.txt"), None);
    assert_eq!(extract_id_from_filename("-missing-id.md"), None);
}

#[test]
fn next_id_uses_max_plus_one_policy() {
    let names = vec![
        "0001-first.md".to_string(),
        "0002-second.md".to_string(),
        "0004-fourth.md".to_string(),
    ];
    let next = next_adr_id(&names).expect("next id");
    assert_eq!(next, 5);
}

#[test]
fn next_id_starts_at_one_and_ignores_other_files() {
    let none: Vec<String> = Vec::new();
    assert_eq!(next_adr_id(&none).expect("next id"), 1);
    let names = vec![
        "notes.md".to_string(),
        "123_no_dash.md".to_string(),
        "-missing-id.md".to_string(),
        "010-no-markdown.txt".to_string(),
        "002-Two.md".to_string(),
    ];
    assert_eq!(next_adr_id(&names).expect("next id"), 3);
}

#[test]
fn next_id_reports_overflow() {
    let names = vec!["4294967295-Last.md".to_string()];
    match next_adr_id(&names) {
        Err(NewError::IdOverflow { max }) => assert_eq!(max, "4294967295"),
        other => panic!("unexpected result: {other:?}"),
    }
}

#[test]
fn normalize_title_replaces_spaces_with_dashes() {
    let normalized = normalize_title_for_filename("Decision X").expect("normalized");
    assert_eq!(normalized, "Decision-X");
}

#[test]
fn normalize_title_rejects_invalid_characters() {
    let err = normalize_title_for_filename("Decision: X").expect_err("invalid title");
    match err {
        NewError::InvalidTitle { reason, .. } => {
            assert!(reason.contains(":"));
        }
        other => panic!("unexpected error: {other:?}"),
    }
}

#[test]
fn normalize_title_reports_each_reason() {
    for (title, reason) in [
        ("   ", "title must not be empty"),
        ("", "title must not be empty"),
        ("Decision ", "title must not end with a space or dot"),
        ("Decision.", "title must not end with a space or dot"),
        ("A*B", "character '*' is not allowed in file names"),
        ("A\tB", "character '\t' is not allowed in file names"),
    ] {
        match normalize_title_for_filename(title) {
            Err(NewError::InvalidTitle { title: t, reason: r }) => {
                assert_eq!(t, title);
                assert_eq!(r, reason);
            }
            other => panic!("unexpected result for {title:?}: {other:?}"),
        }
    }
    assert_eq!(first_invalid_title_char("a<b>c"), Some('<'));
    assert_eq!(first_invalid_title_char("plain"), None);
}

#[test]
fn render_template_replaces_expected_placeholders() {
    let template = "# ADR`ID` - `TITLE`\n* Date: `YYYY-MM-DD`\n* Status: `STATUS`\n";
    let rendered = render_template(template, "005", "Decision X", "2026-07-05");

    assert!(rendered.contains("# ADR005 - Decision X"));
    assert!(rendered.contains("* Date: 2026-07-05"));
    assert!(rendered.contains("* Status: DRAFT"));
}

#[test]
fn render_template_empties_author_and_labels() {
    let rendered = render_template("* Author: `AUTHOR`\n* Labels: `LABELS`\n`ID``ID`", "007", "T", "D");
    assert_eq!(rendered, "* Author: \n* Labels: \n007007");
}

#[test]
fn run_names_and_fills_the_new_adr() {
    let names = vec!["001-One.md".to_string(), "002-Two.md".to_string(), "004-Four.md".to_string()];
    let adr = run("Decision X", adr::template::ADR_TEMPLATE, &names, "2026-07-05").expect("new adr");
    assert_eq!(adr.file_name, "005-Decision-X.md");
    assert!(adr.content.starts_with("# ADR005 - Decision X\n\n* Date: 2026-07-05\n* Status: DRAFT\n"));
    assert_eq!(extract_id_from_filename(adr.file_name.as_str()), Some(5));
}

#[test]
fn run_checks_the_title_after_the_id() {
    let names = vec!["001-One.md".to_string()];
    match run("Decision: X", "t", &names, "d") {
        Err(NewError::InvalidTitle { .. }) => {}
        other => panic!("unexpected result: {other:?}"),
    }
    let full = vec!["4294967295-Last.md".to_string()];
    match run("Decision: X", "t", &full, "d") {
        Err(NewError::IdOverflow { .. }) => {}
        other => panic!("unexpected result: {other:?}"),
    }
}
