use adr::id::extract_id_from_filename;
use adr::modify::{
    apply_update, check_request, file_name_for_warning, find_adr_file_by_id, metadata_insert_index,
    prefix_warnings, run, AdrDocument, DirEntryInfo, ModError, UpdateRequest,
};
use adr::toc::{TocResult, TocWarning};

#[test]
fn extract_id_from_filename_handles_valid_and_invalid_cases() {
    assert_eq!(extract_id_from_filename("0001-First.md"), Some(1));
    assert_eq!(extract_id_from_filename("1-First.md"), Some(1));
    assert_eq!(extract_id_from_filename("adr-overview.md"), None);
    assert_eq!(extract_id_from_filename("0001-First.txt"), None);
    assert_eq!(extract_id_from_filename("not-an-adr.md"), None);
}

#[test]
fn apply_update_replaces_existing_status_and_date() {
    let original = "# ADR001 - Test\n\n* Date: 2020-01-01\n* Status: DRAFT\n* Author: Jane\n";
    let updated = apply_update(
        original,
        &UpdateRequest {
            new_status: "ACCEPTED",
            update_date: true,
            date: "2026-07-05",
        },
    );

    assert!(updated.content.contains("* Date: 2026-07-05"));
    assert!(updated.content.contains("* Status: ACCEPTED"));
    assert!(updated.warnings.is_empty());
}

#[test]
fn apply_update_inserts_missing_status_and_date_with_warnings() {
    let original = "# ADR001 - Test\n\n* Author: Jane\n* Labels: core\n";
    let updated = apply_update(
        original,
        &UpdateRequest {
            new_status: "ACCEPTED",
            update_date: true,
            date: "2026-07-05",
        },
    );

    assert!(updated.content.contains("* Date: 2026-07-05"));
    assert!(updated.content.contains("* Status: ACCEPTED"));
    assert_eq!(updated.warnings.len(), 2);
    assert!(
        updated
            .warnings
            .iter()
            .any(|warning| warning.contains("* Date:"))
    );
    assert!(
        updated
            .warnings
            .iter()
            .any(|warning| warning.contains("* Status:"))
    );
}

#[test]
fn apply_update_without_date_change_keeps_existing_date() {
    let original = "# ADR001 - Test\n\n* Date: 2020-01-01\n* Status: ACCEPTED\n";
    let updated = apply_update(
        original,
        &UpdateRequest {
            new_status: "SUPERSEDED by 002",
            update_date: false,
            date: "2026-07-05",
        },
    );

    assert!(updated.content.contains("* Date: 2020-01-01"));
    assert!(updated.content.contains("* Status: SUPERSEDED by 002"));
    assert!(updated.warnings.is_empty());
}

#[test]
fn metadata_insert_index_places_new_lines_after_metadata_block() {
    let lines = vec![
        "# ADR001 - Test".to_string(),
        "".to_string(),
        "* Author: Jane".to_string(),
        "* Labels: core".to_string(),
        "".to_string(),
        "## Decision".to_string(),
    ];

    assert_eq!(metadata_insert_index(lines.as_slice()), 4);
}

#[test]
fn apply_update_gives_exact_text_and_insertion_order() {
    let original = "# ADR001 - Test\n\n* Author: Jane\n* Labels: core\n\n## Decision\n";
    let updated = apply_update(
        original,
        &UpdateRequest { new_status: "ACCEPTED", update_date: true, date: "2026-07-05" },
    );
    assert_eq!(
        updated.content,
        "# ADR001 - Test\n\n* Author: Jane\n* Labels: core\n* Date: 2026-07-05\n* Status: ACCEPTED\n\n## Decision\n"
    );
    assert_eq!(
        updated.warnings,
        vec![
            "missing metadata line '* Date:' inserted",
            "missing metadata line '* Status:' inserted"
        ]
    );
}

#[test]
fn apply_update_on_empty_and_unterminated_text() {
    let request = UpdateRequest { new_status: "ACCEPTED", update_date: false, date: "x" };
    assert_eq!(apply_update("", &request).content, "* Status: ACCEPTED\n");
    assert_eq!(
        apply_update("# ADR001 - T\r\n* Status: DRAFT", &request).content,
        "# ADR001 - T\n* Status: ACCEPTED\n"
    );
}

#[test]
fn metadata_insert_index_edge_cases() {
    let none: Vec<String> = Vec::new();
    assert_eq!(metadata_insert_index(none.as_slice()), 0);
    let header_only = vec!["# ADR001 - T".to_string()];
    assert_eq!(metadata_insert_index(header_only.as_slice()), 1);
    let no_blank = vec!["# ADR001 - T".to_string(), "  * Date: x".to_string(), "text".to_string()];
    assert_eq!(metadata_insert_index(no_blank.as_slice()), 2);
}

#[test]
fn prefix_warnings_names_the_file() {
    let out = prefix_warnings("001-A.md", vec!["w1".to_string(), "w2".to_string()]);
    assert_eq!(out, vec!["001-A.md: w1", "001-A.md: w2"]);
    assert_eq!(file_name_for_warning("/repo/docs/adr/001-A.md"), "001-A.md");
}

fn entry(path: &str, name: &str, is_file: bool) -> DirEntryInfo {
    DirEntryInfo { path: path.to_string(), file_name: name.to_string(), is_file }
}

#[test]
fn find_adr_file_by_id_finds_unique_file() {
    let entries = vec![
        entry("/d/001-A.md", "001-A.md", true),
        entry("/d/002-B.md", "002-B.md", true),
        entry("/d/adr-overview.md", "adr-overview.md", true),
    ];
    assert_eq!(find_adr_file_by_id("/d", &entries, 2).expect("found"), "/d/002-B.md");
}

#[test]
fn find_adr_file_by_id_reports_missing_and_duplicate_ids() {
    let entries = vec![
        entry("/d/001-A.md", "001-A.md", true),
        entry("/d/0001-B.md", "0001-B.md", true),
        entry("/d/042-dir.md", "042-dir.md", false),
    ];
    match find_adr_file_by_id("/d", &entries, 42) {
        Err(ModError::AdrNotFound { id, directory }) => {
            assert_eq!(id, "042");
            assert_eq!(directory, "/d");
        }
        other => panic!("unexpected result: {other:?}"),
    }
    match find_adr_file_by_id("/d", &entries, 1) {
        Err(ModError::DuplicateAdrId { id, first, second }) => {
            assert_eq!(id, "001");
            assert_eq!(first, "001-A.md");
            assert_eq!(second, "0001-B.md");
        }
        other => panic!("unexpected result: {other:?}"),
    }
}

#[test]
fn check_request_needs_an_action_and_no_self_supersede() {
    assert!(matches!(check_request(1, false, None), Err(ModError::MissingAction)));
    match check_request(2, true, Some(2)) {
        Err(ModError::SupersedeSelf { id }) => assert_eq!(id, "002"),
        other => panic!("unexpected result: {other:?}"),
    }
    assert!(check_request(2, false, Some(1)).is_ok());
    assert!(check_request(2, true, None).is_ok());
}

#[test]
fn run_accepts_and_supersedes() {
    let target = AdrDocument {
        path: "/d/002-New.md".to_string(),
        content: "# ADR002 - New\n\n* Date: 2020-01-01\n* Status: DRAFT\n".to_string(),
    };
    let old = AdrDocument {
        path: "/d/001-Old.md".to_string(),
        content: "# ADR001 - Old\n\n* Date: 2020-01-01\n* Author: Jane\n".to_string(),
    };
    let plan = run(2, false, Some(1), "2026-07-05", "/d", &target, Some(&old)).expect("plan");
    assert_eq!(
        plan.target_content,
        "# ADR002 - New\n\n* Date: 2026-07-05\n* Status: ACCEPTED\n"
    );
    assert_eq!(
        plan.superseded_content.as_deref(),
        Some("# ADR001 - Old\n\n* Date: 2020-01-01\n* Author: Jane\n* Status: SUPERSEDED by 002\n")
    );
    assert_eq!(
        plan.warnings,
        vec!["001-Old.md: missing metadata line '* Status:' inserted"]
    );
    let toc = TocResult { warnings: vec![TocWarning { message: "missing ADR ID in sequence: 003".to_string() }] };
    let result = plan.into_result(&toc);
    assert_eq!(
        result.warnings,
        vec![
            "001-Old.md: missing metadata line '* Status:' inserted",
            "missing ADR ID in sequence: 003"
        ]
    );
}

#[test]
fn run_reports_request_errors() {
    let target = AdrDocument { path: "/d/001-A.md".to_string(), content: String::new() };
    assert!(matches!(run(1, false, None, "d", "/d", &target, None), Err(ModError::MissingAction)));
    assert!(matches!(
        run(1, true, Some(1), "d", "/d", &target, Some(&target)),
        Err(ModError::SupersedeSelf { .. })
    ));
}

#[test]
fn run_reports_a_superseded_adr_that_was_not_found() {
    let target = AdrDocument {
        path: "/d/002-New.md".to_string(),
        content: "# ADR002 - New\n\n* Date: 2020-01-01\n* Status: DRAFT\n".to_string(),
    };
    match run(2, false, Some(1), "2026-07-05", "C:\\repo\\adr", &target, None) {
        Err(ModError::AdrNotFound { id, directory }) => {
            assert_eq!(id, "001");
            assert_eq!(directory, "C:/repo/adr");
        },
        other => panic!("unexpected: {other:?}"),
    }
    let plan = run(2, true, None, "2026-07-05", "/d", &target, None).expect("plan");
    assert_eq!(plan.superseded_content, None);
}
