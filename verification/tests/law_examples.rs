use adr::id::extract_id_from_filename;
use adr::modify::{apply_update, run as mod_run, AdrDocument, UpdateRequest};
use adr::new::{next_adr_id, normalize_title_for_filename, run as new_run};
use adr::toc::{collect_sequence_warnings, parse_adr, run as toc_run, AdrRecord, AdrSource};

fn statuses() -> Vec<String> {
    ["DRAFT", "PROPOSED", "ACCEPTED", "ADOPTED", "SUPERSEDED", "EXPIRED"]
        .iter()
        .map(|s| s.to_string())
        .collect()
}

#[test]
fn updating_twice_is_updating_once() {
    for content in [
        "# ADR001 - Test\n\n* Author: Jane\n* Labels: core\n\n## Decision\n",
        "# ADR001 - Test\n\n* Date: 2020-01-01\n* Status: DRAFT\n",
        "",
        "no header",
    ] {
        for update_date in [true, false] {
            let request = UpdateRequest { new_status: "ACCEPTED", update_date, date: "2026-07-05" };
            let once = apply_update(content, &request);
            let twice = apply_update(once.content.as_str(), &request);
            assert_eq!(twice.content, once.content);
            assert!(twice.warnings.is_empty());
        }
    }
}

#[test]
fn toc_reads_back_what_mod_wrote() {
    let target = AdrDocument {
        path: "/d/002-New.md".to_string(),
        content: "# ADR002 - New\n\n* Author: Jane\n* Labels: x\n".to_string(),
    };
    let old = AdrDocument {
        path: "/d/001-Old.md".to_string(),
        content: "# ADR001 - Old\n\n* Date: 2020-01-01\n* Status: ACCEPTED\n* Author: Jane\n* Labels: y\n"
            .to_string(),
    };
    let plan = mod_run(2, true, Some(1), "2026-07-05", "/d", &target, Some(&old)).expect("plan");
    let new_record = parse_adr(2, "002-New.md", plan.target_content.as_str(), statuses().as_slice());
    assert_eq!(new_record.status.as_deref(), Some("ACCEPTED"));
    assert_eq!(new_record.date.as_deref(), Some("2026-07-05"));
    let old_text = plan.superseded_content.expect("superseded");
    let old_record = parse_adr(1, "001-Old.md", old_text.as_str(), statuses().as_slice());
    assert_eq!(old_record.status.as_deref(), Some("SUPERSEDED by 002"));
    assert_eq!(old_record.date.as_deref(), Some("2020-01-01"));
    assert!(old_record.warnings.is_empty());

    let out = toc_run(
        "DRAFT\nPROPOSED\nACCEPTED\nADOPTED\nSUPERSEDED\nEXPIRED\n",
        &[
            AdrSource { file_name: "002-New.md".to_string(), is_file: true, content: plan.target_content.clone() },
            AdrSource { file_name: "001-Old.md".to_string(), is_file: true, content: old_text.clone() },
        ],
    );
    assert!(out.overview.contains("- ~~[ADR001 - Old](001-Old.md)~~ (y) superseded by 002\n"));
    assert!(out.overview.contains("- [ADR002 - New](002-New.md) (x)\n"));
}

#[test]
fn new_file_is_found_under_its_id_and_the_id_is_fresh() {
    let names = vec!["001-A.md".to_string(), "007-B.md".to_string(), "notes.md".to_string()];
    let id = next_adr_id(&names).expect("id");
    assert!(names.iter().all(|n| extract_id_from_filename(n).map_or(true, |k| k < id)));
    let created = new_run("Some Decision", adr::template::ADR_TEMPLATE, &names, "2026-07-05").expect("adr");
    assert_eq!(extract_id_from_filename(created.file_name.as_str()), Some(id));
    let record = parse_adr(id, created.file_name.as_str(), created.content.as_str(), statuses().as_slice());
    assert_eq!(record.title.as_deref(), Some("Some Decision"));
    assert_eq!(record.status.as_deref(), Some("DRAFT"));
    let slug = normalize_title_for_filename("A  B-C").expect("slug");
    assert_eq!(slug, "A--B-C");
    assert!(!slug.contains(' '));
}

#[test]
fn gaps_are_reported_and_unbroken_runs_are_not() {
    let rec = |id: u32| AdrRecord {
        id,
        file_name: format!("{id:03}-x.md"),
        title: None,
        date: None,
        status: None,
        author: None,
        labels: None,
        warnings: Vec::new(),
    };
    assert!(collect_sequence_warnings(&[rec(3), rec(1), rec(2)]).is_empty());
    assert_eq!(
        collect_sequence_warnings(&[rec(5), rec(2)]),
        vec![
            "missing ADR ID in sequence: 003",
            "missing ADR ID in sequence: 004"
        ]
    );
}

#[test]
fn an_update_ends_with_a_newline_and_grows_by_its_warnings() {
    let original = "# ADR001 - Test\n\n* Author: Jane\n* Labels: core\n\n## Decision";
    let request = UpdateRequest { new_status: "ACCEPTED", update_date: true, date: "2026-07-05" };
    let out = apply_update(original, &request);
    assert!(out.content.ends_with('\n'));
    assert_eq!(out.warnings.len(), 2);
    assert_eq!(out.content.lines().count(), original.lines().count() + out.warnings.len());

    let complete = "# ADR001 - Test\n\n* Date: 2020-01-01\n* Status: DRAFT\n";
    let again = apply_update(complete, &request);
    assert!(again.warnings.is_empty());
    assert_eq!(again.content.lines().count(), complete.lines().count());
    assert!(again.content.ends_with('\n'));
}
