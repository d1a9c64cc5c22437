use adr::toc::{
    collect_sequence_warnings, is_valid_superseded_status, normalize_labels, parse_adr,
    parse_statuses, render_overview, run, style_for_status, superseded_by_id, AdrRecord,
    is_adr_file, AdrSource, RenderStyle,
};

fn default_statuses() -> Vec<String> {
    vec![
        "DRAFT".to_string(),
        "PROPOSED".to_string(),
        "ACCEPTED".to_string(),
        "ADOPTED".to_string(),
        "SUPERSEDED".to_string(),
        "EXPIRED".to_string(),
    ]
}

#[test]
fn parse_adr_collects_header_and_metadata() {
    let content = "# ADR005 - Decision X\n\n* Date: 2026-07-05\n* Status: DRAFT\n* Author: Jane\n* Labels: api,auth\n";
    let record = parse_adr(
        5,
        "005-Decision-X.md",
        content,
        default_statuses().as_slice(),
    );

    assert_eq!(record.title.as_deref(), Some("Decision X"));
    assert_eq!(record.date.as_deref(), Some("2026-07-05"));
    assert_eq!(record.status.as_deref(), Some("DRAFT"));
    assert_eq!(record.author.as_deref(), Some("Jane"));
    assert_eq!(record.labels.as_deref(), Some("api,auth"));
    assert!(record.warnings.is_empty());
}

#[test]
fn parse_adr_warns_for_missing_metadata_lines() {
    let content = "# ADR005 - Decision X\n";
    let record = parse_adr(
        5,
        "005-Decision-X.md",
        content,
        default_statuses().as_slice(),
    );

    assert!(
        record
            .warnings
            .iter()
            .any(|warning| warning.contains("Date"))
    );
    assert!(
        record
            .warnings
            .iter()
            .any(|warning| warning.contains("Status"))
    );
    assert!(
        record
            .warnings
            .iter()
            .any(|warning| warning.contains("Author"))
    );
    assert!(
        record
            .warnings
            .iter()
            .any(|warning| warning.contains("Labels"))
    );
}

#[test]
fn parse_adr_warns_for_header_id_mismatch() {
    let content = "# ADR006 - Decision X\n\n* Date: 2026-07-05\n* Status: DRAFT\n* Author: Jane\n* Labels: a\n";
    let record = parse_adr(
        5,
        "005-Decision-X.md",
        content,
        default_statuses().as_slice(),
    );

    assert!(
        record
            .warnings
            .iter()
            .any(|warning| warning.contains("ID mismatch"))
    );
}

#[test]
fn parse_adr_warns_for_invalid_date_status_and_author() {
    let content = "# ADR005 - Decision X\n\n* Date: 2026/07/05\n* Status: UNKNOWN\n* Author: \n* Labels: \n";
    let record = parse_adr(
        5,
        "005-Decision-X.md",
        content,
        default_statuses().as_slice(),
    );

    assert!(
        record
            .warnings
            .iter()
            .any(|warning| warning.contains("invalid date"))
    );
    assert!(
        record
            .warnings
            .iter()
            .any(|warning| warning.contains("invalid status"))
    );
    assert!(
        record
            .warnings
            .iter()
            .any(|warning| warning.contains("empty author"))
    );
}

#[test]
fn parse_adr_warns_for_empty_author_value() {
    let content = "# ADR005 - Decision X\n\n* Date: 2026-07-05\n* Status: ACCEPTED\n* Author: \n* Labels: core\n";
    let record = parse_adr(
        5,
        "005-Decision-X.md",
        content,
        default_statuses().as_slice(),
    );

    assert!(
        record
            .warnings
            .iter()
            .any(|warning| warning.contains("empty author value"))
    );
}

#[test]
fn parse_adr_accepts_superseded_by_id_status() {
    let content = "# ADR005 - Decision X\n\n* Date: 2026-07-05\n* Status: SUPERSEDED by 006\n* Author: Jane\n* Labels: \n";
    let record = parse_adr(
        5,
        "005-Decision-X.md",
        content,
        default_statuses().as_slice(),
    );

    assert!(
        !record
            .warnings
            .iter()
            .any(|warning| warning.contains("superseded status"))
    );
}

#[test]
fn parse_adr_gives_exact_warnings_in_order() {
    let content = "# ADR006 - Decision X\n\n* Date: 2026/07/05\n* Status: SUPERSEDED by x\n* Author:  \n";
    let record = parse_adr(5, "005-Decision-X.md", content, default_statuses().as_slice());
    assert_eq!(
        record.warnings,
        vec![
            "ID mismatch in '005-Decision-X.md': file ID 005 but header ID 006",
            "missing metadata line '* Labels:' in '005-Decision-X.md'",
            "invalid date '2026/07/05' in '005-Decision-X.md': expected YYYY-MM-DD",
            "invalid superseded status 'SUPERSEDED by x' in '005-Decision-X.md': expected 'SUPERSEDED by <id>'",
            "empty author value in '005-Decision-X.md'",
        ]
    );
}

#[test]
fn parse_adr_header_problems() {
    let statuses = default_statuses();
    let empty = parse_adr(1, "001-a.md", "", statuses.as_slice());
    assert_eq!(empty.warnings[0], "missing header line in '001-a.md'");
    let bad = parse_adr(1, "001-a.md", "Title\n", statuses.as_slice());
    assert_eq!(
        bad.warnings[0],
        "invalid header format in '001-a.md': expected '# ADR<ID> - <TITLE>'"
    );
    let no_sep = parse_adr(1, "001-a.md", "# ADR001 Title\n", statuses.as_slice());
    assert_eq!(
        no_sep.warnings[0],
        "invalid header format in '001-a.md': expected '# ADR<ID> - <TITLE>'"
    );
    let bad_id = parse_adr(1, "001-a.md", "# ADRx1 - Title\n", statuses.as_slice());
    assert_eq!(bad_id.warnings[0], "invalid ADR ID in header of '001-a.md'");
    assert_eq!(bad_id.title.as_deref(), Some("Title"));
    let no_title = parse_adr(1, "001-a.md", "# ADR001 -  \n", statuses.as_slice());
    assert_eq!(no_title.warnings[0], "missing title value in header of '001-a.md'");
    assert_eq!(no_title.title, None);
    let huge = parse_adr(1, "001-a.md", "# ADR99999999999 - T\n", statuses.as_slice());
    assert_eq!(huge.warnings[0], "invalid ADR ID in header of '001-a.md'");
    assert_eq!(huge.title.as_deref(), Some("T"));
}

fn record(id: u32, name: &str, title: Option<&str>, status: Option<&str>, labels: Option<&str>) -> AdrRecord {
    AdrRecord {
        id,
        file_name: name.to_string(),
        title: title.map(|t| t.to_string()),
        date: None,
        status: status.map(|s| s.to_string()),
        author: None,
        labels: labels.map(|l| l.to_string()),
        warnings: Vec::new(),
    }
}

#[test]
fn collect_sequence_warnings_detects_missing_ids() {
    let records = vec![
        AdrRecord {
            id: 1,
            file_name: "001-a.md".to_string(),
            title: Some("A".to_string()),
            date: None,
            status: None,
            author: None,
            labels: None,
            warnings: Vec::new(),
        },
        AdrRecord {
            id: 2,
            file_name: "002-b.md".to_string(),
            title: Some("B".to_string()),
            date: None,
            status: None,
            author: None,
            labels: None,
            warnings: Vec::new(),
        },
        AdrRecord {
            id: 4,
            file_name: "004-c.md".to_string(),
            title: Some("C".to_string()),
            date: None,
            status: None,
            author: None,
            labels: None,
            warnings: Vec::new(),
        },
    ];

    let warnings = collect_sequence_warnings(records.as_slice());
    assert_eq!(warnings, vec!["missing ADR ID in sequence: 003"]);
}

#[test]
fn collect_sequence_warnings_ignores_order_and_duplicates() {
    let records = vec![
        record(7, "007-a.md", None, None, None),
        record(3, "003-b.md", None, None, None),
        record(7, "0007-c.md", None, None, None),
    ];
    assert_eq!(
        collect_sequence_warnings(records.as_slice()),
        vec![
            "missing ADR ID in sequence: 0004",
            "missing ADR ID in sequence: 0005",
            "missing ADR ID in sequence: 0006"
        ]
    );
    assert!(collect_sequence_warnings(&[]).is_empty());
}

#[test]
fn render_overview_applies_required_styles_and_labels() {
    let records = vec![
        AdrRecord {
            id: 1,
            file_name: "001-a.md".to_string(),
            title: Some("A".to_string()),
            date: Some("2026-07-01".to_string()),
            status: Some("DRAFT".to_string()),
            author: Some("J".to_string()),
            labels: Some("api".to_string()),
            warnings: Vec::new(),
        },
        AdrRecord {
            id: 2,
            file_name: "002-b.md".to_string(),
            title: Some("B".to_string()),
            date: Some("2026-07-01".to_string()),
            status: Some("SUPERSEDED by 003".to_string()),
            author: Some("J".to_string()),
            labels: Some("security".to_string()),
            warnings: Vec::new(),
        },
        AdrRecord {
            id: 3,
            file_name: "003-c.md".to_string(),
            title: Some("C".to_string()),
            date: Some("2026-07-01".to_string()),
            status: Some("EXPIRED".to_string()),
            author: Some("J".to_string()),
            labels: Some("".to_string()),
            warnings: Vec::new(),
        },
    ];

    let out = render_overview(records.as_slice());

    assert!(out.contains("- **[ADR001 - A](001-a.md)** (api)"));
    assert!(out.contains("- ~~[ADR002 - B](002-b.md)~~ (security) superseded by 003"));
    assert!(out.contains("- ~~[ADR003 - C](003-c.md)~~ expired"));
}

#[test]
fn render_overview_gives_exact_document() {
    let records = vec![
        record(1, "001-a.md", None, None, Some(" x , ,y ")),
        record(2, "002-b.md", Some("B"), Some("PROPOSED"), None),
        record(3, "003-c.md", Some("C"), Some("ACCEPTED"), Some("")),
    ];
    assert_eq!(
        render_overview(records.as_slice()),
        "# ADR Overview\n\n- [ADR001 - (missing title)](001-a.md) (x, y)\n- **[ADR002 - B](002-b.md)**\n- [ADR003 - C](003-c.md)\n"
    );
}

#[test]
fn status_helpers() {
    assert_eq!(style_for_status(" DRAFT "), RenderStyle::Bold);
    assert_eq!(style_for_status("SUPERSEDED"), RenderStyle::Strike);
    assert_eq!(style_for_status("ADOPTED"), RenderStyle::Plain);
    assert_eq!(superseded_by_id("SUPERSEDED by  004 ").as_deref(), Some("004"));
    assert_eq!(superseded_by_id("SUPERSEDED"), None);
    assert_eq!(superseded_by_id("EXPIRED by 3"), None);
    assert!(is_valid_superseded_status("SUPERSEDED"));
    assert!(is_valid_superseded_status("SUPERSEDED by 12"));
    assert!(!is_valid_superseded_status("SUPERSEDED by"));
    assert!(!is_valid_superseded_status("SUPERSEDED by 1a"));
    assert_eq!(normalize_labels("a,b"), "(a, b)");
    assert_eq!(normalize_labels(" , "), "");
}

#[test]
fn parse_statuses_trims_and_drops_blank_lines() {
    assert_eq!(
        parse_statuses("DRAFT\n  ACCEPTED \r\n\n   \nEXPIRED"),
        vec!["DRAFT", "ACCEPTED", "EXPIRED"]
    );
}

#[test]
fn run_for_directory_generates_overview_and_warnings() {
    let status = "DRAFT\nPROPOSED\nACCEPTED\nADOPTED\nSUPERSEDED\nEXPIRED\n";
    let sources = vec![
        AdrSource {
            file_name: "001-A.md".to_string(),
            is_file: true,
            content: "# ADR001 - A\n\n* Date: 2026-07-01\n* Status: DRAFT\n* Author: Jane\n* Labels: api\n".to_string(),
        },
        AdrSource {
            file_name: "003-C.md".to_string(),
            is_file: true,
            content: "# ADR004 - C\n\n* Date: 2026-07-01\n* Status: ACCEPTED\n* Author: Jane\n* Labels: core\n".to_string(),
        },
    ];

    let out = run(status, &sources);

    assert!(out.overview.starts_with("# ADR Overview\n\n"));
    assert!(
        out.result
            .warnings
            .iter()
            .any(|warning| warning.message.contains("missing ADR ID in sequence: 002"))
    );
    assert!(
        out.result
            .warnings
            .iter()
            .any(|warning| warning.message.contains("ID mismatch"))
    );
}

#[test]
fn run_orders_by_id_and_skips_other_files() {
    let status = "DRAFT\nACCEPTED\n";
    let sources = vec![
        AdrSource { file_name: "0010-Tenth.md".to_string(), is_file: true, content: "# ADR010 - Tenth\n\n* Date: 2026-07-01\n* Status: ACCEPTED\n* Author: J\n* Labels: ten\n".to_string() },
        AdrSource { file_name: "adr-overview.md".to_string(), is_file: true, content: "# ADR Overview\n".to_string() },
        AdrSource { file_name: "0002-Second.md".to_string(), is_file: true, content: "# ADR002 - Second\n\n* Date: 2026-07-01\n* Status: DRAFT\n* Author: J\n* Labels: two\n".to_string() },
    ];
    let out = run(status, &sources);
    let second = out.overview.find("[ADR0002 - Second](0002-Second.md)").expect("second");
    let tenth = out.overview.find("[ADR0010 - Tenth](0010-Tenth.md)").expect("tenth");
    assert!(second < tenth);
    assert!(!out.overview.contains("Overview](adr-overview.md)"));
    let messages: Vec<&str> = out.result.warnings.iter().map(|w| w.message.as_str()).collect();
    assert_eq!(messages.len(), 7);
    assert_eq!(messages[0], "missing ADR ID in sequence: 0003");
    assert_eq!(messages[6], "missing ADR ID in sequence: 0009");
}

const DEFAULT_STATUS_FILE: &str = "DRAFT\nPROPOSED\nACCEPTED\nADOPTED\nSUPERSEDED\nEXPIRED\n";

fn source(name: &str, content: &str) -> AdrSource {
    AdrSource { file_name: name.to_string(), is_file: true, content: content.to_string() }
}

#[test]
fn toc_regenerates_overview_sorted_and_listed() {
    let sources = vec![
        source("0010-Tenth.md", "# ADR010 - Tenth\n\n* Date: 2026-07-01\n* Status: ACCEPTED\n* Author: Jane\n* Labels: ten\n"),
        source("0002-Second.md", "# ADR002 - Second\n\n* Date: 2026-07-01\n* Status: ACCEPTED\n* Author: Jane\n* Labels: two\n"),
        source("0001-First.md", "# ADR001 - First\n\n* Date: 2026-07-01\n* Status: ACCEPTED\n* Author: Jane\n* Labels: one\n"),
    ];
    let overview = run(DEFAULT_STATUS_FILE, &sources).overview;
    let first_idx = overview.find("[ADR0001 - First](0001-First.md)").expect("first entry");
    let second_idx = overview.find("[ADR0002 - Second](0002-Second.md)").expect("second entry");
    let tenth_idx = overview.find("[ADR0010 - Tenth](0010-Tenth.md)").expect("tenth entry");
    assert!(first_idx < second_idx && second_idx < tenth_idx);
}

#[test]
fn toc_applies_required_status_styles_and_labels() {
    let sources = vec![
        source("0001-Draft.md", "# ADR001 - Draft\n\n* Date: 2026-07-01\n* Status: DRAFT\n* Author: Jane\n* Labels: alpha,beta\n"),
        source("0002-Proposed.md", "# ADR002 - Proposed\n\n* Date: 2026-07-01\n* Status: PROPOSED\n* Author: Jane\n* Labels: proposal\n"),
        source("0003-Superseded.md", "# ADR003 - Superseded\n\n* Date: 2026-07-01\n* Status: SUPERSEDED by 004\n* Author: Jane\n* Labels: history\n"),
        source("0004-Expired.md", "# ADR004 - Expired\n\n* Date: 2026-07-01\n* Status: EXPIRED\n* Author: Jane\n* Labels: \n"),
    ];
    let overview = run(DEFAULT_STATUS_FILE, &sources).overview;
    assert!(overview.contains("**[ADR0001 - Draft](0001-Draft.md)** (alpha, beta)"));
    assert!(overview.contains("**[ADR0002 - Proposed](0002-Proposed.md)** (proposal)"));
    assert!(overview.contains("~~[ADR0003 - Superseded](0003-Superseded.md)~~ (history) superseded by 004"));
    assert!(overview.contains("~~[ADR0004 - Expired](0004-Expired.md)~~ expired"));
}

#[test]
fn toc_reports_warnings_but_exits_success() {
    let sources = vec![
        source("0001-One.md", "# ADR001 - One\n\n* Date: 2026-07-01\n* Status: ACCEPTED\n* Author: Jane\n* Labels: one\n"),
        source("0003-Three.md", "# ADR004 - Three\n\n* Date: invalid\n* Status: ACCEPTED\n* Author: Jane\n* Labels: three\n"),
    ];
    let out = run(DEFAULT_STATUS_FILE, &sources);
    let messages: Vec<&str> = out.result.warnings.iter().map(|w| w.message.as_str()).collect();
    assert!(messages.iter().any(|m| m.contains("missing ADR ID in sequence: 0002")));
    assert!(messages.iter().any(|m| m.contains("ID mismatch")));
    assert!(messages.iter().any(|m| m.contains("invalid date")));
    assert!(out.overview.starts_with("# ADR Overview\n\n"));
}

#[test]
fn toc_warns_for_empty_author_value() {
    let sources = vec![source(
        "0001-Empty-Author.md",
        "# ADR001 - Empty Author\n\n* Date: 2026-07-01\n* Status: ACCEPTED\n* Author: \n* Labels: core\n",
    )];
    let out = run(DEFAULT_STATUS_FILE, &sources);
    assert!(out.result.warnings.iter().any(|w| w.message.contains("empty author value")));
}

#[test]
fn overview_writes_ids_as_the_file_names_do() {
    let records = vec![
        record(1, "0001-a.md", Some("A"), Some("EXPIRED"), None),
        record(2, "002-b.md", Some("B"), Some("ACCEPTED"), None),
        record(3, "3-c.md", Some("C"), Some("ACCEPTED"), None),
        record(4, "not-an-adr.md", Some("D"), Some("ACCEPTED"), None),
    ];
    let out = render_overview(records.as_slice());
    assert_eq!(
        out,
        "# ADR Overview\n\n- ~~[ADR0001 - A](0001-a.md)~~ expired\n- [ADR002 - B](002-b.md)\n- [ADR003 - C](3-c.md)\n- [ADR004 - D](not-an-adr.md)\n"
    );
}

#[test]
fn gap_warnings_keep_three_digits_for_short_names() {
    let records = vec![record(1, "1-a.md", None, None, None), record(3, "03-c.md", None, None, None)];
    assert_eq!(collect_sequence_warnings(records.as_slice()), vec!["missing ADR ID in sequence: 002"]);
    let wide = vec![record(8, "00008-a.md", None, None, None), record(10, "010-c.md", None, None, None)];
    assert_eq!(collect_sequence_warnings(wide.as_slice()), vec!["missing ADR ID in sequence: 00009"]);
}

#[test]
fn only_regular_adr_files_become_records() {
    assert!(is_adr_file("0001-a.md", true));
    assert!(!is_adr_file("0001-a.md", false));
    assert!(!is_adr_file("adr-overview.md", true));
    assert!(!is_adr_file(".adr-status", true));
    assert!(!is_adr_file("0001-a.txt", true));
    let sources = vec![
        source("0001-One.md", "# ADR001 - One\n\n* Date: 2026-07-01\n* Status: ACCEPTED\n* Author: Jane\n* Labels: one\n"),
        AdrSource { file_name: "0002-dir.md".to_string(), is_file: false, content: String::new() },
        source("adr-overview.md", "# ADR Overview\n"),
        source(".adr-status", DEFAULT_STATUS_FILE),
        source("notes.txt", "text"),
    ];
    let out = run(DEFAULT_STATUS_FILE, &sources);
    assert_eq!(
        out.overview,
        "# ADR Overview\n\n- [ADR0001 - One](0001-One.md) (one)\n"
    );
    assert!(out.result.warnings.is_empty());
}

