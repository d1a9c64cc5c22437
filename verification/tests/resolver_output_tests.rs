use adr::output::Output;
use adr::resolver::{marker_candidate, marker_search_step, resolve_marker_path, MarkerStep, MARKER_FILE};

#[test]
fn marker_path_resolves_relative_to_its_directory() {
    let resolved = resolve_marker_path("/repo/.adr-directory", "  docs/adr \n").expect("parent");
    assert_eq!(resolved.marker_path, "/repo/.adr-directory");
    assert_eq!(resolved.marker_directory, "/repo");
    assert_eq!(resolved.adr_directory, "/repo/docs/adr");
}

#[test]
fn marker_path_keeps_absolute_target() {
    let resolved = resolve_marker_path("/repo/sub/.adr-directory", "/srv/adr\n").expect("parent");
    assert_eq!(resolved.marker_directory, "/repo/sub");
    assert_eq!(resolved.adr_directory, "/srv/adr");
    assert!(resolve_marker_path("/", "x").is_none());
    assert_eq!(MARKER_FILE, ".adr-directory");
}

#[test]
fn output_lines_are_plain_or_coloured() {
    let plain = Output::with_terminal(false);
    assert_eq!(plain.error_line("boom"), "error: boom");
    assert_eq!(plain.warning_line("hm"), "warning: hm");
    let tty = Output::with_terminal(true);
    assert_eq!(tty.error_line("boom"), "\u{1b}[31merror:\u{1b}[0m boom");
    assert_eq!(tty.warning_line("hm"), "\u{1b}[33mwarning:\u{1b}[0m hm");
}

#[test]
fn marker_search_goes_up_until_found_or_root() {
    assert_eq!(marker_candidate("/repo/sub"), "/repo/sub/.adr-directory");
    assert_eq!(
        marker_search_step("/repo/sub", true),
        MarkerStep::Found("/repo/sub/.adr-directory".to_string())
    );
    assert_eq!(marker_search_step("/repo/sub", false), MarkerStep::Up("/repo".to_string()));
    assert_eq!(marker_search_step("/repo", false), MarkerStep::Up("/".to_string()));
    assert_eq!(marker_search_step("/", false), MarkerStep::NotFound);
    assert_eq!(marker_search_step("/", true), MarkerStep::Found("/.adr-directory".to_string()));
}

#[test]
fn marker_search_walks_the_ancestors_in_order() {
    let present = "/work/.adr-directory";
    let mut directory = "/work/repo/docs".to_string();
    let mut visited = Vec::new();
    let found = loop {
        visited.push(directory.clone());
        let exists = marker_candidate(directory.as_str()) == present;
        match marker_search_step(directory.as_str(), exists) {
            MarkerStep::Found(path) => break Some(path),
            MarkerStep::Up(parent) => directory = parent,
            MarkerStep::NotFound => break None,
        }
    };
    assert_eq!(found, Some(present.to_string()));
    assert_eq!(visited, vec!["/work/repo/docs", "/work/repo", "/work"]);
}

