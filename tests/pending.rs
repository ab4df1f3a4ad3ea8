use docsmg::pending::{
    handled_sources, pending_entry, pending_paths, resolve_pending, MigrateInput, ResolveError,
};

fn strings(v: &[&str]) -> Vec<String> {
    v.iter().map(|s| s.to_string()).collect()
}

#[test]
fn handled_files_are_subtracted() {
    let walked = strings(&["docs/A.md", "docs/B.md", "docs/C.md"]);
    let handled = strings(&["A.md"]);
    assert_eq!(pending_paths(&handled, &walked, "docs"), strings(&["B.md", "C.md"]));
}

#[test]
fn paths_outside_root_are_dropped() {
    let walked = strings(&["docs/A.md", "elsewhere/B.md", "docsx/C.md"]);
    assert_eq!(pending_paths(&vec![], &walked, "docs"), strings(&["A.md"]));
}

#[test]
fn paths_compare_by_component() {
    let walked = strings(&["docs/sub/x.md", "docs/sub/y.md"]);
    let handled = strings(&["sub//x.md"]);
    assert_eq!(pending_paths(&handled, &walked, "docs"), strings(&["sub/y.md"]));
}

#[test]
fn nested_root_is_stripped() {
    let walked = strings(&["/site/docs/a/b.md"]);
    assert_eq!(pending_paths(&vec![], &walked, "/site/docs/"), strings(&["a/b.md"]));
}

#[test]
fn resolver_subtracts_migrate_file_sources() {
    let walked = strings(&["d/A", "d/B", "d/C"]);
    let input = MigrateInput::Contents("A -> new/A\n".to_string());
    assert_eq!(resolve_pending(&input, Some(&walked), "d"), Ok(strings(&["B", "C"])));
}

#[test]
fn absent_and_empty_migrate_file_agree() {
    let walked = strings(&["d/A", "d/B"]);
    let absent = resolve_pending(&MigrateInput::NotGiven, Some(&walked), "d");
    let empty = resolve_pending(&MigrateInput::Contents(String::new()), Some(&walked), "d");
    assert_eq!(absent, Ok(strings(&["A", "B"])));
    assert_eq!(absent, empty);
}

#[test]
fn unreadable_migrate_file_is_treated_as_empty() {
    let walked = strings(&["d/A", "d/B"]);
    assert_eq!(
        resolve_pending(&MigrateInput::Unreadable, Some(&walked), "d"),
        Ok(strings(&["A", "B"]))
    );
}

#[test]
fn failed_walk_is_fatal() {
    assert_eq!(
        resolve_pending(&MigrateInput::NotGiven, None, "missing"),
        Err(ResolveError::RootUnreadable)
    );
}

#[test]
fn empty_directory_has_nothing_pending() {
    assert_eq!(resolve_pending(&MigrateInput::NotGiven, Some(&vec![]), "d"), Ok(vec![]));
}

#[test]
fn sources_in_file_order() {
    let input = MigrateInput::Contents("x -> 1\nbad\ny -> 2\nx -> 3".to_string());
    assert_eq!(handled_sources(&input), strings(&["x", "y", "x"]));
    assert_eq!(handled_sources(&MigrateInput::NotGiven), Vec::<String>::new());
}

#[test]
fn entry_has_trailing_separator() {
    assert_eq!(pending_entry("guide/intro.md"), "guide/intro.md -> ");
    assert_eq!(pending_entry(""), " -> ");
}
