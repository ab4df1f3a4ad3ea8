use docsmg::migratefile::parse_migrate_file;

fn rec(a: &str, b: &str) -> (String, String) {
    (a.to_string(), b.to_string())
}

#[test]
fn well_formed_lines_round_trip() {
    let text = "guide/intro.md -> start/intro.md\nguide/setup.md -> start/setup.md\napi.md -> reference/api.md";
    assert_eq!(
        parse_migrate_file(text),
        vec![
            rec("guide/intro.md", "start/intro.md"),
            rec("guide/setup.md", "start/setup.md"),
            rec("api.md", "reference/api.md"),
        ]
    );
}

#[test]
fn malformed_lines_are_dropped() {
    let text = "a.md -> b.md\nno separator here\nc.md->d.md\ne.md -> f.md";
    let records = parse_migrate_file(text);
    assert_eq!(records, vec![rec("a.md", "b.md"), rec("e.md", "f.md")]);
    assert!(records.len() < text.split('\n').count());
}

#[test]
fn empty_lines_are_ignored() {
    let text = "\na.md -> b.md\n\n\nc.md -> d.md\n";
    assert_eq!(parse_migrate_file(text), vec![rec("a.md", "b.md"), rec("c.md", "d.md")]);
}

#[test]
fn single_space_line_gives_no_record() {
    assert_eq!(parse_migrate_file(" "), vec![]);
    assert_eq!(parse_migrate_file("a.md -> b.md\n \nc.md -> d.md"), vec![rec("a.md", "b.md"), rec("c.md", "d.md")]);
}

#[test]
fn bare_separator_gives_empty_paths() {
    assert_eq!(parse_migrate_file(" -> "), vec![rec("", "")]);
}

#[test]
fn whitespace_line_is_kept_when_it_holds_separator() {
    assert_eq!(parse_migrate_file("   ->  x "), vec![rec("  ", " x ")]);
}

#[test]
fn cut_at_first_separator() {
    assert_eq!(parse_migrate_file("a -> b -> c"), vec![rec("a", "b -> c")]);
}

#[test]
fn empty_text_has_no_records() {
    assert_eq!(parse_migrate_file(""), vec![]);
    assert_eq!(parse_migrate_file("\n\n"), vec![]);
}

#[test]
fn duplicate_sources_are_kept() {
    assert_eq!(
        parse_migrate_file("a -> b\na -> c"),
        vec![rec("a", "b"), rec("a", "c")]
    );
}

#[test]
fn non_ascii_paths() {
    assert_eq!(parse_migrate_file("über.md -> ü/ß.md"), vec![rec("über.md", "ü/ß.md")]);
}
