use runlatch::model::{AutostartEntry, Scope};
use runlatch::table::{header_cells, row_cells, str_lt, table_groups, COMMAND_WIDTH};

fn entry(source: &str, id: &str, name: &str, command: &str) -> AutostartEntry {
    AutostartEntry {
        id: id.into(),
        display_name: name.into(),
        description: None,
        command: command.into(),
        icon: None,
        enabled: true,
        source: source.into(),
        scope: Scope::User,
    }
}

#[test]
fn groups_by_source_in_order_with_rows_sorted_by_id() {
    let es = vec![
        entry("xdg-autostart", "zeta", "zeta", ""),
        entry("systemd-user", "b.service", "B", "b"),
        entry("xdg-autostart", "alpha", "Alpha", "alpha --x"),
        entry("systemd-user", "a.service", "a.service", "a.service"),
    ];
    let gs = table_groups(&es);
    assert_eq!(gs.len(), 2);
    assert_eq!(gs[0].source, "systemd-user");
    assert_eq!(gs[1].source, "xdg-autostart");
    let ids: Vec<&str> = gs[0].rows.iter().map(|e| e.id.as_str()).collect();
    assert_eq!(ids, vec!["a.service", "b.service"]);
    let ids: Vec<&str> = gs[1].rows.iter().map(|e| e.id.as_str()).collect();
    assert_eq!(ids, vec!["alpha", "zeta"]);
    assert!(gs[0].show_name);
    assert!(gs[0].show_command);
    assert!(gs[1].show_name);
    assert!(gs[1].show_command);
}

#[test]
fn columns_without_information_are_hidden() {
    let es = vec![entry("s", "x", "x", ""), entry("s", "y", "y", "y")];
    let gs = table_groups(&es);
    assert_eq!(gs.len(), 1);
    assert!(!gs[0].show_name);
    assert!(!gs[0].show_command);
}

#[test]
fn equal_ids_keep_their_order() {
    let es = vec![entry("s", "k", "first", ""), entry("s", "a", "a", ""), entry("s", "k", "second", "")];
    let gs = table_groups(&es);
    let names: Vec<&str> = gs[0].rows.iter().map(|e| e.display_name.as_str()).collect();
    assert_eq!(names, vec!["a", "first", "second"]);
}

#[test]
fn text_order_is_byte_order() {
    assert!(str_lt("B", "a"));
    assert!(str_lt("a", "ab"));
    assert!(!str_lt("ab", "ab"));
    assert!(str_lt("z", "é"));
    assert!(!str_lt("", ""));
}

#[test]
fn no_entries_no_tables() {
    assert!(table_groups(&vec![]).is_empty());
}

#[test]
fn header_and_row_cells() {
    let groups = table_groups(&vec![entry("xdg-autostart", "a", "Alpha", "alpha --run")]);
    assert_eq!(header_cells(&groups[0]), vec!["", "ID", "NAME", "COMMAND"]);
    let mut e = entry("xdg-autostart", "a", "Alpha", "alpha --run");
    assert_eq!(row_cells(&e, true, true), vec!["\u{25cf}", "a", "Alpha", "alpha --run"]);
    e.enabled = false;
    assert_eq!(row_cells(&e, false, false), vec!["\u{25cb}", "a"]);
    let long = "x".repeat(60);
    let e = entry("s", "a", "a", &long);
    let cells = row_cells(&e, false, true);
    assert_eq!(COMMAND_WIDTH, 50);
    assert_eq!(cells[2], format!("{}\u{2026}", "x".repeat(49)));
}
