use runlatch::commands::{
    address, entries_have_id, entry_addresses, resolve_bare, retain_scope, retain_source, source_line,
    split_target, truncate, Resolution,
};
use runlatch::model::{AutostartEntry, Scope};
use runlatch::registry::{aggregate, find_provider_index};

fn entry(source: &str, id: &str) -> AutostartEntry {
    AutostartEntry {
        id: id.into(),
        display_name: id.into(),
        description: None,
        command: String::new(),
        icon: None,
        enabled: true,
        source: source.into(),
        scope: Scope::User,
    }
}

#[test]
fn qualified_targets_need_a_known_source() {
    let ids = vec!["xdg-autostart", "systemd-user"];
    assert_eq!(split_target("systemd-user:foo.service", &ids), Some((1, "foo.service".to_string())));
    assert_eq!(split_target("xdg-autostart:a:b", &ids), Some((0, "a:b".to_string())));
    assert_eq!(split_target("weird:id", &ids), None);
    assert_eq!(split_target("plain", &ids), None);
}

#[test]
fn bare_ids_resolve_only_when_unique() {
    assert!(matches!(resolve_bare(&vec![false, false]), Resolution::NotFound));
    assert!(matches!(resolve_bare(&vec![false, true, false]), Resolution::Found(1)));
    match resolve_bare(&vec![true, false, true]) {
        Resolution::Ambiguous(v) => assert_eq!(v, vec![0, 2]),
        _ => panic!("expected ambiguity"),
    }
}

#[test]
fn entry_lookup_by_id() {
    let es = vec![entry("s", "a"), entry("s", "b")];
    assert!(entries_have_id(&es, "b"));
    assert!(!entries_have_id(&es, "c"));
}

#[test]
fn list_filters_by_source() {
    let es = vec![entry("x", "1"), entry("y", "2"), entry("x", "3")];
    let kept = retain_source(&es, "x");
    assert_eq!(kept.iter().map(|e| e.id.as_str()).collect::<Vec<_>>(), vec!["1", "3"]);
}

#[test]
fn completion_lines_are_addresses() {
    let es = vec![entry("xdg-autostart", "redshift")];
    assert_eq!(entry_addresses(&es), vec!["xdg-autostart:redshift".to_string()]);
    assert_eq!(address("systemd-user", "a.service"), "systemd-user:a.service");
}

#[test]
fn source_lines_pad_the_id() {
    assert_eq!(source_line("xdg-autostart", Scope::User, true), "xdg-autostart    scope=User [available]");
    assert_eq!(source_line("xdg-autostart-system", Scope::System, false), "xdg-autostart-system scope=System [unavailable]");
}

#[test]
fn truncate_keeps_short_text() {
    assert_eq!(truncate("short", 50), "short");
    assert_eq!(truncate("abcdef", 4), "abc\u{2026}");
    assert_eq!(truncate("héllo", 5), "héllo");
    assert_eq!(truncate("ab", 0), "\u{2026}");
}

#[test]
fn aggregation_keeps_good_results_beside_failures() {
    let results: Vec<(&'static str, Result<Vec<AutostartEntry>, String>)> = vec![
        ("one", Ok(vec![entry("one", "a")])),
        ("two", Err("boom".to_string())),
        ("three", Ok(vec![entry("three", "b"), entry("three", "c")])),
    ];
    let r = aggregate(results);
    assert_eq!(r.entries.iter().map(|e| e.id.as_str()).collect::<Vec<_>>(), vec!["a", "b", "c"]);
    assert_eq!(r.errors.len(), 1);
    assert_eq!(r.errors[0].source, "two");
    assert_eq!(r.errors[0].error, "boom");
}

#[test]
fn providers_are_found_by_id() {
    let ids = vec!["xdg-autostart", "systemd-user", "systemd-system"];
    assert_eq!(find_provider_index(&ids, "systemd-system"), Some(2));
    assert_eq!(find_provider_index(&ids, "nope"), None);
}

#[test]
fn retain_scope_keeps_that_scope_in_order() {
    let mut sys = entry("systemd-system", "b");
    sys.scope = Scope::System;
    let entries = vec![entry("xdg-autostart", "a"), sys, entry("systemd-user", "c")];
    let user: Vec<String> = retain_scope(&entries, Scope::User).into_iter().map(|e| e.id).collect();
    assert_eq!(user, vec!["a".to_string(), "c".to_string()]);
    let system = retain_scope(&entries, Scope::System);
    assert_eq!(system.len(), 1);
    assert_eq!(system[0].id, "b");
    assert_eq!(system[0].source, "systemd-system");
}
