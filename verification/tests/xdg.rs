use std::io::{Error, ErrorKind};

use runlatch::desktop_file::DesktopFile;
use runlatch::model::{AutostartEntry, Scope};
use runlatch::xdg::{
    available_from, desktop_entry_id, entry_from_desktop, first_present, new_entry_file,
    set_entry_enabled, system_autostart_dirs, toggle_first, user_autostart_dir, with_sudo_hint,
    DirFile,
    XdgAutostartProvider, SYSTEM_PROVIDER_ID,
};

fn file(name: &str, text: Option<&str>) -> DirFile {
    DirFile { name: name.to_string(), text: text.map(|t| t.to_string()) }
}

fn provider() -> XdgAutostartProvider {
    XdgAutostartProvider::with_autostart_dir("/tmp/autostart".to_string())
}

fn system_provider(dirs: Vec<&str>) -> XdgAutostartProvider {
    XdgAutostartProvider::with_dirs(
        SYSTEM_PROVIDER_ID,
        Scope::System,
        dirs.into_iter().map(String::from).collect(),
    )
}

fn toggled(text: &str, enabled: bool) -> String {
    let mut f = DesktopFile::parse(text);
    set_entry_enabled(&mut f, enabled);
    f.to_text()
}

#[test]
fn parses_and_lists_entry() {
    let p = provider();
    let files = vec![file(
        "example.desktop",
        Some("[Desktop Entry]\nType=Application\nName=Example App\nComment=Does things\nExec=example --run\nIcon=example-icon\n"),
    )];
    let entries = p.merge_entries(&files);
    assert_eq!(entries.len(), 1);
    let e = &entries[0];
    assert_eq!(e.id, "example");
    assert_eq!(e.display_name, "Example App");
    assert_eq!(e.description.as_deref(), Some("Does things"));
    assert_eq!(e.command, "example --run");
    assert_eq!(e.icon.as_deref(), Some("example-icon"));
    assert_eq!(e.source, "xdg-autostart");
    assert_eq!(e.scope, Scope::User);
    assert!(e.enabled);
}

#[test]
fn disable_sets_hidden_true() {
    let text = toggled("[Desktop Entry]\nName=Example\nExec=example\n", false);
    assert!(text.contains("Hidden=true"), "file was: {text}");
    assert!(text.contains("Name=Example"));
    let entries = provider().merge_entries(&vec![file("example.desktop", Some(&text))]);
    assert!(!entries[0].enabled);
}

#[test]
fn enable_removes_hidden_key() {
    let before = "[Desktop Entry]\nName=Example\nExec=example\nHidden=true\n";
    let p = provider();
    assert!(!p.merge_entries(&vec![file("example.desktop", Some(before))])[0].enabled);
    let text = toggled(before, true);
    assert!(!text.contains("Hidden"), "Hidden key should be gone: {text}");
    assert!(p.merge_entries(&vec![file("example.desktop", Some(&text))])[0].enabled);
}

#[test]
fn add_then_remove_round_trip() {
    let p = provider();
    let entry = AutostartEntry {
        id: "newthing".into(),
        display_name: "New Thing".into(),
        description: None,
        command: "newthing --start".into(),
        icon: None,
        enabled: true,
        source: "xdg-autostart".into(),
        scope: Scope::User,
    };
    assert_eq!(p.entry_path("newthing"), "/tmp/autostart/newthing.desktop");
    let text = new_entry_file(&entry).to_text();
    assert_eq!(text, "[Desktop Entry]\nType=Application\nName=New Thing\nExec=newthing --start\n");
    let listed = p.merge_entries(&vec![file("newthing.desktop", Some(&text))]);
    assert_eq!(listed.len(), 1);
    assert_eq!(listed[0].command, "newthing --start");
    // Once the file is gone, nothing is listed.
    assert!(p.merge_entries(&vec![]).is_empty());
}

#[test]
fn missing_dir_lists_empty() {
    let p = XdgAutostartProvider::with_autostart_dir("/tmp/nope".to_string());
    assert!(p.merge_entries(&vec![]).is_empty());
}

#[test]
fn system_provider_tags_source_and_scope() {
    let p = system_provider(vec!["/tmp/autostart"]);
    assert_eq!(p.id(), "xdg-autostart-system");
    assert_eq!(p.scope(), Scope::System);
    let entries = p.merge_entries(&vec![file(
        "example.desktop",
        Some("[Desktop Entry]\nName=Example\nExec=example\n"),
    )]);
    assert_eq!(entries.len(), 1);
    assert_eq!(entries[0].source, "xdg-autostart-system");
    assert_eq!(entries[0].scope, Scope::System);
}

#[test]
fn merges_multiple_dirs_with_first_wins_precedence() {
    let p = system_provider(vec!["/tmp/high", "/tmp/low"]);
    // `high` is listed first, so it takes precedence for `shared`.
    let files = vec![
        file("shared.desktop", Some("[Desktop Entry]\nName=High\nExec=high\n")),
        file("shared.desktop", Some("[Desktop Entry]\nName=Low\nExec=low\n")),
        file("low_only.desktop", Some("[Desktop Entry]\nName=LowOnly\nExec=lowonly\n")),
    ];
    let entries = p.merge_entries(&files);
    assert_eq!(entries.len(), 2);
    let shared = entries.iter().find(|e| e.id == "shared").unwrap();
    assert_eq!(shared.display_name, "High");
    assert!(entries.iter().any(|e| e.id == "low_only"));
}

#[test]
fn disable_writes_to_dir_where_entry_lives() {
    let p = system_provider(vec!["/tmp/high", "/tmp/low"]);
    let paths = p.candidate_paths("only_low");
    assert_eq!(paths, vec!["/tmp/high/only_low.desktop".to_string(), "/tmp/low/only_low.desktop".to_string()]);
    // The file exists only in the lower dir, so that is where the edit lands.
    let at = first_present(&vec![false, true]).unwrap();
    assert_eq!(paths[at], "/tmp/low/only_low.desktop");
    let text = toggled("[Desktop Entry]\nName=OnlyLow\nExec=onlylow\n", false);
    assert!(text.contains("Hidden=true"), "file was: {text}");
    assert_eq!(first_present(&vec![false, false]), None);
}

#[test]
fn sudo_hint_only_on_permission_denied() {
    let denied = Error::from(ErrorKind::PermissionDenied);
    let msg = with_sudo_hint(denied.kind() == ErrorKind::PermissionDenied, "writing foo");
    assert!(msg.contains("writing foo"), "got: {msg}");
    assert!(msg.contains("sudo"), "got: {msg}");

    let not_found = Error::from(ErrorKind::NotFound);
    let msg = with_sudo_hint(not_found.kind() == ErrorKind::PermissionDenied, "writing foo");
    assert!(msg.contains("writing foo"), "got: {msg}");
    assert!(!msg.contains("sudo"), "got: {msg}");
}

#[test]
fn unreadable_and_foreign_files_are_skipped() {
    let p = provider();
    let files = vec![
        file("broken.desktop", None),
        file("notes.txt", Some("[Desktop Entry]\nName=Notes\n")),
        file(".desktop", Some("[Desktop Entry]\nName=Hidden file\n")),
        file("ok.desktop", Some("[Desktop Entry]\nExec=ok\n")),
    ];
    let entries = p.merge_entries(&files);
    assert_eq!(entries.len(), 1);
    assert_eq!(entries[0].id, "ok");
    // With no Name, the id is shown; with no Exec the command would be empty.
    assert_eq!(entries[0].display_name, "ok");
    assert_eq!(entries[0].command, "ok");
}

#[test]
fn hidden_is_case_insensitive() {
    let f = DesktopFile::parse("[Desktop Entry]\nHidden=TrUe\n");
    assert!(!entry_from_desktop("x", &f, "s", Scope::User).enabled);
    let f = DesktopFile::parse("[Desktop Entry]\nHidden=yes\n");
    assert!(entry_from_desktop("x", &f, "s", Scope::User).enabled);
    let f = DesktopFile::parse("[Other]\nHidden=true\n");
    let e = entry_from_desktop("x", &f, "s", Scope::User);
    assert!(e.enabled);
    assert_eq!(e.command, "");
    assert_eq!(e.description, None);
}

#[test]
fn desktop_ids_come_from_the_file_stem() {
    assert_eq!(desktop_entry_id("a.b.desktop"), Some("a.b".to_string()));
    assert_eq!(desktop_entry_id("..desktop"), Some(".".to_string()));
    assert_eq!(desktop_entry_id(".desktop"), None);
    assert_eq!(desktop_entry_id("x.desktop.bak"), None);
    assert_eq!(desktop_entry_id("x.Desktop"), None);
}

#[test]
fn new_disabled_entry_with_icon_and_comment() {
    let entry = AutostartEntry {
        id: "t".into(),
        display_name: "T".into(),
        description: Some("d".into()),
        command: "t".into(),
        icon: Some("i".into()),
        enabled: false,
        source: "xdg-autostart".into(),
        scope: Scope::User,
    };
    let f = new_entry_file(&entry);
    assert_eq!(
        f.to_text(),
        "[Desktop Entry]\nType=Application\nName=T\nExec=t\nIcon=i\nComment=d\nHidden=true\n"
    );
    let back = entry_from_desktop("t", &f, "xdg-autostart", Scope::User);
    assert_eq!(back.display_name, "T");
    assert_eq!(back.description.as_deref(), Some("d"));
    assert_eq!(back.icon.as_deref(), Some("i"));
    assert!(!back.enabled);
}

#[test]
fn user_dir_prefers_xdg_config_home() {
    assert_eq!(user_autostart_dir(Some("/x/cfg"), Some("/home/u")), "/x/cfg/autostart");
    assert_eq!(user_autostart_dir(Some(""), Some("/home/u")), "/home/u/.config/autostart");
    assert_eq!(user_autostart_dir(None, Some("/home/u/")), "/home/u/.config/autostart");
    assert_eq!(user_autostart_dir(None, None), ".config/autostart");
    let p = XdgAutostartProvider::user(None, Some("/home/u"));
    assert_eq!(p.id(), "xdg-autostart");
    assert_eq!(p.primary_dir(), "/home/u/.config/autostart");
    assert_eq!(XdgAutostartProvider::new(Some("/c"), None).primary_dir(), "/c/autostart");
}

#[test]
fn system_dirs_split_config_dirs() {
    assert_eq!(
        system_autostart_dirs(Some("/etc/xdg::/opt/xdg/")),
        vec!["/etc/xdg/autostart".to_string(), "/opt/xdg/autostart".to_string()]
    );
    assert_eq!(system_autostart_dirs(Some(":")), vec!["/etc/xdg/autostart".to_string()]);
    assert_eq!(system_autostart_dirs(None), vec!["/etc/xdg/autostart".to_string()]);
    let p = XdgAutostartProvider::system(Some("/a:/b"));
    assert_eq!(p.dirs_display(), "/a/autostart, /b/autostart");
    assert_eq!(p.scope(), Scope::System);
}

#[test]
fn absolute_ids_replace_the_directory() {
    assert_eq!(provider().entry_path("/etc/evil"), "/etc/evil.desktop");
}

#[test]
fn availability_needs_a_dir_or_its_parent() {
    assert!(available_from(&vec![false, true], &vec![false, false]));
    assert!(available_from(&vec![false], &vec![true]));
    assert!(!available_from(&vec![false, false], &vec![false, false]));
    assert!(!available_from(&vec![], &vec![]));
}

#[test]
fn enable_undoes_disable() {
    let before = "[Desktop Entry]\nName=Example\n\n# trailing\n";
    let disabled = toggled(before, false);
    assert_eq!(disabled, "[Desktop Entry]\nName=Example\n\n# trailing\nHidden=true\n");
    assert_eq!(toggled(&disabled, true), before);
}

#[test]
fn disable_keeps_other_fields() {
    let before = "[Desktop Entry]\nName=N\nExec=e\nIcon=i\nComment=c\n";
    let p = provider();
    let a = &p.merge_entries(&vec![file("x.desktop", Some(before))])[0];
    let after = toggled(before, false);
    let b = &p.merge_entries(&vec![file("x.desktop", Some(&after))])[0];
    assert_eq!((&a.display_name, &a.command, &a.icon, &a.description), (&b.display_name, &b.command, &b.icon, &b.description));
    assert!(a.enabled && !b.enabled);
}

#[test]
fn enable_removes_every_hidden_key() {
    let before = "[Desktop Entry]\nName=X\nHidden=true\nHidden=true\n";
    let p = XdgAutostartProvider::with_autostart_dir("/tmp/d".to_string());
    assert!(!p.merge_entries(&vec![file("x.desktop", Some(before))])[0].enabled);
    let text = toggled(before, true);
    assert_eq!(text, "[Desktop Entry]\nName=X\n");
    let listed = p.merge_entries(&vec![file("x.desktop", Some(&text))]);
    assert_eq!(listed[0].id, "x");
    assert!(listed[0].enabled);
}

#[test]
fn enable_leaves_hidden_of_other_groups() {
    let before = "[Desktop Entry]\nHidden=true\n[Other]\nHidden=true\n";
    assert_eq!(toggled(before, true), "[Desktop Entry]\n[Other]\nHidden=true\n");
}

#[test]
fn toggle_rewrites_first_file_only() {
    let files = vec![None, Some("[Desktop Entry]\nName=A\n".to_string()), Some("[Desktop Entry]\nName=B\n".to_string())];
    let (i, text) = toggle_first(&files, false).unwrap();
    assert_eq!(i, 1);
    assert_eq!(text, "[Desktop Entry]\nName=A\nHidden=true\n");
    // Disabling again writes the same text.
    let again = vec![None, Some(text.clone()), files[2].clone()];
    assert_eq!(toggle_first(&again, false), Some((1, text)));
    assert_eq!(toggle_first(&vec![None, None], true), None);
    assert_eq!(toggle_first(&vec![], false), None);
}

#[test]
fn toggle_enable_twice_is_enable_once() {
    let files = vec![Some("[Desktop Entry]\nHidden=True\nExec=x\n".to_string())];
    let (i, text) = toggle_first(&files, true).unwrap();
    assert_eq!((i, text.as_str()), (0, "[Desktop Entry]\nExec=x\n"));
    assert_eq!(toggle_first(&vec![Some(text.clone())], true), Some((0, text)));
}

#[test]
fn added_entry_is_listed_once_among_others() {
    let p = provider();
    let entry = AutostartEntry {
        id: "tool".into(),
        display_name: " Spaced Name ".into(),
        description: Some("About it".into()),
        command: "tool --x=1".into(),
        icon: Some("tool-icon".into()),
        enabled: false,
        source: "ignored".into(),
        scope: Scope::System,
    };
    let text = new_entry_file(&entry).to_text();
    let files = vec![
        file("other.desktop", Some("[Desktop Entry]\nName=Other\n")),
        file("tool.desktop", Some(&text)),
        file("notes.txt", Some("tool")),
    ];
    let listed = p.merge_entries(&files);
    let found: Vec<_> = listed.iter().filter(|e| e.id == "tool").collect();
    assert_eq!(found.len(), 1);
    let e = found[0];
    assert_eq!(e.display_name, " Spaced Name ");
    assert_eq!(e.description.as_deref(), Some("About it"));
    assert_eq!(e.command, "tool --x=1");
    assert_eq!(e.icon.as_deref(), Some("tool-icon"));
    assert!(!e.enabled);
    assert_eq!(e.source, "xdg-autostart");
    assert_eq!(e.scope, Scope::User);
}

#[test]
fn removing_first_copy_lists_the_next() {
    let p = system_provider(vec!["/a", "/b"]);
    let first = file("x.desktop", Some("[Desktop Entry]\nName=First\n"));
    let second = file("x.desktop", Some("[Desktop Entry]\nName=Second\n"));
    assert_eq!(p.merge_entries(&vec![first, file("x.desktop", Some("[Desktop Entry]\nName=Second\n"))])[0].display_name, "First");
    let after = p.merge_entries(&vec![second]);
    assert_eq!(after.len(), 1);
    assert_eq!(after[0].display_name, "Second");
    // The next removal picks the next existing copy.
    assert_eq!(first_present(&vec![false, false, true]), Some(2));
}

#[test]
fn toggling_twice_with_carriage_returns() {
    // A final header line ending in a carriage return is written back without it.
    let once = toggle_first(&vec![Some("[Desktop Entry]\r".to_string())], false).unwrap().1;
    assert_eq!(once, "[Desktop Entry]\nHidden=true\n");
    assert_eq!(toggle_first(&vec![Some(once.clone())], false).unwrap().1, once);
    // A `Hidden` pair ending in one is replaced, or removed.
    let text = "[Desktop Entry]\nHidden=true\r\r\n".to_string();
    let off = toggle_first(&vec![Some(text.clone())], false).unwrap().1;
    assert_eq!(off, "[Desktop Entry]\nHidden=true\n");
    assert_eq!(toggle_first(&vec![Some(off.clone())], false).unwrap().1, off);
    let on = toggle_first(&vec![Some(text)], true).unwrap().1;
    assert_eq!(on, "[Desktop Entry]\n");
    assert_eq!(toggle_first(&vec![Some(on.clone())], true).unwrap().1, on);
    // A kept line that still ends in one loses it on the second pass.
    let kept = toggle_first(&vec![Some("[Desktop Entry]\nName=a\r\r\n".to_string())], false).unwrap().1;
    assert_eq!(kept, "[Desktop Entry]\nName=a\r\nHidden=true\n");
    assert_eq!(toggle_first(&vec![Some(kept)], false).unwrap().1, "[Desktop Entry]\nName=a\nHidden=true\n");
}

#[test]
fn removing_an_unreadable_first_copy_lists_the_next() {
    let p = system_provider(vec!["/a", "/b"]);
    let listed = p.merge_entries(&vec![file("x.desktop", None), file("x.desktop", Some("[Desktop Entry]\nName=Second\n"))]);
    assert_eq!(listed.len(), 1);
    assert_eq!(listed[0].display_name, "Second");
    let after = p.merge_entries(&vec![file("x.desktop", Some("[Desktop Entry]\nName=Second\n"))]);
    assert_eq!(after[0].display_name, "Second");
}
