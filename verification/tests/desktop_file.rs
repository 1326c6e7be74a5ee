use runlatch::desktop_file::{DesktopFile, DESKTOP_ENTRY_GROUP};

const SAMPLE: &str = "\
[Desktop Entry]
Type=Application
Name=Example
# a comment
Exec=example --flag
Icon=example
";

#[test]
fn parses_and_round_trips() {
    let f = DesktopFile::parse(SAMPLE);
    assert_eq!(f.get(DESKTOP_ENTRY_GROUP, "Name"), Some("Example"));
    assert_eq!(f.get(DESKTOP_ENTRY_GROUP, "Exec"), Some("example --flag"));
    assert_eq!(f.to_text(), SAMPLE);
}

#[test]
fn set_preserves_unrelated_keys_and_order() {
    let mut f = DesktopFile::parse(SAMPLE);
    f.set(DESKTOP_ENTRY_GROUP, "Hidden", "true");
    let out = f.to_text();
    assert!(out.contains("Hidden=true"));
    assert!(out.contains("# a comment"));
    assert!(out.contains("Name=Example"));
    assert!(out.find("Type=Application").unwrap() < out.find("Hidden=true").unwrap());
}

#[test]
fn set_updates_existing_key_in_place() {
    let mut f = DesktopFile::parse(SAMPLE);
    f.set(DESKTOP_ENTRY_GROUP, "Name", "Renamed");
    assert_eq!(f.get(DESKTOP_ENTRY_GROUP, "Name"), Some("Renamed"));
    assert_eq!(f.to_text().matches("Name=").count(), 1);
}

#[test]
fn remove_drops_only_target_key() {
    let mut f = DesktopFile::parse(SAMPLE);
    assert!(f.remove(DESKTOP_ENTRY_GROUP, "Icon"));
    assert_eq!(f.get(DESKTOP_ENTRY_GROUP, "Icon"), None);
    assert!(f.get(DESKTOP_ENTRY_GROUP, "Name").is_some());
    assert!(!f.remove(DESKTOP_ENTRY_GROUP, "Nonexistent"));
}

#[test]
fn set_creates_missing_group() {
    let mut f = DesktopFile::parse("");
    f.set(DESKTOP_ENTRY_GROUP, "Type", "Application");
    assert_eq!(f.get(DESKTOP_ENTRY_GROUP, "Type"), Some("Application"));
}

#[test]
fn get_after_set_reads_value_back() {
    let mut f = DesktopFile::parse("[A]\nx=1\n[B]\ny=2\n");
    f.set("B", "z", "3");
    assert_eq!(f.get("B", "z"), Some("3"));
    assert_eq!(f.get("A", "x"), Some("1"));
    assert_eq!(f.get("B", "y"), Some("2"));
    assert_eq!(f.to_text(), "[A]\nx=1\n[B]\ny=2\nz=3\n");
}

#[test]
fn set_twice_makes_no_duplicate() {
    let mut f = DesktopFile::parse("[G]\na=1\n");
    f.set("G", "b", "2");
    let once = f.to_text();
    f.set("G", "b", "2");
    assert_eq!(f.to_text(), once);
}

#[test]
fn new_key_goes_before_trailing_blank_lines() {
    let mut f = DesktopFile::parse("[A]\nx=1\n\n  \n[B]\ny=2\n");
    f.set("A", "k", "v");
    assert_eq!(f.to_text(), "[A]\nx=1\nk=v\n\n  \n[B]\ny=2\n");
}

#[test]
fn new_key_in_blank_group_goes_at_its_end() {
    let mut f = DesktopFile::parse("[A]\n\n[B]\n");
    f.set("A", "k", "v");
    assert_eq!(f.to_text(), "[A]\n\nk=v\n[B]\n");
}

#[test]
fn get_only_looks_in_the_first_group_with_that_name() {
    let f = DesktopFile::parse("[A]\nx=1\n[B]\nx=2\n[A]\nx=3\n");
    assert_eq!(f.get("A", "x"), Some("1"));
    assert_eq!(f.get("B", "x"), Some("2"));
    assert_eq!(f.get("C", "x"), None);
}

#[test]
fn first_pair_of_a_key_wins() {
    let f = DesktopFile::parse("[A]\nx=1\nx=2\n");
    assert_eq!(f.get("A", "x"), Some("1"));
}

#[test]
fn remove_only_drops_the_first_occurrence() {
    let mut f = DesktopFile::parse("[A]\nx=1\nx=2\n");
    assert!(f.remove("A", "x"));
    assert_eq!(f.get("A", "x"), Some("2"));
}

#[test]
fn remove_from_missing_group_is_false() {
    let mut f = DesktopFile::parse("[A]\nx=1\n");
    assert!(!f.remove("B", "x"));
    assert_eq!(f.to_text(), "[A]\nx=1\n");
}

#[test]
fn header_and_key_whitespace_is_trimmed() {
    let f = DesktopFile::parse("  [Desktop Entry]  \n Name = Spaced \n");
    assert_eq!(f.get(DESKTOP_ENTRY_GROUP, "Name"), Some(" Spaced "));
    assert_eq!(f.to_text(), "[Desktop Entry]\nName= Spaced \n");
}

#[test]
fn comments_and_bad_keys_stay_raw() {
    let text = "[G]\n# k=v\nbad key=v\n=v\n  #x=1\n";
    let f = DesktopFile::parse(text);
    assert_eq!(f.get("G", "# k"), None);
    assert_eq!(f.get("G", "bad key"), None);
    assert_eq!(f.get("G", ""), None);
    assert_eq!(f.to_text(), text);
}

#[test]
fn value_keeps_later_equals_signs() {
    let f = DesktopFile::parse("[G]\nExec=env A=1 run\n");
    assert_eq!(f.get("G", "Exec"), Some("env A=1 run"));
}

#[test]
fn crlf_line_endings_are_read_and_written_as_newlines() {
    let f = DesktopFile::parse("[G]\r\nk=v\r\n");
    assert_eq!(f.get("G", "k"), Some("v"));
    assert_eq!(f.to_text(), "[G]\nk=v\n");
}

#[test]
fn last_line_without_newline_gets_one() {
    let f = DesktopFile::parse("[G]\nk=v");
    assert_eq!(f.to_text(), "[G]\nk=v\n");
}

#[test]
fn unicode_whitespace_is_trimmed_from_headers() {
    let f = DesktopFile::parse("\u{a0}[G]\u{3000}\nk=v\n");
    assert_eq!(f.get("G", "k"), Some("v"));
}

#[test]
fn default_file_is_empty() {
    let f = DesktopFile::default();
    assert_eq!(f.to_text(), "");
}

#[test]
fn brackets_alone_are_no_header() {
    let f = DesktopFile::parse("[\n[]\nk=v\n");
    assert_eq!(f.get("", "k"), Some("v"));
    assert_eq!(f.to_text(), "[\n[]\nk=v\n");
}

#[test]
fn reparsing_written_text_reads_the_same() {
    let text = "  [G] \r\n key = v \nplain\n#c\n[H]\nx=1=2";
    let once = DesktopFile::parse(text).to_text();
    let twice = DesktopFile::parse(&once).to_text();
    assert_eq!(once, twice);
    assert_eq!(DesktopFile::parse(&once).get("G", "key"), Some(" v "));
    assert_eq!(DesktopFile::parse(&once).get("H", "x"), Some("1=2"));
}

#[test]
fn removing_a_new_key_restores_the_text() {
    let text = "[G]\na=1\n\n[H]\nb=2\n";
    let mut f = DesktopFile::parse(text);
    f.set("G", "k", "v");
    assert_ne!(f.to_text(), text);
    assert!(f.remove("G", "k"));
    assert_eq!(f.to_text(), text);
}

#[test]
fn set_changes_one_text_line() {
    let mut f = DesktopFile::parse(SAMPLE);
    let before: Vec<String> = f.to_text().lines().map(String::from).collect();
    f.set(DESKTOP_ENTRY_GROUP, "Name", "Renamed");
    let after: Vec<String> = f.to_text().lines().map(String::from).collect();
    assert_eq!(before.len(), after.len());
    let changed: Vec<usize> = (0..before.len()).filter(|&i| before[i] != after[i]).collect();
    assert_eq!(changed, vec![2]);
    assert_eq!(after[2], "Name=Renamed");
}

#[test]
fn set_in_missing_group_appends_header_and_line() {
    let mut f = DesktopFile::parse(SAMPLE);
    f.set("Extra", "K", "v");
    assert_eq!(f.to_text(), format!("{SAMPLE}[Extra]\nK=v\n"));
}

#[test]
fn remove_drops_exactly_one_text_line() {
    let mut f = DesktopFile::parse(SAMPLE);
    assert!(f.remove(DESKTOP_ENTRY_GROUP, "Exec"));
    let lines: Vec<&str> = SAMPLE.lines().filter(|l| *l != "Exec=example --flag").collect();
    assert_eq!(f.to_text(), format!("{}\n", lines.join("\n")));
    let text = f.to_text();
    assert!(!f.remove(DESKTOP_ENTRY_GROUP, "Exec"));
    assert_eq!(f.to_text(), text);
}

#[test]
fn set_text_lines_with_a_carriage_return_line() {
    let mut f = DesktopFile::parse("[Desktop Entry]\nName=a\r\r\n");
    let before: Vec<String> = f.to_text().lines().map(String::from).collect();
    assert_eq!(before, vec!["[Desktop Entry]", "Name=a"]);
    f.set(DESKTOP_ENTRY_GROUP, "Exec", "x");
    let after: Vec<String> = f.to_text().lines().map(String::from).collect();
    assert_eq!(after, vec!["[Desktop Entry]", "Name=a", "Exec=x"]);
    assert!(f.remove(DESKTOP_ENTRY_GROUP, "Name"));
    let after: Vec<String> = f.to_text().lines().map(String::from).collect();
    assert_eq!(after, vec!["[Desktop Entry]", "Exec=x"]);
}
