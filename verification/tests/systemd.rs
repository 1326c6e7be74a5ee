use runlatch::model::Scope;
use runlatch::systemd::{enableable_units, is_enableable_state, unit_file_meta, unit_name, SystemdProvider};

#[test]
fn ids_and_scopes() {
    assert_eq!(SystemdProvider::user().id(), "systemd-user");
    assert_eq!(SystemdProvider::user().scope(), Scope::User);
    assert_eq!(SystemdProvider::system().id(), "systemd-system");
    assert_eq!(SystemdProvider::system().scope(), Scope::System);
}

#[test]
fn unit_names_are_the_last_path_component() {
    assert_eq!(unit_name("/usr/lib/systemd/user/foo.service"), "foo.service");
    assert_eq!(unit_name("bare.timer"), "bare.timer");
    assert_eq!(unit_name("/trailing/"), "");
}

#[test]
fn enableable_states() {
    for s in ["enabled", "enabled-runtime", "disabled", "linked", "linked-runtime", "masked", "masked-runtime", "indirect"] {
        assert!(is_enableable_state(s), "{s}");
    }
    for s in ["static", "alias", "generated", "transient", "bad", ""] {
        assert!(!is_enableable_state(s), "{s}");
    }
}

#[test]
fn filters_units_keeping_order() {
    let units = vec![
        ("/a.service".to_string(), "static".to_string()),
        ("/b.service".to_string(), "enabled".to_string()),
        ("/c.service".to_string(), "disabled".to_string()),
    ];
    let kept = enableable_units(&units);
    assert_eq!(kept, vec![units[1].clone(), units[2].clone()]);
}

#[test]
fn service_meta() {
    let (d, c) = unit_file_meta("[Unit]\nDescription=Foo daemon\n[Service]\nExecStart=/usr/bin/foo --x\n");
    assert_eq!(d.as_deref(), Some("Foo daemon"));
    assert_eq!(c.as_deref(), Some("/usr/bin/foo --x"));
}

#[test]
fn timer_and_socket_meta() {
    let (d, c) = unit_file_meta("[Unit]\nDescription=\n[Timer]\nOnBootSec=5min\nOnCalendar=daily\n");
    assert_eq!(d, None);
    assert_eq!(c.as_deref(), Some("daily"));
    let (_, c) = unit_file_meta("[Socket]\nListenStream=/run/x.sock\n");
    assert_eq!(c.as_deref(), Some("/run/x.sock"));
    // An empty ExecStart is found first and then dropped as empty.
    let (_, c) = unit_file_meta("[Service]\nExecStart=\n[Timer]\nOnCalendar=daily\n");
    assert_eq!(c, None);
}

#[test]
fn unit_entries_from_list() {
    let p = SystemdProvider::user();
    let units = vec![
        ("/u/foo.service".to_string(), "enabled".to_string()),
        ("/u/bar.timer".to_string(), "disabled".to_string()),
    ];
    let texts = vec![
        Some("[Unit]\nDescription=Foo\n[Service]\nExecStart=foo\n".to_string()),
        None,
    ];
    let es = p.unit_entries(&units, &texts);
    assert_eq!(es.len(), 2);
    assert_eq!(es[0].id, "foo.service");
    assert_eq!(es[0].display_name, "Foo");
    assert_eq!(es[0].description.as_deref(), Some("Foo"));
    assert_eq!(es[0].command, "foo");
    assert!(es[0].enabled);
    assert_eq!(es[0].source, "systemd-user");
    assert_eq!(es[1].id, "bar.timer");
    assert_eq!(es[1].display_name, "bar.timer");
    assert_eq!(es[1].command, "");
    assert!(!es[1].enabled);
    assert_eq!(es[1].icon, None);
}
