//! systemd provider for both user (session bus) and system (system bus) units.
//!
//! A single [`SystemdProvider`] handles both scopes: the only differences are which
//! D-Bus connection is opened and which id and scope are reported. Talking to the bus
//! and reading unit files is the caller's part; the functions here decide which units
//! are listed and what each entry says.
use vstd::prelude::*;

use crate::desktop_file::{DesktopFile, LineView, get_spec, parse_spec};
use crate::model::{AutostartEntry, EntryView, Scope, entries_view, opt_view};
use crate::search::{last_in, lemma_last_in_found, lemma_last_in_none};
use crate::text::{chars_of, string_of};

verus! {

/// Which D-Bus bus, and therefore which systemd instance, the provider talks to.
#[derive(Debug, Clone, Copy, PartialEq, Eq, Structural)]
pub enum Bus {
    /// `org.freedesktop.systemd1` on the session bus: user units.
    Session,
    /// `org.freedesktop.systemd1` on the system bus: system units.
    System,
}

/// Provider for systemd units, covering either the user or system scope.
pub struct SystemdProvider {
    pub bus: Bus,
}

/// Whether `a` and `b` hold the same text.
fn str_eq(a: &str, b: &str) -> (r: bool)
    ensures
        r == (a@ == b@),
{
    a.to_owned() == b.to_owned()
}

/// The provider id of a bus.
pub open spec fn bus_id(bus: Bus) -> Seq<char> {
    match bus {
        Bus::Session => "systemd-user"@,
        Bus::System => "systemd-system"@,
    }
}

/// The scope of a bus.
pub open spec fn bus_scope(bus: Bus) -> Scope {
    match bus {
        Bus::Session => Scope::User,
        Bus::System => Scope::System,
    }
}

impl SystemdProvider {
    /// Provider for `--user` units (session bus).
    pub fn user() -> (r: Self)
        ensures
            r.bus == Bus::Session,
    {
        SystemdProvider { bus: Bus::Session }
    }

    /// Provider for system units (system bus). Enable/disable may require polkit
    /// elevation; listing is always read-only.
    pub fn system() -> (r: Self)
        ensures
            r.bus == Bus::System,
    {
        SystemdProvider { bus: Bus::System }
    }

    /// Stable provider id: `systemd-user` or `systemd-system`.
    pub fn id(&self) -> (r: &'static str)
        ensures
            r@ == bus_id(self.bus),
    {
        match self.bus {
            Bus::Session => "systemd-user",
            Bus::System => "systemd-system",
        }
    }

    /// The scope this provider manages.
    pub fn scope(&self) -> (r: Scope)
        ensures
            r == bus_scope(self.bus),
    {
        match self.bus {
            Bus::Session => Scope::User,
            Bus::System => Scope::System,
        }
    }

    /// The entries of the enableable units: `units` are `(path, state)` pairs as
    /// `ListUnitFiles` reports them, `texts` the contents of each unit file when it could
    /// be read.
    pub fn unit_entries(&self, units: &Vec<(String, String)>, texts: &Vec<Option<String>>) -> (r: Vec<AutostartEntry>)
        requires
            units.len() == texts.len(),
        ensures
            entries_view(r@) == Seq::new(
                units.len() as nat,
                |i: int| unit_entry(units@[i].0@, units@[i].1@, opt_view(texts@[i]), bus_id(self.bus), bus_scope(self.bus)),
            ),
            r.len() == units.len(),
            forall|i: int| 0 <= i < units.len() ==> (#[trigger] r@[i].enabled <==> (units@[i].1@ == "enabled"@
                || units@[i].1@ == "enabled-runtime"@)),
    {
        let source = self.id();
        let scope = self.scope();
        let mut out: Vec<AutostartEntry> = Vec::new();
        let mut i: usize = 0;
        while i < units.len()
            invariant
                i <= units.len() == texts.len(),
                source@ == bus_id(self.bus),
                scope == bus_scope(self.bus),
                out.len() == i,
                forall|k: int| 0 <= k < i ==> #[trigger] out@[k]@ == unit_entry(
                    units@[k].0@,
                    units@[k].1@,
                    opt_view(texts@[k]),
                    bus_id(self.bus),
                    bus_scope(self.bus),
                ),
            decreases units.len() - i,
        {
            let e = unit_entry_of(&units[i].0, &units[i].1, &texts[i], source, scope);
            out.push(e);
            i = i + 1;
        }
        assert(entries_view(out@) =~= Seq::new(
            units.len() as nat,
            |i: int| unit_entry(units@[i].0@, units@[i].1@, opt_view(texts@[i]), bus_id(self.bus), bus_scope(self.bus)),
        ));
        assert forall|i: int| 0 <= i < units.len() implies (#[trigger] out@[i].enabled <==> (units@[i].1@
            == "enabled"@ || units@[i].1@ == "enabled-runtime"@)) by {
            law_unit_enabled(units@[i].0@, units@[i].1@, opt_view(texts@[i]), bus_id(self.bus), bus_scope(self.bus));
            assert(out@[i]@ == unit_entry(units@[i].0@, units@[i].1@, opt_view(texts@[i]), bus_id(self.bus), bus_scope(self.bus)));
            assert(out@[i]@.enabled == out@[i].enabled);
        }
        out
    }
}

/// Unit-file states with an `[Install]` section that can actually be enabled or
/// disabled. Everything else (`static`, `alias`, `generated`, `transient`, `bad`) is
/// left out of the autostart view.
pub open spec fn enableable(state: Seq<char>) -> bool {
    ||| state == "enabled"@
    ||| state == "enabled-runtime"@
    ||| state == "disabled"@
    ||| state == "linked"@
    ||| state == "linked-runtime"@
    ||| state == "masked"@
    ||| state == "masked-runtime"@
    ||| state == "indirect"@
}

/// Whether a unit in `state` can be enabled or disabled.
pub fn is_enableable_state(state: &str) -> (r: bool)
    ensures
        r == enableable(state@),
{
    str_eq(state, "enabled") || str_eq(state, "enabled-runtime") || str_eq(state, "disabled")
        || str_eq(state, "linked") || str_eq(state, "linked-runtime") || str_eq(state, "masked")
        || str_eq(state, "masked-runtime") || str_eq(state, "indirect")
}

/// The texts of `(path, state)` pairs.
pub open spec fn units_view(us: Seq<(String, String)>) -> Seq<(Seq<char>, Seq<char>)> {
    us.map_values(|u: (String, String)| (u.0@, u.1@))
}

/// The units whose state can be enabled or disabled, in order.
pub fn enableable_units(units: &Vec<(String, String)>) -> (r: Vec<(String, String)>)
    ensures
        units_view(r@) == units_view(units@).filter(|u: (Seq<char>, Seq<char>)| enableable(u.1)),
{
    let ghost uv = units_view(units@);
    let mut out: Vec<(String, String)> = Vec::new();
    let mut i: usize = 0;
    while i < units.len()
        invariant
            i <= units.len(),
            uv == units_view(units@),
            units_view(out@) == uv.take(i as int).filter(|u: (Seq<char>, Seq<char>)| enableable(u.1)),
        decreases units.len() - i,
    {
        proof {
            reveal_with_fuel(Seq::<_>::filter, 1);
            assert(uv.take(i + 1).drop_last() =~= uv.take(i as int));
        }
        if is_enableable_state(units[i].1.as_str()) {
            let ghost before = out@;
            out.push((units[i].0.clone(), units[i].1.clone()));
            assert(units_view(out@) =~= units_view(before).push(uv[i as int]));
        }
        i = i + 1;
    }
    assert(uv.take(units.len() as int) =~= uv);
    out
}

/// The character is a slash.
pub open spec fn is_slash() -> spec_fn(char) -> bool {
    |c: char| c == '/'
}

/// The unit's name: its path after the last `/`.
pub open spec fn unit_name_spec(path: Seq<char>) -> Seq<char> {
    match last_in(path, 0, path.len() as int, is_slash()) {
        Some(j) => path.skip(j + 1),
        None => path,
    }
}

/// The unit's name: its path after the last `/`.
pub fn unit_name(path: &str) -> (r: String)
    ensures
        r@ == unit_name_spec(path@),
{
    let v = chars_of(path);
    let mut j = v.len();
    while j > 0 && v[j - 1] != '/'
        invariant
            j <= v.len(),
            v@ == path@,
            forall|k: int| j <= k < v.len() ==> !is_slash()(#[trigger] v@[k]),
        decreases j,
    {
        j = j - 1;
    }
    if j > 0 {
        proof {
            lemma_last_in_found(v@, 0, v.len() as int, is_slash(), j - 1);
        }
        assert(v@.skip(j as int) =~= v@.subrange(j as int, v.len() as int));
        string_of(&v, j, v.len())
    } else {
        proof {
            lemma_last_in_none(v@, 0, v.len() as int, is_slash());
        }
        assert(v@ =~= v@.subrange(0, v.len() as int));
        string_of(&v, 0, v.len())
    }
}

/// A value kept only when it is not empty.
pub open spec fn non_empty(o: Option<Seq<char>>) -> Option<Seq<char>> {
    match o {
        Some(s) => if s.len() > 0 { Some(s) } else { None },
        None => None,
    }
}

/// The first value present, in order.
pub open spec fn first_some(cands: Seq<Option<Seq<char>>>) -> Option<Seq<char>>
    decreases cands.len(),
{
    if cands.len() == 0 {
        None
    } else if cands[0] is Some {
        cands[0]
    } else {
        first_some(cands.drop_first())
    }
}

/// Where the command of a unit is looked for, in order: the service's `ExecStart`,
/// the timer's schedule, the socket's listen address.
pub open spec fn command_candidates(ls: Seq<LineView>) -> Seq<Option<Seq<char>>> {
    seq![
        get_spec(ls, "Service"@, "ExecStart"@),
        get_spec(ls, "Timer"@, "OnCalendar"@),
        get_spec(ls, "Timer"@, "OnBootSec"@),
        get_spec(ls, "Timer"@, "OnStartupSec"@),
        get_spec(ls, "Timer"@, "OnUnitActiveSec"@),
        get_spec(ls, "Timer"@, "OnActiveSec"@),
        get_spec(ls, "Socket"@, "ListenStream"@),
        get_spec(ls, "Socket"@, "ListenDatagram"@),
        get_spec(ls, "Socket"@, "ListenSequentialPacket"@),
        get_spec(ls, "Socket"@, "ListenFIFO"@),
    ]
}

/// The description and command of a unit file: `Description` from `[Unit]`, and the
/// first of the command candidates that is present; each only when not empty.
pub open spec fn unit_meta_spec(ls: Seq<LineView>) -> (Option<Seq<char>>, Option<Seq<char>>) {
    (non_empty(get_spec(ls, "Unit"@, "Description"@)), non_empty(first_some(command_candidates(ls))))
}

/// An owned copy of a value, kept only when it is not empty.
fn owned_non_empty(o: Option<&str>) -> (r: Option<String>)
    ensures
        opt_view(r) == non_empty(
            match o {
                Some(s) => Some(s@),
                None => None::<Seq<char>>,
            },
        ),
{
    match o {
        Some(s) => if s.is_empty() {
            None
        } else {
            Some(s.to_owned())
        },
        None => None,
    }
}

/// The value of `key` in `group`, with the view of what it returns.
fn lookup<'a>(file: &'a DesktopFile, group: &str, key: &str) -> (r: Option<&'a str>)
    ensures
        match r {
            Some(v) => get_spec(file@, group@, key@) == Some(v@),
            None => get_spec(file@, group@, key@) is None,
        },
{
    file.get(group, key)
}

/// Extract `Description` from `[Unit]` and the primary command from `[Service]`, or the
/// schedule from `[Timer]`, or the listen address from `[Socket]`.
pub fn unit_file_meta(text: &str) -> (r: (Option<String>, Option<String>))
    ensures
        (opt_view(r.0), opt_view(r.1)) == unit_meta_spec(parse_spec(text@)),
        opt_view(r.0) == kept_if_not_empty(get_spec(parse_spec(text@), "Unit"@, "Description"@)),
        opt_view(r.1) == kept_if_not_empty(first_command_listed(parse_spec(text@))),
{
    let file = DesktopFile::parse(text);
    let ghost ls = file@;
    let description = owned_non_empty(lookup(&file, "Unit", "Description"));
    let mut command = lookup(&file, "Service", "ExecStart");
    if command.is_none() {
        command = lookup(&file, "Timer", "OnCalendar");
    }
    if command.is_none() {
        command = lookup(&file, "Timer", "OnBootSec");
    }
    if command.is_none() {
        command = lookup(&file, "Timer", "OnStartupSec");
    }
    if command.is_none() {
        command = lookup(&file, "Timer", "OnUnitActiveSec");
    }
    if command.is_none() {
        command = lookup(&file, "Timer", "OnActiveSec");
    }
    if command.is_none() {
        command = lookup(&file, "Socket", "ListenStream");
    }
    if command.is_none() {
        command = lookup(&file, "Socket", "ListenDatagram");
    }
    if command.is_none() {
        command = lookup(&file, "Socket", "ListenSequentialPacket");
    }
    if command.is_none() {
        command = lookup(&file, "Socket", "ListenFIFO");
    }
    proof {
        let c = command_candidates(ls);
        reveal_with_fuel(first_some, 11);
        assert(c.drop_first().drop_first().drop_first().drop_first().drop_first().drop_first().drop_first().drop_first().drop_first().drop_first().len() == 0);
        law_unit_meta(ls);
    }
    (description, owned_non_empty(command))
}

/// The entry of one unit, from its path, state and file text.
pub open spec fn unit_entry(
    path: Seq<char>,
    state: Seq<char>,
    text: Option<Seq<char>>,
    source: Seq<char>,
    scope: Scope,
) -> EntryView {
    let name = unit_name_spec(path);
    let (description, command) = match text {
        Some(t) => unit_meta_spec(parse_spec(t)),
        None => (None, None),
    };
    EntryView {
        id: name,
        display_name: match description {
            Some(d) => d,
            None => name,
        },
        description,
        command: match command {
            Some(c) => c,
            None => seq![],
        },
        icon: None,
        enabled: state == "enabled"@ || state == "enabled-runtime"@,
        source,
        scope,
    }
}

/// The entry of one unit.
fn unit_entry_of(path: &String, state: &String, text: &Option<String>, source: &str, scope: Scope) -> (r: AutostartEntry)
    ensures
        r@ == unit_entry(path@, state@, opt_view(*text), source@, scope),
{
    let name = unit_name(path.as_str());
    let (description, command) = match text {
        Some(t) => unit_file_meta(t.as_str()),
        None => (None, None),
    };
    let enabled = str_eq(state.as_str(), "enabled") || str_eq(state.as_str(), "enabled-runtime");
    let display_name = match &description {
        Some(d) => d.clone(),
        None => name.clone(),
    };
    AutostartEntry {
        id: name,
        display_name,
        description,
        command: match command {
            Some(c) => c,
            None => String::new(),
        },
        icon: None,
        enabled,
        source: source.to_owned(),
        scope,
    }
}

/// A present value when it is not empty, else nothing.
pub open spec fn kept_if_not_empty(o: Option<Seq<char>>) -> Option<Seq<char>> {
    match o {
        Some(v) => if v.len() > 0 {
            Some(v)
        } else {
            None
        },
        None => None,
    }
}

/// The command a unit lists, spelled out: `[Service] ExecStart`; else `[Timer]`
/// `OnCalendar`, `OnBootSec`, `OnStartupSec`, `OnUnitActiveSec`, `OnActiveSec`; else
/// `[Socket]` `ListenStream`, `ListenDatagram`, `ListenSequentialPacket`, `ListenFIFO`;
/// the first of them that is present.
pub open spec fn first_command_listed(ls: Seq<LineView>) -> Option<Seq<char>> {
    if get_spec(ls, "Service"@, "ExecStart"@) is Some {
        get_spec(ls, "Service"@, "ExecStart"@)
    } else if get_spec(ls, "Timer"@, "OnCalendar"@) is Some {
        get_spec(ls, "Timer"@, "OnCalendar"@)
    } else if get_spec(ls, "Timer"@, "OnBootSec"@) is Some {
        get_spec(ls, "Timer"@, "OnBootSec"@)
    } else if get_spec(ls, "Timer"@, "OnStartupSec"@) is Some {
        get_spec(ls, "Timer"@, "OnStartupSec"@)
    } else if get_spec(ls, "Timer"@, "OnUnitActiveSec"@) is Some {
        get_spec(ls, "Timer"@, "OnUnitActiveSec"@)
    } else if get_spec(ls, "Timer"@, "OnActiveSec"@) is Some {
        get_spec(ls, "Timer"@, "OnActiveSec"@)
    } else if get_spec(ls, "Socket"@, "ListenStream"@) is Some {
        get_spec(ls, "Socket"@, "ListenStream"@)
    } else if get_spec(ls, "Socket"@, "ListenDatagram"@) is Some {
        get_spec(ls, "Socket"@, "ListenDatagram"@)
    } else if get_spec(ls, "Socket"@, "ListenSequentialPacket"@) is Some {
        get_spec(ls, "Socket"@, "ListenSequentialPacket"@)
    } else {
        get_spec(ls, "Socket"@, "ListenFIFO"@)
    }
}

/// A unit's description is its `[Unit] Description` when not empty, and its command is
/// the first present of `[Service] ExecStart`, `[Timer] OnCalendar`, `OnBootSec`,
/// `OnStartupSec`, `OnUnitActiveSec`, `OnActiveSec`, `[Socket] ListenStream`,
/// `ListenDatagram`, `ListenSequentialPacket`, `ListenFIFO`, when not empty.
pub proof fn law_unit_meta(ls: Seq<LineView>)
    ensures
        unit_meta_spec(ls).0 == kept_if_not_empty(get_spec(ls, "Unit"@, "Description"@)),
        unit_meta_spec(ls).1 == kept_if_not_empty(first_command_listed(ls)),
{
    let c = command_candidates(ls);
    reveal_with_fuel(first_some, 11);
    assert(c.drop_first().drop_first().drop_first().drop_first().drop_first().drop_first().drop_first().drop_first().drop_first().drop_first().len() == 0);
}

/// A unit's entry is enabled exactly when its state is `enabled` or `enabled-runtime`:
/// masked, linked, indirect and disabled units are not.
pub proof fn law_unit_enabled(path: Seq<char>, state: Seq<char>, text: Option<Seq<char>>, source: Seq<char>, scope: Scope)
    ensures
        unit_entry(path, state, text, source, scope).enabled <==> (state == "enabled"@ || state == "enabled-runtime"@),
        state == "masked"@ || state == "linked"@ || state == "indirect"@ || state == "disabled"@
            ==> !unit_entry(path, state, text, source, scope).enabled,
{
    reveal_strlit("enabled");
    reveal_strlit("enabled-runtime");
    reveal_strlit("masked");
    reveal_strlit("linked");
    reveal_strlit("indirect");
    reveal_strlit("disabled");
    assert("enabled"@[0] == 'e');
    assert("enabled-runtime"@.len() == 15);
}

/// A unit's name is the part of its path after the last `/`: it holds no `/`, and the
/// path is some prefix that is empty or ends in `/`, followed by the name.
pub proof fn law_unit_name(path: Seq<char>)
    ensures
        !unit_name_spec(path).contains('/'),
        unit_name_spec(path).len() <= path.len(),
        path.skip(path.len() - unit_name_spec(path).len()) == unit_name_spec(path),
        unit_name_spec(path).len() < path.len() ==> path[path.len() - unit_name_spec(path).len() - 1] == '/',
{
    let n = path.len() as int;
    crate::search::lemma_last_in_props(path, 0, n, is_slash());
    let name = unit_name_spec(path);
    match last_in(path, 0, n, is_slash()) {
        Some(j) => {
            assert(path.skip(n - name.len()) =~= name);
            assert(!name.contains('/')) by {
                if name.contains('/') {
                    let k = choose|k: int| 0 <= k < name.len() && name[k] == '/';
                    assert(is_slash()(path[j + 1 + k]));
                }
            }
        },
        None => {
            assert(path.skip(0) =~= path);
            assert(!name.contains('/')) by {
                if name.contains('/') {
                    let k = choose|k: int| 0 <= k < name.len() && name[k] == '/';
                    assert(is_slash()(path[k]));
                }
            }
        },
    }
}

/// The unit-file states listed as autostart entries are `enabled`, `enabled-runtime`,
/// `disabled`, `linked`, `linked-runtime`, `masked`, `masked-runtime` and `indirect`;
/// `static`, `alias`, `generated`, `transient` and `bad` units are left out.
pub proof fn law_enableable(state: Seq<char>)
    ensures
        enableable(state) <==> (state == "enabled"@ || state == "enabled-runtime"@ || state == "disabled"@
            || state == "linked"@ || state == "linked-runtime"@ || state == "masked"@ || state == "masked-runtime"@
            || state == "indirect"@),
        state == "static"@ || state == "alias"@ || state == "generated"@ || state == "transient"@ || state == "bad"@
            ==> !enableable(state),
{
    reveal_strlit("enabled");
    reveal_strlit("enabled-runtime");
    reveal_strlit("disabled");
    reveal_strlit("linked");
    reveal_strlit("linked-runtime");
    reveal_strlit("masked");
    reveal_strlit("masked-runtime");
    reveal_strlit("indirect");
    reveal_strlit("static");
    reveal_strlit("alias");
    reveal_strlit("generated");
    reveal_strlit("transient");
    reveal_strlit("bad");
    assert("static"@.len() == 6 && "alias"@.len() == 5 && "generated"@.len() == 9 && "transient"@.len() == 9
        && "bad"@.len() == 3);
    assert("enabled"@.len() == 7 && "enabled-runtime"@.len() == 15 && "disabled"@.len() == 8 && "linked"@.len()
        == 6 && "linked-runtime"@.len() == 14 && "masked"@.len() == 6 && "masked-runtime"@.len() == 14
        && "indirect"@.len() == 8);
    assert("static"@[0] == 's' && "linked"@[0] == 'l' && "masked"@[0] == 'm');
}

} // verus!
