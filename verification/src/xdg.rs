//! XDG autostart provider (user and system scope).
//!
//! Manages `*.desktop` files per the freedesktop Desktop Entry and Autostart specs.
//! The user-scoped provider works on `$XDG_CONFIG_HOME/autostart` (default
//! `~/.config/autostart`); the system-scoped one on every `$XDG_CONFIG_DIRS/autostart`
//! (default `/etc/xdg/autostart`). Disabling an entry sets `Hidden=true` (the spec's
//! "don't autostart, but keep the file" signal) rather than deleting it; enabling
//! removes the `Hidden` key.
//!
//! Reading directories and files is the caller's part: the functions here decide what
//! the directory contents mean and what to write.
use vstd::prelude::*;

use crate::desktop_file::{
    DesktopFile, LineView, get_spec, main_group, main_group_name, parse_spec, remove_all_spec, set_spec,
    text_of,
};
use crate::desktop_laws::lemma_key_index_bounds;
use crate::model::{AutostartEntry, EntryView, Scope, opt_view};
use crate::paths::{join_path, join_spec, join_strings, join_with, segments, split_nonempty, strings_view};
use crate::search::first_from;
use crate::text::chars_of;

verus! {

/// Id of the user-scoped provider.
pub const USER_PROVIDER_ID: &'static str = "xdg-autostart";

/// Id of the system-scoped provider.
pub const SYSTEM_PROVIDER_ID: &'static str = "xdg-autostart-system";

/// Suffix of the message for a write that failed for want of permission.
pub const SUDO_HINT: &'static str = " — system autostart entries require elevated privileges (try re-running with sudo)";

/// The key `Name`.
pub open spec fn key_name() -> Seq<char> {
    seq!['N', 'a', 'm', 'e']
}

/// The key `Comment`.
pub open spec fn key_comment() -> Seq<char> {
    seq!['C', 'o', 'm', 'm', 'e', 'n', 't']
}

/// The key `Exec`.
pub open spec fn key_exec() -> Seq<char> {
    seq!['E', 'x', 'e', 'c']
}

/// The key `Icon`.
pub open spec fn key_icon() -> Seq<char> {
    seq!['I', 'c', 'o', 'n']
}

/// The key `Hidden`.
pub open spec fn key_hidden() -> Seq<char> {
    seq!['H', 'i', 'd', 'd', 'e', 'n']
}

/// The key `Type`.
pub open spec fn key_type() -> Seq<char> {
    seq!['T', 'y', 'p', 'e']
}

/// The value `Application`.
pub open spec fn value_application() -> Seq<char> {
    seq!['A', 'p', 'p', 'l', 'i', 'c', 'a', 't', 'i', 'o', 'n']
}

/// The value `true`.
pub open spec fn value_true() -> Seq<char> {
    seq!['t', 'r', 'u', 'e']
}

/// The file-name suffix `.desktop`.
pub open spec fn desktop_suffix() -> Seq<char> {
    seq!['.', 'd', 'e', 's', 'k', 't', 'o', 'p']
}

// The keys and values above as literals, with their characters known to the proofs.
fn lit_name() -> (r: &'static str)
    ensures
        r@ == key_name(),
{
    proof {
        reveal_strlit("Name");
    }
    "Name"
}

fn lit_comment() -> (r: &'static str)
    ensures
        r@ == key_comment(),
{
    proof {
        reveal_strlit("Comment");
    }
    "Comment"
}

fn lit_exec() -> (r: &'static str)
    ensures
        r@ == key_exec(),
{
    proof {
        reveal_strlit("Exec");
    }
    "Exec"
}

fn lit_icon() -> (r: &'static str)
    ensures
        r@ == key_icon(),
{
    proof {
        reveal_strlit("Icon");
    }
    "Icon"
}

fn lit_hidden() -> (r: &'static str)
    ensures
        r@ == key_hidden(),
{
    proof {
        reveal_strlit("Hidden");
    }
    "Hidden"
}

fn lit_type() -> (r: &'static str)
    ensures
        r@ == key_type(),
{
    proof {
        reveal_strlit("Type");
    }
    "Type"
}

fn lit_application() -> (r: &'static str)
    ensures
        r@ == value_application(),
{
    proof {
        reveal_strlit("Application");
    }
    "Application"
}

fn lit_true() -> (r: &'static str)
    ensures
        r@ == value_true(),
{
    proof {
        reveal_strlit("true");
    }
    "true"
}

fn lit_suffix() -> (r: &'static str)
    ensures
        r@ == desktop_suffix(),
{
    proof {
        reveal_strlit(".desktop");
    }
    ".desktop"
}

/// The code of `c` in lower case when it is an ASCII capital letter.
pub open spec fn ascii_lower(c: char) -> u32 {
    let u = c as u32;
    if 65 <= u && u <= 90 {
        (u + 32) as u32
    } else {
        u
    }
}

/// `h` is `true`, ignoring ASCII case.
pub open spec fn is_true_word(h: Seq<char>) -> bool {
    &&& h.len() == 4
    &&& ascii_lower(h[0]) == 116
    &&& ascii_lower(h[1]) == 114
    &&& ascii_lower(h[2]) == 117
    &&& ascii_lower(h[3]) == 101
}

/// Whether `h` is `true`, ignoring ASCII case.
fn is_true_ignore_case(h: &str) -> (r: bool)
    ensures
        r == is_true_word(h@),
{
    let v = chars_of(h);
    if v.len() != 4 {
        return false;
    }
    let lower = |c: char| -> (u: u32)
        ensures
            u == ascii_lower(c),
        {
            let u = c as u32;
            if 65 <= u && u <= 90 {
                u + 32
            } else {
                u
            }
        };
    lower(v[0]) == 116 && lower(v[1]) == 114 && lower(v[2]) == 117 && lower(v[3]) == 101
}

/// The value of `key` in the main group, as an entry field.
pub open spec fn field(ls: Seq<LineView>, key: Seq<char>) -> Option<Seq<char>> {
    get_spec(ls, main_group(), key)
}

/// Whether the file hides its entry (`Hidden=true`, any ASCII case).
pub open spec fn hidden_spec(ls: Seq<LineView>) -> bool {
    match field(ls, key_hidden()) {
        Some(h) => is_true_word(h),
        None => false,
    }
}

/// The entry a desktop file describes.
pub open spec fn entry_spec(id: Seq<char>, ls: Seq<LineView>, source: Seq<char>, scope: Scope) -> EntryView {
    EntryView {
        id,
        display_name: match field(ls, key_name()) {
            Some(n) => n,
            None => id,
        },
        description: field(ls, key_comment()),
        command: match field(ls, key_exec()) {
            Some(c) => c,
            None => seq![],
        },
        icon: field(ls, key_icon()),
        enabled: !hidden_spec(ls),
        source,
        scope,
    }
}

/// An owned copy of an optional borrowed string.
fn owned(o: Option<&str>) -> (r: Option<String>)
    ensures
        opt_view(r) == match o {
            Some(s) => Some(s@),
            None => None::<Seq<char>>,
        },
{
    match o {
        Some(s) => Some(s.to_owned()),
        None => None,
    }
}

/// Build an [`AutostartEntry`] from a parsed desktop file, tagged with the owning
/// provider's `source` id and `scope`.
pub fn entry_from_desktop(id: &str, file: &DesktopFile, source: &str, scope: Scope) -> (r: AutostartEntry)
    ensures
        r@ == entry_spec(id@, file@, source@, scope),
{
    let g = main_group_name();
    let name = file.get(g, lit_name());
    let comment = file.get(g, lit_comment());
    let exec = file.get(g, lit_exec());
    let icon = file.get(g, lit_icon());
    let hidden = match file.get(g, lit_hidden()) {
        Some(h) => is_true_ignore_case(h),
        None => false,
    };
    AutostartEntry {
        id: id.to_owned(),
        display_name: match name {
            Some(n) => n.to_owned(),
            None => id.to_owned(),
        },
        description: owned(comment),
        command: match exec {
            Some(c) => c.to_owned(),
            None => String::new(),
        },
        icon: owned(icon),
        enabled: !hidden,
        source: source.to_owned(),
        scope,
    }
}

/// The id of an entry file named `name`: its stem, when it has the `desktop`
/// extension.
pub open spec fn desktop_id_spec(name: Seq<char>) -> Option<Seq<char>> {
    if name.len() > 8 && name.skip(name.len() - 8) == desktop_suffix() {
        Some(name.take(name.len() - 8))
    } else {
        None
    }
}

/// The id of an entry file named `name`, or `None` when it is no `.desktop` file.
pub fn desktop_entry_id(name: &str) -> (r: Option<String>)
    ensures
        opt_view(r) == desktop_id_spec(name@),
{
    let v = chars_of(name);
    let suffix = chars_of(lit_suffix());
    if v.len() <= 8 {
        return None;
    }
    let base = v.len() - 8;
    let mut i: usize = 0;
    while i < 8
        invariant
            i <= 8,
            base + 8 == v.len(),
            v@ == name@,
            suffix@ == desktop_suffix(),
            forall|k: int| 0 <= k < i ==> v@[base + k] == #[trigger] suffix@[k],
        decreases 8 - i,
    {
        if v[base + i] != suffix[i] {
            assert(v@.skip(base as int)[i as int] != desktop_suffix()[i as int]);
            assert(v@.skip(base as int) != desktop_suffix());
            assert(v@ == name@);
            assert(base as int == name@.len() - 8);
            assert(name@.skip(name@.len() - 8) != desktop_suffix());
            return None;
        }
        i = i + 1;
    }
    assert(v@.skip(base as int) =~= desktop_suffix());
    Some(crate::text::string_of(&v, 0, base))
}

/// A file found in an autostart directory: its name, and its text when it could be
/// read.
pub struct DirFile {
    pub name: String,
    pub text: Option<String>,
}

/// The files, mathematically.
pub open spec fn files_view(fs: Seq<DirFile>) -> Seq<(Seq<char>, Option<Seq<char>>)> {
    fs.map_values(|f: DirFile| (f.name@, opt_view(f.text)))
}

/// The ids taken so far and the entries listed so far, reading the files in order:
/// files that are no `.desktop` files, could not be read, or repeat an id already
/// taken are skipped.
pub open spec fn merge_state(
    fs: Seq<(Seq<char>, Option<Seq<char>>)>,
    source: Seq<char>,
    scope: Scope,
) -> (Seq<Seq<char>>, Seq<EntryView>)
    decreases fs.len(),
{
    if fs.len() == 0 {
        (seq![], seq![])
    } else {
        let (seen, out) = merge_state(fs.drop_last(), source, scope);
        let (name, text) = fs.last();
        match (desktop_id_spec(name), text) {
            (Some(id), Some(t)) => if seen.contains(id) {
                (seen, out)
            } else {
                (seen.push(id), out.push(entry_spec(id, parse_spec(t), source, scope)))
            },
            _ => (seen, out),
        }
    }
}

/// Whether `v` holds a string equal to `s`.
fn contains_text(v: &Vec<String>, s: &String) -> (r: bool)
    ensures
        r == strings_view(v@).contains(s@),
{
    let mut i: usize = 0;
    while i < v.len()
        invariant
            i <= v.len(),
            forall|k: int| 0 <= k < i ==> #[trigger] v@[k]@ != s@,
        decreases v.len() - i,
    {
        if v[i] == *s {
            assert(strings_view(v@)[i as int] == s@);
            return true;
        }
        i = i + 1;
    }
    assert(!strings_view(v@).contains(s@)) by {
        if strings_view(v@).contains(s@) {
            let k = choose|k: int| 0 <= k < v.len() && strings_view(v@)[k] == s@;
            assert(v@[k]@ == s@);
        }
    }
    false
}

/// Provider for XDG autostart directories, either user- or system-scoped.
///
/// A provider may search more than one directory (the system scope merges every
/// `$XDG_CONFIG_DIRS/autostart`). Directories are searched in precedence order: when
/// the same entry id appears in more than one, the first wins, and edits land on
/// whichever directory the file actually lives in.
pub struct XdgAutostartProvider {
    id: &'static str,
    scope: Scope,
    autostart_dirs: Vec<String>,
}

/// The user autostart directory: `$XDG_CONFIG_HOME/autostart` when that is set and not
/// empty, else `$HOME/.config/autostart`.
pub open spec fn user_dir_spec(xdg_config_home: Option<Seq<char>>, home: Option<Seq<char>>) -> Seq<char> {
    let config_home = match xdg_config_home {
        Some(x) if x.len() > 0 => x,
        _ => join_spec(
            match home {
                Some(h) => h,
                None => seq![],
            },
            seq!['.', 'c', 'o', 'n', 'f', 'i', 'g'],
        ),
    };
    join_spec(config_home, seq!['a', 'u', 't', 'o', 's', 't', 'a', 'r', 't'])
}

/// The system autostart directories: each non-empty entry of `$XDG_CONFIG_DIRS` joined
/// with `autostart`, in order, or `/etc/xdg/autostart` when there is none.
pub open spec fn system_dirs_spec(xdg_config_dirs: Option<Seq<char>>) -> Seq<Seq<char>> {
    let raw = match xdg_config_dirs {
        Some(d) => d,
        None => seq![],
    };
    let parts = segments(raw, ':');
    if parts.len() == 0 {
        seq![seq!['/', 'e', 't', 'c', '/', 'x', 'd', 'g', '/', 'a', 'u', 't', 'o', 's', 't', 'a', 'r', 't']]
    } else {
        parts.map_values(|p: Seq<char>| join_spec(p, seq!['a', 'u', 't', 'o', 's', 't', 'a', 'r', 't']))
    }
}

/// The view of an optional borrowed string.
pub open spec fn opt_str(o: Option<&str>) -> Option<Seq<char>> {
    match o {
        Some(s) => Some(s@),
        None => None,
    }
}

/// Resolve the user autostart directory from the values of `XDG_CONFIG_HOME` and
/// `HOME`.
pub fn user_autostart_dir(xdg_config_home: Option<&str>, home: Option<&str>) -> (r: String)
    ensures
        r@ == user_dir_spec(opt_str(xdg_config_home), opt_str(home)),
{
    proof {
        reveal_strlit(".config");
        reveal_strlit("autostart");
    }
    let config_home = match xdg_config_home {
        Some(x) if !x.is_empty() => x.to_owned(),
        _ => {
            let h = match home {
                Some(h) => h,
                None => "",
            };
            proof {
                reveal_strlit("");
            }
            join_path(h, ".config")
        },
    };
    join_path(config_home.as_str(), "autostart")
}

/// Resolve the system autostart directories from the value of `XDG_CONFIG_DIRS`.
/// Always returns at least one directory.
pub fn system_autostart_dirs(xdg_config_dirs: Option<&str>) -> (r: Vec<String>)
    ensures
        strings_view(r@) == system_dirs_spec(opt_str(xdg_config_dirs)),
        r.len() > 0,
{
    proof {
        reveal_strlit("autostart");
        reveal_strlit("/etc/xdg/autostart");
        reveal_strlit("");
        assert("autostart"@ =~= seq!['a', 'u', 't', 'o', 's', 't', 'a', 'r', 't']);
    }
    let raw = match xdg_config_dirs {
        Some(d) => d,
        None => "",
    };
    let parts = split_nonempty(raw, ':');
    let mut dirs: Vec<String> = Vec::new();
    let mut i: usize = 0;
    while i < parts.len()
        invariant
            i <= parts.len(),
            strings_view(dirs@) == strings_view(parts@).take(i as int).map_values(
                |p: Seq<char>| join_spec(p, seq!['a', 'u', 't', 'o', 's', 't', 'a', 'r', 't']),
            ),
        decreases parts.len() - i,
    {
        let d = join_path(parts[i].as_str(), "autostart");
        let ghost before = dirs@;
        dirs.push(d);
        assert(strings_view(dirs@) =~= strings_view(before).push(d@));
        proof {
            reveal_strlit("autostart");
            assert("autostart"@ =~= seq!['a', 'u', 't', 'o', 's', 't', 'a', 'r', 't']);
            let f = |p: Seq<char>| join_spec(p, seq!['a', 'u', 't', 'o', 's', 't', 'a', 'r', 't']);
            let pv = strings_view(parts@);
            assert(pv.take(i + 1).map_values(f) =~= pv.take(i as int).map_values(f).push(f(pv[i as int])));
            assert(d@ == f(pv[i as int]));
        }
        i = i + 1;
    }
    assert(strings_view(parts@).take(parts.len() as int) =~= strings_view(parts@));
    if dirs.len() == 0 {
        let fallback = "/etc/xdg/autostart".to_owned();
        assert(fallback@ =~= seq!['/', 'e', 't', 'c', '/', 'x', 'd', 'g', '/', 'a', 'u', 't', 'o', 's', 't', 'a', 'r', 't']);
        dirs.push(fallback);
        assert(segments(raw@, ':').len() == 0);
        assert(strings_view(dirs@) =~= system_dirs_spec(opt_str(xdg_config_dirs)));
    }
    dirs
}

impl XdgAutostartProvider {
    #[verifier::type_invariant]
    spec fn has_dirs(self) -> bool {
        self.autostart_dirs.len() > 0
    }

    /// The provider's id, as text.
    pub closed spec fn spec_id(&self) -> Seq<char> {
        self.id@
    }

    /// The provider's scope.
    pub closed spec fn spec_scope(&self) -> Scope {
        self.scope
    }

    /// The directories searched, in precedence order.
    pub closed spec fn dirs(&self) -> Seq<Seq<char>> {
        strings_view(self.autostart_dirs@)
    }

    /// Build a user-scoped provider rooted at the user's autostart directory, resolved
    /// from the values of `XDG_CONFIG_HOME` and `HOME`.
    pub fn user(xdg_config_home: Option<&str>, home: Option<&str>) -> (r: Self)
        ensures
            r.spec_id() == USER_PROVIDER_ID@,
            r.spec_scope() == Scope::User,
            r.dirs() == seq![user_dir_spec(opt_str(xdg_config_home), opt_str(home))],
    {
        let dir = user_autostart_dir(xdg_config_home, home);
        let r = XdgAutostartProvider { id: USER_PROVIDER_ID, scope: Scope::User, autostart_dirs: vec![dir] };
        assert(r.dirs() =~= seq![dir@]);
        r
    }

    /// Build a system-scoped provider that searches every `$XDG_CONFIG_DIRS/autostart`
    /// directory (falling back to `/etc/xdg/autostart`), in precedence order.
    pub fn system(xdg_config_dirs: Option<&str>) -> (r: Self)
        ensures
            r.spec_id() == SYSTEM_PROVIDER_ID@,
            r.spec_scope() == Scope::System,
            r.dirs() == system_dirs_spec(opt_str(xdg_config_dirs)),
    {
        let dirs = system_autostart_dirs(xdg_config_dirs);
        XdgAutostartProvider { id: SYSTEM_PROVIDER_ID, scope: Scope::System, autostart_dirs: dirs }
    }

    /// Build a user-scoped provider rooted at the user's autostart directory.
    /// Equivalent to [`XdgAutostartProvider::user`].
    pub fn new(xdg_config_home: Option<&str>, home: Option<&str>) -> (r: Self)
        ensures
            r.spec_id() == USER_PROVIDER_ID@,
            r.spec_scope() == Scope::User,
            r.dirs() == seq![user_dir_spec(opt_str(xdg_config_home), opt_str(home))],
    {
        Self::user(xdg_config_home, home)
    }

    /// Build a user-scoped provider rooted at a single explicit autostart directory.
    pub fn with_autostart_dir(autostart_dir: String) -> (r: Self)
        ensures
            r.spec_id() == USER_PROVIDER_ID@,
            r.spec_scope() == Scope::User,
            r.dirs() == seq![autostart_dir@],
    {
        let ghost d = autostart_dir@;
        let r = XdgAutostartProvider { id: USER_PROVIDER_ID, scope: Scope::User, autostart_dirs: vec![autostart_dir] };
        assert(r.dirs() =~= seq![d]);
        r
    }

    /// Build a provider with the given id and scope that searches `dirs`, in order.
    pub fn with_dirs(id: &'static str, scope: Scope, dirs: Vec<String>) -> (r: Self)
        requires
            dirs.len() > 0,
        ensures
            r.spec_id() == id@,
            r.spec_scope() == scope,
            r.dirs() == strings_view(dirs@),
    {
        XdgAutostartProvider { id, scope, autostart_dirs: dirs }
    }

    /// Stable provider id: `xdg-autostart` or `xdg-autostart-system`.
    pub fn id(&self) -> (r: &'static str)
        ensures
            r@ == self.spec_id(),
    {
        self.id
    }

    /// The scope this provider manages.
    pub fn scope(&self) -> (r: Scope)
        ensures
            r == self.spec_scope(),
    {
        self.scope
    }

    /// The directories searched, in precedence order.
    pub fn autostart_dirs(&self) -> (r: &Vec<String>)
        ensures
            strings_view(r@) == self.dirs(),
    {
        &self.autostart_dirs
    }

    /// The directory new entries are created in: the highest-precedence search dir.
    pub fn primary_dir(&self) -> (r: &String)
        ensures
            r@ == self.dirs()[0],
    {
        proof {
            use_type_invariant(self);
        }
        &self.autostart_dirs[0]
    }

    /// Path a *new* `.desktop` file for `id` would be written to.
    pub fn entry_path(&self, id: &str) -> (r: String)
        ensures
            r@ == join_spec(self.dirs()[0], id@ + desktop_suffix()),
    {
        let mut file = id.to_owned();
        file.append(lit_suffix());
        join_path(self.primary_dir().as_str(), file.as_str())
    }

    /// Where the file of entry `id` would be in each search dir, in precedence order.
    pub fn candidate_paths(&self, id: &str) -> (r: Vec<String>)
        ensures
            strings_view(r@) == self.dirs().map_values(|d: Seq<char>| join_spec(d, id@ + desktop_suffix())),
    {
        let mut file = id.to_owned();
        file.append(lit_suffix());
        let mut out: Vec<String> = Vec::new();
        let mut i: usize = 0;
        while i < self.autostart_dirs.len()
            invariant
                i <= self.autostart_dirs.len(),
                file@ == id@ + desktop_suffix(),
                strings_view(out@) == self.dirs().take(i as int).map_values(
                    |d: Seq<char>| join_spec(d, id@ + desktop_suffix()),
                ),
            decreases self.autostart_dirs.len() - i,
        {
            let p = join_path(self.autostart_dirs[i].as_str(), file.as_str());
            let ghost before = out@;
            out.push(p);
            assert(strings_view(out@) =~= strings_view(before).push(p@));
            i = i + 1;
            assert(self.dirs().take(i as int) =~= self.dirs().take(i - 1).push(self.dirs()[i - 1]));
        }
        assert(self.dirs().take(self.autostart_dirs.len() as int) =~= self.dirs());
        out
    }

    /// Comma-separated list of the search dirs, for error messages.
    pub fn dirs_display(&self) -> (r: String)
        ensures
            r@ == join_with(self.dirs(), seq![',', ' ']),
    {
        proof {
            reveal_strlit(", ");
            assert(", "@ =~= seq![',', ' ']);
        }
        join_strings(&self.autostart_dirs, ", ")
    }

    /// The provider's entries, from the files of its directories listed in precedence
    /// order: an id already seen in a higher-precedence file shadows later ones, and
    /// files that are no `.desktop` files or could not be read are skipped.
    pub fn merge_entries(&self, files: &Vec<DirFile>) -> (r: Vec<AutostartEntry>)
        ensures
            crate::model::entries_view(r@) == merge_state(files_view(files@), self.spec_id(), self.spec_scope()).1,
    {
        let ghost fv = files_view(files@);
        let mut seen: Vec<String> = Vec::new();
        let mut entries: Vec<AutostartEntry> = Vec::new();
        let mut i: usize = 0;
        while i < files.len()
            invariant
                i <= files.len(),
                fv == files_view(files@),
                (strings_view(seen@), crate::model::entries_view(entries@)) == merge_state(
                    fv.take(i as int),
                    self.spec_id(),
                    self.spec_scope(),
                ),
            decreases files.len() - i,
        {
            assert(fv.take(i + 1).drop_last() =~= fv.take(i as int));
            let f = &files[i];
            let ghost before_seen = seen@;
            let ghost before_entries = entries@;
            match (desktop_entry_id(f.name.as_str()), &f.text) {
                (Some(id), Some(text)) => {
                    if !contains_text(&seen, &id) {
                        let file = DesktopFile::parse(text.as_str());
                        let e = entry_from_desktop(id.as_str(), &file, self.id, self.scope);
                        seen.push(id);
                        entries.push(e);
                        assert(strings_view(seen@) =~= strings_view(before_seen).push(id@));
                        assert(crate::model::entries_view(entries@) =~= crate::model::entries_view(
                            before_entries,
                        ).push(e@));
                    }
                },
                _ => {},
            }
            i = i + 1;
        }
        assert(fv.take(files.len() as int) =~= fv);
        entries
    }
}

/// The index of the first search dir whose file for an entry exists, given whether it
/// exists in each dir in precedence order: the file that is edited or removed.
pub fn first_present(exists: &Vec<bool>) -> (r: Option<usize>)
    ensures
        match r {
            Some(i) => i < exists.len() && exists@[i as int] && forall|k: int| 0 <= k < i ==> !exists@[k],
            None => forall|k: int| 0 <= k < exists.len() ==> !exists@[k],
        },
{
    let mut i: usize = 0;
    while i < exists.len()
        invariant
            i <= exists.len(),
            forall|k: int| 0 <= k < i ==> !exists@[k],
        decreases exists.len() - i,
    {
        if exists[i] {
            return Some(i);
        }
        i = i + 1;
    }
    None
}

/// Whether the provider is available, given for each search dir whether it exists and
/// whether its parent exists: it is when any of them does.
pub fn available_from(dir_exists: &Vec<bool>, parent_exists: &Vec<bool>) -> (r: bool)
    requires
        dir_exists.len() == parent_exists.len(),
    ensures
        r == exists|k: int| 0 <= k < dir_exists.len() && (dir_exists@[k] || parent_exists@[k]),
{
    let mut i: usize = 0;
    while i < dir_exists.len()
        invariant
            i <= dir_exists.len() == parent_exists.len(),
            forall|k: int| 0 <= k < i ==> !dir_exists@[k] && !parent_exists@[k],
        decreases dir_exists.len() - i,
    {
        if dir_exists[i] || parent_exists[i] {
            return true;
        }
        i = i + 1;
    }
    false
}

/// The lines of the file written for a new entry: `Type=Application`, `Name`, `Exec`,
/// then `Icon` and `Comment` when present, and `Hidden=true` when it is disabled.
pub open spec fn new_entry_lines(e: EntryView) -> Seq<LineView> {
    let g = main_group();
    let l1 = set_spec(seq![], g, key_type(), value_application());
    let l2 = set_spec(l1, g, key_name(), e.display_name);
    let l3 = set_spec(l2, g, key_exec(), e.command);
    let l4 = match e.icon {
        Some(i) => set_spec(l3, g, key_icon(), i),
        None => l3,
    };
    let l5 = match e.description {
        Some(d) => set_spec(l4, g, key_comment(), d),
        None => l4,
    };
    if !e.enabled {
        set_spec(l5, g, key_hidden(), value_true())
    } else {
        l5
    }
}

/// The desktop file written for a new entry.
pub fn new_entry_file(entry: &AutostartEntry) -> (r: DesktopFile)
    ensures
        r@ == new_entry_lines(entry@),
{
    let g = main_group_name();
    let mut file = DesktopFile::default();
    file.set(g, lit_type(), lit_application());
    file.set(g, lit_name(), entry.display_name.as_str());
    file.set(g, lit_exec(), entry.command.as_str());
    if let Some(icon) = &entry.icon {
        file.set(g, lit_icon(), icon.as_str());
    }
    if let Some(desc) = &entry.description {
        file.set(g, lit_comment(), desc.as_str());
    }
    if !entry.enabled {
        file.set(g, lit_hidden(), lit_true());
    }
    file
}

/// The lines after enabling (removing every `Hidden` pair of the main group) or
/// disabling (`Hidden=true`) an entry.
pub open spec fn toggled_lines(ls: Seq<LineView>, enabled: bool) -> Seq<LineView> {
    if enabled {
        remove_all_spec(ls, main_group(), key_hidden())
    } else {
        set_spec(ls, main_group(), key_hidden(), value_true())
    }
}

/// Enable an entry by removing its `Hidden` key (every occurrence of it in the main
/// group, so that none is left to hide the entry), or disable it by setting
/// `Hidden=true`, leaving the rest of the file as it was.
pub fn set_entry_enabled(file: &mut DesktopFile, enabled: bool)
    ensures
        final(file)@ == toggled_lines(old(file)@, enabled),
{
    let g = main_group_name();
    if enabled {
        let ghost goal = remove_all_spec(file@, main_group(), key_hidden());
        loop
            invariant
                g@ == main_group(),
                remove_all_spec(file@, main_group(), key_hidden()) == goal,
            ensures
                file@ == goal,
            decreases file@.len(),
        {
            let ghost before = file@;
            proof {
                lemma_key_index_bounds(before, main_group(), key_hidden());
            }
            let removed = file.remove(g, lit_hidden());
            if !removed {
                break;
            }
        }
    } else {
        file.set(g, lit_hidden(), lit_true());
    }
}

/// The text of an entry file after enabling or disabling the entry.
pub open spec fn toggled_text(t: Seq<char>, enabled: bool) -> Seq<char> {
    text_of(toggled_lines(parse_spec(t), enabled))
}

/// The candidate holds a file.
pub open spec fn is_held() -> spec_fn(Option<Seq<char>>) -> bool {
    |o: Option<Seq<char>>| o is Some
}

/// The texts of an entry's candidate files, mathematically.
pub open spec fn texts_view(fs: Seq<Option<String>>) -> Seq<Option<Seq<char>>> {
    fs.map_values(|o: Option<String>| opt_view(o))
}

/// An entry's candidate files after enabling or disabling it, given the text of its
/// file in each search dir (`None` where there is none) in precedence order: the first
/// file there is rewritten and the others are untouched. `None` when no dir holds the
/// entry, and then nothing is written.
pub open spec fn toggle_fs(fs: Seq<Option<Seq<char>>>, enabled: bool) -> Option<Seq<Option<Seq<char>>>> {
    match first_from(fs, 0, fs.len() as int, is_held()) {
        Some(j) => Some(fs.update(j, Some(toggled_text(fs[j].unwrap(), enabled)))),
        None => None,
    }
}

/// What enabling or disabling an entry writes, given the text of its file in each
/// search dir (`None` where there is none) in precedence order: the index of the first
/// file, which is the one rewritten, and its new text; `None` when no dir holds the
/// entry.
pub fn toggle_first(files: &Vec<Option<String>>, enabled: bool) -> (r: Option<(usize, String)>)
    ensures
        match r {
            Some((j, t)) => {
                &&& first_from(texts_view(files@), 0, files.len() as int, is_held()) == Some(j as int)
                &&& t@ == toggled_text(texts_view(files@)[j as int].unwrap(), enabled)
                &&& toggle_fs(texts_view(files@), enabled) == Some(texts_view(files@).update(j as int, Some(t@)))
            },
            None => toggle_fs(texts_view(files@), enabled) is None,
        },
{
    let ghost fv = texts_view(files@);
    let mut j: usize = 0;
    while j < files.len() && files[j].is_none()
        invariant
            j <= files.len(),
            fv == texts_view(files@),
            forall|k: int| 0 <= k < j ==> !is_held()(#[trigger] fv[k]),
        decreases files.len() - j,
    {
        assert(fv[j as int] == opt_view(files@[j as int]));
        j = j + 1;
    }
    if j == files.len() {
        proof {
            crate::search::lemma_first_from_none(fv, 0, files.len() as int, is_held());
        }
        return None;
    }
    assert(fv[j as int] == opt_view(files@[j as int]));
    proof {
        crate::search::lemma_first_from_found(fv, 0, files.len() as int, is_held(), j as int);
    }
    match &files[j] {
        Some(text) => {
            let mut file = DesktopFile::parse(text.as_str());
            set_entry_enabled(&mut file, enabled);
            Some((j, file.to_text()))
        },
        None => None,
    }
}

/// The context of a failed write or removal, with a hint about elevated privileges
/// when the failure was a permission error. System autostart entries live under
/// `/etc/xdg/autostart`, which only root may write.
pub fn with_sudo_hint(permission_denied: bool, context: &str) -> (r: String)
    ensures
        r@ == if permission_denied { context@ + SUDO_HINT@ } else { context@ },
{
    let mut out = context.to_owned();
    if permission_denied {
        out.append(SUDO_HINT);
    }
    out
}

} // verus!
